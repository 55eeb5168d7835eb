//! The term builder: constructs a term top-down over a store, deferring
//! unresolved positions as holes. Open holes form a strict FIFO queue; only
//! the initial root hole is ever enqueued — holes inside a plugged subtree
//! are not discovered, so the queue is exhausted after one successful plug.
use vstd::prelude::*;

use crate::store::{
    children_of, no_contents, node_bounded, pairs_at, pairs_bounded, rank_of_node, store_extends,
    store_ok, term_at, term_of_node, terms_at, unreferenced, ConcreteSyntaxData, Store,
};
use crate::store::{
    lemma_rank_of_node_bounds, lemma_store_extends_trans, lemma_term_at_extends, lemma_terms_at,
    lemma_pairs_at, lemma_term_of_node_extends,
};
use crate::syntax::{
    lemma_rec_view_pairs, lemma_rec_view_pairs_drop_first, lemma_rec_views,
    lemma_rec_views_drop_first, pairs_size, rec_view, rec_view_pairs, rec_views, term_size,
    terms_size, Hole, SpecHole, SpecTerm, SyntaxRec,
};
use slotmap::DefaultKey;
use std::collections::VecDeque;

verus! {

/// The error returned when `plug` is called with no open holes left: a
/// construction-logic defect, not an input condition.
#[derive(Debug, PartialEq, Eq)]
pub enum BuilderError {
    NoOpenHoles,
}

/// A term under construction: a store plus the FIFO queue of open holes.
pub struct Term {
    /// The store that owns every node built so far.
    pub map: Store,
    /// The FIFO queue of open holes, oldest first.
    pub holes: VecDeque<DefaultKey>,
}

impl Term {
    /// The open-hole queue, oldest first.
    pub closed spec fn open_holes(self) -> Seq<DefaultKey> {
        self.holes@
    }

    /// The builder's invariant: the store is well formed, and every queued
    /// hole is a distinct occupied slot holding a hole node that no other
    /// node references.
    pub open spec fn twf(self) -> bool {
        &&& self.map.wf()
        &&& forall|i: int|
            0 <= i < self.open_holes().len() ==> {
                &&& self.map.contents().dom().contains(#[trigger] self.open_holes()[i])
                &&& self.map.contents()[self.open_holes()[i]] is Hole
                &&& unreferenced(self.map.contents(), self.open_holes()[i])
            }
        &&& forall|i: int, j: int|
            0 <= i < j < self.open_holes().len() ==> self.open_holes()[i] != self.open_holes()[j]
    }

    /// A fresh builder: a store holding exactly one unnamed, non-silent hole
    /// node, whose handle is the sole entry of the open-hole queue.
    pub fn new() -> (t: Term)
        ensures
            t.twf(),
            t.open_holes().len() == 1,
            t.map.contents().dom() =~= Set::empty().insert(t.open_holes()[0]),
            t.map.contents()[t.open_holes()[0]] == ConcreteSyntaxData::Hole(
                Hole { name: None, silent: false },
            ),
            term_at(t.map.contents(), t.map.ranks(), t.open_holes()[0]) == SpecTerm::Hole(
                SpecHole { name: None, silent: false },
            ),
    {
        let mut map = Store::new();
        proof {
            assert(no_contents().dom() =~= Set::empty());
        }
        let hole = map.insert(ConcreteSyntaxData::Hole(Hole { name: None, silent: false }));
        let mut holes: VecDeque<DefaultKey> = VecDeque::new();
        holes.push_back(hole);
        let t = Term { map, holes };
        proof {
            assert(t.map.contents().dom() =~= Set::empty().insert(hole));
            let m = t.map.contents();
            let r = t.map.ranks();
            assert(term_at(m, r, hole) == term_of_node(m, r, m[hole], crate::store::rank_at(r, hole)));
        }
        t
    }

    /// Fill the oldest open hole with a fully specified recursive term. The
    /// filler is flattened bottom-up into the store and the hole's slot is
    /// overwritten in place — the handle stays valid for anyone holding it.
    /// Fails with `NoOpenHoles` exactly when the open-hole queue is empty,
    /// leaving the builder untouched; otherwise returns the filled handle,
    /// which afterwards denotes exactly the filler's term, while every other
    /// pre-existing handle keeps its payload and its denotation. Nothing is
    /// ever enqueued: holes inside the filler are not discovered.
    pub fn plug(&mut self, filler: SyntaxRec) -> (res: Result<DefaultKey, BuilderError>)
        requires
            old(self).twf(),
            old(self).map.contents().dom().len() + term_size(rec_view(filler)) + 1
                < 0xFFFF_FFFFnat,
        ensures
            final(self).twf(),
            old(self).open_holes().len() == 0 ==> res == Result::<
                DefaultKey,
                BuilderError,
            >::Err(BuilderError::NoOpenHoles) && final(self).open_holes() == old(self).open_holes()
                && final(self).map == old(self).map,
            old(self).open_holes().len() > 0 ==> {
                &&& res == Result::<DefaultKey, BuilderError>::Ok(old(self).open_holes()[0])
                &&& final(self).open_holes() == old(self).open_holes().drop_first()
                &&& old(self).map.contents().dom().subset_of(final(self).map.contents().dom())
                &&& final(self).map.contents().dom().len() + 1 == old(
                    self,
                ).map.contents().dom().len() + term_size(rec_view(filler))
                &&& term_at(
                    final(self).map.contents(),
                    final(self).map.ranks(),
                    old(self).open_holes()[0],
                ) == rec_view(filler)
                &&& (final(self).map.contents()[old(self).open_holes()[0]] is Hole <==> rec_view(
                    filler,
                ) is Hole)
                &&& forall|k: DefaultKey| #[trigger]
                    old(self).map.contents().dom().contains(k) && k != old(self).open_holes()[0]
                        ==> final(self).map.contents()[k] == old(self).map.contents()[k]
                            && term_at(final(self).map.contents(), final(self).map.ranks(), k)
                        == term_at(old(self).map.contents(), old(self).map.ranks(), k)
            },
    {
        let ghost m0 = self.map.contents();
        let ghost r0 = self.map.ranks();
        let popped = self.holes.pop_front();
        match popped {
            None => Err(BuilderError::NoOpenHoles),
            Some(hole) => {
                let d = derecurse(&mut self.map, filler);
                let ghost m1 = self.map.contents();
                let ghost r1 = self.map.ranks();
                proof {
                    assert(m0.dom().contains(hole));
                    assert(m1.dom().contains(hole));
                    assert(unreferenced(m0, hole));
                    assert(unreferenced(m1, hole));
                    assert forall|i: int| 0 <= i < children_of(d).len() implies m1.dom().contains(
                        #[trigger] children_of(d)[i],
                    ) && children_of(d)[i] != hole by {
                        assert(!m0.dom().contains(children_of(d)[i]));
                    }
                }
                let ghost b1 = rank_of_node(self.map.ranks(), d);
                self.map.fill(hole, d);
                let ghost m2 = self.map.contents();
                let ghost r2 = self.map.ranks();
                proof {
                    lemma_term_at_extends(m0, r0, m1, r1, hole);
                    assert(m2.dom() =~= m1.dom());
                    assert((d is Hole) <==> (term_of_node(m1, r1, d, b1) is Hole));
                    assert forall|i: int| 0 <= i < self.open_holes().len() implies {
                        &&& m2.dom().contains(#[trigger] self.open_holes()[i])
                        &&& m2[self.open_holes()[i]] is Hole
                        &&& unreferenced(m2, self.open_holes()[i])
                    } by {
                        let q = self.open_holes()[i];
                        assert(q == old(self).open_holes()[i + 1]);
                        assert(q != hole);
                        assert(unreferenced(m0, q));
                        assert(unreferenced(m1, q));
                        assert forall|j: int| 0 <= j < children_of(d).len() implies (
                        #[trigger] children_of(d)[j]) != q by {
                            assert(!m0.dom().contains(children_of(d)[j]));
                        }
                        assert(unreferenced(m2, q));
                    }
                    assert forall|i: int, j: int|
                        0 <= i < j < self.open_holes().len() implies self.open_holes()[i]
                        != self.open_holes()[j] by {
                        assert(self.open_holes()[i] == old(self).open_holes()[i + 1]);
                        assert(self.open_holes()[j] == old(self).open_holes()[j + 1]);
                    }
                    assert forall|k: DefaultKey| #[trigger]
                        m0.dom().contains(k) && k != hole implies m2[k] == m0[k] && term_at(
                        m2,
                        r2,
                        k,
                    ) == term_at(m0, r0, k) by {
                        lemma_term_at_extends(m0, r0, m1, r1, k);
                    }
                }
                Ok(hole)
            },
        }
    }
}

/// Growing the store keeps every occupied, unreferenced handle unreferenced.
pub open spec fn unref_preserved(
    m0: Map<DefaultKey, ConcreteSyntaxData>,
    mf: Map<DefaultKey, ConcreteSyntaxData>,
) -> bool {
    forall|q: DefaultKey|
        #[trigger] unreferenced(m0, q) && m0.dom().contains(q) ==> unreferenced(mf, q)
}

/// `unref_preserved` composes across two growth steps.
proof fn lemma_unref_trans(
    m0: Map<DefaultKey, ConcreteSyntaxData>,
    m1: Map<DefaultKey, ConcreteSyntaxData>,
    mf: Map<DefaultKey, ConcreteSyntaxData>,
)
    requires
        unref_preserved(m0, m1),
        unref_preserved(m1, mf),
        m0.dom().subset_of(m1.dom()),
    ensures
        unref_preserved(m0, mf),
{
    assert forall|q: DefaultKey|
        #[trigger] unreferenced(m0, q) && m0.dom().contains(q) implies unreferenced(mf, q) by {
        assert(unreferenced(m1, q) && m1.dom().contains(q));
    }
}

/// Insert an already-flattened node and return its fresh handle, which then
/// denotes exactly what the node denoted against the pre-insertion store.
fn insert_sub(store: &mut Store, d: ConcreteSyntaxData) -> (k: DefaultKey)
    requires
        old(store).wf(),
        old(store).contents().dom().len() + 1 < 0xFFFF_FFFFnat,
        node_bounded(
            old(store).contents(),
            old(store).ranks(),
            d,
            rank_of_node(old(store).ranks(), d),
        ),
    ensures
        final(store).wf(),
        store_extends(
            old(store).contents(),
            old(store).ranks(),
            final(store).contents(),
            final(store).ranks(),
        ),
        final(store).contents().dom().len() == old(store).contents().dom().len() + 1,
        !old(store).contents().dom().contains(k),
        final(store).contents().dom().contains(k),
        term_at(final(store).contents(), final(store).ranks(), k) == term_of_node(
            old(store).contents(),
            old(store).ranks(),
            d,
            rank_of_node(old(store).ranks(), d),
        ),
        forall|q: DefaultKey|
            #[trigger] unreferenced(old(store).contents(), q) && (forall|i: int|
                0 <= i < children_of(d).len() ==> (#[trigger] children_of(d)[i]) != q)
                ==> unreferenced(final(store).contents(), q),
{
    let ghost m1 = store.contents();
    let ghost r1 = store.ranks();
    let ghost b = rank_of_node(r1, d);
    let k = store.insert(d);
    let ghost m2 = store.contents();
    let ghost r2 = store.ranks();
    proof {
        assert(m2.dom() =~= m1.dom().insert(k));
        vstd::set::axiom_set_insert_len(m1.dom(), k);
        lemma_term_of_node_extends(m1, r1, m2, r2, d, b);
        assert(crate::store::rank_at(r2, k) == b);
        assert(term_at(m2, r2, k) == term_of_node(m2, r2, m2[k], b));
        assert forall|q: DefaultKey|
            #[trigger] unreferenced(m1, q) && (forall|i: int|
                0 <= i < children_of(d).len() ==> (#[trigger] children_of(d)[i])
                    != q) implies unreferenced(m2, q) by {
            assert forall|k2: DefaultKey, i: int|
                m2.dom().contains(k2) && 0 <= i < children_of(m2[k2]).len() implies (
            #[trigger] children_of(m2[k2])[i]) != q by {
                if k2 != k {
                    assert(children_of(m1[k2])[i] != q);
                }
            }
        }
    }
    k
}

/// Flatten one subtree and insert it, composing the two contracts: the fresh
/// handle denotes the subtree's term against the grown store.
fn derecurse_one(store: &mut Store, t: SyntaxRec) -> (k: DefaultKey)
    requires
        old(store).wf(),
        old(store).contents().dom().len() + term_size(rec_view(t)) < 0xFFFF_FFFFnat,
    ensures
        final(store).wf(),
        store_extends(
            old(store).contents(),
            old(store).ranks(),
            final(store).contents(),
            final(store).ranks(),
        ),
        final(store).contents().dom().len() == old(store).contents().dom().len() + term_size(
            rec_view(t),
        ),
        !old(store).contents().dom().contains(k),
        final(store).contents().dom().contains(k),
        term_at(final(store).contents(), final(store).ranks(), k) == rec_view(t),
        unref_preserved(old(store).contents(), final(store).contents()),
    decreases term_size(rec_view(t)), 1int,
{
    let ghost m0 = store.contents();
    let ghost r0 = store.ranks();
    let d = derecurse(store, t);
    let ghost m1 = store.contents();
    let ghost r1 = store.ranks();
    let k = insert_sub(store, d);
    proof {
        lemma_store_extends_trans(
            m0,
            r0,
            m1,
            r1,
            store.contents(),
            store.ranks(),
        );
        assert forall|q: DefaultKey|
            #[trigger] unreferenced(m0, q) && m0.dom().contains(q) implies unreferenced(
            store.contents(),
            q,
        ) by {
            assert(unreferenced(m1, q));
            assert forall|i: int| 0 <= i < children_of(d).len() implies (
            #[trigger] children_of(d)[i]) != q by {
                assert(!m0.dom().contains(children_of(d)[i]));
            }
        }
    }
    k
}

/// Flatten a recursive term bottom-up: every child subtree is flattened and
/// inserted first, and the returned node references the fresh handles. The
/// node itself is not inserted.
fn derecurse(store: &mut Store, filler: SyntaxRec) -> (d: ConcreteSyntaxData)
    requires
        old(store).wf(),
        old(store).contents().dom().len() + term_size(rec_view(filler)) < 0xFFFF_FFFFnat,
    ensures
        final(store).wf(),
        store_extends(
            old(store).contents(),
            old(store).ranks(),
            final(store).contents(),
            final(store).ranks(),
        ),
        final(store).contents().dom().len() + 1 == old(store).contents().dom().len() + term_size(
            rec_view(filler),
        ),
        forall|i: int|
            0 <= i < children_of(d).len() ==> final(store).contents().dom().contains(
                #[trigger] children_of(d)[i],
            ) && !old(store).contents().dom().contains(children_of(d)[i]),
        node_bounded(
            final(store).contents(),
            final(store).ranks(),
            d,
            rank_of_node(final(store).ranks(), d),
        ),
        term_of_node(
            final(store).contents(),
            final(store).ranks(),
            d,
            rank_of_node(final(store).ranks(), d),
        ) == rec_view(filler),
        unref_preserved(old(store).contents(), final(store).contents()),
    decreases term_size(rec_view(filler)), 0int,
{
    let ghost gf = filler;
    let ghost m0 = store.contents();
    let ghost r0 = store.ranks();
    match filler {
        SyntaxRec::Var(id) => {
            let d = ConcreteSyntaxData::Var(id);
            proof {
                leaf_post(store.contents(), store.ranks(), d);
            }
            d
        },
        SyntaxRec::Lit(n) => {
            let d = ConcreteSyntaxData::Lit(n);
            proof {
                leaf_post(store.contents(), store.ranks(), d);
            }
            d
        },
        SyntaxRec::Type => {
            let d = ConcreteSyntaxData::Type;
            proof {
                leaf_post(store.contents(), store.ranks(), d);
            }
            d
        },
        SyntaxRec::Hole(h) => {
            let d = ConcreteSyntaxData::Hole(h);
            proof {
                leaf_post(store.contents(), store.ranks(), d);
            }
            d
        },
        SyntaxRec::Underscore => {
            let d = ConcreteSyntaxData::Underscore;
            proof {
                leaf_post(store.contents(), store.ranks(), d);
            }
            d
        },
        SyntaxRec::Dim => {
            let d = ConcreteSyntaxData::Dim;
            proof {
                leaf_post(store.contents(), store.ranks(), d);
            }
            d
        },
        SyntaxRec::Cof => {
            let d = ConcreteSyntaxData::Cof;
            proof {
                leaf_post(store.contents(), store.ranks(), d);
            }
            d
        },
        SyntaxRec::TopC => {
            let d = ConcreteSyntaxData::TopC;
            proof {
                leaf_post(store.contents(), store.ranks(), d);
            }
            d
        },
        SyntaxRec::BotC => {
            let d = ConcreteSyntaxData::BotC;
            proof {
                leaf_post(store.contents(), store.ranks(), d);
            }
            d
        },
        SyntaxRec::Lam(ids, body) => {
            let ghost gids = ids.deep_view();
            let k = derecurse_one(store, *body);
            let d = ConcreteSyntaxData::Lam(ids, k);
            let ghost mf = store.contents();
            let ghost rf = store.ranks();
            proof {
                assert(children_of(d) =~= seq![k]);
                lemma_rank_of_node_bounds(rf, d);
                assert(node_bounded(mf, rf, d, rank_of_node(rf, d)));
            }
            d
        },
        SyntaxRec::CofEq(a, b) => {
            let ghost (ga, gb) = (*a, *b);
            let ka = derecurse_one(store, *a);
            let kb = second_child(store, *b, Ghost(ka));
            let d = ConcreteSyntaxData::CofEq(ka, kb);
            proof {
                two_child_post(store.contents(), store.ranks(), d, ka, kb);
            }
            d
        },
        SyntaxRec::CofLe(a, b) => {
            let ka = derecurse_one(store, *a);
            let kb = second_child(store, *b, Ghost(ka));
            let d = ConcreteSyntaxData::CofLe(ka, kb);
            proof {
                two_child_post(store.contents(), store.ranks(), d, ka, kb);
            }
            d
        },
        SyntaxRec::HFillChk(a, b) => {
            let ka = derecurse_one(store, *a);
            let kb = second_child(store, *b, Ghost(ka));
            let d = ConcreteSyntaxData::HFillChk(ka, kb);
            proof {
                two_child_post(store.contents(), store.ranks(), d, ka, kb);
            }
            d
        },
        SyntaxRec::HComChk(a, b, c) => {
            let ghost m0d = store.contents();
            let ka = derecurse_one(store, *a);
            let kb = second_child(store, *b, Ghost(ka));
            let ghost m2 = store.contents();
            let ghost r2 = store.ranks();
            let kc = derecurse_one(store, *c);
            let ghost mf = store.contents();
            let ghost rf = store.ranks();
            let d = ConcreteSyntaxData::HComChk(ka, kb, kc);
            proof {
                lemma_term_at_extends(m2, r2, mf, rf, ka);
                lemma_term_at_extends(m2, r2, mf, rf, kb);
                assert(children_of(d) =~= seq![ka, kb, kc]);
                lemma_rank_of_node_bounds(rf, d);
                assert(node_bounded(mf, rf, d, rank_of_node(rf, d)));
            }
            d
        },
        SyntaxRec::Ap(f, args) => {
            let ghost margs = args@;
            let k = derecurse_one(store, *f);
            let ghost m1 = store.contents();
            let ghost r1 = store.ranks();
            let ks = derecurse_list(store, args);
            let ghost mf = store.contents();
            let ghost rf = store.ranks();
            let d = ConcreteSyntaxData::Ap(k, ks);
            proof {
                lemma_term_at_extends(m1, r1, mf, rf, k);
                assert(children_of(d) =~= seq![k] + ks@);
                assert forall|i: int| 0 <= i < children_of(d).len() implies mf.dom().contains(
                    #[trigger] children_of(d)[i],
                ) && !m0.dom().contains(children_of(d)[i]) by {
                    if i > 0 {
                        assert(children_of(d)[i] == ks@[i - 1]);
                        assert(!m1.dom().contains(ks@[i - 1]));
                    }
                }
                lemma_rank_of_node_bounds(rf, d);
                assert(node_bounded(mf, rf, d, rank_of_node(rf, d)));
                let b = rank_of_node(rf, d);
                assert forall|i: int| 0 <= i < ks@.len() implies {
                    &&& mf.dom().contains(#[trigger] ks@[i])
                    &&& rf.dom().contains(ks@[i])
                    &&& rf[ks@[i]] < b
                } by {
                    assert(children_of(d)[i + 1] == ks@[i]);
                }
                lemma_terms_at(mf, rf, ks@, b);
                lemma_rec_views(margs);
                assert(terms_at(mf, rf, ks@, b) =~= rec_views(margs));
            }
            d
        },
        SyntaxRec::Join(ts) => {
            let ghost mts = ts@;
            let ks = derecurse_list(store, ts);
            let ghost mf = store.contents();
            let ghost rf = store.ranks();
            let d = ConcreteSyntaxData::Join(ks);
            proof {
                list_node_post(mf, rf, d, ks@, mts);
            }
            d
        },
        SyntaxRec::Meet(ts) => {
            let ghost mts = ts@;
            let ks = derecurse_list(store, ts);
            let ghost mf = store.contents();
            let ghost rf = store.ranks();
            let d = ConcreteSyntaxData::Meet(ks);
            proof {
                list_node_post(mf, rf, d, ks@, mts);
            }
            d
        },
        SyntaxRec::CofSplit(ps) => {
            let ghost mps = ps@;
            let ks = derecurse_pairs(store, ps);
            let ghost mf = store.contents();
            let ghost rf = store.ranks();
            let d = ConcreteSyntaxData::CofSplit(ks);
            proof {
                pairs_node_post(mf, rf, d, ks@, mps);
            }
            d
        },
    }
}

/// Postcondition facts for a childless node against an unchanged store.
proof fn leaf_post(m: Map<DefaultKey, ConcreteSyntaxData>, r: Map<DefaultKey, nat>, d: ConcreteSyntaxData)
    requires
        children_of(d).len() == 0,
    ensures
        node_bounded(m, r, d, rank_of_node(r, d)),
{
}

/// Postcondition facts for a two-child node whose children are in the store.
proof fn two_child_post(
    m: Map<DefaultKey, ConcreteSyntaxData>,
    r: Map<DefaultKey, nat>,
    d: ConcreteSyntaxData,
    ka: DefaultKey,
    kb: DefaultKey,
)
    requires
        store_ok(m, r),
        children_of(d) =~= seq![ka, kb],
        m.dom().contains(ka),
        m.dom().contains(kb),
    ensures
        node_bounded(m, r, d, rank_of_node(r, d)),
{
    lemma_rank_of_node_bounds(r, d);
    assert(children_of(d)[0] == ka);
    assert(children_of(d)[1] == kb);
}

/// Postcondition facts for a list node over freshly inserted handles.
proof fn list_node_post(
    m: Map<DefaultKey, ConcreteSyntaxData>,
    r: Map<DefaultKey, nat>,
    d: ConcreteSyntaxData,
    ks: Seq<DefaultKey>,
    items: Seq<SyntaxRec>,
)
    requires
        store_ok(m, r),
        children_of(d) =~= ks,
        ks.len() == items.len(),
        forall|j: int|
            0 <= j < ks.len() ==> m.dom().contains(#[trigger] ks[j]) && term_at(m, r, ks[j])
                == rec_view(items[j]),
    ensures
        node_bounded(m, r, d, rank_of_node(r, d)),
        terms_at(m, r, ks, rank_of_node(r, d)) =~= rec_views(items),
{
    lemma_rank_of_node_bounds(r, d);
    assert(node_bounded(m, r, d, rank_of_node(r, d)));
    let b = rank_of_node(r, d);
    assert forall|j: int| 0 <= j < ks.len() implies {
        &&& m.dom().contains(#[trigger] ks[j])
        &&& r.dom().contains(ks[j])
        &&& r[ks[j]] < b
    } by {
        assert(children_of(d)[j] == ks[j]);
    }
    lemma_terms_at(m, r, ks, b);
    lemma_rec_views(items);
}

/// Postcondition facts for a split node over freshly inserted handle pairs.
proof fn pairs_node_post(
    m: Map<DefaultKey, ConcreteSyntaxData>,
    r: Map<DefaultKey, nat>,
    d: ConcreteSyntaxData,
    ks: Seq<(DefaultKey, DefaultKey)>,
    items: Seq<(SyntaxRec, SyntaxRec)>,
)
    requires
        store_ok(m, r),
        d is CofSplit,
        d->CofSplit_0@ =~= ks,
        ks.len() == items.len(),
        forall|j: int|
            0 <= j < ks.len() ==> {
                &&& m.dom().contains((#[trigger] ks[j]).0)
                &&& m.dom().contains(ks[j].1)
                &&& term_at(m, r, ks[j].0) == rec_view(items[j].0)
                &&& term_at(m, r, ks[j].1) == rec_view(items[j].1)
            },
    ensures
        node_bounded(m, r, d, rank_of_node(r, d)),
        pairs_bounded(m, r, ks, rank_of_node(r, d)),
        pairs_at(m, r, ks, rank_of_node(r, d)) =~= rec_view_pairs(items),
        forall|i: int|
            0 <= i < children_of(d).len() ==> m.dom().contains(#[trigger] children_of(d)[i]),
{
    lemma_rank_of_node_bounds(r, d);
    let b = rank_of_node(r, d);
    assert forall|i: int| 0 <= i < children_of(d).len() implies m.dom().contains(
        #[trigger] children_of(d)[i],
    ) && r.dom().contains(children_of(d)[i]) by {
        let j = i / 2;
        if i % 2 == 0 {
            assert(children_of(d)[i] == ks[j].0);
        } else {
            assert(children_of(d)[i] == ks[j].1);
        }
    }
    assert(node_bounded(m, r, d, b));
    assert forall|j: int| 0 <= j < ks.len() implies {
        &&& m.dom().contains((#[trigger] ks[j]).0)
        &&& r.dom().contains(ks[j].0)
        &&& r[ks[j].0] < b
        &&& m.dom().contains(ks[j].1)
        &&& r.dom().contains(ks[j].1)
        &&& r[ks[j].1] < b
    } by {
        assert(children_of(d)[2 * j] == ks[j].0);
        assert(children_of(d)[2 * j + 1] == ks[j].1);
    }
    lemma_pairs_at(m, r, ks, b);
    lemma_rec_view_pairs(items);
}

/// Flatten and insert a second child, keeping the first child's denotation.
fn second_child(store: &mut Store, t: SyntaxRec, prev: Ghost<DefaultKey>) -> (k: DefaultKey)
    requires
        old(store).wf(),
        old(store).contents().dom().len() + term_size(rec_view(t)) < 0xFFFF_FFFFnat,
        old(store).contents().dom().contains(prev@),
    ensures
        final(store).wf(),
        store_extends(
            old(store).contents(),
            old(store).ranks(),
            final(store).contents(),
            final(store).ranks(),
        ),
        final(store).contents().dom().len() == old(store).contents().dom().len() + term_size(
            rec_view(t),
        ),
        !old(store).contents().dom().contains(k),
        final(store).contents().dom().contains(k),
        term_at(final(store).contents(), final(store).ranks(), k) == rec_view(t),
        term_at(final(store).contents(), final(store).ranks(), prev@) == term_at(
            old(store).contents(),
            old(store).ranks(),
            prev@,
        ),
        unref_preserved(old(store).contents(), final(store).contents()),
    decreases term_size(rec_view(t)), 2int,
{
    let ghost m0 = store.contents();
    let ghost r0 = store.ranks();
    let k = derecurse_one(store, t);
    proof {
        lemma_term_at_extends(m0, r0, store.contents(), store.ranks(), prev@);
    }
    k
}

/// Assembling one flattened head and a flattened tail into the final facts
/// about the whole list of handles.
proof fn lemma_list_assemble(
    m0: Map<DefaultKey, ConcreteSyntaxData>,
    r0: Map<DefaultKey, nat>,
    m1: Map<DefaultKey, ConcreteSyntaxData>,
    r1: Map<DefaultKey, nat>,
    mf: Map<DefaultKey, ConcreteSyntaxData>,
    rf: Map<DefaultKey, nat>,
    k: DefaultKey,
    rest: Seq<DefaultKey>,
    items0: Seq<SyntaxRec>,
)
    requires
        items0.len() > 0,
        store_ok(m0, r0),
        store_ok(m1, r1),
        store_ok(mf, rf),
        store_extends(m0, r0, m1, r1),
        store_extends(m1, r1, mf, rf),
        m1.dom().contains(k),
        !m0.dom().contains(k),
        term_at(m1, r1, k) == rec_view(items0[0]),
        rest.len() == items0.len() - 1,
        forall|j: int|
            0 <= j < rest.len() ==> mf.dom().contains(#[trigger] rest[j]) && !m1.dom().contains(
                rest[j],
            ) && term_at(mf, rf, rest[j]) == rec_view(items0.drop_first()[j]),
        unref_preserved(m0, m1),
        unref_preserved(m1, mf),
    ensures
        store_extends(m0, r0, mf, rf),
        unref_preserved(m0, mf),
        forall|j: int|
            0 <= j < (seq![k] + rest).len() ==> mf.dom().contains(#[trigger] (seq![k] + rest)[j])
                && !m0.dom().contains((seq![k] + rest)[j]) && term_at(mf, rf, (seq![k] + rest)[j])
                == rec_view(items0[j]),
{
    lemma_store_extends_trans(m0, r0, m1, r1, mf, rf);
    lemma_unref_trans(m0, m1, mf);
    lemma_term_at_extends(m1, r1, mf, rf, k);
    let ks = seq![k] + rest;
    assert forall|j: int| 0 <= j < ks.len() implies mf.dom().contains(#[trigger] ks[j])
        && !m0.dom().contains(ks[j]) && term_at(mf, rf, ks[j]) == rec_view(items0[j]) by {
        if j > 0 {
            assert(ks[j] == rest[j - 1]);
            assert(items0.drop_first()[j - 1] == items0[j]);
        }
    }
}

/// Flatten and insert a list of subtrees, left to right.
fn derecurse_list(store: &mut Store, mut items: Vec<SyntaxRec>) -> (ks: Vec<DefaultKey>)
    requires
        old(store).wf(),
        old(store).contents().dom().len() + terms_size(rec_views(items@)) < 0xFFFF_FFFFnat,
    ensures
        final(store).wf(),
        store_extends(
            old(store).contents(),
            old(store).ranks(),
            final(store).contents(),
            final(store).ranks(),
        ),
        final(store).contents().dom().len() == old(store).contents().dom().len() + terms_size(
            rec_views(items@),
        ),
        ks@.len() == items@.len(),
        forall|j: int|
            0 <= j < ks@.len() ==> final(store).contents().dom().contains(#[trigger] ks@[j])
                && !old(store).contents().dom().contains(ks@[j]) && term_at(
                final(store).contents(),
                final(store).ranks(),
                ks@[j],
            ) == rec_view(items@[j]),
        unref_preserved(old(store).contents(), final(store).contents()),
    decreases terms_size(rec_views(items@)), 3int,
{
    let ghost items0 = items@;
    let ghost m0 = store.contents();
    let ghost r0 = store.ranks();
    let mut ks: Vec<DefaultKey> = Vec::new();
    if items.len() == 0 {
        ks
    } else {
        let first = items.remove(0);
        proof {
            assert(items@ =~= items0.drop_first());
            lemma_rec_views_drop_first(items0);
        }
        let k = derecurse_one(store, first);
        let ghost m1 = store.contents();
        let ghost r1 = store.ranks();
        let mut rest = derecurse_list(store, items);
        let ghost mf = store.contents();
        let ghost rf = store.ranks();
        let ghost rest0 = rest@;
        ks.push(k);
        ks.append(&mut rest);
        proof {
            assert(ks@ =~= seq![k] + rest0);
            lemma_list_assemble(m0, r0, m1, r1, mf, rf, k, rest0, items0);
        }
        ks
    }
}

/// Assembling one flattened pair and a flattened tail into the final facts
/// about the whole list of handle pairs.
proof fn lemma_pairs_assemble(
    m0: Map<DefaultKey, ConcreteSyntaxData>,
    r0: Map<DefaultKey, nat>,
    m1: Map<DefaultKey, ConcreteSyntaxData>,
    r1: Map<DefaultKey, nat>,
    m2: Map<DefaultKey, ConcreteSyntaxData>,
    r2: Map<DefaultKey, nat>,
    mf: Map<DefaultKey, ConcreteSyntaxData>,
    rf: Map<DefaultKey, nat>,
    ka: DefaultKey,
    kb: DefaultKey,
    rest: Seq<(DefaultKey, DefaultKey)>,
    items0: Seq<(SyntaxRec, SyntaxRec)>,
)
    requires
        items0.len() > 0,
        store_ok(m0, r0),
        store_ok(m1, r1),
        store_ok(m2, r2),
        store_ok(mf, rf),
        store_extends(m0, r0, m1, r1),
        store_extends(m1, r1, m2, r2),
        store_extends(m2, r2, mf, rf),
        m1.dom().contains(ka),
        !m0.dom().contains(ka),
        m2.dom().contains(kb),
        !m1.dom().contains(kb),
        term_at(m1, r1, ka) == rec_view(items0[0].0),
        term_at(m2, r2, kb) == rec_view(items0[0].1),
        rest.len() == items0.len() - 1,
        forall|j: int|
            0 <= j < rest.len() ==> {
                &&& mf.dom().contains((#[trigger] rest[j]).0)
                &&& mf.dom().contains(rest[j].1)
                &&& !m2.dom().contains(rest[j].0)
                &&& !m2.dom().contains(rest[j].1)
                &&& term_at(mf, rf, rest[j].0) == rec_view(items0.drop_first()[j].0)
                &&& term_at(mf, rf, rest[j].1) == rec_view(items0.drop_first()[j].1)
            },
        unref_preserved(m0, m1),
        unref_preserved(m1, m2),
        unref_preserved(m2, mf),
    ensures
        store_extends(m0, r0, mf, rf),
        unref_preserved(m0, mf),
        forall|j: int|
            0 <= j < (seq![(ka, kb)] + rest).len() ==> {
                &&& mf.dom().contains((#[trigger] (seq![(ka, kb)] + rest)[j]).0)
                &&& mf.dom().contains((seq![(ka, kb)] + rest)[j].1)
                &&& !m0.dom().contains((seq![(ka, kb)] + rest)[j].0)
                &&& !m0.dom().contains((seq![(ka, kb)] + rest)[j].1)
                &&& term_at(mf, rf, (seq![(ka, kb)] + rest)[j].0) == rec_view(items0[j].0)
                &&& term_at(mf, rf, (seq![(ka, kb)] + rest)[j].1) == rec_view(items0[j].1)
            },
{
    lemma_store_extends_trans(m0, r0, m1, r1, m2, r2);
    lemma_store_extends_trans(m0, r0, m2, r2, mf, rf);
    lemma_unref_trans(m0, m1, m2);
    lemma_unref_trans(m0, m2, mf);
    lemma_term_at_extends(m1, r1, m2, r2, ka);
    lemma_term_at_extends(m2, r2, mf, rf, ka);
    lemma_term_at_extends(m2, r2, mf, rf, kb);
    let ks = seq![(ka, kb)] + rest;
    assert forall|j: int| 0 <= j < ks.len() implies {
        &&& mf.dom().contains((#[trigger] ks[j]).0)
        &&& mf.dom().contains(ks[j].1)
        &&& !m0.dom().contains(ks[j].0)
        &&& !m0.dom().contains(ks[j].1)
        &&& term_at(mf, rf, ks[j].0) == rec_view(items0[j].0)
        &&& term_at(mf, rf, ks[j].1) == rec_view(items0[j].1)
    } by {
        if j > 0 {
            assert(ks[j] == rest[j - 1]);
            assert(items0.drop_first()[j - 1] == items0[j]);
        }
    }
}

/// Flatten and insert a list of subtree pairs, left to right.
fn derecurse_pairs(store: &mut Store, mut items: Vec<(SyntaxRec, SyntaxRec)>) -> (ks: Vec<(
    DefaultKey,
    DefaultKey,
)>)
    requires
        old(store).wf(),
        old(store).contents().dom().len() + pairs_size(rec_view_pairs(items@)) < 0xFFFF_FFFFnat,
    ensures
        final(store).wf(),
        store_extends(
            old(store).contents(),
            old(store).ranks(),
            final(store).contents(),
            final(store).ranks(),
        ),
        final(store).contents().dom().len() == old(store).contents().dom().len() + pairs_size(
            rec_view_pairs(items@),
        ),
        ks@.len() == items@.len(),
        forall|j: int|
            0 <= j < ks@.len() ==> {
                &&& final(store).contents().dom().contains((#[trigger] ks@[j]).0)
                &&& final(store).contents().dom().contains(ks@[j].1)
                &&& !old(store).contents().dom().contains(ks@[j].0)
                &&& !old(store).contents().dom().contains(ks@[j].1)
                &&& term_at(final(store).contents(), final(store).ranks(), ks@[j].0) == rec_view(
                    items@[j].0,
                )
                &&& term_at(final(store).contents(), final(store).ranks(), ks@[j].1) == rec_view(
                    items@[j].1,
                )
            },
        unref_preserved(old(store).contents(), final(store).contents()),
    decreases pairs_size(rec_view_pairs(items@)), 3int,
{
    let ghost items0 = items@;
    let ghost m0 = store.contents();
    let ghost r0 = store.ranks();
    let mut ks: Vec<(DefaultKey, DefaultKey)> = Vec::new();
    if items.len() == 0 {
        ks
    } else {
        let (a, b) = items.remove(0);
        proof {
            assert(items@ =~= items0.drop_first());
            lemma_rec_view_pairs_drop_first(items0);
        }
        let ka = derecurse_one(store, a);
        let ghost m1 = store.contents();
        let ghost r1 = store.ranks();
        let kb = derecurse_one(store, b);
        let ghost m2 = store.contents();
        let ghost r2 = store.ranks();
        let mut rest = derecurse_pairs(store, items);
        let ghost mf = store.contents();
        let ghost rf = store.ranks();
        let ghost rest0 = rest@;
        ks.push((ka, kb));
        ks.append(&mut rest);
        proof {
            assert(ks@ =~= seq![(ka, kb)] + rest0);
            lemma_pairs_assemble(
                m0,
                r0,
                m1,
                r1,
                m2,
                r2,
                mf,
                rf,
                ka,
                kb,
                rest0,
                items0,
            );
        }
        ks
    }
}

} // verus!
