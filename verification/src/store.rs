//! The syntax store: an append-only arena that owns all term nodes of one
//! snapshot and issues stable handles. Node children are handles into the
//! same store. The arena is `slotmap::SlotMap`; the store carries a ghost
//! rank map that witnesses that following child handles always terminates.
use vstd::prelude::*;

use crate::syntax::{Hole, Ident, SpecTerm};
use slotmap::DefaultKey;
use slotmap::SlotMap;

verus! {

#[verifier::external_type_specification]
#[verifier::external_body]
pub struct ExDefaultKey(DefaultKey);

/// The arena's backing collection, held opaque: a `slotmap::SlotMap` keyed
/// by `slotmap::DefaultKey`. (The slot map type itself cannot be declared to
/// the verifier because of its `Key` trait bound, so it sits in this opaque
/// struct; `slot_contents` names what it holds.)
#[verifier::external_body]
pub struct Arena {
    map: SlotMap<DefaultKey, ConcreteSyntaxData>,
}

/// A syntax node as it lives in the arena: the same closed set of term
/// formers as `SyntaxRec`, but with children referenced by handle.
#[derive(Debug, PartialEq, Eq)]
pub enum ConcreteSyntaxData {
    Var(Ident),
    Lit(u32),
    Lam(Vec<Ident>, DefaultKey),
    Ap(DefaultKey, Vec<DefaultKey>),
    Type,
    Hole(Hole),
    Underscore,
    Dim,
    Cof,
    CofEq(DefaultKey, DefaultKey),
    CofLe(DefaultKey, DefaultKey),
    Join(Vec<DefaultKey>),
    Meet(Vec<DefaultKey>),
    CofSplit(Vec<(DefaultKey, DefaultKey)>),
    TopC,
    BotC,
    HComChk(DefaultKey, DefaultKey, DefaultKey),
    HFillChk(DefaultKey, DefaultKey),
}

/// The handle-to-node map that a slot map holds: its occupied slots.
pub uninterp spec fn slot_contents(m: Arena) -> Map<DefaultKey, ConcreteSyntaxData>;

/// The contents of a store that holds nothing.
pub open spec fn no_contents() -> Map<DefaultKey, ConcreteSyntaxData> {
    Map::empty()
}

/// Relies on slotmap::SlotMap::new: a freshly constructed slot map holds
/// no occupied slots.
#[verifier::external_body]
fn slot_map_new() -> (made: Arena)
    ensures
        slot_contents(made) == no_contents(),
{
    Arena { map: SlotMap::new() }
}

/// Relies on slotmap::SlotMap::insert: the returned key is not an occupied
/// key of the map before the call (vacant slots get a bumped version, fresh
/// slots a fresh index), and afterwards it maps to the inserted value while
/// every other occupied slot is untouched. Insertion panics only when the
/// map is full (2^32 - 1 slots), which the precondition rules out.
#[verifier::external_body]
fn slot_map_insert(m: &mut Arena, v: ConcreteSyntaxData) -> (k: DefaultKey)
    requires
        slot_contents(*old(m)).dom().finite(),
        slot_contents(*old(m)).dom().len() + 1 < 0xFFFF_FFFFnat,
    ensures
        !slot_contents(*old(m)).dom().contains(k),
        slot_contents(*final(m)) == slot_contents(*old(m)).insert(k, v),
{
    m.map.insert(v)
}

/// Relies on slotmap::SlotMap::get: returns the value stored under the key
/// if the key is an occupied key of this map (index and version both match),
/// and `None` otherwise.
#[verifier::external_body]
fn slot_map_get<'a>(m: &'a Arena, k: DefaultKey) -> (r: Option<&'a ConcreteSyntaxData>)
    ensures
        slot_contents(*m).dom().contains(k) <==> r is Some,
        r matches Some(v) ==> *v == slot_contents(*m)[k],
{
    m.map.get(k)
}

/// Relies on slotmap's IndexMut impl: replaces the value under an occupied
/// key, leaving every other slot untouched. Indexing panics on a key that is
/// not occupied, which the precondition rules out.
#[verifier::external_body]
fn slot_map_set(m: &mut Arena, k: DefaultKey, v: ConcreteSyntaxData)
    requires
        slot_contents(*old(m)).dom().contains(k),
    ensures
        slot_contents(*final(m)) == slot_contents(*old(m)).insert(k, v),
{
    m.map[k] = v;
}

/// The child handles of a node, in child order.
pub open spec fn children_of(d: ConcreteSyntaxData) -> Seq<DefaultKey> {
    match d {
        ConcreteSyntaxData::Var(_) => Seq::empty(),
        ConcreteSyntaxData::Lit(_) => Seq::empty(),
        ConcreteSyntaxData::Lam(_, body) => seq![body],
        ConcreteSyntaxData::Ap(f, args) => seq![f] + args@,
        ConcreteSyntaxData::Type => Seq::empty(),
        ConcreteSyntaxData::Hole(_) => Seq::empty(),
        ConcreteSyntaxData::Underscore => Seq::empty(),
        ConcreteSyntaxData::Dim => Seq::empty(),
        ConcreteSyntaxData::Cof => Seq::empty(),
        ConcreteSyntaxData::CofEq(a, b) => seq![a, b],
        ConcreteSyntaxData::CofLe(a, b) => seq![a, b],
        ConcreteSyntaxData::Join(ts) => ts@,
        ConcreteSyntaxData::Meet(ts) => ts@,
        ConcreteSyntaxData::CofSplit(ps) => Seq::new(
            2 * ps@.len(),
            |i: int| if i % 2 == 0 { ps@[i / 2].0 } else { ps@[i / 2].1 },
        ),
        ConcreteSyntaxData::TopC => Seq::empty(),
        ConcreteSyntaxData::BotC => Seq::empty(),
        ConcreteSyntaxData::HComChk(a, b, c) => seq![a, b, c],
        ConcreteSyntaxData::HFillChk(a, b) => seq![a, b],
    }
}

/// Every key of `ks` lies in the store and ranks below `bound`.
pub open spec fn keys_bounded(
    m: Map<DefaultKey, ConcreteSyntaxData>,
    r: Map<DefaultKey, nat>,
    ks: Seq<DefaultKey>,
    bound: nat,
) -> bool {
    forall|i: int|
        0 <= i < ks.len() ==> {
            &&& m.dom().contains(#[trigger] ks[i])
            &&& r.dom().contains(ks[i])
            &&& r[ks[i]] < bound
        }
}

/// A node's children all lie in the store and have ranks below `bound`.
pub open spec fn node_bounded(
    m: Map<DefaultKey, ConcreteSyntaxData>,
    r: Map<DefaultKey, nat>,
    d: ConcreteSyntaxData,
    bound: nat,
) -> bool {
    keys_bounded(m, r, children_of(d), bound)
}

/// Well-formedness of a handle-to-node map under a rank map: ranks are
/// assigned to exactly the occupied handles, and every node's children lie
/// in the map with strictly smaller ranks. This is the witness that the
/// points-to relation between slots is acyclic.
pub open spec fn store_ok(
    m: Map<DefaultKey, ConcreteSyntaxData>,
    r: Map<DefaultKey, nat>,
) -> bool {
    &&& m.dom().finite()
    &&& r.dom() == m.dom()
    &&& forall|k: DefaultKey| #[trigger]
        m.dom().contains(k) ==> node_bounded(m, r, m[k], r[k])
}

/// The error returned when a handle is dereferenced against a store that
/// did not issue it.
#[derive(Debug, PartialEq, Eq)]
pub enum StoreError {
    OutOfDomain,
}

/// The syntax store: owns all term nodes for one snapshot and issues stable
/// handles. Append-only: no deletion exists, and the only in-place mutation
/// is the one-time hole fill performed by the term builder.
pub struct Store {
    map: Arena,
    rank: Ghost<Map<DefaultKey, nat>>,
}

impl Store {
    /// The handle-to-node map this store holds.
    pub closed spec fn contents(self) -> Map<DefaultKey, ConcreteSyntaxData> {
        slot_contents(self.map)
    }

    /// The ghost rank witness for this store.
    pub closed spec fn ranks(self) -> Map<DefaultKey, nat> {
        self.rank@
    }

    /// The store's internal invariant.
    pub open spec fn wf(self) -> bool {
        store_ok(self.contents(), self.ranks())
    }

    /// A fresh, empty store.
    pub fn new() -> (s: Store)
        ensures
            s.wf(),
            s.contents() == no_contents(),
    {
        let m = slot_map_new();
        Store { map: m, rank: Ghost(Map::empty()) }
    }

    /// Insert a node whose children are handles already issued by this
    /// store. Always succeeds (up to the arena's capacity), runs in O(1),
    /// and returns a handle distinct from every handle previously issued.
    /// No existing slot is disturbed.
    pub fn insert(&mut self, d: ConcreteSyntaxData) -> (k: DefaultKey)
        requires
            old(self).wf(),
            old(self).contents().dom().len() + 1 < 0xFFFF_FFFFnat,
            forall|i: int|
                0 <= i < children_of(d).len() ==> old(self).contents().dom().contains(
                    #[trigger] children_of(d)[i],
                ),
        ensures
            final(self).wf(),
            !old(self).contents().dom().contains(k),
            final(self).contents() == old(self).contents().insert(k, d),
            final(self).ranks() == old(self).ranks().insert(
                k,
                rank_of_node(old(self).ranks(), d),
            ),
    {
        let ghost pre = self.contents();
        let ghost prer = self.ranks();
        let ghost nr = rank_of_node(prer, d);
        let k = slot_map_insert(&mut self.map, d);
        proof {
            self.rank@ = prer.insert(k, nr);
            lemma_rank_of_node_bounds(prer, d);
            assert forall|k2: DefaultKey| #[trigger]
                self.contents().dom().contains(k2) implies node_bounded(
                self.contents(),
                self.ranks(),
                self.contents()[k2],
                self.ranks()[k2],
            ) by {
                if k2 == k {
                    assert(node_bounded(pre, prer, d, nr));
                } else {
                    assert(pre.dom().contains(k2));
                    assert(node_bounded(pre, prer, pre[k2], prer[k2]));
                }
            }
            assert(self.contents().dom() =~= self.ranks().dom());
        }
        k
    }

    /// Dereference a handle. Returns the node stored under the handle, or
    /// an out-of-domain error if the handle was not issued by this store or
    /// has been invalidated; a store-foreign handle is rejected rather than
    /// resolved to a wrong node.
    pub fn lookup(&self, k: DefaultKey) -> (r: Result<&ConcreteSyntaxData, StoreError>)
        ensures
            self.contents().dom().contains(k) <==> r is Ok,
            r matches Ok(v) ==> *v == self.contents()[k],
            r matches Err(e) ==> e == StoreError::OutOfDomain,
    {
        match slot_map_get(&self.map, k) {
            Some(v) => Ok(v),
            None => Err(StoreError::OutOfDomain),
        }
    }
}

/// The largest rank among `ks`, plus one; zero when `ks` is empty.
pub open spec fn max_rank_plus_one(r: Map<DefaultKey, nat>, ks: Seq<DefaultKey>) -> nat
    decreases ks.len(),
{
    if ks.len() == 0 {
        0
    } else {
        let rest = max_rank_plus_one(r, ks.drop_first());
        let first: nat = if r.dom().contains(ks[0]) {
            r[ks[0]] + 1
        } else {
            0
        };
        if first >= rest {
            first
        } else {
            rest
        }
    }
}

/// The rank a node receives on insertion: one above its children.
pub open spec fn rank_of_node(r: Map<DefaultKey, nat>, d: ConcreteSyntaxData) -> nat {
    max_rank_plus_one(r, children_of(d))
}

/// Every key of `ks` that carries a rank ranks strictly below
/// `max_rank_plus_one(r, ks)`.
proof fn lemma_max_rank_plus_one(r: Map<DefaultKey, nat>, ks: Seq<DefaultKey>)
    ensures
        forall|i: int|
            0 <= i < ks.len() && r.dom().contains(#[trigger] ks[i]) ==> r[ks[i]]
                < max_rank_plus_one(r, ks),
    decreases ks.len(),
{
    if ks.len() > 0 {
        lemma_max_rank_plus_one(r, ks.drop_first());
        assert forall|i: int|
            0 <= i < ks.len() && r.dom().contains(#[trigger] ks[i]) implies r[ks[i]]
            < max_rank_plus_one(r, ks) by {
            if i > 0 {
                assert(ks.drop_first()[i - 1] == ks[i]);
            }
        }
    }
}

/// A node whose children carry ranks is bounded by the rank it receives.
pub proof fn lemma_rank_of_node_bounds(r: Map<DefaultKey, nat>, d: ConcreteSyntaxData)
    ensures
        forall|i: int|
            0 <= i < children_of(d).len() && r.dom().contains(#[trigger] children_of(d)[i])
                ==> r[children_of(d)[i]] < rank_of_node(r, d),
{
    lemma_max_rank_plus_one(r, children_of(d));
}

/// The rank of an occupied handle; zero outside the rank map's domain.
pub open spec fn rank_at(r: Map<DefaultKey, nat>, k: DefaultKey) -> nat {
    if r.dom().contains(k) {
        r[k]
    } else {
        0
    }
}

/// The term denoted by a handle: the node stored under it, with child
/// handles resolved recursively against the same store.
pub open spec fn term_at(
    m: Map<DefaultKey, ConcreteSyntaxData>,
    r: Map<DefaultKey, nat>,
    k: DefaultKey,
) -> SpecTerm
    decreases rank_at(r, k), 2int, 0int,
        when store_ok(m, r) && m.dom().contains(k)
{
    term_of_node(m, r, m[k], rank_at(r, k))
}

/// The term denoted by a node (not necessarily stored itself) whose child
/// handles resolve against the store, all with ranks below `b`.
pub open spec fn term_of_node(
    m: Map<DefaultKey, ConcreteSyntaxData>,
    r: Map<DefaultKey, nat>,
    d: ConcreteSyntaxData,
    b: nat,
) -> SpecTerm
    decreases b, 1int, 0int,
        when store_ok(m, r) && node_bounded(m, r, d, b)
    via term_of_node_decreases
{
    match d {
        ConcreteSyntaxData::Var(id) => SpecTerm::Var(id@),
        ConcreteSyntaxData::Lit(n) => SpecTerm::Lit(n),
        ConcreteSyntaxData::Lam(ids, body) => SpecTerm::Lam(
            ids.deep_view(),
            Box::new(term_at(m, r, body)),
        ),
        ConcreteSyntaxData::Ap(f, args) => SpecTerm::Ap(
            Box::new(term_at(m, r, f)),
            terms_at(m, r, args@, b),
        ),
        ConcreteSyntaxData::Type => SpecTerm::Type,
        ConcreteSyntaxData::Hole(h) => SpecTerm::Hole(h@),
        ConcreteSyntaxData::Underscore => SpecTerm::Underscore,
        ConcreteSyntaxData::Dim => SpecTerm::Dim,
        ConcreteSyntaxData::Cof => SpecTerm::Cof,
        ConcreteSyntaxData::CofEq(a, c) => SpecTerm::CofEq(
            Box::new(term_at(m, r, a)),
            Box::new(term_at(m, r, c)),
        ),
        ConcreteSyntaxData::CofLe(a, c) => SpecTerm::CofLe(
            Box::new(term_at(m, r, a)),
            Box::new(term_at(m, r, c)),
        ),
        ConcreteSyntaxData::Join(ts) => SpecTerm::Join(terms_at(m, r, ts@, b)),
        ConcreteSyntaxData::Meet(ts) => SpecTerm::Meet(terms_at(m, r, ts@, b)),
        ConcreteSyntaxData::CofSplit(ps) => SpecTerm::CofSplit(pairs_at(m, r, ps@, b)),
        ConcreteSyntaxData::TopC => SpecTerm::TopC,
        ConcreteSyntaxData::BotC => SpecTerm::BotC,
        ConcreteSyntaxData::HComChk(a, c, e) => SpecTerm::HComChk(
            Box::new(term_at(m, r, a)),
            Box::new(term_at(m, r, c)),
            Box::new(term_at(m, r, e)),
        ),
        ConcreteSyntaxData::HFillChk(a, c) => SpecTerm::HFillChk(
            Box::new(term_at(m, r, a)),
            Box::new(term_at(m, r, c)),
        ),
    }
}

#[via_fn]
proof fn term_of_node_decreases(
    m: Map<DefaultKey, ConcreteSyntaxData>,
    r: Map<DefaultKey, nat>,
    d: ConcreteSyntaxData,
    b: nat,
) {
    match d {
        ConcreteSyntaxData::Lam(ids, body) => {
            assert(children_of(d)[0] == body);
        },
        ConcreteSyntaxData::Ap(f, args) => {
            assert(children_of(d)[0] == f);
            assert forall|i: int| 0 <= i < args@.len() implies {
                &&& m.dom().contains(#[trigger] args@[i])
                &&& r.dom().contains(args@[i])
                &&& r[args@[i]] < b
            } by {
                assert(children_of(d)[i + 1] == args@[i]);
            }
        },
        ConcreteSyntaxData::CofEq(a, c) => {
            assert(children_of(d)[0] == a);
            assert(children_of(d)[1] == c);
        },
        ConcreteSyntaxData::CofLe(a, c) => {
            assert(children_of(d)[0] == a);
            assert(children_of(d)[1] == c);
        },
        ConcreteSyntaxData::Join(ts) => {
            assert(keys_bounded(m, r, ts@, b));
        },
        ConcreteSyntaxData::Meet(ts) => {
            assert(keys_bounded(m, r, ts@, b));
        },
        ConcreteSyntaxData::CofSplit(ps) => {
            assert forall|i: int| 0 <= i < ps@.len() implies {
                &&& m.dom().contains((#[trigger] ps@[i]).0)
                &&& r.dom().contains(ps@[i].0)
                &&& r[ps@[i].0] < b
                &&& m.dom().contains(ps@[i].1)
                &&& r.dom().contains(ps@[i].1)
                &&& r[ps@[i].1] < b
            } by {
                assert(children_of(d)[2 * i] == ps@[i].0);
                assert(children_of(d)[2 * i + 1] == ps@[i].1);
            }
        },
        ConcreteSyntaxData::HComChk(a, c, e) => {
            assert(children_of(d)[0] == a);
            assert(children_of(d)[1] == c);
            assert(children_of(d)[2] == e);
        },
        ConcreteSyntaxData::HFillChk(a, c) => {
            assert(children_of(d)[0] == a);
            assert(children_of(d)[1] == c);
        },
        _ => {},
    }
}

/// The pairs of a split node all lie in the store with ranks below `bound`.
pub open spec fn pairs_bounded(
    m: Map<DefaultKey, ConcreteSyntaxData>,
    r: Map<DefaultKey, nat>,
    ps: Seq<(DefaultKey, DefaultKey)>,
    bound: nat,
) -> bool {
    forall|i: int|
        0 <= i < ps.len() ==> {
            &&& m.dom().contains((#[trigger] ps[i]).0)
            &&& r.dom().contains(ps[i].0)
            &&& r[ps[i].0] < bound
            &&& m.dom().contains(ps[i].1)
            &&& r.dom().contains(ps[i].1)
            &&& r[ps[i].1] < bound
        }
}

/// The terms denoted by a sequence of handles.
pub open spec fn terms_at(
    m: Map<DefaultKey, ConcreteSyntaxData>,
    r: Map<DefaultKey, nat>,
    ks: Seq<DefaultKey>,
    b: nat,
) -> Seq<SpecTerm>
    decreases b, 0int, ks.len(),
        when store_ok(m, r) && keys_bounded(m, r, ks, b)
{
    if ks.len() == 0 {
        Seq::empty()
    } else {
        seq![term_at(m, r, ks[0])] + terms_at(m, r, ks.drop_first(), b)
    }
}

/// The term pairs denoted by a sequence of handle pairs.
pub open spec fn pairs_at(
    m: Map<DefaultKey, ConcreteSyntaxData>,
    r: Map<DefaultKey, nat>,
    ps: Seq<(DefaultKey, DefaultKey)>,
    b: nat,
) -> Seq<(SpecTerm, SpecTerm)>
    decreases b, 0int, ps.len(),
        when store_ok(m, r) && pairs_bounded(m, r, ps, b)
{
    if ps.len() == 0 {
        Seq::empty()
    } else {
        seq![(term_at(m, r, ps[0].0), term_at(m, r, ps[0].1))] + pairs_at(
            m,
            r,
            ps.drop_first(),
            b,
        )
    }
}

/// `terms_at` resolves the handles element by element.
pub broadcast proof fn lemma_terms_at(
    m: Map<DefaultKey, ConcreteSyntaxData>,
    r: Map<DefaultKey, nat>,
    ks: Seq<DefaultKey>,
    b: nat,
)
    requires
        store_ok(m, r),
        keys_bounded(m, r, ks, b),
    ensures
        (#[trigger] terms_at(m, r, ks, b)).len() == ks.len(),
        forall|i: int| 0 <= i < ks.len() ==> terms_at(m, r, ks, b)[i] == term_at(m, r, ks[i]),
    decreases ks.len(),
{
    if ks.len() > 0 {
        assert forall|i: int| 0 <= i < ks.drop_first().len() implies {
            &&& m.dom().contains(#[trigger] ks.drop_first()[i])
            &&& r.dom().contains(ks.drop_first()[i])
            &&& r[ks.drop_first()[i]] < b
        } by {
            assert(ks.drop_first()[i] == ks[i + 1]);
        }
        lemma_terms_at(m, r, ks.drop_first(), b);
    }
}

/// `pairs_at` resolves the handle pairs element by element.
pub broadcast proof fn lemma_pairs_at(
    m: Map<DefaultKey, ConcreteSyntaxData>,
    r: Map<DefaultKey, nat>,
    ps: Seq<(DefaultKey, DefaultKey)>,
    b: nat,
)
    requires
        store_ok(m, r),
        pairs_bounded(m, r, ps, b),
    ensures
        (#[trigger] pairs_at(m, r, ps, b)).len() == ps.len(),
        forall|i: int|
            0 <= i < ps.len() ==> pairs_at(m, r, ps, b)[i] == (
            term_at(m, r, ps[i].0),
            term_at(m, r, ps[i].1),
            ),
    decreases ps.len(),
{
    if ps.len() > 0 {
        assert forall|i: int| 0 <= i < ps.drop_first().len() implies {
            &&& m.dom().contains((#[trigger] ps.drop_first()[i]).0)
            &&& r.dom().contains(ps.drop_first()[i].0)
            &&& r[ps.drop_first()[i].0] < b
            &&& m.dom().contains(ps.drop_first()[i].1)
            &&& r.dom().contains(ps.drop_first()[i].1)
            &&& r[ps.drop_first()[i].1] < b
        } by {
            assert(ps.drop_first()[i] == ps[i + 1]);
        }
        lemma_pairs_at(m, r, ps.drop_first(), b);
    }
}

/// Two stores agree on a set of handles closed under children: every handle
/// of the set is occupied in both, carries the same node and rank in both,
/// and its children stay inside the set.
pub open spec fn agree_on(
    m1: Map<DefaultKey, ConcreteSyntaxData>,
    r1: Map<DefaultKey, nat>,
    m2: Map<DefaultKey, ConcreteSyntaxData>,
    r2: Map<DefaultKey, nat>,
    s: Set<DefaultKey>,
) -> bool {
    forall|k: DefaultKey| #[trigger]
        s.contains(k) ==> {
            &&& m1.dom().contains(k)
            &&& m2.dom().contains(k)
            &&& m1[k] == m2[k]
            &&& rank_at(r1, k) == rank_at(r2, k)
            &&& forall|i: int|
                0 <= i < children_of(m1[k]).len() ==> s.contains(#[trigger] children_of(m1[k])[i])
        }
}

/// A handle's term denotation depends only on the slots it reaches: two
/// stores that agree on a child-closed set of handles denote the same term
/// at every handle of the set.
pub proof fn lemma_term_at_agree(
    m1: Map<DefaultKey, ConcreteSyntaxData>,
    r1: Map<DefaultKey, nat>,
    m2: Map<DefaultKey, ConcreteSyntaxData>,
    r2: Map<DefaultKey, nat>,
    s: Set<DefaultKey>,
    k: DefaultKey,
)
    requires
        store_ok(m1, r1),
        store_ok(m2, r2),
        agree_on(m1, r1, m2, r2, s),
        s.contains(k),
    ensures
        term_at(m2, r2, k) == term_at(m1, r1, k),
    decreases rank_at(r1, k), 2int, 0int,
{
    lemma_node_agree(m1, r1, m2, r2, s, m1[k], rank_at(r1, k));
}

/// Child-closure of a child-closed set, one node down: the set of a node's
/// children, when the node is reached from the set.
proof fn lemma_node_agree(
    m1: Map<DefaultKey, ConcreteSyntaxData>,
    r1: Map<DefaultKey, nat>,
    m2: Map<DefaultKey, ConcreteSyntaxData>,
    r2: Map<DefaultKey, nat>,
    s: Set<DefaultKey>,
    d: ConcreteSyntaxData,
    b: nat,
)
    requires
        store_ok(m1, r1),
        store_ok(m2, r2),
        agree_on(m1, r1, m2, r2, s),
        node_bounded(m1, r1, d, b),
        forall|i: int| 0 <= i < children_of(d).len() ==> s.contains(#[trigger] children_of(d)[i]),
    ensures
        term_of_node(m2, r2, d, b) == term_of_node(m1, r1, d, b),
        node_bounded(m2, r2, d, b),
    decreases b, 1int, 0int,
{
    assert forall|i: int| 0 <= i < children_of(d).len() implies {
        &&& m2.dom().contains(#[trigger] children_of(d)[i])
        &&& r2.dom().contains(children_of(d)[i])
        &&& r2[children_of(d)[i]] < b
    } by {
        let c = children_of(d)[i];
        assert(s.contains(c));
        assert(rank_at(r1, c) == rank_at(r2, c));
    }
    match d {
        ConcreteSyntaxData::Lam(ids, body) => {
            assert(children_of(d)[0] == body);
            lemma_term_at_agree(m1, r1, m2, r2, s, body);
        },
        ConcreteSyntaxData::Ap(f, args) => {
            assert(children_of(d)[0] == f);
            assert forall|i: int| 0 <= i < args@.len() implies {
                &&& rank_at(r1, #[trigger] args@[i]) < b
                &&& r1.dom().contains(args@[i])
                &&& s.contains(args@[i])
            } by {
                assert(children_of(d)[i + 1] == args@[i]);
            }
            lemma_term_at_agree(m1, r1, m2, r2, s, f);
            lemma_seq_agree(m1, r1, m2, r2, s, args@, b);
        },
        ConcreteSyntaxData::CofEq(a, c) => {
            assert(children_of(d)[0] == a);
            assert(children_of(d)[1] == c);
            lemma_term_at_agree(m1, r1, m2, r2, s, a);
            lemma_term_at_agree(m1, r1, m2, r2, s, c);
        },
        ConcreteSyntaxData::CofLe(a, c) => {
            assert(children_of(d)[0] == a);
            assert(children_of(d)[1] == c);
            lemma_term_at_agree(m1, r1, m2, r2, s, a);
            lemma_term_at_agree(m1, r1, m2, r2, s, c);
        },
        ConcreteSyntaxData::Join(ts) => {
            lemma_seq_agree(m1, r1, m2, r2, s, ts@, b);
        },
        ConcreteSyntaxData::Meet(ts) => {
            lemma_seq_agree(m1, r1, m2, r2, s, ts@, b);
        },
        ConcreteSyntaxData::CofSplit(ps) => {
            assert forall|i: int| 0 <= i < ps@.len() implies {
                &&& rank_at(r1, (#[trigger] ps@[i]).0) < b
                &&& r1.dom().contains(ps@[i].0)
                &&& s.contains(ps@[i].0)
                &&& rank_at(r1, ps@[i].1) < b
                &&& r1.dom().contains(ps@[i].1)
                &&& s.contains(ps@[i].1)
            } by {
                assert(children_of(d)[2 * i] == ps@[i].0);
                assert(children_of(d)[2 * i + 1] == ps@[i].1);
            }
            lemma_pairs_agree(m1, r1, m2, r2, s, ps@, b);
        },
        ConcreteSyntaxData::HComChk(a, c, e) => {
            assert(children_of(d)[0] == a);
            assert(children_of(d)[1] == c);
            assert(children_of(d)[2] == e);
            lemma_term_at_agree(m1, r1, m2, r2, s, a);
            lemma_term_at_agree(m1, r1, m2, r2, s, c);
            lemma_term_at_agree(m1, r1, m2, r2, s, e);
        },
        ConcreteSyntaxData::HFillChk(a, c) => {
            assert(children_of(d)[0] == a);
            assert(children_of(d)[1] == c);
            lemma_term_at_agree(m1, r1, m2, r2, s, a);
            lemma_term_at_agree(m1, r1, m2, r2, s, c);
        },
        _ => {},
    }
}

proof fn lemma_seq_agree(
    m1: Map<DefaultKey, ConcreteSyntaxData>,
    r1: Map<DefaultKey, nat>,
    m2: Map<DefaultKey, ConcreteSyntaxData>,
    r2: Map<DefaultKey, nat>,
    s: Set<DefaultKey>,
    ks: Seq<DefaultKey>,
    b: nat,
)
    requires
        store_ok(m1, r1),
        store_ok(m2, r2),
        agree_on(m1, r1, m2, r2, s),
        keys_bounded(m1, r1, ks, b),
        forall|i: int| 0 <= i < ks.len() ==> s.contains(#[trigger] ks[i]),
    ensures
        terms_at(m2, r2, ks, b) == terms_at(m1, r1, ks, b),
        keys_bounded(m2, r2, ks, b),
    decreases b, 0int, ks.len(),
{
    assert forall|i: int| 0 <= i < ks.len() implies {
        &&& m2.dom().contains(#[trigger] ks[i])
        &&& r2.dom().contains(ks[i])
        &&& r2[ks[i]] < b
    } by {
        assert(rank_at(r1, ks[i]) == rank_at(r2, ks[i]));
    }
    if ks.len() > 0 {
        lemma_term_at_agree(m1, r1, m2, r2, s, ks[0]);
        assert forall|i: int| 0 <= i < ks.drop_first().len() implies {
            &&& m1.dom().contains(#[trigger] ks.drop_first()[i])
            &&& r1.dom().contains(ks.drop_first()[i])
            &&& r1[ks.drop_first()[i]] < b
            &&& s.contains(ks.drop_first()[i])
        } by {
            assert(ks.drop_first()[i] == ks[i + 1]);
        }
        lemma_seq_agree(m1, r1, m2, r2, s, ks.drop_first(), b);
    }
}

proof fn lemma_pairs_agree(
    m1: Map<DefaultKey, ConcreteSyntaxData>,
    r1: Map<DefaultKey, nat>,
    m2: Map<DefaultKey, ConcreteSyntaxData>,
    r2: Map<DefaultKey, nat>,
    s: Set<DefaultKey>,
    ps: Seq<(DefaultKey, DefaultKey)>,
    b: nat,
)
    requires
        store_ok(m1, r1),
        store_ok(m2, r2),
        agree_on(m1, r1, m2, r2, s),
        pairs_bounded(m1, r1, ps, b),
        forall|i: int|
            0 <= i < ps.len() ==> s.contains((#[trigger] ps[i]).0) && s.contains(ps[i].1),
    ensures
        pairs_at(m2, r2, ps, b) == pairs_at(m1, r1, ps, b),
        pairs_bounded(m2, r2, ps, b),
    decreases b, 0int, ps.len(),
{
    assert forall|i: int| 0 <= i < ps.len() implies {
        &&& m2.dom().contains((#[trigger] ps[i]).0)
        &&& r2.dom().contains(ps[i].0)
        &&& r2[ps[i].0] < b
        &&& m2.dom().contains(ps[i].1)
        &&& r2.dom().contains(ps[i].1)
        &&& r2[ps[i].1] < b
    } by {
        assert(rank_at(r1, ps[i].0) == rank_at(r2, ps[i].0));
        assert(rank_at(r1, ps[i].1) == rank_at(r2, ps[i].1));
    }
    if ps.len() > 0 {
        lemma_term_at_agree(m1, r1, m2, r2, s, ps[0].0);
        lemma_term_at_agree(m1, r1, m2, r2, s, ps[0].1);
        assert forall|i: int| 0 <= i < ps.drop_first().len() implies {
            &&& m1.dom().contains((#[trigger] ps.drop_first()[i]).0)
            &&& r1.dom().contains(ps.drop_first()[i].0)
            &&& r1[ps.drop_first()[i].0] < b
            &&& m1.dom().contains(ps.drop_first()[i].1)
            &&& r1.dom().contains(ps.drop_first()[i].1)
            &&& r1[ps.drop_first()[i].1] < b
            &&& s.contains(ps.drop_first()[i].0)
            &&& s.contains(ps.drop_first()[i].1)
        } by {
            assert(ps.drop_first()[i] == ps[i + 1]);
        }
        lemma_pairs_agree(m1, r1, m2, r2, s, ps.drop_first(), b);
    }
}

/// One store extends another: every occupied handle of the first is
/// occupied in the second with the same node and the same rank.
pub open spec fn store_extends(
    m1: Map<DefaultKey, ConcreteSyntaxData>,
    r1: Map<DefaultKey, nat>,
    m2: Map<DefaultKey, ConcreteSyntaxData>,
    r2: Map<DefaultKey, nat>,
) -> bool {
    &&& m1.dom().subset_of(m2.dom())
    &&& forall|k: DefaultKey| #[trigger] m1.dom().contains(k) ==> m2[k] == m1[k] && r2[k] == r1[k]
}

/// Extension is transitive.
pub proof fn lemma_store_extends_trans(
    m1: Map<DefaultKey, ConcreteSyntaxData>,
    r1: Map<DefaultKey, nat>,
    m2: Map<DefaultKey, ConcreteSyntaxData>,
    r2: Map<DefaultKey, nat>,
    m3: Map<DefaultKey, ConcreteSyntaxData>,
    r3: Map<DefaultKey, nat>,
)
    requires
        store_extends(m1, r1, m2, r2),
        store_extends(m2, r2, m3, r3),
    ensures
        store_extends(m1, r1, m3, r3),
{
}

/// A store that extends another agrees with it on the whole smaller domain,
/// so every handle of the smaller store keeps its term denotation.
pub proof fn lemma_term_at_extends(
    m1: Map<DefaultKey, ConcreteSyntaxData>,
    r1: Map<DefaultKey, nat>,
    m2: Map<DefaultKey, ConcreteSyntaxData>,
    r2: Map<DefaultKey, nat>,
    k: DefaultKey,
)
    requires
        store_ok(m1, r1),
        store_ok(m2, r2),
        store_extends(m1, r1, m2, r2),
        m1.dom().contains(k),
    ensures
        term_at(m2, r2, k) == term_at(m1, r1, k),
{
    let s = m1.dom();
    assert forall|x: DefaultKey| #[trigger] s.contains(x) implies {
        &&& m1.dom().contains(x)
        &&& m2.dom().contains(x)
        &&& m1[x] == m2[x]
        &&& rank_at(r1, x) == rank_at(r2, x)
        &&& forall|i: int|
            0 <= i < children_of(m1[x]).len() ==> s.contains(#[trigger] children_of(m1[x])[i])
    } by {
        assert(node_bounded(m1, r1, m1[x], r1[x]));
    }
    lemma_term_at_agree(m1, r1, m2, r2, s, k);
}

/// A node's denotation (for a fixed bound) survives a store extension.
pub proof fn lemma_term_of_node_extends(
    m1: Map<DefaultKey, ConcreteSyntaxData>,
    r1: Map<DefaultKey, nat>,
    m2: Map<DefaultKey, ConcreteSyntaxData>,
    r2: Map<DefaultKey, nat>,
    d: ConcreteSyntaxData,
    b: nat,
)
    requires
        store_ok(m1, r1),
        store_ok(m2, r2),
        store_extends(m1, r1, m2, r2),
        node_bounded(m1, r1, d, b),
    ensures
        term_of_node(m2, r2, d, b) == term_of_node(m1, r1, d, b),
        node_bounded(m2, r2, d, b),
{
    let s = m1.dom();
    assert forall|x: DefaultKey| #[trigger] s.contains(x) implies {
        &&& m1.dom().contains(x)
        &&& m2.dom().contains(x)
        &&& m1[x] == m2[x]
        &&& rank_at(r1, x) == rank_at(r2, x)
        &&& forall|i: int|
            0 <= i < children_of(m1[x]).len() ==> s.contains(#[trigger] children_of(m1[x])[i])
    } by {
        assert(node_bounded(m1, r1, m1[x], r1[x]));
    }
    lemma_node_agree(m1, r1, m2, r2, s, d, b);
}

/// No node of the store references `q` as a child.
pub open spec fn unreferenced(m: Map<DefaultKey, ConcreteSyntaxData>, q: DefaultKey) -> bool {
    forall|k: DefaultKey, i: int|
        m.dom().contains(k) && 0 <= i < children_of(m[k]).len() ==> (#[trigger] children_of(
            m[k],
        )[i]) != q
}

impl Store {
    /// Overwrite the slot under an occupied, unreferenced handle with a node
    /// whose children are other handles of this store. This is the one-time
    /// fill performed by the term builder: the handle keeps its identity,
    /// only its payload changes, and every other slot keeps both its payload
    /// and its term denotation.
    pub fn fill(&mut self, h: DefaultKey, d: ConcreteSyntaxData)
        requires
            old(self).wf(),
            old(self).contents().dom().contains(h),
            unreferenced(old(self).contents(), h),
            forall|i: int|
                0 <= i < children_of(d).len() ==> old(self).contents().dom().contains(
                    #[trigger] children_of(d)[i],
                ) && children_of(d)[i] != h,
        ensures
            final(self).wf(),
            final(self).contents() == old(self).contents().insert(h, d),
            final(self).ranks() == old(self).ranks().insert(
                h,
                rank_of_node(old(self).ranks(), d),
            ),
            term_at(final(self).contents(), final(self).ranks(), h) == term_of_node(
                old(self).contents(),
                old(self).ranks(),
                d,
                rank_of_node(old(self).ranks(), d),
            ),
            forall|k: DefaultKey| #[trigger]
                old(self).contents().dom().contains(k) && k != h ==> term_at(
                    final(self).contents(),
                    final(self).ranks(),
                    k,
                ) == term_at(old(self).contents(), old(self).ranks(), k),
            forall|q: DefaultKey|
                #[trigger] unreferenced(old(self).contents(), q) && (forall|i: int|
                    0 <= i < children_of(d).len() ==> (#[trigger] children_of(d)[i]) != q)
                    ==> unreferenced(final(self).contents(), q),
    {
        let ghost m1 = self.contents();
        let ghost r1 = self.ranks();
        let ghost b = rank_of_node(r1, d);
        slot_map_set(&mut self.map, h, d);
        proof {
            self.rank@ = r1.insert(h, b);
            let m2 = self.contents();
            let r2 = self.ranks();
            assert(m2.dom() =~= m1.dom());
            assert(r2.dom() =~= r1.dom());
            lemma_rank_of_node_bounds(r1, d);
            assert forall|k2: DefaultKey| #[trigger]
                m2.dom().contains(k2) implies node_bounded(m2, r2, m2[k2], r2[k2]) by {
                if k2 == h {
                    assert forall|i: int| 0 <= i < children_of(d).len() implies {
                        &&& m2.dom().contains(#[trigger] children_of(d)[i])
                        &&& r2.dom().contains(children_of(d)[i])
                        &&& r2[children_of(d)[i]] < b
                    } by {
                        assert(r1.dom().contains(children_of(d)[i]));
                    }
                } else {
                    assert(node_bounded(m1, r1, m1[k2], r1[k2]));
                    assert forall|i: int| 0 <= i < children_of(m2[k2]).len() implies {
                        &&& m2.dom().contains(#[trigger] children_of(m2[k2])[i])
                        &&& r2.dom().contains(children_of(m2[k2])[i])
                        &&& r2[children_of(m2[k2])[i]] < r2[k2]
                    } by {
                        assert(children_of(m1[k2])[i] != h);
                    }
                }
            }
            assert(store_ok(m2, r2));
            let s = m1.dom().remove(h);
            assert forall|x: DefaultKey| #[trigger] s.contains(x) implies {
                &&& m1.dom().contains(x)
                &&& m2.dom().contains(x)
                &&& m1[x] == m2[x]
                &&& rank_at(r1, x) == rank_at(r2, x)
                &&& forall|i: int|
                    0 <= i < children_of(m1[x]).len() ==> s.contains(
                        #[trigger] children_of(m1[x])[i],
                    )
            } by {
                assert(node_bounded(m1, r1, m1[x], r1[x]));
                assert forall|i: int| 0 <= i < children_of(m1[x]).len() implies s.contains(
                    #[trigger] children_of(m1[x])[i],
                ) by {
                    assert(children_of(m1[x])[i] != h);
                }
            }
            assert(agree_on(m1, r1, m2, r2, s));
            lemma_node_agree(m1, r1, m2, r2, s, d, b);
            assert(rank_at(r2, h) == b);
            assert(term_at(m2, r2, h) == term_of_node(m2, r2, d, b));
            assert forall|k: DefaultKey| #[trigger]
                m1.dom().contains(k) && k != h implies term_at(m2, r2, k) == term_at(
                m1,
                r1,
                k,
            ) by {
                lemma_term_at_agree(m1, r1, m2, r2, s, k);
            }
            assert forall|q: DefaultKey|
                #[trigger] unreferenced(m1, q) && (forall|i: int|
                    0 <= i < children_of(d).len() ==> (#[trigger] children_of(d)[i])
                        != q) implies unreferenced(m2, q) by {
                assert forall|k: DefaultKey, i: int|
                    m2.dom().contains(k) && 0 <= i < children_of(m2[k]).len() implies (
                #[trigger] children_of(m2[k])[i]) != q by {
                    if k != h {
                        assert(children_of(m1[k])[i] != q);
                    }
                }
            }
        }
    }
}

/// A chain of fresh insertions: each step adds one node under a handle the
/// store had not issued before.
pub open spec fn insert_chain(
    ms: Seq<Map<DefaultKey, ConcreteSyntaxData>>,
    ks: Seq<DefaultKey>,
    vs: Seq<ConcreteSyntaxData>,
) -> bool {
    &&& ms.len() == ks.len() + 1
    &&& vs.len() == ks.len()
    &&& forall|i: int|
        #![trigger ms[i + 1]]
        0 <= i < ks.len() ==> ms[i + 1] == ms[i].insert(ks[i], vs[i]) && !ms[i].dom().contains(
            ks[i],
        )
}

/// Arena handle uniqueness and stability: a chain of fresh insertions into
/// a store yields pairwise-distinct handles, and after the whole chain every
/// inserted handle still resolves to the node it was inserted with — the
/// store never disturbs an existing slot. (The one later overwrite, the
/// builder's hole fill, is stated separately on `Store::fill`.)
pub proof fn lemma_arena_handles(
    ms: Seq<Map<DefaultKey, ConcreteSyntaxData>>,
    ks: Seq<DefaultKey>,
    vs: Seq<ConcreteSyntaxData>,
)
    requires
        insert_chain(ms, ks, vs),
    ensures
        forall|i: int, j: int| 0 <= i < j < ks.len() ==> ks[i] != ks[j],
        forall|i: int|
            0 <= i < ks.len() ==> ms[ks.len() as int].dom().contains(#[trigger] ks[i])
                && ms[ks.len() as int][ks[i]] == vs[i],
{
    let n = ks.len() as int;
    assert forall|i: int, j: int| 0 <= i < j < n implies ks[i] != ks[j] by {
        lemma_arena_prefix(ms, ks, vs, j, i);
        lemma_chain_step(ms, ks, vs, j);
    }
    assert forall|i: int| 0 <= i < n implies ms[n].dom().contains(#[trigger] ks[i]) && ms[n][ks[i]]
        == vs[i] by {
        lemma_arena_prefix(ms, ks, vs, n, i);
    }
}

/// One step of an insertion chain, read back out of the chain predicate.
proof fn lemma_chain_step(
    ms: Seq<Map<DefaultKey, ConcreteSyntaxData>>,
    ks: Seq<DefaultKey>,
    vs: Seq<ConcreteSyntaxData>,
    j: int,
)
    requires
        insert_chain(ms, ks, vs),
        0 <= j < ks.len(),
    ensures
        ms[j + 1] == ms[j].insert(ks[j], vs[j]),
        !ms[j].dom().contains(ks[j]),
{
    assert(ms[j + 1] == ms[j].insert(ks[j], vs[j]));
}

proof fn lemma_arena_prefix(
    ms: Seq<Map<DefaultKey, ConcreteSyntaxData>>,
    ks: Seq<DefaultKey>,
    vs: Seq<ConcreteSyntaxData>,
    l: int,
    i: int,
)
    requires
        insert_chain(ms, ks, vs),
        0 <= i < l <= ks.len(),
    ensures
        ms[l].dom().contains(ks[i]),
        ms[l][ks[i]] == vs[i],
    decreases l,
{
    if l == i + 1 {
        assert(ms[i + 1] == ms[i].insert(ks[i], vs[i]));
    } else {
        lemma_arena_prefix(ms, ks, vs, l - 1, i);
        let lm = l - 1;
        assert(ms[lm + 1] == ms[lm].insert(ks[lm], vs[lm]));
    }
}

} // verus!
