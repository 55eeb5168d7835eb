//! The closed vocabulary of syntax nodes: identifiers, holes, and the
//! self-owned recursive term form used at the wire boundary.
use vstd::prelude::*;

verus! {

/// Mathematical model of an identifier.
pub enum SpecIdent {
    Anon,
    User(Seq<Seq<char>>),
    Machine(Seq<char>),
}

/// Mathematical model of a hole marker.
pub struct SpecHole {
    pub name: Option<Seq<char>>,
    pub silent: bool,
}

/// Mathematical model of a syntax term: the closed set of term formers,
/// with children embedded structurally.
pub enum SpecTerm {
    Var(SpecIdent),
    Lit(u32),
    Lam(Seq<SpecIdent>, Box<SpecTerm>),
    Ap(Box<SpecTerm>, Seq<SpecTerm>),
    Type,
    Hole(SpecHole),
    Underscore,
    Dim,
    Cof,
    CofEq(Box<SpecTerm>, Box<SpecTerm>),
    CofLe(Box<SpecTerm>, Box<SpecTerm>),
    Join(Seq<SpecTerm>),
    Meet(Seq<SpecTerm>),
    CofSplit(Seq<(SpecTerm, SpecTerm)>),
    TopC,
    BotC,
    HComChk(Box<SpecTerm>, Box<SpecTerm>, Box<SpecTerm>),
    HFillChk(Box<SpecTerm>, Box<SpecTerm>),
}

/// An identifier: anonymous, a user-written path of segments, or a
/// machine-generated name. Identifiers are immutable values, not handles.
#[derive(Debug, Clone, PartialEq, Eq)]
pub enum Ident {
    Anon,
    User(Vec<String>),
    Machine(String),
}

impl View for Ident {
    type V = SpecIdent;

    open spec fn view(&self) -> SpecIdent {
        match self {
            Ident::Anon => SpecIdent::Anon,
            Ident::User(vs) => SpecIdent::User(vs.deep_view()),
            Ident::Machine(s) => SpecIdent::Machine(s@),
        }
    }
}

impl DeepView for Ident {
    type V = SpecIdent;

    open spec fn deep_view(&self) -> SpecIdent {
        self.view()
    }
}

/// A hole marks an unfilled position in a term; `silent` suppresses it from
/// some downstream displays.
#[derive(Debug, Clone, PartialEq, Eq)]
pub struct Hole {
    pub name: Option<String>,
    pub silent: bool,
}

impl View for Hole {
    type V = SpecHole;

    open spec fn view(&self) -> SpecHole {
        SpecHole { name: self.name.deep_view(), silent: self.silent }
    }
}

impl DeepView for Hole {
    type V = SpecHole;

    open spec fn deep_view(&self) -> SpecHole {
        self.view()
    }
}

/// The self-owned recursive term form: each node exclusively owns its
/// children, and the whole tree is destroyed with its root. Inbound decoding
/// targets this form; the arena-resident form lives in the store.
#[derive(Debug, PartialEq, Eq)]
pub enum SyntaxRec {
    Var(Ident),
    Lit(u32),
    Lam(Vec<Ident>, Box<SyntaxRec>),
    Ap(Box<SyntaxRec>, Vec<SyntaxRec>),
    Type,
    Hole(Hole),
    Underscore,
    Dim,
    Cof,
    CofEq(Box<SyntaxRec>, Box<SyntaxRec>),
    CofLe(Box<SyntaxRec>, Box<SyntaxRec>),
    Join(Vec<SyntaxRec>),
    Meet(Vec<SyntaxRec>),
    CofSplit(Vec<(SyntaxRec, SyntaxRec)>),
    TopC,
    BotC,
    HComChk(Box<SyntaxRec>, Box<SyntaxRec>, Box<SyntaxRec>),
    HFillChk(Box<SyntaxRec>, Box<SyntaxRec>),
}

/// The term denoted by a recursive syntax tree.
pub open spec fn rec_view(t: SyntaxRec) -> SpecTerm
    decreases t, 1int,
{
    match t {
        SyntaxRec::Var(id) => SpecTerm::Var(id@),
        SyntaxRec::Lit(n) => SpecTerm::Lit(n),
        SyntaxRec::Lam(ids, body) => SpecTerm::Lam(ids.deep_view(), Box::new(rec_view(*body))),
        SyntaxRec::Ap(f, args) => SpecTerm::Ap(Box::new(rec_view(*f)), rec_views(args@)),
        SyntaxRec::Type => SpecTerm::Type,
        SyntaxRec::Hole(h) => SpecTerm::Hole(h@),
        SyntaxRec::Underscore => SpecTerm::Underscore,
        SyntaxRec::Dim => SpecTerm::Dim,
        SyntaxRec::Cof => SpecTerm::Cof,
        SyntaxRec::CofEq(a, b) => SpecTerm::CofEq(Box::new(rec_view(*a)), Box::new(rec_view(*b))),
        SyntaxRec::CofLe(a, b) => SpecTerm::CofLe(Box::new(rec_view(*a)), Box::new(rec_view(*b))),
        SyntaxRec::Join(ts) => SpecTerm::Join(rec_views(ts@)),
        SyntaxRec::Meet(ts) => SpecTerm::Meet(rec_views(ts@)),
        SyntaxRec::CofSplit(ps) => SpecTerm::CofSplit(rec_view_pairs(ps@)),
        SyntaxRec::TopC => SpecTerm::TopC,
        SyntaxRec::BotC => SpecTerm::BotC,
        SyntaxRec::HComChk(a, b, c) => SpecTerm::HComChk(
            Box::new(rec_view(*a)),
            Box::new(rec_view(*b)),
            Box::new(rec_view(*c)),
        ),
        SyntaxRec::HFillChk(a, b) => SpecTerm::HFillChk(
            Box::new(rec_view(*a)),
            Box::new(rec_view(*b)),
        ),
    }
}

/// The terms denoted by a sequence of recursive syntax trees.
pub open spec fn rec_views(ts: Seq<SyntaxRec>) -> Seq<SpecTerm>
    decreases ts, 0int,
{
    if ts.len() == 0 {
        Seq::empty()
    } else {
        seq![rec_view(ts[0])] + rec_views(ts.drop_first())
    }
}

/// The term pairs denoted by a sequence of tree pairs.
pub open spec fn rec_view_pairs(ps: Seq<(SyntaxRec, SyntaxRec)>) -> Seq<(SpecTerm, SpecTerm)>
    decreases ps, 0int,
{
    if ps.len() == 0 {
        Seq::empty()
    } else {
        seq![(rec_view(ps[0].0), rec_view(ps[0].1))] + rec_view_pairs(ps.drop_first())
    }
}

/// `rec_views` maps `rec_view` over the sequence, element by element.
pub broadcast proof fn lemma_rec_views(ts: Seq<SyntaxRec>)
    ensures
        (#[trigger] rec_views(ts)).len() == ts.len(),
        forall|i: int| 0 <= i < ts.len() ==> rec_views(ts)[i] == rec_view(ts[i]),
    decreases ts.len(),
{
    if ts.len() > 0 {
        lemma_rec_views(ts.drop_first());
    }
}

/// Dropping a tree from the front commutes with taking views.
pub proof fn lemma_rec_views_drop_first(ts: Seq<SyntaxRec>)
    requires
        ts.len() > 0,
    ensures
        rec_views(ts.drop_first()) == rec_views(ts).drop_first(),
        rec_views(ts)[0] == rec_view(ts[0]),
{
    lemma_rec_views(ts.drop_first());
    lemma_rec_views(ts);
    assert forall|j: int|
        0 <= j < rec_views(ts.drop_first()).len() implies rec_views(ts.drop_first())[j]
        == rec_views(ts).drop_first()[j] by {
        assert(ts.drop_first()[j] == ts[j + 1]);
    }
    assert(rec_views(ts.drop_first()) =~= rec_views(ts).drop_first());
}

/// Dropping a pair from the front commutes with taking views.
pub proof fn lemma_rec_view_pairs_drop_first(ps: Seq<(SyntaxRec, SyntaxRec)>)
    requires
        ps.len() > 0,
    ensures
        rec_view_pairs(ps.drop_first()) == rec_view_pairs(ps).drop_first(),
        rec_view_pairs(ps)[0] == (rec_view(ps[0].0), rec_view(ps[0].1)),
{
    lemma_rec_view_pairs(ps.drop_first());
    lemma_rec_view_pairs(ps);
    assert forall|j: int|
        0 <= j < rec_view_pairs(ps.drop_first()).len() implies rec_view_pairs(ps.drop_first())[j]
        == rec_view_pairs(ps).drop_first()[j] by {
        assert(ps.drop_first()[j] == ps[j + 1]);
    }
    assert(rec_view_pairs(ps.drop_first()) =~= rec_view_pairs(ps).drop_first());
}

/// `rec_view_pairs` maps `rec_view` over both components, pair by pair.
pub broadcast proof fn lemma_rec_view_pairs(ps: Seq<(SyntaxRec, SyntaxRec)>)
    ensures
        (#[trigger] rec_view_pairs(ps)).len() == ps.len(),
        forall|i: int|
            0 <= i < ps.len() ==> rec_view_pairs(ps)[i] == (
            rec_view(ps[i].0),
            rec_view(ps[i].1),
            ),
    decreases ps.len(),
{
    if ps.len() > 0 {
        lemma_rec_view_pairs(ps.drop_first());
    }
}

impl View for SyntaxRec {
    type V = SpecTerm;

    open spec fn view(&self) -> SpecTerm {
        rec_view(*self)
    }
}

/// The number of nodes in a term, the root included.
pub open spec fn term_size(t: SpecTerm) -> nat
    decreases t, 2int, 0int,
{
    1 + term_children_size(t)
}

/// The number of nodes below a term's root.
pub open spec fn term_children_size(t: SpecTerm) -> nat
    decreases t, 1int, 0int,
{
    match t {
        SpecTerm::Lam(_, body) => term_size(*body),
        SpecTerm::Ap(f, args) => term_size(*f) + terms_size(args),
        SpecTerm::CofEq(a, b) => term_size(*a) + term_size(*b),
        SpecTerm::CofLe(a, b) => term_size(*a) + term_size(*b),
        SpecTerm::Join(ts) => terms_size(ts),
        SpecTerm::Meet(ts) => terms_size(ts),
        SpecTerm::CofSplit(ps) => pairs_size(ps),
        SpecTerm::HComChk(a, b, c) => term_size(*a) + term_size(*b) + term_size(*c),
        SpecTerm::HFillChk(a, b) => term_size(*a) + term_size(*b),
        _ => 0,
    }
}

/// The total number of nodes in a sequence of terms.
pub open spec fn terms_size(ts: Seq<SpecTerm>) -> nat
    decreases ts, 0int, ts.len(),
{
    if ts.len() == 0 {
        0
    } else {
        term_size(ts[0]) + terms_size(ts.drop_first())
    }
}

/// The total number of nodes in a sequence of term pairs.
pub open spec fn pairs_size(ps: Seq<(SpecTerm, SpecTerm)>) -> nat
    decreases ps, 0int, ps.len(),
{
    if ps.len() == 0 {
        0
    } else {
        term_size(ps[0].0) + term_size(ps[0].1) + pairs_size(ps.drop_first())
    }
}

} // verus!
