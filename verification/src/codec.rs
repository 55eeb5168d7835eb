//! The wire codec: bidirectional conversion between in-memory terms (the
//! store-resident form for encoding, the self-owned recursive form as decode
//! target) and the canonical tagged-array interchange form. Tag spellings,
//! arities and child order are a fixed compatibility contract with the
//! cooperating process and must not change.
use vstd::prelude::*;

use crate::store::{
    children_of, keys_bounded, node_bounded, pairs_at, pairs_bounded, rank_at, store_ok, term_at,
    term_of_node, terms_at, ConcreteSyntaxData, Store, StoreError,
};
use crate::store::{lemma_pairs_at, lemma_terms_at};
use crate::syntax::{
    lemma_rec_view_pairs, lemma_rec_views, rec_view, rec_view_pairs, rec_views, Hole, Ident,
    SpecHole, SpecIdent, SpecTerm, SyntaxRec,
};
use crate::wire::{
    lemma_wire_view_members, lemma_wire_views, wire_view, wire_view_members, wire_views, JVal,
    WireValue,
};
use slotmap::DefaultKey;

verus! {

/// The interchange form of an identifier: a tagged one- or two-element
/// sequence selecting among `Anon`, `User` plus its ordered segment list,
/// and `Machine` plus its name.
pub open spec fn spec_encode_ident(i: SpecIdent) -> JVal {
    match i {
        SpecIdent::Anon => JVal::Arr(seq![JVal::Str("Anon"@)]),
        SpecIdent::User(segs) => JVal::Arr(
            seq![
                JVal::Str("User"@),
                JVal::Arr(Seq::new(segs.len(), |i: int| JVal::Str(segs[i]))),
            ],
        ),
        SpecIdent::Machine(s) => JVal::Arr(seq![JVal::Str("Machine"@), JVal::Str(s)]),
    }
}

/// The interchange form of a hole marker: its record form, field order
/// `name` then `silent`.
pub open spec fn spec_encode_hole(h: SpecHole) -> JVal {
    JVal::Obj(
        seq![
            (
                "name"@,
                match h.name {
                    Option::None => JVal::Null,
                    Option::Some(s) => JVal::Str(s),
                },
            ),
            ("silent"@, JVal::Bool(h.silent)),
        ],
    )
}

/// The interchange form of a term: an ordered sequence whose first element
/// is the term former's tag string, followed by the recursively encoded
/// children in declaration order; list-typed fields render as one nested
/// sequence.
pub open spec fn spec_encode(t: SpecTerm) -> JVal
    decreases t, 1int, 0int,
{
    match t {
        SpecTerm::Var(id) => JVal::Arr(seq![JVal::Str("Var"@), spec_encode_ident(id)]),
        SpecTerm::Lit(n) => JVal::Arr(seq![JVal::Str("Lit"@), JVal::Int(n as int)]),
        SpecTerm::Lam(ids, body) => JVal::Arr(
            seq![
                JVal::Str("Lam"@),
                JVal::Arr(Seq::new(ids.len(), |i: int| spec_encode_ident(ids[i]))),
                spec_encode(*body),
            ],
        ),
        SpecTerm::Ap(f, args) => JVal::Arr(
            seq![JVal::Str("Ap"@), spec_encode(*f), JVal::Arr(spec_encode_list(args, 0))],
        ),
        SpecTerm::Type => JVal::Arr(seq![JVal::Str("Type"@)]),
        SpecTerm::Hole(h) => JVal::Arr(seq![JVal::Str("Hole"@), spec_encode_hole(h)]),
        SpecTerm::Underscore => JVal::Arr(seq![JVal::Str("Underscore"@)]),
        SpecTerm::Dim => JVal::Arr(seq![JVal::Str("Dim"@)]),
        SpecTerm::Cof => JVal::Arr(seq![JVal::Str("Cof"@)]),
        SpecTerm::CofEq(a, b) => JVal::Arr(
            seq![JVal::Str("CofEq"@), spec_encode(*a), spec_encode(*b)],
        ),
        SpecTerm::CofLe(a, b) => JVal::Arr(
            seq![JVal::Str("CofLe"@), spec_encode(*a), spec_encode(*b)],
        ),
        SpecTerm::Join(ts) => JVal::Arr(
            seq![JVal::Str("Join"@), JVal::Arr(spec_encode_list(ts, 0))],
        ),
        SpecTerm::Meet(ts) => JVal::Arr(
            seq![JVal::Str("Meet"@), JVal::Arr(spec_encode_list(ts, 0))],
        ),
        SpecTerm::CofSplit(ps) => JVal::Arr(
            seq![JVal::Str("CofSplit"@), JVal::Arr(spec_encode_pairs(ps, 0))],
        ),
        SpecTerm::TopC => JVal::Arr(seq![JVal::Str("TopC"@)]),
        SpecTerm::BotC => JVal::Arr(seq![JVal::Str("BotC"@)]),
        SpecTerm::HComChk(a, b, c) => JVal::Arr(
            seq![JVal::Str("HComChk"@), spec_encode(*a), spec_encode(*b), spec_encode(*c)],
        ),
        SpecTerm::HFillChk(a, b) => JVal::Arr(
            seq![JVal::Str("HFillChk"@), spec_encode(*a), spec_encode(*b)],
        ),
    }
}

/// The interchange forms of the terms of `ts` from position `i` on.
pub open spec fn spec_encode_list(ts: Seq<SpecTerm>, i: int) -> Seq<JVal>
    decreases ts, 0int, ts.len() - i,
{
    if i < 0 || i >= ts.len() {
        Seq::empty()
    } else {
        seq![spec_encode(ts[i])] + spec_encode_list(ts, i + 1)
    }
}

/// The interchange forms of the term pairs of `ps` from position `i` on:
/// each pair renders as a two-element sequence.
pub open spec fn spec_encode_pairs(ps: Seq<(SpecTerm, SpecTerm)>, i: int) -> Seq<JVal>
    decreases ps, 0int, ps.len() - i,
{
    if i < 0 || i >= ps.len() {
        Seq::empty()
    } else {
        seq![JVal::Arr(seq![spec_encode(ps[i].0), spec_encode(ps[i].1)])] + spec_encode_pairs(
            ps,
            i + 1,
        )
    }
}

/// `spec_encode_list` encodes element by element.
pub broadcast proof fn lemma_spec_encode_list(ts: Seq<SpecTerm>, i: int)
    requires
        0 <= i <= ts.len(),
    ensures
        (#[trigger] spec_encode_list(ts, i)).len() == ts.len() - i,
        forall|j: int|
            i <= j < ts.len() ==> spec_encode_list(ts, i)[j - i] == spec_encode(ts[j]),
    decreases ts.len() - i,
{
    if i < ts.len() {
        lemma_spec_encode_list(ts, i + 1);
    }
}

/// `spec_encode_pairs` encodes pair by pair.
pub broadcast proof fn lemma_spec_encode_pairs(ps: Seq<(SpecTerm, SpecTerm)>, i: int)
    requires
        0 <= i <= ps.len(),
    ensures
        (#[trigger] spec_encode_pairs(ps, i)).len() == ps.len() - i,
        forall|j: int|
            i <= j < ps.len() ==> spec_encode_pairs(ps, i)[j - i] == JVal::Arr(
                seq![spec_encode(ps[j].0), spec_encode(ps[j].1)],
            ),
    decreases ps.len() - i,
{
    if i < ps.len() {
        lemma_spec_encode_pairs(ps, i + 1);
    }
}


/// What went wrong during a decode.
#[derive(Debug, Clone, Copy, PartialEq, Eq)]
pub enum DecodeKind {
    /// The leading tag names no term former.
    UnknownTag,
    /// The element count does not match the tag's declared arity.
    Arity,
    /// A scalar payload (literal, hole record, identifier segment) is
    /// malformed.
    Scalar,
    /// The document is not a tagged sequence at all.
    Shape,
}

/// Mathematical model of a decode failure.
pub struct SpecDecodeError {
    pub kind: DecodeKind,
    pub tag: Seq<char>,
    pub expected: int,
    pub found: int,
    pub path: Seq<int>,
}

/// A structured decode failure: the offending tag, the expected and actual
/// arity where they apply, and the path of element indices from the root of
/// the document to where the failure occurred.
#[derive(Debug, PartialEq, Eq)]
pub struct DecodeError {
    pub kind: DecodeKind,
    pub tag: String,
    pub expected: usize,
    pub found: usize,
    pub path: Vec<usize>,
}

impl View for DecodeError {
    type V = SpecDecodeError;

    open spec fn view(&self) -> SpecDecodeError {
        SpecDecodeError {
            kind: self.kind,
            tag: self.tag@,
            expected: self.expected as int,
            found: self.found as int,
            path: Seq::new(self.path@.len(), |i: int| self.path@[i] as int),
        }
    }
}

/// A failure seen from one level up: the element index is prepended to its
/// path.
pub open spec fn spec_prefix(e: SpecDecodeError, i: int) -> SpecDecodeError {
    SpecDecodeError { path: seq![i] + e.path, ..e }
}

/// A failure at the current node, with an empty path.
pub open spec fn spec_err(kind: DecodeKind, tag: Seq<char>, expected: int, found: int) -> SpecDecodeError {
    SpecDecodeError { kind: kind, tag: tag, expected: expected, found: found, path: Seq::empty() }
}

/// The decode of an identifier document.
pub open spec fn spec_decode_ident(j: JVal) -> Result<SpecIdent, SpecDecodeError> {
    match j {
        JVal::Arr(elems) => {
            if elems.len() >= 1 && elems[0] is Str {
                let tag = elems[0]->Str_0;
                if tag == "Anon"@ {
                    if elems.len() == 1 {
                        Ok(SpecIdent::Anon)
                    } else {
                        Err(spec_err(DecodeKind::Arity, tag, 1, elems.len() as int))
                    }
                } else if tag == "User"@ {
                    if elems.len() != 2 {
                        Err(spec_err(DecodeKind::Arity, tag, 2, elems.len() as int))
                    } else {
                        match elems[1] {
                            JVal::Arr(segs) => {
                                if forall|i: int| 0 <= i < segs.len() ==> (#[trigger] segs[i]) is Str {
                                    Ok(SpecIdent::User(Seq::new(segs.len(), |i: int| segs[i]->Str_0)))
                                } else {
                                    Err(spec_err(DecodeKind::Scalar, tag, 2, elems.len() as int))
                                }
                            },
                            _ => Err(spec_err(DecodeKind::Scalar, tag, 2, elems.len() as int)),
                        }
                    }
                } else if tag == "Machine"@ {
                    if elems.len() != 2 {
                        Err(spec_err(DecodeKind::Arity, tag, 2, elems.len() as int))
                    } else {
                        match elems[1] {
                            JVal::Str(s) => Ok(SpecIdent::Machine(s)),
                            _ => Err(spec_err(DecodeKind::Scalar, tag, 2, elems.len() as int)),
                        }
                    }
                } else {
                    Err(spec_err(DecodeKind::UnknownTag, tag, 0, elems.len() as int))
                }
            } else {
                Err(spec_err(DecodeKind::Shape, Seq::empty(), 0, 0))
            }
        },
        _ => Err(spec_err(DecodeKind::Shape, Seq::empty(), 0, 0)),
    }
}

/// The decode of a sequence of identifier documents from position `i` on.
pub open spec fn spec_decode_idents(js: Seq<JVal>, i: int) -> Result<Seq<SpecIdent>, SpecDecodeError>
    decreases js.len() - i,
{
    if i < 0 || i >= js.len() {
        Ok(Seq::empty())
    } else {
        match spec_decode_ident(js[i]) {
            Err(e) => Err(spec_prefix(e, i)),
            Ok(id) => match spec_decode_idents(js, i + 1) {
                Err(e) => Err(e),
                Ok(ids) => Ok(seq![id] + ids),
            },
        }
    }
}

/// The decode of a hole record: field order `name` then `silent` is fixed.
pub open spec fn spec_decode_hole(j: JVal) -> Result<SpecHole, SpecDecodeError> {
    match j {
        JVal::Obj(ms) => {
            if ms.len() == 2 && ms[0].0 == "name"@ && ms[1].0 == "silent"@ {
                let name = match ms[0].1 {
                    JVal::Null => Ok(Option::<Seq<char>>::None),
                    JVal::Str(s) => Ok(Option::<Seq<char>>::Some(s)),
                    _ => Err(spec_err(DecodeKind::Scalar, "Hole"@, 2, 2)),
                };
                match name {
                    Err(e) => Err(e),
                    Ok(n) => match ms[1].1 {
                        JVal::Bool(b) => Ok(SpecHole { name: n, silent: b }),
                        _ => Err(spec_err(DecodeKind::Scalar, "Hole"@, 2, 2)),
                    },
                }
            } else {
                Err(spec_err(DecodeKind::Scalar, "Hole"@, 2, ms.len() as int))
            }
        },
        _ => Err(spec_err(DecodeKind::Scalar, "Hole"@, 2, 0)),
    }
}

/// The decode of a term document: inspect the leading tag, check the element
/// count against the tag's arity, and decode the children recursively. Any
/// failure carries the path to the offending element.
pub open spec fn spec_decode(j: JVal) -> Result<SpecTerm, SpecDecodeError>
    decreases j, 2int, 0int,
{
    match j {
        JVal::Arr(elems) => {
            if elems.len() >= 1 && elems[0] is Str {
                let tag = elems[0]->Str_0;
                if tag == "Var"@ {
                    if elems.len() != 2 {
                        Err(spec_err(DecodeKind::Arity, tag, 2, elems.len() as int))
                    } else {
                        match spec_decode_ident(elems[1]) {
                            Err(e) => Err(spec_prefix(e, 1)),
                            Ok(id) => Ok(SpecTerm::Var(id)),
                        }
                    }
                } else if tag == "Lit"@ {
                    if elems.len() != 2 {
                        Err(spec_err(DecodeKind::Arity, tag, 2, elems.len() as int))
                    } else {
                        match elems[1] {
                            JVal::Int(n) => if 0 <= n <= u32::MAX {
                                Ok(SpecTerm::Lit(n as u32))
                            } else {
                                Err(spec_prefix(spec_err(DecodeKind::Scalar, tag, 2, 2), 1))
                            },
                            _ => Err(spec_prefix(spec_err(DecodeKind::Scalar, tag, 2, 2), 1)),
                        }
                    }
                } else if tag == "Lam"@ {
                    if elems.len() != 3 {
                        Err(spec_err(DecodeKind::Arity, tag, 3, elems.len() as int))
                    } else {
                        match elems[1] {
                            JVal::Arr(ids) => match spec_decode_idents(ids, 0) {
                                Err(e) => Err(spec_prefix(e, 1)),
                                Ok(gids) => match spec_decode(elems[2]) {
                                    Err(e) => Err(spec_prefix(e, 2)),
                                    Ok(body) => Ok(SpecTerm::Lam(gids, Box::new(body))),
                                },
                            },
                            _ => Err(spec_prefix(spec_err(DecodeKind::Scalar, tag, 3, 3), 1)),
                        }
                    }
                } else if tag == "Ap"@ {
                    if elems.len() != 3 {
                        Err(spec_err(DecodeKind::Arity, tag, 3, elems.len() as int))
                    } else {
                        match spec_decode(elems[1]) {
                            Err(e) => Err(spec_prefix(e, 1)),
                            Ok(f) => match elems[2] {
                                JVal::Arr(args) => match spec_decode_list(args, 0) {
                                    Err(e) => Err(spec_prefix(e, 2)),
                                    Ok(ts) => Ok(SpecTerm::Ap(Box::new(f), ts)),
                                },
                                _ => Err(spec_prefix(spec_err(DecodeKind::Scalar, tag, 3, 3), 2)),
                            },
                        }
                    }
                } else if tag == "Type"@ {
                    if elems.len() == 1 {
                        Ok(SpecTerm::Type)
                    } else {
                        Err(spec_err(DecodeKind::Arity, tag, 1, elems.len() as int))
                    }
                } else if tag == "Hole"@ {
                    if elems.len() != 2 {
                        Err(spec_err(DecodeKind::Arity, tag, 2, elems.len() as int))
                    } else {
                        match spec_decode_hole(elems[1]) {
                            Err(e) => Err(spec_prefix(e, 1)),
                            Ok(h) => Ok(SpecTerm::Hole(h)),
                        }
                    }
                } else if tag == "Underscore"@ {
                    if elems.len() == 1 {
                        Ok(SpecTerm::Underscore)
                    } else {
                        Err(spec_err(DecodeKind::Arity, tag, 1, elems.len() as int))
                    }
                } else if tag == "Dim"@ {
                    if elems.len() == 1 {
                        Ok(SpecTerm::Dim)
                    } else {
                        Err(spec_err(DecodeKind::Arity, tag, 1, elems.len() as int))
                    }
                } else if tag == "Cof"@ {
                    if elems.len() == 1 {
                        Ok(SpecTerm::Cof)
                    } else {
                        Err(spec_err(DecodeKind::Arity, tag, 1, elems.len() as int))
                    }
                } else if tag == "CofEq"@ {
                    if elems.len() != 3 {
                        Err(spec_err(DecodeKind::Arity, tag, 3, elems.len() as int))
                    } else {
                        match spec_decode(elems[1]) {
                            Err(e) => Err(spec_prefix(e, 1)),
                            Ok(a) => match spec_decode(elems[2]) {
                                Err(e) => Err(spec_prefix(e, 2)),
                                Ok(b) => Ok(SpecTerm::CofEq(Box::new(a), Box::new(b))),
                            },
                        }
                    }
                } else if tag == "CofLe"@ {
                    if elems.len() != 3 {
                        Err(spec_err(DecodeKind::Arity, tag, 3, elems.len() as int))
                    } else {
                        match spec_decode(elems[1]) {
                            Err(e) => Err(spec_prefix(e, 1)),
                            Ok(a) => match spec_decode(elems[2]) {
                                Err(e) => Err(spec_prefix(e, 2)),
                                Ok(b) => Ok(SpecTerm::CofLe(Box::new(a), Box::new(b))),
                            },
                        }
                    }
                } else if tag == "Join"@ {
                    if elems.len() != 2 {
                        Err(spec_err(DecodeKind::Arity, tag, 2, elems.len() as int))
                    } else {
                        match elems[1] {
                            JVal::Arr(ts) => match spec_decode_list(ts, 0) {
                                Err(e) => Err(spec_prefix(e, 1)),
                                Ok(gts) => Ok(SpecTerm::Join(gts)),
                            },
                            _ => Err(spec_prefix(spec_err(DecodeKind::Scalar, tag, 2, 2), 1)),
                        }
                    }
                } else if tag == "Meet"@ {
                    if elems.len() != 2 {
                        Err(spec_err(DecodeKind::Arity, tag, 2, elems.len() as int))
                    } else {
                        match elems[1] {
                            JVal::Arr(ts) => match spec_decode_list(ts, 0) {
                                Err(e) => Err(spec_prefix(e, 1)),
                                Ok(gts) => Ok(SpecTerm::Meet(gts)),
                            },
                            _ => Err(spec_prefix(spec_err(DecodeKind::Scalar, tag, 2, 2), 1)),
                        }
                    }
                } else if tag == "CofSplit"@ {
                    if elems.len() != 2 {
                        Err(spec_err(DecodeKind::Arity, tag, 2, elems.len() as int))
                    } else {
                        match elems[1] {
                            JVal::Arr(ps) => match spec_decode_pairs(ps, 0) {
                                Err(e) => Err(spec_prefix(e, 1)),
                                Ok(gps) => Ok(SpecTerm::CofSplit(gps)),
                            },
                            _ => Err(spec_prefix(spec_err(DecodeKind::Scalar, tag, 2, 2), 1)),
                        }
                    }
                } else if tag == "TopC"@ {
                    if elems.len() == 1 {
                        Ok(SpecTerm::TopC)
                    } else {
                        Err(spec_err(DecodeKind::Arity, tag, 1, elems.len() as int))
                    }
                } else if tag == "BotC"@ {
                    if elems.len() == 1 {
                        Ok(SpecTerm::BotC)
                    } else {
                        Err(spec_err(DecodeKind::Arity, tag, 1, elems.len() as int))
                    }
                } else if tag == "HComChk"@ {
                    if elems.len() != 4 {
                        Err(spec_err(DecodeKind::Arity, tag, 4, elems.len() as int))
                    } else {
                        match spec_decode(elems[1]) {
                            Err(e) => Err(spec_prefix(e, 1)),
                            Ok(a) => match spec_decode(elems[2]) {
                                Err(e) => Err(spec_prefix(e, 2)),
                                Ok(b) => match spec_decode(elems[3]) {
                                    Err(e) => Err(spec_prefix(e, 3)),
                                    Ok(c) => Ok(
                                        SpecTerm::HComChk(Box::new(a), Box::new(b), Box::new(c)),
                                    ),
                                },
                            },
                        }
                    }
                } else if tag == "HFillChk"@ {
                    if elems.len() != 3 {
                        Err(spec_err(DecodeKind::Arity, tag, 3, elems.len() as int))
                    } else {
                        match spec_decode(elems[1]) {
                            Err(e) => Err(spec_prefix(e, 1)),
                            Ok(a) => match spec_decode(elems[2]) {
                                Err(e) => Err(spec_prefix(e, 2)),
                                Ok(b) => Ok(SpecTerm::HFillChk(Box::new(a), Box::new(b))),
                            },
                        }
                    }
                } else {
                    Err(spec_err(DecodeKind::UnknownTag, tag, 0, elems.len() as int))
                }
            } else {
                Err(spec_err(DecodeKind::Shape, Seq::empty(), 0, 0))
            }
        },
        _ => Err(spec_err(DecodeKind::Shape, Seq::empty(), 0, 0)),
    }
}

/// The decode of a sequence of term documents from position `i` on; a
/// failure in element `i` carries `i` at the head of its path.
pub open spec fn spec_decode_list(js: Seq<JVal>, i: int) -> Result<Seq<SpecTerm>, SpecDecodeError>
    decreases js, 1int, js.len() - i,
{
    if i < 0 || i >= js.len() {
        Ok(Seq::empty())
    } else {
        match spec_decode(js[i]) {
            Err(e) => Err(spec_prefix(e, i)),
            Ok(t) => match spec_decode_list(js, i + 1) {
                Err(e) => Err(e),
                Ok(ts) => Ok(seq![t] + ts),
            },
        }
    }
}

/// The decode of a sequence of term-pair documents from position `i` on:
/// each element must itself be a two-element sequence.
pub open spec fn spec_decode_pairs(js: Seq<JVal>, i: int) -> Result<
    Seq<(SpecTerm, SpecTerm)>,
    SpecDecodeError,
>
    decreases js, 1int, js.len() - i,
{
    if i < 0 || i >= js.len() {
        Ok(Seq::empty())
    } else {
        match js[i] {
            JVal::Arr(pair) => {
                if pair.len() != 2 {
                    Err(spec_prefix(spec_err(DecodeKind::Arity, "CofSplit"@, 2, pair.len() as int), i))
                } else {
                    match spec_decode(pair[0]) {
                        Err(e) => Err(spec_prefix(spec_prefix(e, 0), i)),
                        Ok(a) => match spec_decode(pair[1]) {
                            Err(e) => Err(spec_prefix(spec_prefix(e, 1), i)),
                            Ok(b) => match spec_decode_pairs(js, i + 1) {
                                Err(e) => Err(e),
                                Ok(ps) => Ok(seq![(a, b)] + ps),
                            },
                        },
                    }
                }
            },
            _ => Err(spec_prefix(spec_err(DecodeKind::Shape, "CofSplit"@, 2, 0), i)),
        }
    }
}


/// Ground facts about the tag spellings, enough to tell any two tags apart.
proof fn lemma_tag_chars()
    ensures
        "Anon"@[0] == 'A',
        "User"@[0] == 'U',
        "Machine"@[0] == 'M',
        "Var"@[0] == 'V',
        "Lit"@[0] == 'L',
        "Lit"@[1] == 'i',
        "Lam"@[0] == 'L',
        "Lam"@[1] == 'a',
        "Ap"@[0] == 'A',
        "Type"@[0] == 'T',
        "Type"@[1] == 'y',
        "Hole"@[0] == 'H',
        "Hole"@[1] == 'o',
        "Underscore"@[0] == 'U',
        "Dim"@[0] == 'D',
        "Cof"@.len() == 3,
        "Cof"@[0] == 'C',
        "CofEq"@.len() == 5,
        "CofEq"@[0] == 'C',
        "CofEq"@[3] == 'E',
        "CofLe"@.len() == 5,
        "CofLe"@[0] == 'C',
        "CofLe"@[3] == 'L',
        "Join"@[0] == 'J',
        "Meet"@[0] == 'M',
        "CofSplit"@.len() == 8,
        "CofSplit"@[0] == 'C',
        "TopC"@[0] == 'T',
        "TopC"@[1] == 'o',
        "BotC"@[0] == 'B',
        "HComChk"@[0] == 'H',
        "HComChk"@[1] == 'C',
        "HFillChk"@[0] == 'H',
        "HFillChk"@[1] == 'F',
{
    reveal_strlit("Anon");
    reveal_strlit("User");
    reveal_strlit("Machine");
    reveal_strlit("Var");
    reveal_strlit("Lit");
    reveal_strlit("Lam");
    reveal_strlit("Ap");
    reveal_strlit("Type");
    reveal_strlit("Hole");
    reveal_strlit("Underscore");
    reveal_strlit("Dim");
    reveal_strlit("Cof");
    reveal_strlit("CofEq");
    reveal_strlit("CofLe");
    reveal_strlit("Join");
    reveal_strlit("Meet");
    reveal_strlit("CofSplit");
    reveal_strlit("TopC");
    reveal_strlit("BotC");
    reveal_strlit("HComChk");
    reveal_strlit("HFillChk");
}

/// Round-trip for identifiers: decoding an encoded identifier gives it back.
pub proof fn lemma_round_trip_ident(id: SpecIdent)
    ensures
        spec_decode_ident(spec_encode_ident(id)) == Ok::<SpecIdent, SpecDecodeError>(id),
{
    lemma_tag_chars();
    match id {
        SpecIdent::Anon => {
            assert(spec_decode_ident(spec_encode_ident(id)) == Ok::<SpecIdent, SpecDecodeError>(id));
        },
        SpecIdent::User(segs) => {
            let encoded = Seq::new(segs.len(), |i: int| JVal::Str(segs[i]));
            assert(forall|i: int| 0 <= i < encoded.len() ==> (#[trigger] encoded[i]) is Str);
            assert(Seq::new(encoded.len(), |i: int| encoded[i]->Str_0) =~= segs);
            assert(spec_decode_ident(spec_encode_ident(id)) == Ok::<SpecIdent, SpecDecodeError>(id));
        },
        SpecIdent::Machine(_) => {
            assert(spec_decode_ident(spec_encode_ident(id)) == Ok::<SpecIdent, SpecDecodeError>(id));
        },
    }
}

/// Round-trip for identifier lists.
proof fn lemma_round_trip_idents(ids: Seq<SpecIdent>, i: int)
    requires
        0 <= i <= ids.len(),
    ensures
        spec_decode_idents(Seq::new(ids.len(), |k: int| spec_encode_ident(ids[k])), i) == Ok::<
            Seq<SpecIdent>,
            SpecDecodeError,
        >(ids.skip(i)),
    decreases ids.len() - i,
{
    let js = Seq::new(ids.len(), |k: int| spec_encode_ident(ids[k]));
    if i == ids.len() {
        assert(ids.skip(i) =~= Seq::empty());
    } else {
        lemma_round_trip_ident(ids[i]);
        lemma_round_trip_idents(ids, i + 1);
        assert(seq![ids[i]] + ids.skip(i + 1) =~= ids.skip(i));
    }
}

/// Round-trip for hole records.
proof fn lemma_round_trip_hole(h: SpecHole)
    ensures
        spec_decode_hole(spec_encode_hole(h)) == Ok::<SpecHole, SpecDecodeError>(h),
{
    reveal_strlit("name");
    reveal_strlit("silent");
}

/// Round-trip: for every constructible syntax term, decoding its interchange
/// encoding yields a structurally identical term — same tags, arities, child
/// order and scalar values.
pub proof fn lemma_round_trip(t: SpecTerm)
    ensures
        spec_decode(spec_encode(t)) == Ok::<SpecTerm, SpecDecodeError>(t),
    decreases t, 1int, 0int,
{
    lemma_tag_chars();
    match t {
        SpecTerm::Var(id) => {
            lemma_round_trip_ident(id);
            assert(spec_decode(spec_encode(t)) == Ok::<SpecTerm, SpecDecodeError>(t));
        },
        SpecTerm::Lit(_) => {
            assert(spec_decode(spec_encode(t)) == Ok::<SpecTerm, SpecDecodeError>(t));
        },
        SpecTerm::Lam(ids, body) => {
            lemma_round_trip_idents(ids, 0);
            assert(ids.skip(0) =~= ids);
            lemma_round_trip(*body);
            assert(spec_decode(spec_encode(t)) == Ok::<SpecTerm, SpecDecodeError>(t));
        },
        SpecTerm::Ap(f, args) => {
            lemma_round_trip(*f);
            lemma_round_trip_list(args, 0);
            assert(args.skip(0) =~= args);
            assert(spec_decode(spec_encode(t)) == Ok::<SpecTerm, SpecDecodeError>(t));
        },
        SpecTerm::Type => {
            assert(spec_decode(spec_encode(t)) == Ok::<SpecTerm, SpecDecodeError>(t));
        },
        SpecTerm::Hole(h) => {
            lemma_round_trip_hole(h);
            assert(spec_decode(spec_encode(t)) == Ok::<SpecTerm, SpecDecodeError>(t));
        },
        SpecTerm::Underscore => {
            assert(spec_decode(spec_encode(t)) == Ok::<SpecTerm, SpecDecodeError>(t));
        },
        SpecTerm::Dim => {
            assert(spec_decode(spec_encode(t)) == Ok::<SpecTerm, SpecDecodeError>(t));
        },
        SpecTerm::Cof => {
            assert(spec_decode(spec_encode(t)) == Ok::<SpecTerm, SpecDecodeError>(t));
        },
        SpecTerm::CofEq(a, b) => {
            lemma_round_trip(*a);
            lemma_round_trip(*b);
            assert(spec_decode(spec_encode(t)) == Ok::<SpecTerm, SpecDecodeError>(t));
        },
        SpecTerm::CofLe(a, b) => {
            lemma_round_trip(*a);
            lemma_round_trip(*b);
            assert(spec_decode(spec_encode(t)) == Ok::<SpecTerm, SpecDecodeError>(t));
        },
        SpecTerm::Join(ts) => {
            lemma_round_trip_list(ts, 0);
            assert(ts.skip(0) =~= ts);
            assert(spec_decode(spec_encode(t)) == Ok::<SpecTerm, SpecDecodeError>(t));
        },
        SpecTerm::Meet(ts) => {
            lemma_round_trip_list(ts, 0);
            assert(ts.skip(0) =~= ts);
            assert(spec_decode(spec_encode(t)) == Ok::<SpecTerm, SpecDecodeError>(t));
        },
        SpecTerm::CofSplit(ps) => {
            lemma_round_trip_pairs(ps, 0);
            assert(ps.skip(0) =~= ps);
            assert(spec_decode(spec_encode(t)) == Ok::<SpecTerm, SpecDecodeError>(t));
        },
        SpecTerm::TopC => {
            assert(spec_decode(spec_encode(t)) == Ok::<SpecTerm, SpecDecodeError>(t));
        },
        SpecTerm::BotC => {
            assert(spec_decode(spec_encode(t)) == Ok::<SpecTerm, SpecDecodeError>(t));
        },
        SpecTerm::HComChk(a, b, c) => {
            lemma_round_trip(*a);
            lemma_round_trip(*b);
            lemma_round_trip(*c);
            assert(spec_decode(spec_encode(t)) == Ok::<SpecTerm, SpecDecodeError>(t));
        },
        SpecTerm::HFillChk(a, b) => {
            lemma_round_trip(*a);
            lemma_round_trip(*b);
            assert(spec_decode(spec_encode(t)) == Ok::<SpecTerm, SpecDecodeError>(t));
        },
    }
}

/// Round-trip for term lists, from position `i` on.
proof fn lemma_round_trip_list(ts: Seq<SpecTerm>, i: int)
    requires
        0 <= i <= ts.len(),
    ensures
        spec_decode_list(spec_encode_list(ts, 0), i) == Ok::<Seq<SpecTerm>, SpecDecodeError>(
            ts.skip(i),
        ),
    decreases ts, 0int, ts.len() - i,
{
    lemma_spec_encode_list(ts, 0);
    let js = spec_encode_list(ts, 0);
    if i == ts.len() {
        assert(ts.skip(i) =~= Seq::empty());
    } else {
        assert(js[i] == spec_encode(ts[i]));
        lemma_round_trip(ts[i]);
        lemma_round_trip_list(ts, i + 1);
        assert(seq![ts[i]] + ts.skip(i + 1) =~= ts.skip(i));
    }
}

/// Round-trip for term-pair lists, from position `i` on.
proof fn lemma_round_trip_pairs(ps: Seq<(SpecTerm, SpecTerm)>, i: int)
    requires
        0 <= i <= ps.len(),
    ensures
        spec_decode_pairs(spec_encode_pairs(ps, 0), i) == Ok::<
            Seq<(SpecTerm, SpecTerm)>,
            SpecDecodeError,
        >(ps.skip(i)),
    decreases ps, 0int, ps.len() - i,
{
    lemma_spec_encode_pairs(ps, 0);
    let js = spec_encode_pairs(ps, 0);
    if i == ps.len() {
        assert(ps.skip(i) =~= Seq::empty());
    } else {
        assert(js[i] == JVal::Arr(seq![spec_encode(ps[i].0), spec_encode(ps[i].1)]));
        lemma_round_trip(ps[i].0);
        lemma_round_trip(ps[i].1);
        lemma_round_trip_pairs(ps, i + 1);
        assert(seq![(ps[i].0, ps[i].1)] + ps.skip(i + 1) =~= ps.skip(i));
    }
}


/// The spec-level reading of an exec decode result.
pub open spec fn term_result_view(r: Result<SyntaxRec, DecodeError>) -> Result<
    SpecTerm,
    SpecDecodeError,
> {
    match r {
        Ok(t) => Ok(t@),
        Err(e) => Err(e@),
    }
}

/// The spec-level reading of an exec identifier decode result.
pub open spec fn ident_result_view(r: Result<Ident, DecodeError>) -> Result<
    SpecIdent,
    SpecDecodeError,
> {
    match r {
        Ok(id) => Ok(id@),
        Err(e) => Err(e@),
    }
}

/// Whether a string equals a tag spelling.
fn tag_eq(s: &String, lit: &str) -> (r: bool)
    ensures
        r == (s@ == lit@),
{
    *s == lit.to_owned()
}

/// A failure at the current node.
fn mk_err(kind: DecodeKind, tag: &str, expected: usize, found: usize) -> (r: DecodeError)
    ensures
        r@ == spec_err(kind, tag@, expected as int, found as int),
{
    let r = DecodeError { kind, tag: tag.to_owned(), expected, found, path: Vec::new() };
    proof {
        assert(r@.path =~= Seq::<int>::empty());
    }
    r
}

/// A child failure seen from one level up.
fn prefix_err(e: DecodeError, i: usize) -> (r: DecodeError)
    ensures
        r@ == spec_prefix(e@, i as int),
{
    let mut e2 = e;
    let ghost p0 = e2.path@;
    e2.path.insert(0, i);
    proof {
        assert(e2@.path =~= seq![i as int] + Seq::new(p0.len(), |k: int| p0[k] as int));
    }
    e2
}


/// Decode an identifier document into an `Ident`.
fn decode_ident(w: &WireValue) -> (r: Result<Ident, DecodeError>)
    ensures
        ident_result_view(r) == spec_decode_ident(w@),
{
    proof {
        lemma_wire_views_for(*w);
        reveal_strlit("");
        assert(""@ =~= Seq::<char>::empty());
    }
    match w {
        WireValue::Arr(elems) => {
            proof {
                lemma_wire_views(elems@);
            }
            if elems.len() >= 1 {
                match &elems[0] {
                    WireValue::Str(tag) => {
                        if tag_eq(tag, "Anon") {
                            if elems.len() == 1 {
                                Ok(Ident::Anon)
                            } else {
                                Err(mk_err(DecodeKind::Arity, "Anon", 1, elems.len()))
                            }
                        } else if tag_eq(tag, "User") {
                            if elems.len() != 2 {
                                Err(mk_err(DecodeKind::Arity, "User", 2, elems.len()))
                            } else {
                                match &elems[1] {
                                    WireValue::Arr(segs) => {
                                        proof {
                                            lemma_wire_views(segs@);
                                        }
                                        let ghost jsegs = wire_views(segs@);
                                        let mut out: Vec<String> = Vec::new();
                                        let mut i: usize = 0;
                                        let mut bad = false;
                                        while i < segs.len() && !bad
                                            invariant
                                                0 <= i <= segs.len(),
                                                jsegs == wire_views(segs@),
                                                jsegs.len() == segs@.len(),
                                                forall|j: int|
                                                    0 <= j < jsegs.len() ==> jsegs[j] == wire_view(
                                                        segs@[j],
                                                    ),
                                                !bad ==> {
                                                    &&& out@.len() == i
                                                    &&& forall|j: int|
                                                        0 <= j < i ==> (#[trigger] jsegs[j]) is Str
                                                            && out@[j]@ == jsegs[j]->Str_0
                                                },
                                                bad ==> exists|j: int|
                                                    0 <= j < jsegs.len() && !((
                                                    #[trigger] jsegs[j]) is Str),
                                            decreases segs.len() - i + (if bad {
                                                0int
                                            } else {
                                                1int
                                            }),
                                        {
                                            match &segs[i] {
                                                WireValue::Str(sg) => {
                                                    out.push(sg.clone());
                                                    i = i + 1;
                                                },
                                                _ => {
                                                    proof {
                                                        assert(!((jsegs[i as int]) is Str));
                                                    }
                                                    bad = true;
                                                },
                                            }
                                        }
                                        if bad {
                                            Err(mk_err(DecodeKind::Scalar, "User", 2, elems.len()))
                                        } else {
                                            let r = Ident::User(out);
                                            proof {
                                                assert(forall|j: int|
                                                    0 <= j < jsegs.len() ==> (
                                                    #[trigger] jsegs[j]) is Str);
                                                assert(out.deep_view() =~= Seq::new(
                                                    jsegs.len(),
                                                    |j: int| jsegs[j]->Str_0,
                                                ));
                                            }
                                            Ok(r)
                                        }
                                    },
                                    _ => Err(mk_err(DecodeKind::Scalar, "User", 2, elems.len())),
                                }
                            }
                        } else if tag_eq(tag, "Machine") {
                            if elems.len() != 2 {
                                Err(mk_err(DecodeKind::Arity, "Machine", 2, elems.len()))
                            } else {
                                match &elems[1] {
                                    WireValue::Str(nm) => Ok(Ident::Machine(nm.clone())),
                                    _ => Err(mk_err(DecodeKind::Scalar, "Machine", 2, elems.len())),
                                }
                            }
                        } else {
                            let r = DecodeError {
                                kind: DecodeKind::UnknownTag,
                                tag: tag.clone(),
                                expected: 0,
                                found: elems.len(),
                                path: Vec::new(),
                            };
                            proof {
                                assert(r@.path =~= Seq::<int>::empty());
                            }
                            Err(r)
                        }
                    },
                    _ => Err(mk_err(DecodeKind::Shape, "", 0, 0)),
                }
            } else {
                Err(mk_err(DecodeKind::Shape, "", 0, 0))
            }
        },
        _ => Err(mk_err(DecodeKind::Shape, "", 0, 0)),
    }
}

/// The view of one wire value, spelled out for the prover.
proof fn lemma_wire_views_for(w: WireValue)
    ensures
        w is Arr ==> w@ == JVal::Arr(wire_views(w->Arr_0@)),
        w is Obj ==> w@ == JVal::Obj(wire_view_members(w->Obj_0@)),
{
}

/// Decode a hole record into a `Hole`.
fn decode_hole(w: &WireValue) -> (r: Result<Hole, DecodeError>)
    ensures
        (r matches Ok(h) ==> spec_decode_hole(w@) == Ok::<SpecHole, SpecDecodeError>(h@)),
        (r matches Err(e) ==> spec_decode_hole(w@) == Err::<SpecHole, SpecDecodeError>(e@)),
{
    proof {
        lemma_wire_views_for(*w);
    }
    match w {
        WireValue::Obj(ms) => {
            proof {
                lemma_wire_view_members(ms@);
            }
            if ms.len() == 2 {
                let name_ok = tag_eq(&ms[0].0, "name");
                let silent_ok = tag_eq(&ms[1].0, "silent");
                if name_ok && silent_ok {
                    let name = match &ms[0].1 {
                        WireValue::Null => Ok(Option::<String>::None),
                        WireValue::Str(nm) => Ok(Option::Some(nm.clone())),
                        _ => Err(mk_err(DecodeKind::Scalar, "Hole", 2, 2)),
                    };
                    match name {
                        Err(e) => Err(e),
                        Ok(n) => match &ms[1].1 {
                            WireValue::Bool(b) => Ok(Hole { name: n, silent: *b }),
                            _ => Err(mk_err(DecodeKind::Scalar, "Hole", 2, 2)),
                        },
                    }
                } else {
                    Err(mk_err(DecodeKind::Scalar, "Hole", 2, ms.len()))
                }
            } else {
                Err(mk_err(DecodeKind::Scalar, "Hole", 2, ms.len()))
            }
        },
        _ => Err(mk_err(DecodeKind::Scalar, "Hole", 2, 0)),
    }
}


/// The spec-level reading of an exec list decode result.
pub open spec fn list_result_view(r: Result<Vec<SyntaxRec>, DecodeError>) -> Result<
    Seq<SpecTerm>,
    SpecDecodeError,
> {
    match r {
        Ok(ts) => Ok(Seq::new(ts@.len(), |i: int| rec_view(ts@[i]))),
        Err(e) => Err(e@),
    }
}

/// The spec-level reading of an exec pair-list decode result.
pub open spec fn pairs_result_view(r: Result<Vec<(SyntaxRec, SyntaxRec)>, DecodeError>) -> Result<
    Seq<(SpecTerm, SpecTerm)>,
    SpecDecodeError,
> {
    match r {
        Ok(ps) => Ok(Seq::new(ps@.len(), |i: int| (rec_view(ps@[i].0), rec_view(ps@[i].1)))),
        Err(e) => Err(e@),
    }
}

/// Decode an interchange document into the self-owned recursive term form.
/// Succeeds exactly on well-formed encodings; any unknown tag, arity
/// mismatch or malformed scalar yields the structured failure that
/// `spec_decode` describes, and never a partially built tree.
pub fn decode(w: &WireValue) -> (r: Result<SyntaxRec, DecodeError>)
    ensures
        term_result_view(r) == spec_decode(w@),
    decreases *w, 2int, 0int,
{
    proof {
        lemma_wire_views_for(*w);
        reveal_strlit("");
        assert(""@ =~= Seq::<char>::empty());
    }
    match w {
        WireValue::Arr(elems) => {
            proof {
                lemma_wire_views(elems@);
            }
            if elems.len() >= 1 {
                match &elems[0] {
                    WireValue::Str(tag) => decode_tagged(w, elems, tag),
                    _ => Err(mk_err(DecodeKind::Shape, "", 0, 0)),
                }
            } else {
                Err(mk_err(DecodeKind::Shape, "", 0, 0))
            }
        },
        _ => Err(mk_err(DecodeKind::Shape, "", 0, 0)),
    }
}

/// Dispatch on the leading tag of a tagged sequence.
#[verifier::rlimit(100)]
fn decode_tagged(w: &WireValue, elems: &Vec<WireValue>, tag: &String) -> (r: Result<
    SyntaxRec,
    DecodeError,
>)
    requires
        *w == WireValue::Arr(*elems),
        elems@.len() >= 1,
        elems@[0] == WireValue::Str(*tag),
    ensures
        term_result_view(r) == spec_decode(w@),
    decreases *w, 1int, 0int,
{
    proof {
        lemma_wire_views_for(*w);
        lemma_wire_views(elems@);
    }
    let n = elems.len();
    if tag_eq(tag, "Var") {
        if n != 2 {
            Err(mk_err(DecodeKind::Arity, "Var", 2, n))
        } else {
            match decode_ident(&elems[1]) {
                Err(e) => Err(prefix_err(e, 1)),
                Ok(id) => Ok(SyntaxRec::Var(id)),
            }
        }
    } else if tag_eq(tag, "Lit") {
        if n != 2 {
            Err(mk_err(DecodeKind::Arity, "Lit", 2, n))
        } else {
            match &elems[1] {
                WireValue::Int(v) => {
                    if 0 <= *v && *v <= u32::MAX as i64 {
                        Ok(SyntaxRec::Lit(*v as u32))
                    } else {
                        Err(prefix_err(mk_err(DecodeKind::Scalar, "Lit", 2, 2), 1))
                    }
                },
                _ => Err(prefix_err(mk_err(DecodeKind::Scalar, "Lit", 2, 2), 1)),
            }
        }
    } else if tag_eq(tag, "Lam") {
        if n != 3 {
            Err(mk_err(DecodeKind::Arity, "Lam", 3, n))
        } else {
            match &elems[1] {
                WireValue::Arr(ids) => match decode_idents(ids) {
                    Err(e) => Err(prefix_err(e, 1)),
                    Ok(gids) => match decode(&elems[2]) {
                        Err(e) => Err(prefix_err(e, 2)),
                        Ok(body) => {
                            let r = SyntaxRec::Lam(gids, Box::new(body));
                            Ok(r)
                        },
                    },
                },
                _ => Err(prefix_err(mk_err(DecodeKind::Scalar, "Lam", 3, 3), 1)),
            }
        }
    } else if tag_eq(tag, "Ap") {
        if n != 3 {
            Err(mk_err(DecodeKind::Arity, "Ap", 3, n))
        } else {
            match decode(&elems[1]) {
                Err(e) => Err(prefix_err(e, 1)),
                Ok(f) => match &elems[2] {
                    WireValue::Arr(args) => match decode_terms(args, 0) {
                        Err(e) => Err(prefix_err(e, 2)),
                        Ok(ts) => {
                            proof {
                                lemma_rec_views(ts@);
                                assert(rec_views(ts@) =~= Seq::new(
                                    ts@.len(),
                                    |k: int| rec_view(ts@[k]),
                                ));
                            }
                            Ok(SyntaxRec::Ap(Box::new(f), ts))
                        },
                    },
                    _ => Err(prefix_err(mk_err(DecodeKind::Scalar, "Ap", 3, 3), 2)),
                },
            }
        }
    } else if tag_eq(tag, "Type") {
        if n == 1 {
            Ok(SyntaxRec::Type)
        } else {
            Err(mk_err(DecodeKind::Arity, "Type", 1, n))
        }
    } else if tag_eq(tag, "Hole") {
        if n != 2 {
            Err(mk_err(DecodeKind::Arity, "Hole", 2, n))
        } else {
            match decode_hole(&elems[1]) {
                Err(e) => Err(prefix_err(e, 1)),
                Ok(h) => Ok(SyntaxRec::Hole(h)),
            }
        }
    } else if tag_eq(tag, "Underscore") {
        if n == 1 {
            Ok(SyntaxRec::Underscore)
        } else {
            Err(mk_err(DecodeKind::Arity, "Underscore", 1, n))
        }
    } else if tag_eq(tag, "Dim") {
        if n == 1 {
            Ok(SyntaxRec::Dim)
        } else {
            Err(mk_err(DecodeKind::Arity, "Dim", 1, n))
        }
    } else if tag_eq(tag, "Cof") {
        if n == 1 {
            Ok(SyntaxRec::Cof)
        } else {
            Err(mk_err(DecodeKind::Arity, "Cof", 1, n))
        }
    } else if tag_eq(tag, "CofEq") {
        if n != 3 {
            Err(mk_err(DecodeKind::Arity, "CofEq", 3, n))
        } else {
            match decode(&elems[1]) {
                Err(e) => Err(prefix_err(e, 1)),
                Ok(a) => match decode(&elems[2]) {
                    Err(e) => Err(prefix_err(e, 2)),
                    Ok(b) => Ok(SyntaxRec::CofEq(Box::new(a), Box::new(b))),
                },
            }
        }
    } else if tag_eq(tag, "CofLe") {
        if n != 3 {
            Err(mk_err(DecodeKind::Arity, "CofLe", 3, n))
        } else {
            match decode(&elems[1]) {
                Err(e) => Err(prefix_err(e, 1)),
                Ok(a) => match decode(&elems[2]) {
                    Err(e) => Err(prefix_err(e, 2)),
                    Ok(b) => Ok(SyntaxRec::CofLe(Box::new(a), Box::new(b))),
                },
            }
        }
    } else if tag_eq(tag, "Join") {
        if n != 2 {
            Err(mk_err(DecodeKind::Arity, "Join", 2, n))
        } else {
            match &elems[1] {
                WireValue::Arr(ts) => match decode_terms(ts, 0) {
                    Err(e) => Err(prefix_err(e, 1)),
                    Ok(gts) => {
                        proof {
                            lemma_rec_views(gts@);
                            assert(rec_views(gts@) =~= Seq::new(
                                gts@.len(),
                                |k: int| rec_view(gts@[k]),
                            ));
                        }
                        Ok(SyntaxRec::Join(gts))
                    },
                },
                _ => Err(prefix_err(mk_err(DecodeKind::Scalar, "Join", 2, 2), 1)),
            }
        }
    } else if tag_eq(tag, "Meet") {
        if n != 2 {
            Err(mk_err(DecodeKind::Arity, "Meet", 2, n))
        } else {
            match &elems[1] {
                WireValue::Arr(ts) => match decode_terms(ts, 0) {
                    Err(e) => Err(prefix_err(e, 1)),
                    Ok(gts) => {
                        proof {
                            lemma_rec_views(gts@);
                            assert(rec_views(gts@) =~= Seq::new(
                                gts@.len(),
                                |k: int| rec_view(gts@[k]),
                            ));
                        }
                        Ok(SyntaxRec::Meet(gts))
                    },
                },
                _ => Err(prefix_err(mk_err(DecodeKind::Scalar, "Meet", 2, 2), 1)),
            }
        }
    } else if tag_eq(tag, "CofSplit") {
        if n != 2 {
            Err(mk_err(DecodeKind::Arity, "CofSplit", 2, n))
        } else {
            match &elems[1] {
                WireValue::Arr(ps) => match decode_pairs(ps, 0) {
                    Err(e) => Err(prefix_err(e, 1)),
                    Ok(gps) => {
                        proof {
                            lemma_rec_view_pairs(gps@);
                            assert(rec_view_pairs(gps@) =~= Seq::new(
                                gps@.len(),
                                |k: int| (rec_view(gps@[k].0), rec_view(gps@[k].1)),
                            ));
                        }
                        Ok(SyntaxRec::CofSplit(gps))
                    },
                },
                _ => Err(prefix_err(mk_err(DecodeKind::Scalar, "CofSplit", 2, 2), 1)),
            }
        }
    } else if tag_eq(tag, "TopC") {
        if n == 1 {
            Ok(SyntaxRec::TopC)
        } else {
            Err(mk_err(DecodeKind::Arity, "TopC", 1, n))
        }
    } else if tag_eq(tag, "BotC") {
        if n == 1 {
            Ok(SyntaxRec::BotC)
        } else {
            Err(mk_err(DecodeKind::Arity, "BotC", 1, n))
        }
    } else if tag_eq(tag, "HComChk") {
        if n != 4 {
            Err(mk_err(DecodeKind::Arity, "HComChk", 4, n))
        } else {
            match decode(&elems[1]) {
                Err(e) => Err(prefix_err(e, 1)),
                Ok(a) => match decode(&elems[2]) {
                    Err(e) => Err(prefix_err(e, 2)),
                    Ok(b) => match decode(&elems[3]) {
                        Err(e) => Err(prefix_err(e, 3)),
                        Ok(c) => Ok(SyntaxRec::HComChk(Box::new(a), Box::new(b), Box::new(c))),
                    },
                },
            }
        }
    } else if tag_eq(tag, "HFillChk") {
        if n != 3 {
            Err(mk_err(DecodeKind::Arity, "HFillChk", 3, n))
        } else {
            match decode(&elems[1]) {
                Err(e) => Err(prefix_err(e, 1)),
                Ok(a) => match decode(&elems[2]) {
                    Err(e) => Err(prefix_err(e, 2)),
                    Ok(b) => Ok(SyntaxRec::HFillChk(Box::new(a), Box::new(b))),
                },
            }
        }
    } else {
        let r = DecodeError {
            kind: DecodeKind::UnknownTag,
            tag: tag.clone(),
            expected: 0,
            found: n,
            path: Vec::new(),
        };
        proof {
            assert(r@.path =~= Seq::<int>::empty());
        }
        Err(r)
    }
}

/// Decode a sequence of identifier documents.
fn decode_idents(ws: &Vec<WireValue>) -> (r: Result<Vec<Ident>, DecodeError>)
    ensures
        (r matches Ok(ids) ==> spec_decode_idents(wire_views(ws@), 0) == Ok::<
            Seq<SpecIdent>,
            SpecDecodeError,
        >(ids.deep_view())),
        (r matches Err(e) ==> spec_decode_idents(wire_views(ws@), 0) == Err::<
            Seq<SpecIdent>,
            SpecDecodeError,
        >(e@)),
{
    proof {
        lemma_wire_views(ws@);
    }
    let ghost js = wire_views(ws@);
    let mut out: Vec<Ident> = Vec::new();
    let mut i: usize = 0;
    while i < ws.len()
        invariant
            0 <= i <= ws.len(),
            js == wire_views(ws@),
            js.len() == ws@.len(),
            forall|j: int| 0 <= j < js.len() ==> js[j] == wire_view(ws@[j]),
            out@.len() == i,
            spec_decode_idents(js, i as int) matches Ok(rest) ==> spec_decode_idents(js, 0)
                == Ok::<Seq<SpecIdent>, SpecDecodeError>(out.deep_view() + rest),
            spec_decode_idents(js, i as int) matches Err(e) ==> spec_decode_idents(js, 0)
                == Err::<Seq<SpecIdent>, SpecDecodeError>(e),
        decreases ws.len() - i,
    {
        match decode_ident(&ws[i]) {
            Err(e) => {
                return Err(prefix_err(e, i));
            },
            Ok(id) => {
                let ghost out0 = out.deep_view();
                out.push(id);
                proof {
                    assert(out.deep_view() =~= out0 + seq![id@]);
                    if spec_decode_idents(js, i + 1) is Ok {
                        let rest = spec_decode_idents(js, i + 1)->Ok_0;
                        assert(out0 + (seq![id@] + rest) =~= out.deep_view() + rest);
                    }
                }
                i = i + 1;
            },
        }
    }
    proof {
        assert(spec_decode_idents(js, i as int) == Ok::<Seq<SpecIdent>, SpecDecodeError>(
            Seq::empty(),
        ));
        assert(out.deep_view() + Seq::<SpecIdent>::empty() =~= out.deep_view());
    }
    Ok(out)
}

/// Decode a sequence of term documents from position `i` on.
fn decode_terms(ws: &Vec<WireValue>, i: usize) -> (r: Result<Vec<SyntaxRec>, DecodeError>)
    requires
        i <= ws@.len(),
    ensures
        list_result_view(r) == spec_decode_list(wire_views(ws@), i as int),
    decreases *ws, 0int, ws@.len() - i,
{
    proof {
        lemma_wire_views(ws@);
    }
    let ghost js = wire_views(ws@);
    if i == ws.len() {
        let r: Vec<SyntaxRec> = Vec::new();
        proof {
            assert(Seq::new(r@.len(), |k: int| rec_view(r@[k])) =~= Seq::<SpecTerm>::empty());
        }
        Ok(r)
    } else {
        match decode(&ws[i]) {
            Err(e) => Err(prefix_err(e, i)),
            Ok(t) => match decode_terms(ws, i + 1) {
                Err(e) => Err(e),
                Ok(mut ts) => {
                    let ghost ts0 = ts@;
                    ts.insert(0, t);
                    proof {
                        assert(Seq::new(ts@.len(), |k: int| rec_view(ts@[k])) =~= seq![t@]
                            + Seq::new(ts0.len(), |k: int| rec_view(ts0[k])));
                    }
                    Ok(ts)
                },
            },
        }
    }
}

/// Decode a sequence of term-pair documents from position `i` on.
fn decode_pairs(ws: &Vec<WireValue>, i: usize) -> (r: Result<
    Vec<(SyntaxRec, SyntaxRec)>,
    DecodeError,
>)
    requires
        i <= ws@.len(),
    ensures
        pairs_result_view(r) == spec_decode_pairs(wire_views(ws@), i as int),
    decreases *ws, 0int, ws@.len() - i,
{
    proof {
        lemma_wire_views(ws@);
    }
    let ghost js = wire_views(ws@);
    if i == ws.len() {
        let r: Vec<(SyntaxRec, SyntaxRec)> = Vec::new();
        proof {
            assert(Seq::new(r@.len(), |k: int| (rec_view(r@[k].0), rec_view(r@[k].1))) =~= Seq::<
                (SpecTerm, SpecTerm),
            >::empty());
        }
        Ok(r)
    } else {
        proof {
            lemma_wire_views_for(ws@[i as int]);
        }
        match &ws[i] {
            WireValue::Arr(pair) => {
                proof {
                    lemma_wire_views(pair@);
                }
                if pair.len() != 2 {
                    Err(prefix_err(mk_err(DecodeKind::Arity, "CofSplit", 2, pair.len()), i))
                } else {
                    match decode(&pair[0]) {
                        Err(e) => Err(prefix_err(prefix_err(e, 0), i)),
                        Ok(a) => match decode(&pair[1]) {
                            Err(e) => Err(prefix_err(prefix_err(e, 1), i)),
                            Ok(b) => match decode_pairs(ws, i + 1) {
                                Err(e) => Err(e),
                                Ok(mut ps) => {
                                    let ghost ps0 = ps@;
                                    let ghost ga = a@;
                                    let ghost gb = b@;
                                    ps.insert(0, (a, b));
                                    proof {
                                        assert(Seq::new(
                                            ps@.len(),
                                            |k: int| (rec_view(ps@[k].0), rec_view(ps@[k].1)),
                                        ) =~= seq![(ga, gb)] + Seq::new(
                                            ps0.len(),
                                            |k: int| (rec_view(ps0[k].0), rec_view(ps0[k].1)),
                                        ));
                                    }
                                    Ok(ps)
                                },
                            },
                        },
                    }
                }
            },
            _ => Err(prefix_err(mk_err(DecodeKind::Shape, "CofSplit", 2, 0), i)),
        }
    }
}


/// Encode an identifier into its interchange form.
fn encode_ident(id: &Ident) -> (r: WireValue)
    ensures
        r@ == spec_encode_ident(id@),
{
    match id {
        Ident::Anon => {
            let elems = vec![WireValue::Str("Anon".to_owned())];
            let r = WireValue::Arr(elems);
            proof {
                lemma_wire_views(r->Arr_0@);
                assert(wire_views(r->Arr_0@) =~= seq![JVal::Str("Anon"@)]);
            }
            r
        },
        Ident::User(segs) => {
            let mut out: Vec<WireValue> = Vec::new();
            let mut i: usize = 0;
            while i < segs.len()
                invariant
                    0 <= i <= segs.len(),
                    out@.len() == i,
                    forall|j: int| 0 <= j < i ==> (#[trigger] out@[j]) == WireValue::Str(segs@[j]),
                decreases segs.len() - i,
            {
                out.push(WireValue::Str(segs[i].clone()));
                i = i + 1;
            }
            let inner = WireValue::Arr(out);
            proof {
                lemma_wire_views(inner->Arr_0@);
                assert(wire_views(inner->Arr_0@) =~= Seq::new(
                    segs.deep_view().len(),
                    |j: int| JVal::Str(segs.deep_view()[j]),
                ));
            }
            let elems = vec![WireValue::Str("User".to_owned()), inner];
            let r = WireValue::Arr(elems);
            proof {
                lemma_wire_views(r->Arr_0@);
                assert(wire_views(r->Arr_0@) =~= seq![JVal::Str("User"@), inner@]);
            }
            r
        },
        Ident::Machine(nm) => {
            let elems = vec![WireValue::Str("Machine".to_owned()), WireValue::Str(nm.clone())];
            let r = WireValue::Arr(elems);
            proof {
                lemma_wire_views(r->Arr_0@);
                assert(wire_views(r->Arr_0@) =~= seq![JVal::Str("Machine"@), JVal::Str(nm@)]);
            }
            r
        },
    }
}

/// Encode a hole marker into its record form.
fn encode_hole(h: &Hole) -> (r: WireValue)
    ensures
        r@ == spec_encode_hole(h@),
{
    let name = match &h.name {
        Option::None => WireValue::Null,
        Option::Some(s) => WireValue::Str(s.clone()),
    };
    let ms = vec![("name".to_owned(), name), ("silent".to_owned(), WireValue::Bool(h.silent))];
    let r = WireValue::Obj(ms);
    proof {
        lemma_wire_view_members(r->Obj_0@);
        assert(wire_view_members(r->Obj_0@) =~= spec_encode_hole(h@)->Obj_0);
    }
    r
}

/// A two-element tagged sequence.
fn arr1(tag: &str) -> (r: WireValue)
    ensures
        r@ == JVal::Arr(seq![JVal::Str(tag@)]),
{
    let elems = vec![WireValue::Str(tag.to_owned())];
    let r = WireValue::Arr(elems);
    proof {
        lemma_wire_views(r->Arr_0@);
        assert(wire_views(r->Arr_0@) =~= seq![JVal::Str(tag@)]);
    }
    r
}

/// A tagged sequence with one encoded child.
fn arr_tag1(tag: &str, c1: WireValue) -> (r: WireValue)
    ensures
        r@ == JVal::Arr(seq![JVal::Str(tag@), wire_view(c1)]),
{
    let ghost g1 = c1;
    let elems = vec![WireValue::Str(tag.to_owned()), c1];
    let r = WireValue::Arr(elems);
    proof {
        lemma_wire_views(r->Arr_0@);
        assert(wire_views(r->Arr_0@) =~= seq![JVal::Str(tag@), wire_view(g1)]);
    }
    r
}

/// A tagged sequence with two encoded children.
fn arr_tag2(tag: &str, c1: WireValue, c2: WireValue) -> (r: WireValue)
    ensures
        r@ == JVal::Arr(seq![JVal::Str(tag@), wire_view(c1), wire_view(c2)]),
{
    let ghost g1 = c1;
    let ghost g2 = c2;
    let elems = vec![WireValue::Str(tag.to_owned()), c1, c2];
    let r = WireValue::Arr(elems);
    proof {
        lemma_wire_views(r->Arr_0@);
        assert(wire_views(r->Arr_0@) =~= seq![JVal::Str(tag@), wire_view(g1), wire_view(g2)]);
    }
    r
}

/// A tagged sequence with three encoded children.
fn arr_tag3(tag: &str, c1: WireValue, c2: WireValue, c3: WireValue) -> (r: WireValue)
    ensures
        r@ == JVal::Arr(
            seq![JVal::Str(tag@), wire_view(c1), wire_view(c2), wire_view(c3)],
        ),
{
    let ghost g1 = c1;
    let ghost g2 = c2;
    let ghost g3 = c3;
    let elems = vec![WireValue::Str(tag.to_owned()), c1, c2, c3];
    let r = WireValue::Arr(elems);
    proof {
        lemma_wire_views(r->Arr_0@);
        assert(wire_views(r->Arr_0@) =~= seq![
            JVal::Str(tag@),
            wire_view(g1),
            wire_view(g2),
            wire_view(g3),
        ]);
    }
    r
}

/// Encode the term under a handle of a well-formed store into its
/// interchange form, walking the arena in place without copying the term.
pub fn encode_at(store: &Store, k: DefaultKey) -> (r: WireValue)
    requires
        store.wf(),
        store.contents().dom().contains(k),
    ensures
        r@ == spec_encode(term_at(store.contents(), store.ranks(), k)),
    decreases rank_at(store.ranks(), k), 3int, 0int,
{
    let node = match store.lookup(k) {
        Ok(node) => node,
        Err(_) => {
            proof {
                assert(false);
            }
            vstd::pervasive::unreached()
        },
    };
    proof {
        assert(node_bounded(
            store.contents(),
            store.ranks(),
            store.contents()[k],
            store.ranks()[k],
        ));
    }
    encode_node(store, node, Ghost(rank_at(store.ranks(), k)))
}

/// Encode a binder list into one nested sequence of identifier documents.
fn encode_idents_vec(ids: &Vec<Ident>) -> (r: WireValue)
    ensures
        r@ == JVal::Arr(
            Seq::new(ids.deep_view().len(), |j: int| spec_encode_ident(ids.deep_view()[j])),
        ),
{
    let mut out: Vec<WireValue> = Vec::new();
    let mut i: usize = 0;
    while i < ids.len()
        invariant
            0 <= i <= ids.len(),
            out@.len() == i,
            forall|j: int|
                0 <= j < i ==> (#[trigger] out@[j])@ == spec_encode_ident(ids@[j]@),
        decreases ids.len() - i,
    {
        out.push(encode_ident(&ids[i]));
        i = i + 1;
    }
    let r = WireValue::Arr(out);
    proof {
        lemma_wire_views(r->Arr_0@);
        assert(wire_views(r->Arr_0@) =~= Seq::new(
            ids.deep_view().len(),
            |j: int| spec_encode_ident(ids.deep_view()[j]),
        ));
    }
    r
}

/// A list of encoded handle terms is the encoding of the handle list.
proof fn lemma_keys_encoded(
    m: Map<DefaultKey, ConcreteSyntaxData>,
    rk: Map<DefaultKey, nat>,
    ks: Seq<DefaultKey>,
    b: nat,
    vs: Seq<WireValue>,
)
    requires
        store_ok(m, rk),
        forall|j: int|
            0 <= j < ks.len() ==> {
                &&& m.dom().contains(#[trigger] ks[j])
                &&& rk.dom().contains(ks[j])
                &&& rk[ks[j]] < b
            },
        vs.len() == ks.len(),
        forall|j: int|
            0 <= j < ks.len() ==> wire_view(#[trigger] vs[j]) == spec_encode(term_at(m, rk, ks[j])),
    ensures
        wire_views(vs) == spec_encode_list(terms_at(m, rk, ks, b), 0),
{
    assert(keys_bounded(m, rk, ks, b));
    lemma_wire_views(vs);
    lemma_terms_at(m, rk, ks, b);
    let ts = terms_at(m, rk, ks, b);
    lemma_spec_encode_list(ts, 0);
    assert forall|j: int| 0 <= j < vs.len() implies wire_views(vs)[j] == spec_encode_list(ts, 0)[j]
        by {
        assert(wire_views(vs)[j] == wire_view(vs[j]));
        assert(ts[j] == term_at(m, rk, ks[j]));
        assert(spec_encode_list(ts, 0)[j - 0] == spec_encode(ts[j]));
    }
    assert(wire_views(vs) =~= spec_encode_list(ts, 0));
}

/// A list of encoded handle-pair terms is the encoding of the pair list.
proof fn lemma_key_pairs_encoded(
    m: Map<DefaultKey, ConcreteSyntaxData>,
    rk: Map<DefaultKey, nat>,
    ps: Seq<(DefaultKey, DefaultKey)>,
    b: nat,
    vs: Seq<WireValue>,
)
    requires
        store_ok(m, rk),
        pairs_bounded(m, rk, ps, b),
        vs.len() == ps.len(),
        forall|j: int|
            0 <= j < ps.len() ==> wire_view(#[trigger] vs[j]) == JVal::Arr(
                seq![
                    spec_encode(term_at(m, rk, ps[j].0)),
                    spec_encode(term_at(m, rk, ps[j].1)),
                ],
            ),
    ensures
        wire_views(vs) == spec_encode_pairs(pairs_at(m, rk, ps, b), 0),
{
    lemma_wire_views(vs);
    lemma_pairs_at(m, rk, ps, b);
    let ts = pairs_at(m, rk, ps, b);
    lemma_spec_encode_pairs(ts, 0);
    assert forall|j: int| 0 <= j < vs.len() implies wire_views(vs)[j] == spec_encode_pairs(ts, 0)[j]
        by {
        assert(wire_views(vs)[j] == wire_view(vs[j]));
        assert(ts[j] == (term_at(m, rk, ps[j].0), term_at(m, rk, ps[j].1)));
        assert(spec_encode_pairs(ts, 0)[j - 0] == JVal::Arr(
            seq![spec_encode(ts[j].0), spec_encode(ts[j].1)],
        ));
    }
    assert(wire_views(vs) =~= spec_encode_pairs(ts, 0));
}

/// Encode one node whose children live in the store, all with ranks below
/// the ghost bound.
#[verifier::rlimit(100)]
#[verifier::spinoff_prover]
fn encode_node(store: &Store, node: &ConcreteSyntaxData, b: Ghost<nat>) -> (r: WireValue)
    requires
        store.wf(),
        node_bounded(store.contents(), store.ranks(), *node, b@),
    ensures
        r@ == spec_encode(term_of_node(store.contents(), store.ranks(), *node, b@)),
    decreases b@, 2int, 0int,
{
    let ghost m = store.contents();
    let ghost rk = store.ranks();
    let ghost t = term_of_node(m, rk, *node, b@);
    match node {
        ConcreteSyntaxData::Var(id) => arr_tag1("Var", encode_ident(id)),
        ConcreteSyntaxData::Lit(n) => arr_tag1("Lit", WireValue::Int(*n as i64)),
        ConcreteSyntaxData::Lam(ids, body) => {
            proof {
                assert(children_of(*node)[0] == *body);
            }
            let inner = encode_idents_vec(ids);
            let bodyv = encode_at(store, *body);
            arr_tag2("Lam", inner, bodyv)
        },
        ConcreteSyntaxData::Ap(f, args) => {
            proof {
                assert(children_of(*node)[0] == *f);
                assert forall|j: int| 0 <= j < args@.len() implies {
                    &&& m.dom().contains(#[trigger] args@[j])
                    &&& rk.dom().contains(args@[j])
                    &&& rank_at(rk, args@[j]) < b@
                } by {
                    assert(children_of(*node)[j + 1] == args@[j]);
                }
            }
            let fv = encode_at(store, *f);
            let argsv = encode_keys(store, args, b);
            proof {
                lemma_keys_encoded(m, rk, args@, b@, argsv->Arr_0@);
            }
            arr_tag2("Ap", fv, argsv)
        },
        ConcreteSyntaxData::Type => arr1("Type"),
        ConcreteSyntaxData::Hole(h) => arr_tag1("Hole", encode_hole(h)),
        ConcreteSyntaxData::Underscore => arr1("Underscore"),
        ConcreteSyntaxData::Dim => arr1("Dim"),
        ConcreteSyntaxData::Cof => arr1("Cof"),
        ConcreteSyntaxData::CofEq(a, c) => {
            proof {
                assert(children_of(*node)[0] == *a);
                assert(children_of(*node)[1] == *c);
            }
            let av = encode_at(store, *a);
            let cv = encode_at(store, *c);
            arr_tag2("CofEq", av, cv)
        },
        ConcreteSyntaxData::CofLe(a, c) => {
            proof {
                assert(children_of(*node)[0] == *a);
                assert(children_of(*node)[1] == *c);
            }
            let av = encode_at(store, *a);
            let cv = encode_at(store, *c);
            arr_tag2("CofLe", av, cv)
        },
        ConcreteSyntaxData::Join(ts) => {
            proof {
                assert(keys_prefix_bounded(m, rk, *node, ts@, b@));
            }
            let tsv = encode_keys(store, ts, b);
            proof {
                lemma_keys_encoded(m, rk, ts@, b@, tsv->Arr_0@);
            }
            arr_tag1("Join", tsv)
        },
        ConcreteSyntaxData::Meet(ts) => {
            proof {
                assert(keys_prefix_bounded(m, rk, *node, ts@, b@));
            }
            let tsv = encode_keys(store, ts, b);
            proof {
                lemma_keys_encoded(m, rk, ts@, b@, tsv->Arr_0@);
            }
            arr_tag1("Meet", tsv)
        },
        ConcreteSyntaxData::CofSplit(ps) => {
            proof {
                assert forall|j: int| 0 <= j < ps@.len() implies {
                    &&& m.dom().contains((#[trigger] ps@[j]).0)
                    &&& rk.dom().contains(ps@[j].0)
                    &&& rank_at(rk, ps@[j].0) < b@
                    &&& m.dom().contains(ps@[j].1)
                    &&& rk.dom().contains(ps@[j].1)
                    &&& rank_at(rk, ps@[j].1) < b@
                } by {
                    assert(children_of(*node)[2 * j] == ps@[j].0);
                    assert(children_of(*node)[2 * j + 1] == ps@[j].1);
                }
            }
            let psv = encode_key_pairs(store, ps, b);
            proof {
                lemma_key_pairs_encoded(m, rk, ps@, b@, psv->Arr_0@);
            }
            arr_tag1("CofSplit", psv)
        },
        ConcreteSyntaxData::TopC => arr1("TopC"),
        ConcreteSyntaxData::BotC => arr1("BotC"),
        ConcreteSyntaxData::HComChk(a, c, e) => {
            proof {
                assert(children_of(*node)[0] == *a);
                assert(children_of(*node)[1] == *c);
                assert(children_of(*node)[2] == *e);
            }
            let av = encode_at(store, *a);
            let cv = encode_at(store, *c);
            let ev = encode_at(store, *e);
            arr_tag3("HComChk", av, cv, ev)
        },
        ConcreteSyntaxData::HFillChk(a, c) => {
            proof {
                assert(children_of(*node)[0] == *a);
                assert(children_of(*node)[1] == *c);
            }
            let av = encode_at(store, *a);
            let cv = encode_at(store, *c);
            arr_tag2("HFillChk", av, cv)
        },
    }
}

/// The keys of a node's list field are bounded, spelled out for the prover.
pub open spec fn keys_prefix_bounded(
    m: Map<DefaultKey, ConcreteSyntaxData>,
    rk: Map<DefaultKey, nat>,
    node: ConcreteSyntaxData,
    ks: Seq<DefaultKey>,
    b: nat,
) -> bool {
    forall|j: int|
        0 <= j < ks.len() ==> {
            &&& m.dom().contains(#[trigger] ks[j])
            &&& rk.dom().contains(ks[j])
            &&& rank_at(rk, ks[j]) < b
        }
}

/// Encode the terms under a list of handles into one nested sequence.
fn encode_keys(store: &Store, ks: &Vec<DefaultKey>, b: Ghost<nat>) -> (r: WireValue)
    requires
        store.wf(),
        forall|j: int|
            0 <= j < ks@.len() ==> {
                &&& store.contents().dom().contains(#[trigger] ks@[j])
                &&& store.ranks().dom().contains(ks@[j])
                &&& rank_at(store.ranks(), ks@[j]) < b@
            },
    ensures
        r is Arr,
        r->Arr_0@.len() == ks@.len(),
        forall|j: int|
            0 <= j < ks@.len() ==> (#[trigger] r->Arr_0@[j])@ == spec_encode(
                term_at(store.contents(), store.ranks(), ks@[j]),
            ),
    decreases b@, 1int, 0int,
{
    let mut out: Vec<WireValue> = Vec::new();
    let mut i: usize = 0;
    while i < ks.len()
        invariant
            0 <= i <= ks.len(),
            store.wf(),
            forall|j: int|
                0 <= j < ks@.len() ==> {
                    &&& store.contents().dom().contains(#[trigger] ks@[j])
                    &&& store.ranks().dom().contains(ks@[j])
                    &&& rank_at(store.ranks(), ks@[j]) < b@
                },
            out@.len() == i,
            forall|j: int|
                0 <= j < i ==> (#[trigger] out@[j])@ == spec_encode(
                    term_at(store.contents(), store.ranks(), ks@[j]),
                ),
        decreases ks.len() - i,
    {
        let v = encode_at(store, ks[i]);
        out.push(v);
        i = i + 1;
    }
    WireValue::Arr(out)
}

/// Encode the terms under a list of handle pairs, each pair as a
/// two-element sequence.
fn encode_key_pairs(store: &Store, ps: &Vec<(DefaultKey, DefaultKey)>, b: Ghost<nat>) -> (r:
    WireValue)
    requires
        store.wf(),
        forall|j: int|
            0 <= j < ps@.len() ==> {
                &&& store.contents().dom().contains((#[trigger] ps@[j]).0)
                &&& store.ranks().dom().contains(ps@[j].0)
                &&& rank_at(store.ranks(), ps@[j].0) < b@
                &&& store.contents().dom().contains(ps@[j].1)
                &&& store.ranks().dom().contains(ps@[j].1)
                &&& rank_at(store.ranks(), ps@[j].1) < b@
            },
    ensures
        r is Arr,
        r->Arr_0@.len() == ps@.len(),
        forall|j: int|
            0 <= j < ps@.len() ==> (#[trigger] r->Arr_0@[j])@ == JVal::Arr(
                seq![
                    spec_encode(term_at(store.contents(), store.ranks(), ps@[j].0)),
                    spec_encode(term_at(store.contents(), store.ranks(), ps@[j].1)),
                ],
            ),
    decreases b@, 1int, 0int,
{
    let mut out: Vec<WireValue> = Vec::new();
    let mut i: usize = 0;
    while i < ps.len()
        invariant
            0 <= i <= ps.len(),
            store.wf(),
            forall|j: int|
                0 <= j < ps@.len() ==> {
                    &&& store.contents().dom().contains((#[trigger] ps@[j]).0)
                    &&& store.ranks().dom().contains(ps@[j].0)
                    &&& rank_at(store.ranks(), ps@[j].0) < b@
                    &&& store.contents().dom().contains(ps@[j].1)
                    &&& store.ranks().dom().contains(ps@[j].1)
                    &&& rank_at(store.ranks(), ps@[j].1) < b@
                },
            out@.len() == i,
            forall|j: int|
                0 <= j < i ==> (#[trigger] out@[j])@ == JVal::Arr(
                    seq![
                        spec_encode(term_at(store.contents(), store.ranks(), ps@[j].0)),
                        spec_encode(term_at(store.contents(), store.ranks(), ps@[j].1)),
                    ],
                ),
        decreases ps.len() - i,
    {
        let a = encode_at(store, ps[i].0);
        let c = encode_at(store, ps[i].1);
        let pv = WireValue::Arr(vec![a, c]);
        proof {
            lemma_wire_views(pv->Arr_0@);
            assert(wire_views(pv->Arr_0@) =~= seq![a@, c@]);
        }
        out.push(pv);
        i = i + 1;
    }
    WireValue::Arr(out)
}

/// A syntax term held in a store: the store together with the root handle,
/// sharable so that recursive encoding can walk the structure without
/// deep-copying.
pub struct ConcreteSyntax(pub std::rc::Rc<Store>, pub DefaultKey);

/// A top-level term document ready for the wire.
pub struct Node {
    pub node: ConcreteSyntax,
}

impl ConcreteSyntax {
    /// The term this view denotes.
    pub open spec fn term(self) -> SpecTerm {
        term_at(self.0.contents(), self.0.ranks(), self.1)
    }

    /// The view is a valid handle into a well-formed store.
    pub open spec fn wf(self) -> bool {
        &&& self.0.wf()
        &&& self.0.contents().dom().contains(self.1)
    }

    /// Pair a store with a root handle, checking that the store issued the
    /// handle; a handle the store does not hold is rejected.
    pub fn new(store: std::rc::Rc<Store>, root: DefaultKey) -> (r: Result<
        ConcreteSyntax,
        StoreError,
    >)
        requires
            store.wf(),
        ensures
            r is Ok <==> store.contents().dom().contains(root),
            r matches Ok(cs) ==> cs == ConcreteSyntax(store, root) && cs.wf(),
            r matches Err(e) ==> e == StoreError::OutOfDomain,
    {
        match store.lookup(root) {
            Ok(_) => Ok(ConcreteSyntax(store, root)),
            Err(e) => Err(e),
        }
    }

    /// Encode the term under the root handle into its interchange form.
    pub fn encode(&self) -> (r: WireValue)
        requires
            self.wf(),
        ensures
            r@ == spec_encode(self.term()),
    {
        encode_at(&self.0, self.1)
    }
}

impl Node {
    /// Encode the document's term into its interchange form.
    pub fn encode(&self) -> (r: WireValue)
        requires
            self.node.wf(),
        ensures
            r@ == spec_encode(self.node.term()),
    {
        self.node.encode()
    }
}


/// Well-formedness of a tail of elements, from elementwise facts.
proof fn lemma_jvals_wf_from(vs: Seq<JVal>, i: int)
    requires
        0 <= i <= vs.len(),
        forall|k: int| i <= k < vs.len() ==> crate::json::jval_wf(#[trigger] vs[k]),
    ensures
        crate::json::jvals_wf(vs, i),
    decreases vs.len() - i,
{
    if i < vs.len() {
        lemma_jvals_wf_from(vs, i + 1);
    }
}

/// Well-formedness of a tail of members, from elementwise facts.
proof fn lemma_jmembers_wf_from(ms: Seq<(Seq<char>, JVal)>, i: int)
    requires
        0 <= i <= ms.len(),
        forall|k: int| i <= k < ms.len() ==> crate::json::jval_wf((#[trigger] ms[k]).1),
    ensures
        crate::json::jmembers_wf(ms, i),
    decreases ms.len() - i,
{
    if i < ms.len() {
        lemma_jmembers_wf_from(ms, i + 1);
    }
}

/// The encoding of an identifier is a well-formed document.
proof fn lemma_encode_ident_wf(id: SpecIdent)
    ensures
        crate::json::jval_wf(spec_encode_ident(id)),
{
    match id {
        SpecIdent::Anon => {
            lemma_jvals_wf_from(seq![JVal::Str("Anon"@)], 0);
        },
        SpecIdent::User(segs) => {
            let inner = Seq::new(segs.len(), |k: int| JVal::Str(segs[k]));
            lemma_jvals_wf_from(inner, 0);
            lemma_jvals_wf_from(seq![JVal::Str("User"@), JVal::Arr(inner)], 0);
        },
        SpecIdent::Machine(nm) => {
            lemma_jvals_wf_from(seq![JVal::Str("Machine"@), JVal::Str(nm)], 0);
        },
    }
}

/// The encoding of a hole record is a well-formed document.
proof fn lemma_encode_hole_wf(h: SpecHole)
    ensures
        crate::json::jval_wf(spec_encode_hole(h)),
{
    lemma_jmembers_wf_from(spec_encode_hole(h)->Obj_0, 0);
}

/// The encoding of a term is a well-formed document: every integer scalar
/// in it is a 32-bit literal, well inside the wire's 64-bit range.
pub proof fn lemma_encode_wf(t: SpecTerm)
    ensures
        crate::json::jval_wf(spec_encode(t)),
    decreases t, 1int, 0int,
{
    match t {
        SpecTerm::Var(id) => {
            lemma_encode_ident_wf(id);
            lemma_jvals_wf_from(spec_encode(t)->Arr_0, 0);
        },
        SpecTerm::Lit(_) => {
            lemma_jvals_wf_from(spec_encode(t)->Arr_0, 0);
        },
        SpecTerm::Lam(ids, body) => {
            let inner = Seq::new(ids.len(), |k: int| spec_encode_ident(ids[k]));
            assert forall|k: int| 0 <= k < inner.len() implies crate::json::jval_wf(
                #[trigger] inner[k],
            ) by {
                lemma_encode_ident_wf(ids[k]);
            }
            lemma_jvals_wf_from(inner, 0);
            lemma_encode_wf(*body);
            lemma_jvals_wf_from(spec_encode(t)->Arr_0, 0);
        },
        SpecTerm::Ap(f, args) => {
            lemma_encode_wf(*f);
            lemma_encode_each(args, 0);
            lemma_spec_encode_list(args, 0);
            assert forall|k: int|
                0 <= k < spec_encode_list(args, 0).len() implies crate::json::jval_wf(
                #[trigger] spec_encode_list(args, 0)[k],
            ) by {
                assert(spec_encode_list(args, 0)[k - 0] == spec_encode(args[k]));
            }
            lemma_jvals_wf_from(spec_encode_list(args, 0), 0);
            lemma_jvals_wf_from(spec_encode(t)->Arr_0, 0);
        },
        SpecTerm::Type => {
            lemma_jvals_wf_from(spec_encode(t)->Arr_0, 0);
        },
        SpecTerm::Hole(h) => {
            lemma_encode_hole_wf(h);
            lemma_jvals_wf_from(spec_encode(t)->Arr_0, 0);
        },
        SpecTerm::Underscore => {
            lemma_jvals_wf_from(spec_encode(t)->Arr_0, 0);
        },
        SpecTerm::Dim => {
            lemma_jvals_wf_from(spec_encode(t)->Arr_0, 0);
        },
        SpecTerm::Cof => {
            lemma_jvals_wf_from(spec_encode(t)->Arr_0, 0);
        },
        SpecTerm::CofEq(a, b) => {
            lemma_encode_wf(*a);
            lemma_encode_wf(*b);
            lemma_jvals_wf_from(spec_encode(t)->Arr_0, 0);
        },
        SpecTerm::CofLe(a, b) => {
            lemma_encode_wf(*a);
            lemma_encode_wf(*b);
            lemma_jvals_wf_from(spec_encode(t)->Arr_0, 0);
        },
        SpecTerm::Join(ts) => {
            lemma_encode_each(ts, 0);
            lemma_spec_encode_list(ts, 0);
            assert forall|k: int|
                0 <= k < spec_encode_list(ts, 0).len() implies crate::json::jval_wf(
                #[trigger] spec_encode_list(ts, 0)[k],
            ) by {
                assert(spec_encode_list(ts, 0)[k - 0] == spec_encode(ts[k]));
            }
            lemma_jvals_wf_from(spec_encode_list(ts, 0), 0);
            lemma_jvals_wf_from(spec_encode(t)->Arr_0, 0);
        },
        SpecTerm::Meet(ts) => {
            lemma_encode_each(ts, 0);
            lemma_spec_encode_list(ts, 0);
            assert forall|k: int|
                0 <= k < spec_encode_list(ts, 0).len() implies crate::json::jval_wf(
                #[trigger] spec_encode_list(ts, 0)[k],
            ) by {
                assert(spec_encode_list(ts, 0)[k - 0] == spec_encode(ts[k]));
            }
            lemma_jvals_wf_from(spec_encode_list(ts, 0), 0);
            lemma_jvals_wf_from(spec_encode(t)->Arr_0, 0);
        },
        SpecTerm::CofSplit(ps) => {
            lemma_encode_each_pair(ps, 0);
            lemma_spec_encode_pairs(ps, 0);
            assert forall|k: int|
                0 <= k < spec_encode_pairs(ps, 0).len() implies crate::json::jval_wf(
                #[trigger] spec_encode_pairs(ps, 0)[k],
            ) by {
                assert(spec_encode_pairs(ps, 0)[k - 0] == JVal::Arr(
                    seq![spec_encode(ps[k].0), spec_encode(ps[k].1)],
                ));
                lemma_jvals_wf_from(seq![spec_encode(ps[k].0), spec_encode(ps[k].1)], 0);
            }
            lemma_jvals_wf_from(spec_encode_pairs(ps, 0), 0);
            lemma_jvals_wf_from(spec_encode(t)->Arr_0, 0);
        },
        SpecTerm::TopC => {
            lemma_jvals_wf_from(spec_encode(t)->Arr_0, 0);
        },
        SpecTerm::BotC => {
            lemma_jvals_wf_from(spec_encode(t)->Arr_0, 0);
        },
        SpecTerm::HComChk(a, b, c) => {
            lemma_encode_wf(*a);
            lemma_encode_wf(*b);
            lemma_encode_wf(*c);
            lemma_jvals_wf_from(spec_encode(t)->Arr_0, 0);
        },
        SpecTerm::HFillChk(a, b) => {
            lemma_encode_wf(*a);
            lemma_encode_wf(*b);
            lemma_jvals_wf_from(spec_encode(t)->Arr_0, 0);
        },
    }
}

/// Well-formed encodings, element by element.
proof fn lemma_encode_each(ts: Seq<SpecTerm>, i: int)
    requires
        0 <= i <= ts.len(),
    ensures
        forall|k: int| i <= k < ts.len() ==> crate::json::jval_wf(spec_encode(#[trigger] ts[k])),
    decreases ts, 0int, ts.len() - i,
{
    if i < ts.len() {
        lemma_encode_wf(ts[i]);
        lemma_encode_each(ts, i + 1);
    }
}

/// Well-formed encodings, pair by pair.
proof fn lemma_encode_each_pair(ps: Seq<(SpecTerm, SpecTerm)>, i: int)
    requires
        0 <= i <= ps.len(),
    ensures
        forall|k: int|
            i <= k < ps.len() ==> crate::json::jval_wf(spec_encode((#[trigger] ps[k]).0))
                && crate::json::jval_wf(spec_encode(ps[k].1)),
    decreases ps, 0int, ps.len() - i,
{
    if i < ps.len() {
        lemma_encode_wf(ps[i].0);
        lemma_encode_wf(ps[i].1);
        lemma_encode_each_pair(ps, i + 1);
    }
}

/// Round trip through the wire's text form: the canonical text of any
/// term's encoding parses back to exactly that encoding, which decodes to
/// a structurally identical term.
pub proof fn lemma_text_round_trip(t: SpecTerm)
    ensures
        crate::json::spec_parse_document(crate::json::spec_render(spec_encode(t))) == Some(
            spec_encode(t),
        ),
        spec_decode(spec_encode(t)) == Ok::<SpecTerm, SpecDecodeError>(t),
{
    lemma_encode_wf(t);
    crate::json::lemma_parse_render_document(spec_encode(t));
    lemma_round_trip(t);
}

} // verus!
