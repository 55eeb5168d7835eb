//! The canonical interchange form: a tagged-array document value. Terms,
//! identifiers and messages all render into this form, and it is what the
//! text layer reads and writes.
use vstd::prelude::*;

verus! {

/// Mathematical model of an interchange document.
pub enum JVal {
    Null,
    Bool(bool),
    Int(int),
    Str(Seq<char>),
    Arr(Seq<JVal>),
    Obj(Seq<(Seq<char>, JVal)>),
}

/// An interchange document: the tagged-array scheme exchanged with the
/// cooperating process. Arrays carry tags and children; objects carry the
/// record forms (such as a hole's name/silent fields); opaque payloads pass
/// through unevaluated as whole sub-documents.
#[derive(Debug, PartialEq, Eq)]
pub enum WireValue {
    Null,
    Bool(bool),
    Int(i64),
    Str(String),
    Arr(Vec<WireValue>),
    Obj(Vec<(String, WireValue)>),
}

/// The document denoted by a wire value.
pub open spec fn wire_view(w: WireValue) -> JVal
    decreases w, 1int,
{
    match w {
        WireValue::Null => JVal::Null,
        WireValue::Bool(b) => JVal::Bool(b),
        WireValue::Int(n) => JVal::Int(n as int),
        WireValue::Str(s) => JVal::Str(s@),
        WireValue::Arr(vs) => JVal::Arr(wire_views(vs@)),
        WireValue::Obj(ms) => JVal::Obj(wire_view_members(ms@)),
    }
}

/// The documents denoted by a sequence of wire values.
pub open spec fn wire_views(vs: Seq<WireValue>) -> Seq<JVal>
    decreases vs, 0int,
{
    if vs.len() == 0 {
        Seq::empty()
    } else {
        seq![wire_view(vs[0])] + wire_views(vs.drop_first())
    }
}

/// The key/document pairs denoted by a sequence of wire members.
pub open spec fn wire_view_members(ms: Seq<(String, WireValue)>) -> Seq<(Seq<char>, JVal)>
    decreases ms, 0int,
{
    if ms.len() == 0 {
        Seq::empty()
    } else {
        seq![(ms[0].0@, wire_view(ms[0].1))] + wire_view_members(ms.drop_first())
    }
}

/// `wire_views` maps `wire_view` over the sequence, element by element.
pub broadcast proof fn lemma_wire_views(vs: Seq<WireValue>)
    ensures
        (#[trigger] wire_views(vs)).len() == vs.len(),
        forall|i: int| 0 <= i < vs.len() ==> wire_views(vs)[i] == wire_view(vs[i]),
    decreases vs.len(),
{
    if vs.len() > 0 {
        lemma_wire_views(vs.drop_first());
    }
}

/// `wire_view_members` maps the view over key/value pairs, pair by pair.
pub broadcast proof fn lemma_wire_view_members(ms: Seq<(String, WireValue)>)
    ensures
        (#[trigger] wire_view_members(ms)).len() == ms.len(),
        forall|i: int|
            0 <= i < ms.len() ==> wire_view_members(ms)[i] == (ms[i].0@, wire_view(ms[i].1)),
    decreases ms.len(),
{
    if ms.len() > 0 {
        lemma_wire_view_members(ms.drop_first());
    }
}

impl View for WireValue {
    type V = JVal;

    open spec fn view(&self) -> JVal {
        wire_view(*self)
    }
}

} // verus!
