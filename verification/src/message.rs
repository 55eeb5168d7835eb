//! The message envelope: the one inbound case this core handles is
//! `DisplayGoal`, a visualization payload. Its `labels` and `cubes` fields
//! are opaque sub-documents passed through unevaluated.
use vstd::prelude::*;

use crate::codec::{spec_err, DecodeError, DecodeKind, SpecDecodeError};
use crate::wire::{lemma_wire_view_members, lemma_wire_views, wire_view, wire_view_members,
    wire_views, JVal, WireValue};

verus! {

/// Mathematical model of a visualization payload.
pub struct SpecGoal {
    pub dims: Seq<Seq<char>>,
    pub labels: Seq<JVal>,
    pub context: Seq<char>,
    pub cubes: Seq<JVal>,
}

/// One full visualization payload: the ordered dimension names, the opaque
/// label payloads, the context text, and the opaque nested cube descriptors.
#[derive(Debug, PartialEq, Eq)]
pub struct DisplayGoal {
    pub dims: Vec<String>,
    pub labels: Vec<WireValue>,
    pub context: String,
    pub cubes: Vec<WireValue>,
}

impl View for DisplayGoal {
    type V = SpecGoal;

    open spec fn view(&self) -> SpecGoal {
        SpecGoal {
            dims: self.dims.deep_view(),
            labels: wire_views(self.labels@),
            context: self.context@,
            cubes: wire_views(self.cubes@),
        }
    }
}

/// A tagged message envelope.
#[derive(Debug, PartialEq, Eq)]
pub enum Message {
    DisplayGoal(DisplayGoal),
}

/// Mathematical model of a message.
pub enum SpecMessage {
    DisplayGoal(SpecGoal),
}

impl View for Message {
    type V = SpecMessage;

    open spec fn view(&self) -> SpecMessage {
        match self {
            Message::DisplayGoal(g) => SpecMessage::DisplayGoal(g@),
        }
    }
}

/// The decode of a message document: the envelope is the tagged sequence
/// `DisplayGoal` followed by the record form of the payload, whose field
/// order `dims`, `labels`, `context`, `cubes` is fixed.
pub open spec fn spec_decode_message(j: JVal) -> Result<SpecMessage, SpecDecodeError> {
    match j {
        JVal::Arr(elems) => {
            if !(elems.len() >= 1 && elems[0] is Str) {
                Err(spec_err(DecodeKind::Shape, Seq::empty(), 0, 0))
            } else if elems[0]->Str_0 != "DisplayGoal"@ {
                Err(
                    spec_err(
                        DecodeKind::UnknownTag,
                        elems[0]->Str_0,
                        0,
                        elems.len() as int,
                    ),
                )
            } else if elems.len() == 2 {
                match elems[1] {
                    JVal::Obj(ms) => {
                        if ms.len() == 4 && ms[0].0 == "dims"@ && ms[1].0 == "labels"@ && ms[2].0
                            == "context"@ && ms[3].0 == "cubes"@ {
                            match (ms[0].1, ms[1].1, ms[2].1, ms[3].1) {
                                (
                                    JVal::Arr(dims),
                                    JVal::Arr(labels),
                                    JVal::Str(context),
                                    JVal::Arr(cubes),
                                ) => {
                                    if forall|i: int|
                                        0 <= i < dims.len() ==> (#[trigger] dims[i]) is Str {
                                        Ok(
                                            SpecMessage::DisplayGoal(
                                                SpecGoal {
                                                    dims: Seq::new(
                                                        dims.len(),
                                                        |i: int| dims[i]->Str_0,
                                                    ),
                                                    labels: labels,
                                                    context: context,
                                                    cubes: cubes,
                                                },
                                            ),
                                        )
                                    } else {
                                        Err(spec_err(DecodeKind::Scalar, "DisplayGoal"@, 4, 4))
                                    }
                                },
                                _ => Err(spec_err(DecodeKind::Scalar, "DisplayGoal"@, 4, 4)),
                            }
                        } else {
                            Err(
                                spec_err(
                                    DecodeKind::Scalar,
                                    "DisplayGoal"@,
                                    4,
                                    ms.len() as int,
                                ),
                            )
                        }
                    },
                    _ => Err(spec_err(DecodeKind::Scalar, "DisplayGoal"@, 2, 2)),
                }
            } else {
                Err(spec_err(DecodeKind::Arity, "DisplayGoal"@, 2, elems.len() as int))
            }
        },
        _ => Err(spec_err(DecodeKind::Shape, Seq::empty(), 0, 0)),
    }
}

/// The spec-level reading of an exec message decode result.
pub open spec fn message_result_view(r: Result<Message, DecodeError>) -> Result<
    SpecMessage,
    SpecDecodeError,
> {
    match r {
        Ok(m) => Ok(m@),
        Err(e) => Err(e@),
    }
}

/// Whether a string equals a fixed spelling.
fn key_eq(s: &String, lit: &str) -> (r: bool)
    ensures
        r == (s@ == lit@),
{
    *s == lit.to_owned()
}

/// A failure at the current node.
fn msg_err(kind: DecodeKind, tag: &str, expected: usize, found: usize) -> (r: DecodeError)
    ensures
        r@ == spec_err(kind, tag@, expected as int, found as int),
{
    let r = DecodeError { kind, tag: tag.to_owned(), expected, found, path: Vec::new() };
    proof {
        assert(r@.path =~= Seq::<int>::empty());
    }
    r
}

/// Decode a sequence of string documents, all at once.
fn decode_strings(ws: &Vec<WireValue>) -> (r: Option<Vec<String>>)
    ensures
        r is Some <==> (forall|i: int|
            0 <= i < wire_views(ws@).len() ==> (#[trigger] wire_views(ws@)[i]) is Str),
        r matches Some(out) ==> out.deep_view() == Seq::new(
            wire_views(ws@).len(),
            |i: int| wire_views(ws@)[i]->Str_0,
        ),
{
    proof {
        lemma_wire_views(ws@);
    }
    let ghost js = wire_views(ws@);
    let mut out: Vec<String> = Vec::new();
    let mut i: usize = 0;
    while i < ws.len()
        invariant
            0 <= i <= ws.len(),
            js == wire_views(ws@),
            js.len() == ws@.len(),
            forall|j: int| 0 <= j < js.len() ==> js[j] == wire_view(ws@[j]),
            out@.len() == i,
            forall|j: int|
                0 <= j < i ==> (#[trigger] js[j]) is Str && out@[j]@ == js[j]->Str_0,
        decreases ws.len() - i,
    {
        match &ws[i] {
            WireValue::Str(sg) => {
                out.push(sg.clone());
                i = i + 1;
            },
            _ => {
                proof {
                    assert(!((js[i as int]) is Str));
                }
                return None;
            },
        }
    }
    proof {
        assert(out.deep_view() =~= Seq::new(js.len(), |j: int| js[j]->Str_0));
    }
    Some(out)
}

/// Decode one message document. Succeeds exactly on a well-formed
/// `DisplayGoal` envelope; the payload's `labels` and `cubes` are passed
/// through as whole sub-documents.
pub fn decode_message(w: WireValue) -> (r: Result<Message, DecodeError>)
    ensures
        message_result_view(r) == spec_decode_message(w@),
{
    proof {
        reveal_strlit("");
        assert(""@ =~= Seq::<char>::empty());
    }
    match w {
        WireValue::Arr(elems) => {
            proof {
                lemma_wire_views(elems@);
            }
            if elems.len() == 0 {
                return Err(msg_err(DecodeKind::Shape, "", 0, 0));
            }
            let tag = match &elems[0] {
                WireValue::Str(tag) => tag,
                _ => {
                    return Err(msg_err(DecodeKind::Shape, "", 0, 0));
                },
            };
            if !key_eq(tag, "DisplayGoal") {
                let r = DecodeError {
                    kind: DecodeKind::UnknownTag,
                    tag: tag.clone(),
                    expected: 0,
                    found: elems.len(),
                    path: Vec::new(),
                };
                proof {
                    assert(r@.path =~= Seq::<int>::empty());
                }
                return Err(r);
            }
            if elems.len() != 2 {
                return Err(msg_err(DecodeKind::Arity, "DisplayGoal", 2, elems.len()));
            }
            let mut elems = elems;
            let payload = elems.pop().unwrap();
            match payload {
                WireValue::Obj(ms) => {
                    proof {
                        lemma_wire_view_members(ms@);
                    }
                    if ms.len() != 4 {
                        return Err(msg_err(DecodeKind::Scalar, "DisplayGoal", 4, ms.len()));
                    }
                    let keys_ok = key_eq(&ms[0].0, "dims") && key_eq(&ms[1].0, "labels") && key_eq(
                        &ms[2].0,
                        "context",
                    ) && key_eq(&ms[3].0, "cubes");
                    if !keys_ok {
                        return Err(msg_err(DecodeKind::Scalar, "DisplayGoal", 4, ms.len()));
                    }
                    let mut ms = ms;
                    let (_, cubes_v) = ms.pop().unwrap();
                    let (_, context_v) = ms.pop().unwrap();
                    let (_, labels_v) = ms.pop().unwrap();
                    let (_, dims_v) = ms.pop().unwrap();
                    match (dims_v, labels_v, context_v, cubes_v) {
                        (
                            WireValue::Arr(dims),
                            WireValue::Arr(labels),
                            WireValue::Str(context),
                            WireValue::Arr(cubes),
                        ) => {
                            match decode_strings(&dims) {
                                None => Err(msg_err(DecodeKind::Scalar, "DisplayGoal", 4, 4)),
                                Some(out) => {
                                    let goal = DisplayGoal { dims: out, labels, context, cubes };
                                    Ok(Message::DisplayGoal(goal))
                                },
                            }
                        },
                        _ => Err(msg_err(DecodeKind::Scalar, "DisplayGoal", 4, 4)),
                    }
                },
                _ => Err(msg_err(DecodeKind::Scalar, "DisplayGoal", 2, 2)),
            }
        },
        _ => Err(msg_err(DecodeKind::Shape, "", 0, 0)),
    }
}

} // verus!
