//! Codec behaviour on concrete terms: round trips, identifier forms, and
//! scalar edges.
use coolttviz::codec::{decode, DecodeKind};
use coolttviz::syntax::{Hole, Ident, SyntaxRec};
use coolttviz::termbuilder::Term;
use coolttviz::wire::WireValue;

fn str_val(s: &str) -> WireValue {
    WireValue::Str(s.to_string())
}

fn round_trip(tree: SyntaxRec, again: SyntaxRec) {
    let mut builder = Term::new();
    let top = builder.plug(tree).expect("root hole open");
    let encoded = coolttviz::codec::encode_at(&builder.map, top);
    let back = decode(&encoded).expect("well-formed encoding decodes");
    assert_eq!(back, again);
}

#[test]
fn round_trip_leaves() {
    round_trip(SyntaxRec::Type, SyntaxRec::Type);
    round_trip(SyntaxRec::Underscore, SyntaxRec::Underscore);
    round_trip(SyntaxRec::Dim, SyntaxRec::Dim);
    round_trip(SyntaxRec::Cof, SyntaxRec::Cof);
    round_trip(SyntaxRec::TopC, SyntaxRec::TopC);
    round_trip(SyntaxRec::BotC, SyntaxRec::BotC);
    round_trip(SyntaxRec::Lit(0), SyntaxRec::Lit(0));
    round_trip(SyntaxRec::Lit(u32::MAX), SyntaxRec::Lit(u32::MAX));
}

#[test]
fn round_trip_identifiers() {
    let mk = |id: Ident| SyntaxRec::Var(id);
    round_trip(mk(Ident::Anon), mk(Ident::Anon));
    round_trip(
        mk(Ident::User(vec!["a".to_string(), "b".to_string()])),
        mk(Ident::User(vec!["a".to_string(), "b".to_string()])),
    );
    round_trip(
        mk(Ident::Machine("gen".to_string())),
        mk(Ident::Machine("gen".to_string())),
    );
}

#[test]
fn round_trip_compound() {
    let mk = || {
        SyntaxRec::Ap(
            Box::new(SyntaxRec::Var(Ident::Anon)),
            vec![
                SyntaxRec::Join(vec![SyntaxRec::TopC, SyntaxRec::BotC]),
                SyntaxRec::Meet(vec![]),
                SyntaxRec::HFillChk(Box::new(SyntaxRec::Lit(3)), Box::new(SyntaxRec::Dim)),
                SyntaxRec::CofLe(Box::new(SyntaxRec::Lit(1)), Box::new(SyntaxRec::Lit(2))),
            ],
        )
    };
    round_trip(mk(), mk());
}

#[test]
fn round_trip_named_silent_hole() {
    let mk = || SyntaxRec::Hole(Hole { name: Some("goal".to_string()), silent: true });
    round_trip(mk(), mk());
}

#[test]
fn anonymous_hole_encodes_with_record_form() {
    let mut builder = Term::new();
    let top = builder
        .plug(SyntaxRec::Hole(Hole { name: None, silent: false }))
        .expect("root hole open");
    let encoded = coolttviz::codec::encode_at(&builder.map, top);
    let expected = WireValue::Arr(vec![
        str_val("Hole"),
        WireValue::Obj(vec![
            ("name".to_string(), WireValue::Null),
            ("silent".to_string(), WireValue::Bool(false)),
        ]),
    ]);
    assert_eq!(encoded, expected);
}

#[test]
fn literal_out_of_range_is_scalar_failure() {
    let doc = WireValue::Arr(vec![str_val("Lit"), WireValue::Int(-1)]);
    let err = decode(&doc).expect_err("negative literal");
    assert_eq!(err.kind, DecodeKind::Scalar);
    assert_eq!(err.path, vec![1usize]);
}

#[test]
fn nested_failure_carries_path() {
    // The failure sits in the second child of the pair at index 1 of the
    // split list, which is element 1 of the document.
    let bad = WireValue::Arr(vec![str_val("NotATag")]);
    let pair_ok = WireValue::Arr(vec![
        WireValue::Arr(vec![str_val("TopC")]),
        WireValue::Arr(vec![str_val("BotC")]),
    ]);
    let pair_bad = WireValue::Arr(vec![WireValue::Arr(vec![str_val("TopC")]), bad]);
    let doc = WireValue::Arr(vec![
        str_val("CofSplit"),
        WireValue::Arr(vec![pair_ok, pair_bad]),
    ]);
    let err = decode(&doc).expect_err("nested unknown tag");
    assert_eq!(err.kind, DecodeKind::UnknownTag);
    assert_eq!(err.tag, "NotATag".to_string());
    assert_eq!(err.path, vec![1usize, 1, 1]);
}

#[test]
fn non_array_document_is_shape_failure() {
    let err = decode(&WireValue::Int(3)).expect_err("scalar document");
    assert_eq!(err.kind, DecodeKind::Shape);
}
