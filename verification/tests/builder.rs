//! Builder and arena behaviour: FIFO hole order, handle stability, and the
//! scenario that builds a composition-checker term and encodes it.
use coolttviz::codec::{decode, encode_at, DecodeKind};
use coolttviz::wire::WireValue;
use coolttviz::store::{ConcreteSyntaxData, Store, StoreError};
use coolttviz::syntax::{Hole, Ident, SyntaxRec};
use coolttviz::termbuilder::{BuilderError, Term};

fn lit(n: u32) -> SyntaxRec {
    SyntaxRec::Lit(n)
}

fn user(s: &str) -> Ident {
    Ident::User(vec![s.to_string()])
}

fn hole() -> SyntaxRec {
    SyntaxRec::Hole(Hole { name: None, silent: false })
}

fn str_val(s: &str) -> WireValue {
    WireValue::Str(s.to_string())
}

/// The interchange encoding of the scenario term, built by hand.
fn expected_hcom() -> WireValue {
    let ident_j = || WireValue::Arr(vec![str_val("User"), WireValue::Arr(vec![str_val("j")])]);
    let ident_i = || WireValue::Arr(vec![str_val("User"), WireValue::Arr(vec![str_val("i")])]);
    let enc_lit = |n: i64| WireValue::Arr(vec![str_val("Lit"), WireValue::Int(n)]);
    let enc_var = |id: WireValue| WireValue::Arr(vec![str_val("Var"), id]);
    let enc_hole = || {
        WireValue::Arr(vec![
            str_val("Hole"),
            WireValue::Obj(vec![
                ("name".to_string(), WireValue::Null),
                ("silent".to_string(), WireValue::Bool(false)),
            ]),
        ])
    };
    let eq = |a: WireValue, b: WireValue| WireValue::Arr(vec![str_val("CofEq"), a, b]);
    let split = WireValue::Arr(vec![
        str_val("CofSplit"),
        WireValue::Arr(vec![
            WireValue::Arr(vec![eq(enc_var(ident_j()), enc_lit(0)), enc_hole()]),
            WireValue::Arr(vec![eq(enc_var(ident_i()), enc_lit(0)), enc_hole()]),
            WireValue::Arr(vec![eq(enc_var(ident_i()), enc_lit(1)), enc_hole()]),
        ]),
    ]);
    let lam = WireValue::Arr(vec![str_val("Lam"), WireValue::Arr(vec![ident_j()]), split]);
    WireValue::Arr(vec![str_val("HComChk"), enc_lit(0), enc_lit(1), lam])
}

fn scenario_tree() -> SyntaxRec {
    let var = |id: Ident| SyntaxRec::Var(id);
    let eq = |a: SyntaxRec, b: SyntaxRec| SyntaxRec::CofEq(Box::new(a), Box::new(b));
    SyntaxRec::HComChk(
        Box::new(lit(0)),
        Box::new(lit(1)),
        Box::new(SyntaxRec::Lam(
            vec![user("j")],
            Box::new(SyntaxRec::CofSplit(vec![
                (eq(var(user("j")), lit(0)), hole()),
                (eq(var(user("i")), lit(0)), hole()),
                (eq(var(user("i")), lit(1)), hole()),
            ])),
        )),
    )
}

#[test]
fn builder_scenario_encodes_exactly() {
    let mut builder = Term::new();
    let top = builder.plug(scenario_tree()).expect("root hole open");
    let encoded = encode_at(&builder.map, top);
    assert_eq!(encoded, expected_hcom());
    // The root slot no longer holds a bare hole.
    let node = builder.map.lookup(top).expect("top is valid");
    assert!(!matches!(node, ConcreteSyntaxData::Hole(_)));
}

#[test]
fn fifo_hole_order_and_exhaustion() {
    let mut builder = Term::new();
    let first = builder.plug(lit(5));
    assert!(first.is_ok());
    // Nested holes are never enqueued, so every later plug is exhausted.
    let second = builder.plug(lit(6));
    assert_eq!(second, Err(BuilderError::NoOpenHoles));
    let third = builder.plug(lit(7));
    assert_eq!(third, Err(BuilderError::NoOpenHoles));
}

#[test]
fn plugged_scenario_round_trips_through_decode() {
    let mut builder = Term::new();
    let top = builder.plug(scenario_tree()).expect("root hole open");
    let encoded = encode_at(&builder.map, top);
    let back = decode(&encoded).expect("decodes");
    assert_eq!(back, scenario_tree());
}

#[test]
fn arena_handles_distinct_and_stable() {
    let mut store = Store::new();
    let mut handles = Vec::new();
    for n in 0..8u32 {
        handles.push(store.insert(ConcreteSyntaxData::Lit(n)));
    }
    for i in 0..8usize {
        for j in 0..8usize {
            if i != j {
                assert_ne!(handles[i], handles[j]);
            }
        }
    }
    // Lookup after further insertions still returns the original payload.
    for n in 0..8u32 {
        assert_eq!(
            store.lookup(handles[n as usize]),
            Ok(&ConcreteSyntaxData::Lit(n))
        );
    }
}

#[test]
fn lookup_rejects_unknown_handle() {
    let mut a = Store::new();
    let mut b = Store::new();
    let ka = a.insert(ConcreteSyntaxData::TopC);
    let _ = b.insert(ConcreteSyntaxData::BotC);
    let kb2 = b.insert(ConcreteSyntaxData::Dim);
    // A handle from another store with a different slot layout is rejected.
    assert_eq!(a.lookup(kb2), Err(StoreError::OutOfDomain));
    assert!(a.lookup(ka).is_ok());
}

#[test]
fn unknown_tag_decodes_to_structured_failure() {
    let doc = WireValue::Arr(vec![str_val("NotARealTag"), WireValue::Int(1), WireValue::Int(2)]);
    let err = decode(&doc).expect_err("unknown tag");
    assert_eq!(err.kind, DecodeKind::UnknownTag);
    assert_eq!(err.tag, "NotARealTag".to_string());
    assert_eq!(err.found, 3);
    assert!(err.path.is_empty());
}

#[test]
fn arity_mismatch_decodes_to_structured_failure() {
    let doc = WireValue::Arr(vec![str_val("CofEq"), WireValue::Arr(vec![str_val("TopC")])]);
    let err = decode(&doc).expect_err("arity mismatch");
    assert_eq!(err.kind, DecodeKind::Arity);
    assert_eq!(err.tag, "CofEq".to_string());
    assert_eq!(err.expected, 3);
    assert_eq!(err.found, 2);
}
