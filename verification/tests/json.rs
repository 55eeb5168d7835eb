//! Text-layer behaviour: canonical rendering, parsing, round trips through
//! the text form, and the text-level failures.
use coolttviz::codec::encode_at;
use coolttviz::json::{parse_document, render_document};
use coolttviz::syntax::{Hole, Ident, SyntaxRec};
use coolttviz::termbuilder::Term;
use coolttviz::wire::WireValue;

fn str_val(s: &str) -> WireValue {
    WireValue::Str(s.to_string())
}

fn round_trip_text(doc: WireValue, again: WireValue) {
    let text = render_document(&doc);
    let back = parse_document(&text).expect("rendered text parses");
    assert_eq!(back, again);
}

#[test]
fn scalars_round_trip_through_text() {
    round_trip_text(WireValue::Null, WireValue::Null);
    round_trip_text(WireValue::Bool(true), WireValue::Bool(true));
    round_trip_text(WireValue::Bool(false), WireValue::Bool(false));
    round_trip_text(WireValue::Int(0), WireValue::Int(0));
    round_trip_text(WireValue::Int(-42), WireValue::Int(-42));
    round_trip_text(WireValue::Int(i64::MAX), WireValue::Int(i64::MAX));
    round_trip_text(WireValue::Int(i64::MIN), WireValue::Int(i64::MIN));
}

#[test]
fn strings_round_trip_through_text() {
    for s in ["", "hello", "a\"b", "back\\slash", "line\nbreak\tand\rmore", "nul\u{0}end",
        "caf\u{e9} \u{1F600}"]
    {
        round_trip_text(str_val(s), str_val(s));
    }
}

#[test]
fn rendering_is_canonical_compact_text() {
    assert_eq!(render_document(&WireValue::Int(-17)), "-17".to_string());
    assert_eq!(render_document(&str_val("a\"b\n\u{1}")), "\"a\\\"b\\n\\u0001\"".to_string());
    assert_eq!(
        render_document(&WireValue::Arr(vec![
            WireValue::Null,
            WireValue::Bool(true),
            WireValue::Arr(vec![]),
        ])),
        "[null,true,[]]".to_string()
    );
    assert_eq!(
        render_document(&WireValue::Obj(vec![
            ("name".to_string(), WireValue::Null),
            ("silent".to_string(), WireValue::Bool(false)),
        ])),
        "{\"name\":null,\"silent\":false}".to_string()
    );
}

#[test]
fn parsing_accepts_whitespace_and_escapes() {
    assert_eq!(
        parse_document(" [ 1 , \"a\" , { \"k\" : null } ]\n"),
        Ok(WireValue::Arr(vec![
            WireValue::Int(1),
            str_val("a"),
            WireValue::Obj(vec![("k".to_string(), WireValue::Null)]),
        ]))
    );
    assert_eq!(parse_document("\"\\u0041\\u00e9\""), Ok(str_val("A\u{e9}")));
    // A surrogate pair encodes one character above the basic plane.
    assert_eq!(parse_document("\"\\ud83d\\ude00\""), Ok(str_val("\u{1F600}")));
    assert_eq!(parse_document("\"\\\"\\\\\\/\\b\\f\\n\\r\\t\""), Ok(str_val("\"\\/\u{8}\u{c}\n\r\t")));
}

#[test]
fn parsing_rejects_malformed_text() {
    // Truncated documents.
    assert!(parse_document("[\"DisplayGoal\"").is_err());
    assert!(parse_document("{\"a\":").is_err());
    assert!(parse_document("\"unterminated").is_err());
    // Trailing content after the document.
    assert!(parse_document("null null").is_err());
    // A lone surrogate escape.
    assert!(parse_document("\"\\ud800\"").is_err());
    // A raw control character inside a string.
    assert!(parse_document("\"a\u{1}b\"").is_err());
    // Numbers that do not fit a 64-bit signed integer.
    assert!(parse_document("9223372036854775808").is_err());
    assert_eq!(parse_document("-9223372036854775808"), Ok(WireValue::Int(i64::MIN)));
    // Fractions and exponents are not integer scalars.
    assert!(parse_document("1.5").is_err());
    assert!(parse_document("1e3").is_err());
    // Not a document at all.
    assert!(parse_document("nope").is_err());
}

#[test]
fn builder_scenario_text_is_the_fixed_schema() {
    let user = |s: &str| Ident::User(vec![s.to_string()]);
    let lit = |n: u32| SyntaxRec::Lit(n);
    let hole = || SyntaxRec::Hole(Hole { name: None, silent: false });
    let var = |id: Ident| SyntaxRec::Var(id);
    let eq = |a: SyntaxRec, b: SyntaxRec| SyntaxRec::CofEq(Box::new(a), Box::new(b));
    let tree = SyntaxRec::HComChk(
        Box::new(lit(0)),
        Box::new(lit(1)),
        Box::new(SyntaxRec::Lam(
            vec![user("j")],
            Box::new(SyntaxRec::CofSplit(vec![
                (eq(var(user("j")), lit(0)), hole()),
                (eq(var(user("i")), lit(0)), hole()),
                (eq(var(user("i")), lit(1)), hole()),
            ])),
        )),
    );
    let mut builder = Term::new();
    let top = builder.plug(tree).expect("root hole open");
    let text = render_document(&encode_at(&builder.map, top));
    let hole_txt = "[\"Hole\",{\"name\":null,\"silent\":false}]";
    let expected = format!(
        "[\"HComChk\",[\"Lit\",0],[\"Lit\",1],[\"Lam\",[[\"User\",[\"j\"]]],[\"CofSplit\",[\
         [[\"CofEq\",[\"Var\",[\"User\",[\"j\"]]],[\"Lit\",0]],{h}],\
         [[\"CofEq\",[\"Var\",[\"User\",[\"i\"]]],[\"Lit\",0]],{h}],\
         [[\"CofEq\",[\"Var\",[\"User\",[\"i\"]]],[\"Lit\",1]],{h}]]]]]",
        h = hole_txt
    );
    assert_eq!(text, expected);
    // The text parses back to the document it renders.
    let back = parse_document(&text).expect("parses");
    assert_eq!(render_document(&back), text);
}
