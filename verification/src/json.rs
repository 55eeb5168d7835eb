//! The text form of the interchange document: the byte-exact compatibility
//! surface with the cooperating process. `render_document` produces the
//! canonical compact text of a document; `parse_document` reads one document
//! back out of connection text, accepting surrounding whitespace and the
//! standard string escapes. Numbers are integers: the schema's scalars are
//! integer literals, and a fractional or exponent form is rejected by the
//! surrounding grammar.
use vstd::prelude::*;

use crate::wire::{lemma_wire_view_members, lemma_wire_views, wire_view, wire_view_members,
    wire_views, JVal, WireValue};

verus! {

// ---------------------------------------------------------------------------
// Rendering: document -> text
// ---------------------------------------------------------------------------
/// The character of one decimal digit.
pub open spec fn digit_char(d: int) -> char {
    ((48 + d) as u8) as char
}

/// The character of one hexadecimal digit, lower case.
pub open spec fn hex_char(d: int) -> char {
    if d < 10 {
        ((48 + d) as u8) as char
    } else {
        ((87 + d) as u8) as char
    }
}

/// The decimal digits of a natural number, most significant first.
pub open spec fn dec_digits(n: nat) -> Seq<char>
    decreases n,
{
    if n < 10 {
        seq![digit_char(n as int)]
    } else {
        dec_digits(n / 10) + seq![digit_char((n % 10) as int)]
    }
}

/// The text of an integer scalar.
pub open spec fn spec_render_int(v: int) -> Seq<char> {
    if v < 0 {
        seq!['-'] + dec_digits((-v) as nat)
    } else {
        dec_digits(v as nat)
    }
}

/// The text of one string character: itself, or its escape. The quote and
/// the backslash are escaped, the named control escapes are used where they
/// exist, and any other control character renders as a four-digit hex
/// escape.
pub open spec fn esc_char(c: char) -> Seq<char> {
    if c == '"' {
        seq!['\\', '"']
    } else if c == '\\' {
        seq!['\\', '\\']
    } else if c == '\u{0008}' {
        seq!['\\', 'b']
    } else if c == '\u{000C}' {
        seq!['\\', 'f']
    } else if c == '\n' {
        seq!['\\', 'n']
    } else if c == '\r' {
        seq!['\\', 'r']
    } else if c == '\t' {
        seq!['\\', 't']
    } else if (c as u32) < 32 {
        seq!['\\', 'u', '0', '0', hex_char(((c as u32) / 16) as int), hex_char(
            ((c as u32) % 16) as int,
        )]
    } else {
        seq![c]
    }
}

/// The escaped text of the string characters from position `i` on.
pub open spec fn esc_from(s: Seq<char>, i: int) -> Seq<char>
    decreases s.len() - i,
{
    if i < 0 || i >= s.len() {
        Seq::empty()
    } else {
        esc_char(s[i]) + esc_from(s, i + 1)
    }
}

/// The text of a string scalar: its escaped characters between quotes.
pub open spec fn spec_render_string(s: Seq<char>) -> Seq<char> {
    seq!['"'] + esc_from(s, 0) + seq!['"']
}

/// The canonical compact text of a document: no whitespace, elements and
/// members separated by commas, keys and values separated by a colon.
pub open spec fn spec_render(j: JVal) -> Seq<char>
    decreases j, 1int, 0int,
{
    match j {
        JVal::Null => seq!['n', 'u', 'l', 'l'],
        JVal::Bool(b) => if b {
            seq!['t', 'r', 'u', 'e']
        } else {
            seq!['f', 'a', 'l', 's', 'e']
        },
        JVal::Int(v) => spec_render_int(v),
        JVal::Str(s) => spec_render_string(s),
        JVal::Arr(vs) => seq!['['] + spec_render_elems(vs, 0) + seq![']'],
        JVal::Obj(ms) => seq!['{'] + spec_render_members(ms, 0) + seq!['}'],
    }
}

/// The comma-separated texts of the elements from position `i` on.
pub open spec fn spec_render_elems(vs: Seq<JVal>, i: int) -> Seq<char>
    decreases vs, 0int, vs.len() - i,
{
    if i < 0 || i >= vs.len() {
        Seq::empty()
    } else if i == vs.len() - 1 {
        spec_render(vs[i])
    } else {
        spec_render(vs[i]) + seq![','] + spec_render_elems(vs, i + 1)
    }
}

/// The comma-separated `"key":value` texts of the members from position `i`
/// on.
pub open spec fn spec_render_members(ms: Seq<(Seq<char>, JVal)>, i: int) -> Seq<char>
    decreases ms, 0int, ms.len() - i,
{
    if i < 0 || i >= ms.len() {
        Seq::empty()
    } else if i == ms.len() - 1 {
        spec_render_string(ms[i].0) + seq![':'] + spec_render(ms[i].1)
    } else {
        spec_render_string(ms[i].0) + seq![':'] + spec_render(ms[i].1) + seq![',']
            + spec_render_members(ms, i + 1)
    }
}

// ---------------------------------------------------------------------------
// Parsing: text -> document
// ---------------------------------------------------------------------------
/// Whitespace between tokens.
pub open spec fn is_ws(c: char) -> bool {
    c == ' ' || c == '\n' || c == '\r' || c == '\t'
}

/// A decimal digit.
pub open spec fn is_digit(c: char) -> bool {
    48 <= (c as u32) && (c as u32) <= 57
}

/// The first position at or after `i` holding no whitespace.
pub open spec fn skip_ws(s: Seq<char>, i: int) -> int
    decreases s.len() - i,
{
    if 0 <= i < s.len() && is_ws(s[i]) {
        skip_ws(s, i + 1)
    } else {
        i
    }
}

/// Skipping whitespace never moves backwards nor past the end.
pub broadcast proof fn lemma_skip_ws(s: Seq<char>, i: int)
    requires
        0 <= i <= s.len(),
    ensures
        i <= #[trigger] skip_ws(s, i) <= s.len(),
    decreases s.len() - i,
{
    if i < s.len() && is_ws(s[i]) {
        lemma_skip_ws(s, i + 1);
    }
}

/// The value of one hexadecimal digit, or a negative number when the
/// character is none.
pub open spec fn hex_val(c: char) -> int {
    if 48 <= (c as u32) && (c as u32) <= 57 {
        (c as u32) - 48
    } else if 97 <= (c as u32) && (c as u32) <= 102 {
        (c as u32) - 87
    } else if 65 <= (c as u32) && (c as u32) <= 70 {
        (c as u32) - 55
    } else {
        -1
    }
}

/// Four hexadecimal digits starting at `i`, read as one number; nothing
/// when any of the four is missing or no digit.
pub open spec fn spec_parse_hex4(s: Seq<char>, i: int) -> Option<int> {
    if 0 <= i && i + 4 <= s.len() && hex_val(s[i]) >= 0 && hex_val(s[i + 1]) >= 0 && hex_val(
        s[i + 2],
    ) >= 0 && hex_val(s[i + 3]) >= 0 {
        Some(
            hex_val(s[i]) * 0x1000 + hex_val(s[i + 1]) * 0x100 + hex_val(s[i + 2]) * 0x10
                + hex_val(s[i + 3]),
        )
    } else {
        None
    }
}

/// One escape sequence, the backslash already consumed: the escaped
/// character and the position after the escape. Hexadecimal escapes accept
/// any scalar value, a high surrogate followed by a low surrogate pair, and
/// reject a lone surrogate.
pub open spec fn spec_parse_escape(s: Seq<char>, i: int) -> Option<(char, int)> {
    if !(0 <= i < s.len()) {
        None
    } else if s[i] == '"' {
        Some(('"', i + 1))
    } else if s[i] == '\\' {
        Some(('\\', i + 1))
    } else if s[i] == '/' {
        Some(('/', i + 1))
    } else if s[i] == 'b' {
        Some(('\u{0008}', i + 1))
    } else if s[i] == 'f' {
        Some(('\u{000C}', i + 1))
    } else if s[i] == 'n' {
        Some(('\n', i + 1))
    } else if s[i] == 'r' {
        Some(('\r', i + 1))
    } else if s[i] == 't' {
        Some(('\t', i + 1))
    } else if s[i] == 'u' {
        match spec_parse_hex4(s, i + 1) {
            None => None,
            Some(n) => {
                if 0xD800 <= n <= 0xDBFF {
                    if i + 7 <= s.len() && s[i + 5] == '\\' && s[i + 6] == 'u' {
                        match spec_parse_hex4(s, i + 7) {
                            None => None,
                            Some(m) => {
                                if 0xDC00 <= m <= 0xDFFF {
                                    Some(
                                        (
                                            ((0x10000 + (n - 0xD800) * 0x400 + (m - 0xDC00))
                                                as u32) as char,
                                            i + 11,
                                        ),
                                    )
                                } else {
                                    None
                                }
                            },
                        }
                    } else {
                        None
                    }
                } else if 0xDC00 <= n <= 0xDFFF {
                    None
                } else {
                    Some(((n as u32) as char, i + 5))
                }
            },
        }
    } else {
        None
    }
}

/// The characters of a string scalar from position `i` (just after the
/// opening quote) to its closing quote, escapes resolved; the position
/// returned is just after the closing quote. An unterminated string, a raw
/// control character, or a bad escape is nothing.
pub open spec fn spec_parse_string_body(s: Seq<char>, i: int) -> Option<(Seq<char>, int)>
    decreases s.len() - i,
{
    if !(0 <= i < s.len()) {
        None
    } else if s[i] == '"' {
        Some((Seq::empty(), i + 1))
    } else if s[i] == '\\' {
        match spec_parse_escape(s, i + 1) {
            None => None,
            Some((c, j)) => {
                if i < j <= s.len() {
                    match spec_parse_string_body(s, j) {
                        None => None,
                        Some((rest, k)) => Some((seq![c] + rest, k)),
                    }
                } else {
                    None
                }
            },
        }
    } else if (s[i] as u32) < 32 {
        None
    } else {
        match spec_parse_string_body(s, i + 1) {
            None => None,
            Some((rest, k)) => Some((seq![s[i]] + rest, k)),
        }
    }
}

/// Decimal digits from position `i`, accumulated onto `acc`; stops at the
/// first non-digit, the end of the text, or once the accumulator has passed
/// the largest representable magnitude (any such number is out of range and
/// its exact value no longer matters).
pub open spec fn spec_parse_digits(s: Seq<char>, i: int, acc: int) -> (int, int)
    decreases s.len() - i,
{
    if !(0 <= i < s.len()) || !is_digit(s[i]) {
        (acc, i)
    } else if acc > 0x8000_0000_0000_0000 {
        (acc, i)
    } else {
        spec_parse_digits(s, i + 1, acc * 10 + ((s[i] as u32) - 48))
    }
}

/// The digit scan never moves backwards nor past the end.
pub broadcast proof fn lemma_parse_digits(s: Seq<char>, i: int, acc: int)
    requires
        0 <= i <= s.len(),
    ensures
        i <= (#[trigger] spec_parse_digits(s, i, acc)).1 <= s.len(),
    decreases s.len() - i,
{
    if 0 <= i < s.len() && is_digit(s[i]) && !(acc > 0x8000_0000_0000_0000) {
        lemma_parse_digits(s, i + 1, acc * 10 + ((s[i] as u32) - 48));
    }
}

/// An integer scalar at position `i`: an optional minus sign and at least
/// one digit; nothing when the value does not fit a 64-bit signed integer.
pub open spec fn spec_parse_number(s: Seq<char>, i: int) -> Option<(JVal, int)> {
    if !(0 <= i < s.len()) {
        None
    } else {
        let neg = s[i] == '-';
        let start = if neg {
            i + 1
        } else {
            i
        };
        if !(start < s.len() && is_digit(s[start])) {
            None
        } else {
            let (v, end) = spec_parse_digits(s, start, 0);
            let val = if neg {
                -v
            } else {
                v
            };
            if -0x8000_0000_0000_0000 <= val <= 0x7FFF_FFFF_FFFF_FFFF {
                Some((JVal::Int(val), end))
            } else {
                None
            }
        }
    }
}

/// One document value at position `i`, leading whitespace skipped: the
/// value and the position just after it.
pub open spec fn spec_parse_value(s: Seq<char>, i: int) -> Option<(JVal, int)>
    decreases s.len() - i, 0int,
{
    if !(0 <= i <= s.len()) {
        None
    } else {
        let j = skip_ws(s, i);
        if !(i <= j < s.len()) {
            None
        } else if s[j] == '[' {
            let k = skip_ws(s, j + 1);
            if j < k < s.len() && s[k] == ']' {
                Some((JVal::Arr(Seq::empty()), k + 1))
            } else {
                match spec_parse_elems(s, j + 1) {
                    None => None,
                    Some((vs, e)) => Some((JVal::Arr(vs), e)),
                }
            }
        } else if s[j] == '{' {
            let k = skip_ws(s, j + 1);
            if j < k < s.len() && s[k] == '}' {
                Some((JVal::Obj(Seq::empty()), k + 1))
            } else {
                match spec_parse_members(s, j + 1) {
                    None => None,
                    Some((ms, e)) => Some((JVal::Obj(ms), e)),
                }
            }
        } else if s[j] == '"' {
            match spec_parse_string_body(s, j + 1) {
                None => None,
                Some((str, e)) => Some((JVal::Str(str), e)),
            }
        } else if s[j] == 't' {
            if j + 4 <= s.len() && s[j + 1] == 'r' && s[j + 2] == 'u' && s[j + 3] == 'e' {
                Some((JVal::Bool(true), j + 4))
            } else {
                None
            }
        } else if s[j] == 'f' {
            if j + 5 <= s.len() && s[j + 1] == 'a' && s[j + 2] == 'l' && s[j + 3] == 's' && s[j
                + 4] == 'e' {
                Some((JVal::Bool(false), j + 5))
            } else {
                None
            }
        } else if s[j] == 'n' {
            if j + 4 <= s.len() && s[j + 1] == 'u' && s[j + 2] == 'l' && s[j + 3] == 'l' {
                Some((JVal::Null, j + 4))
            } else {
                None
            }
        } else if s[j] == '-' || is_digit(s[j]) {
            spec_parse_number(s, j)
        } else {
            None
        }
    }
}

/// The elements of a non-empty sequence from position `i` (just after the
/// opening bracket or a comma) to the closing bracket; the position
/// returned is just after the bracket.
pub open spec fn spec_parse_elems(s: Seq<char>, i: int) -> Option<(Seq<JVal>, int)>
    decreases s.len() - i, 1int,
{
    if !(0 <= i <= s.len()) {
        None
    } else {
        match spec_parse_value(s, i) {
            None => None,
            Some((v, k)) => {
                if !(i < k <= s.len()) {
                    None
                } else {
                    let k2 = skip_ws(s, k);
                    if !(k <= k2 < s.len()) {
                        None
                    } else if s[k2] == ',' {
                        match spec_parse_elems(s, k2 + 1) {
                            None => None,
                            Some((rest, e)) => Some((seq![v] + rest, e)),
                        }
                    } else if s[k2] == ']' {
                        Some((seq![v], k2 + 1))
                    } else {
                        None
                    }
                }
            },
        }
    }
}

/// The members of a non-empty record from position `i` (just after the
/// opening brace or a comma) to the closing brace; the position returned is
/// just after the brace.
pub open spec fn spec_parse_members(s: Seq<char>, i: int) -> Option<(Seq<(Seq<char>, JVal)>, int)>
    decreases s.len() - i, 1int,
{
    if !(0 <= i <= s.len()) {
        None
    } else {
        let j = skip_ws(s, i);
        if !(i <= j < s.len()) || s[j] != '"' {
            None
        } else {
            match spec_parse_string_body(s, j + 1) {
                None => None,
                Some((key, k)) => {
                    if !(j < k <= s.len()) {
                        None
                    } else {
                        let c = skip_ws(s, k);
                        if !(k <= c < s.len()) || s[c] != ':' {
                            None
                        } else {
                            match spec_parse_value(s, c + 1) {
                                None => None,
                                Some((v, k2)) => {
                                    if !(c < k2 <= s.len()) {
                                        None
                                    } else {
                                        let k3 = skip_ws(s, k2);
                                        if !(k2 <= k3 < s.len()) {
                                            None
                                        } else if s[k3] == ',' {
                                            match spec_parse_members(s, k3 + 1) {
                                                None => None,
                                                Some((rest, e)) => Some(
                                                    (seq![(key, v)] + rest, e),
                                                ),
                                            }
                                        } else if s[k3] == '}' {
                                            Some((seq![(key, v)], k3 + 1))
                                        } else {
                                            None
                                        }
                                    }
                                },
                            }
                        }
                    }
                },
            }
        }
    }
}

/// One whole document: one value, with nothing but whitespace around it.
pub open spec fn spec_parse_document(s: Seq<char>) -> Option<JVal> {
    match spec_parse_value(s, 0) {
        None => None,
        Some((v, e)) => {
            if 0 <= e <= s.len() && skip_ws(s, e) == s.len() {
                Some(v)
            } else {
                None
            }
        },
    }
}


// ---------------------------------------------------------------------------
// Text boundaries (trusted)
// ---------------------------------------------------------------------------
/// Relies on str::chars: yields exactly the characters of the string, in
/// order; collected into a vector.
#[verifier::external_body]
fn str_to_chars(s: &str) -> (r: Vec<char>)
    ensures
        r@ == s@,
{
    s.chars().collect()
}

/// Relies on String's FromIterator over char: concatenates exactly the
/// characters of the vector, in order.
#[verifier::external_body]
fn chars_to_string(v: &Vec<char>) -> (r: String)
    ensures
        r@ == v@,
{
    v.iter().collect()
}

/// Relies on char::from_u32: returns the character with the given code
/// point exactly when the value is a scalar value (not a surrogate, at most
/// 0x10FFFF), and nothing otherwise.
#[verifier::external_body]
fn char_from_u32(v: u32) -> (r: Option<char>)
    ensures
        r is Some <==> (v < 0xD800 || (0xE000 <= v && v <= 0x10FFFF)),
        r matches Some(c) ==> c as u32 == v && c == (v as char),
{
    char::from_u32(v)
}

// ---------------------------------------------------------------------------
// Rendering, executable
// ---------------------------------------------------------------------------
/// The decimal digits of `n`, appended.
fn render_u64(n: u64, out: &mut Vec<char>)
    ensures
        final(out)@ == old(out)@ + dec_digits(n as nat),
    decreases n,
{
    if n < 10 {
        let d: u8 = 48 + (n as u8);
        out.push(d as char);
        proof {
            assert(out@ =~= old(out)@ + dec_digits(n as nat));
        }
    } else {
        render_u64(n / 10, out);
        let d: u8 = 48 + ((n % 10) as u8);
        out.push(d as char);
        proof {
            assert(out@ =~= old(out)@ + (dec_digits((n / 10) as nat) + seq![
                digit_char((n % 10) as int),
            ]));
        }
    }
}

/// The text of an integer scalar, appended.
fn render_i64(v: i64, out: &mut Vec<char>)
    ensures
        final(out)@ == old(out)@ + spec_render_int(v as int),
{
    if v < 0 {
        out.push('-');
        let mag: u64 = if v == i64::MIN {
            0x8000_0000_0000_0000u64
        } else {
            (-v) as u64
        };
        render_u64(mag, out);
        proof {
            assert(out@ =~= old(out)@ + (seq!['-'] + dec_digits(mag as nat)));
        }
    } else {
        render_u64(v as u64, out);
    }
}

/// One hexadecimal digit character, lower case.
fn hex_char_of(d: u8) -> (c: char)
    requires
        d < 16,
    ensures
        c == hex_char(d as int),
{
    if d < 10 {
        let v: u8 = 48 + d;
        v as char
    } else {
        let v: u8 = 87 + d;
        v as char
    }
}

/// One string character, escaped as needed, appended.
fn esc_push(c: char, out: &mut Vec<char>)
    ensures
        final(out)@ == old(out)@ + esc_char(c),
{
    if c == '"' {
        out.push('\\');
        out.push('"');
    } else if c == '\\' {
        out.push('\\');
        out.push('\\');
    } else if c == '\u{0008}' {
        out.push('\\');
        out.push('b');
    } else if c == '\u{000C}' {
        out.push('\\');
        out.push('f');
    } else if c == '\n' {
        out.push('\\');
        out.push('n');
    } else if c == '\r' {
        out.push('\\');
        out.push('r');
    } else if c == '\t' {
        out.push('\\');
        out.push('t');
    } else if (c as u32) < 32 {
        out.push('\\');
        out.push('u');
        out.push('0');
        out.push('0');
        out.push(hex_char_of(((c as u32) / 16) as u8));
        out.push(hex_char_of(((c as u32) % 16) as u8));
    } else {
        out.push(c);
    }
    proof {
        assert(out@ =~= old(out)@ + esc_char(c));
    }
}

/// The escaped characters from position `i` on, appended.
fn render_esc_from(cs: &Vec<char>, i: usize, out: &mut Vec<char>)
    requires
        i <= cs@.len(),
    ensures
        final(out)@ == old(out)@ + esc_from(cs@, i as int),
    decreases cs@.len() - i,
{
    if i < cs.len() {
        esc_push(cs[i], out);
        render_esc_from(cs, i + 1, out);
        proof {
            assert(out@ =~= old(out)@ + (esc_char(cs@[i as int]) + esc_from(cs@, i + 1)));
        }
    } else {
        proof {
            assert(out@ =~= old(out)@ + esc_from(cs@, i as int));
        }
    }
}

/// The quoted, escaped text of a string scalar, appended.
fn render_string(st: &String, out: &mut Vec<char>)
    ensures
        final(out)@ == old(out)@ + spec_render_string(st@),
{
    let cs = str_to_chars(st.as_str());
    out.push('"');
    render_esc_from(&cs, 0, out);
    out.push('"');
    proof {
        assert(out@ =~= old(out)@ + (seq!['"'] + esc_from(st@, 0) + seq!['"']));
    }
}

/// The canonical compact text of a document, appended.
fn render_value(w: &WireValue, out: &mut Vec<char>)
    ensures
        final(out)@ == old(out)@ + spec_render(w@),
    decreases *w, 1int, 0int,
{
    match w {
        WireValue::Null => {
            out.push('n');
            out.push('u');
            out.push('l');
            out.push('l');
            proof {
                assert(out@ =~= old(out)@ + seq!['n', 'u', 'l', 'l']);
            }
        },
        WireValue::Bool(b) => {
            if *b {
                out.push('t');
                out.push('r');
                out.push('u');
                out.push('e');
                proof {
                    assert(out@ =~= old(out)@ + seq!['t', 'r', 'u', 'e']);
                }
            } else {
                out.push('f');
                out.push('a');
                out.push('l');
                out.push('s');
                out.push('e');
                proof {
                    assert(out@ =~= old(out)@ + seq!['f', 'a', 'l', 's', 'e']);
                }
            }
        },
        WireValue::Int(v) => {
            render_i64(*v, out);
        },
        WireValue::Str(st) => {
            render_string(st, out);
        },
        WireValue::Arr(vs) => {
            proof {
                lemma_wire_views(vs@);
            }
            out.push('[');
            let ghost mid = out@;
            render_elems(vs, 0, out);
            out.push(']');
            proof {
                assert(out@ =~= old(out)@ + (seq!['['] + spec_render_elems(wire_views(vs@), 0)
                    + seq![']']));
            }
        },
        WireValue::Obj(ms) => {
            proof {
                lemma_wire_view_members(ms@);
            }
            out.push('{');
            render_members(ms, 0, out);
            out.push('}');
            proof {
                assert(out@ =~= old(out)@ + (seq!['{'] + spec_render_members(
                    wire_view_members(ms@),
                    0,
                ) + seq!['}']));
            }
        },
    }
}

/// The comma-separated element texts from position `i` on, appended.
fn render_elems(vs: &Vec<WireValue>, i: usize, out: &mut Vec<char>)
    requires
        i <= vs@.len(),
    ensures
        final(out)@ == old(out)@ + spec_render_elems(wire_views(vs@), i as int),
    decreases *vs, 0int, vs@.len() - i,
{
    proof {
        lemma_wire_views(vs@);
    }
    if i < vs.len() {
        render_value(&vs[i], out);
        if i + 1 < vs.len() {
            out.push(',');
            render_elems(vs, i + 1, out);
            proof {
                assert(out@ =~= old(out)@ + (spec_render(wire_views(vs@)[i as int]) + seq![',']
                    + spec_render_elems(wire_views(vs@), i + 1)));
            }
        } else {
            proof {
                assert(out@ =~= old(out)@ + spec_render_elems(wire_views(vs@), i as int));
            }
        }
    } else {
        proof {
            assert(out@ =~= old(out)@ + spec_render_elems(wire_views(vs@), i as int));
        }
    }
}

/// The comma-separated member texts from position `i` on, appended.
fn render_members(ms: &Vec<(String, WireValue)>, i: usize, out: &mut Vec<char>)
    requires
        i <= ms@.len(),
    ensures
        final(out)@ == old(out)@ + spec_render_members(wire_view_members(ms@), i as int),
    decreases *ms, 0int, ms@.len() - i,
{
    proof {
        lemma_wire_view_members(ms@);
    }
    if i < ms.len() {
        render_string(&ms[i].0, out);
        out.push(':');
        render_value(&ms[i].1, out);
        if i + 1 < ms.len() {
            out.push(',');
            render_members(ms, i + 1, out);
            proof {
                assert(out@ =~= old(out)@ + (spec_render_string(wire_view_members(ms@)[i as int].0)
                    + seq![':'] + spec_render(wire_view_members(ms@)[i as int].1) + seq![',']
                    + spec_render_members(wire_view_members(ms@), i + 1)));
            }
        } else {
            proof {
                assert(out@ =~= old(out)@ + (spec_render_string(wire_view_members(ms@)[i as int].0)
                    + seq![':'] + spec_render(wire_view_members(ms@)[i as int].1)));
            }
        }
    } else {
        proof {
            assert(out@ =~= old(out)@ + spec_render_members(wire_view_members(ms@), i as int));
        }
    }
}

/// Render one document into its canonical compact text: the byte form that
/// goes on the wire.
pub fn render_document(w: &WireValue) -> (r: String)
    ensures
        r@ == spec_render(w@),
{
    let mut out: Vec<char> = Vec::new();
    render_value(w, &mut out);
    proof {
        assert(out@ =~= spec_render(w@));
    }
    chars_to_string(&out)
}


// ---------------------------------------------------------------------------
// Parsing, executable
// ---------------------------------------------------------------------------
/// The parse failure: the text held no single well-formed document.
#[derive(Debug, PartialEq, Eq)]
pub struct ParseError;

/// The spec-level reading of a parsed value and its end position.
pub open spec fn opt_val_view(r: Option<(WireValue, usize)>) -> Option<(JVal, int)> {
    match r {
        Option::None => None,
        Option::Some((w, j)) => Some((w@, j as int)),
    }
}

/// The spec-level reading of parsed elements and their end position.
pub open spec fn opt_elems_view(r: Option<(Vec<WireValue>, usize)>) -> Option<(Seq<JVal>, int)> {
    match r {
        Option::None => None,
        Option::Some((vs, j)) => Some((wire_views(vs@), j as int)),
    }
}

/// The spec-level reading of parsed members and their end position.
pub open spec fn opt_members_view(r: Option<(Vec<(String, WireValue)>, usize)>) -> Option<
    (Seq<(Seq<char>, JVal)>, int),
> {
    match r {
        Option::None => None,
        Option::Some((ms, j)) => Some((wire_view_members(ms@), j as int)),
    }
}

/// The spec-level reading of a parsed string body and its end position.
pub open spec fn opt_chars_view(r: Option<(Vec<char>, usize)>) -> Option<(Seq<char>, int)> {
    match r {
        Option::None => None,
        Option::Some((cs, j)) => Some((cs@, j as int)),
    }
}

/// The spec-level reading of a parsed escape and its end position.
pub open spec fn opt_char_view(r: Option<(char, usize)>) -> Option<(char, int)> {
    match r {
        Option::None => None,
        Option::Some((c, j)) => Some((c, j as int)),
    }
}

/// The first position at or after `i` holding no whitespace.
fn skip_ws_exec(cs: &Vec<char>, i: usize) -> (r: usize)
    requires
        i <= cs@.len(),
    ensures
        r as int == skip_ws(cs@, i as int),
        i <= r <= cs@.len(),
    decreases cs@.len() - i,
{
    if i < cs.len() {
        let c = cs[i];
        if c == ' ' || c == '\n' || c == '\r' || c == '\t' {
            return skip_ws_exec(cs, i + 1);
        }
    }
    i
}

/// The value of one hexadecimal digit, or a negative number.
fn hex_val_exec(c: char) -> (r: i32)
    ensures
        r as int == hex_val(c),
{
    let u = c as u32;
    if 48 <= u && u <= 57 {
        (u - 48) as i32
    } else if 97 <= u && u <= 102 {
        (u - 87) as i32
    } else if 65 <= u && u <= 70 {
        (u - 55) as i32
    } else {
        -1
    }
}

/// Four hexadecimal digits starting at `i`, read as one number.
fn hex4_exec(cs: &Vec<char>, i: usize) -> (r: Option<u32>)
    ensures
        r is Some <==> spec_parse_hex4(cs@, i as int) is Some,
        r matches Some(n) ==> spec_parse_hex4(cs@, i as int) == Some(n as int) && n < 0x10000,
        r is Some ==> i + 4 <= cs@.len(),
{
    if cs.len() >= 4 && i <= cs.len() - 4 {
        let a = hex_val_exec(cs[i]);
        let b = hex_val_exec(cs[i + 1]);
        let c = hex_val_exec(cs[i + 2]);
        let d = hex_val_exec(cs[i + 3]);
        if a >= 0 && b >= 0 && c >= 0 && d >= 0 {
            proof {
                assert(hex_val(cs@[i as int]) <= 15);
                assert(hex_val(cs@[i + 1]) <= 15);
                assert(hex_val(cs@[i + 2]) <= 15);
                assert(hex_val(cs@[i + 3]) <= 15);
            }
            Some(
                (a as u32) * 0x1000 + (b as u32) * 0x100 + (c as u32) * 0x10 + (d as u32),
            )
        } else {
            None
        }
    } else {
        None
    }
}

/// One escape sequence, the backslash already consumed.
fn parse_escape_exec(cs: &Vec<char>, i: usize) -> (r: Option<(char, usize)>)
    ensures
        opt_char_view(r) == spec_parse_escape(cs@, i as int),
{
    if i >= cs.len() {
        return None;
    }
    let c = cs[i];
    if c == '"' {
        Some(('"', i + 1))
    } else if c == '\\' {
        Some(('\\', i + 1))
    } else if c == '/' {
        Some(('/', i + 1))
    } else if c == 'b' {
        Some(('\u{0008}', i + 1))
    } else if c == 'f' {
        Some(('\u{000C}', i + 1))
    } else if c == 'n' {
        Some(('\n', i + 1))
    } else if c == 'r' {
        Some(('\r', i + 1))
    } else if c == 't' {
        Some(('\t', i + 1))
    } else if c == 'u' {
        match hex4_exec(cs, i + 1) {
            None => None,
            Some(n) => {
                if 0xD800 <= n && n <= 0xDBFF {
                    if cs.len() >= 7 && i <= cs.len() - 7 && cs[i + 5] == '\\' && cs[i + 6]
                        == 'u' {
                        match hex4_exec(cs, i + 7) {
                            None => None,
                            Some(m) => {
                                if 0xDC00 <= m && m <= 0xDFFF {
                                    let cp: u32 = 0x10000 + (n - 0xD800) * 0x400 + (m - 0xDC00);
                                    match char_from_u32(cp) {
                                        Some(ch) => Some((ch, i + 11)),
                                        None => {
                                            proof {
                                                assert(false);
                                            }
                                            None
                                        },
                                    }
                                } else {
                                    None
                                }
                            },
                        }
                    } else {
                        None
                    }
                } else if 0xDC00 <= n && n <= 0xDFFF {
                    None
                } else {
                    match char_from_u32(n) {
                        Some(ch) => Some((ch, i + 5)),
                        None => {
                            proof {
                                assert(false);
                            }
                            None
                        },
                    }
                }
            },
        }
    } else {
        None
    }
}

/// The characters of a string scalar up to its closing quote.
fn parse_string_chars(cs: &Vec<char>, i: usize) -> (r: Option<(Vec<char>, usize)>)
    ensures
        opt_chars_view(r) == spec_parse_string_body(cs@, i as int),
    decreases cs@.len() - i,
{
    if i >= cs.len() {
        return None;
    }
    let c = cs[i];
    if c == '"' {
        let out: Vec<char> = Vec::new();
        proof {
            assert(out@ =~= Seq::<char>::empty());
        }
        Some((out, i + 1))
    } else if c == '\\' {
        match parse_escape_exec(cs, i + 1) {
            None => None,
            Some((ch, j)) => {
                if i < j && j <= cs.len() {
                    match parse_string_chars(cs, j) {
                        None => None,
                        Some((mut rest, k)) => {
                            let ghost rest0 = rest@;
                            rest.insert(0, ch);
                            proof {
                                assert(rest@ =~= seq![ch] + rest0);
                            }
                            Some((rest, k))
                        },
                    }
                } else {
                    None
                }
            },
        }
    } else if (c as u32) < 32 {
        None
    } else {
        match parse_string_chars(cs, i + 1) {
            None => None,
            Some((mut rest, k)) => {
                let ghost rest0 = rest@;
                rest.insert(0, c);
                proof {
                    assert(rest@ =~= seq![c] + rest0);
                }
                Some((rest, k))
            },
        }
    }
}

/// Decimal digits from position `i`, accumulated onto `acc`.
fn parse_digits_exec(cs: &Vec<char>, i: usize, acc: u128) -> (r: (u128, usize))
    requires
        i <= cs@.len(),
    ensures
        (r.0 as int, r.1 as int) == spec_parse_digits(cs@, i as int, acc as int),
        i <= r.1 <= cs@.len(),
    decreases cs@.len() - i,
{
    if i >= cs.len() {
        return (acc, i);
    }
    let c = cs[i];
    let u = c as u32;
    if !(48 <= u && u <= 57) {
        proof {
            assert(!is_digit(cs@[i as int]));
        }
        (acc, i)
    } else if acc > 0x8000_0000_0000_0000u128 {
        (acc, i)
    } else {
        proof {
            assert(is_digit(cs@[i as int]));
        }
        parse_digits_exec(cs, i + 1, acc * 10 + ((u - 48) as u128))
    }
}

/// An integer scalar at position `i`.
fn parse_number_exec(cs: &Vec<char>, i: usize) -> (r: Option<(WireValue, usize)>)
    requires
        i <= cs@.len(),
    ensures
        opt_val_view(r) == spec_parse_number(cs@, i as int),
{
    if i >= cs.len() {
        return None;
    }
    let neg = cs[i] == '-';
    let start = if neg {
        i + 1
    } else {
        i
    };
    if !(start < cs.len()) {
        return None;
    }
    let u = cs[start] as u32;
    if !(48 <= u && u <= 57) {
        proof {
            assert(!is_digit(cs@[start as int]));
        }
        return None;
    }
    proof {
        assert(is_digit(cs@[start as int]));
    }
    let (v, end) = parse_digits_exec(cs, start, 0);
    if neg {
        if v <= 0x8000_0000_0000_0000u128 {
            let val: i64 = if v == 0x8000_0000_0000_0000u128 {
            i64::MIN
            } else {
                -(v as i64)
            };
            Some((WireValue::Int(val), end))
        } else {
            None
        }
    } else {
        if v <= 0x7FFF_FFFF_FFFF_FFFFu128 {
            Some((WireValue::Int(v as i64), end))
        } else {
            None
        }
    }
}

/// One document value at position `i`, leading whitespace skipped.
#[verifier::rlimit(60)]
fn parse_value_exec(cs: &Vec<char>, i: usize) -> (r: Option<(WireValue, usize)>)
    requires
        i <= cs@.len(),
    ensures
        opt_val_view(r) == spec_parse_value(cs@, i as int),
    decreases cs@.len() - i, 0int,
{
    let j = skip_ws_exec(cs, i);
    if !(j < cs.len()) {
        return None;
    }
    let c = cs[j];
    if c == '[' {
        let k = skip_ws_exec(cs, j + 1);
        if j < k && k < cs.len() && cs[k] == ']' {
            let vs: Vec<WireValue> = Vec::new();
            proof {
                lemma_wire_views(vs@);
                assert(wire_views(vs@) =~= Seq::<JVal>::empty());
            }
            Some((WireValue::Arr(vs), k + 1))
        } else {
            match parse_elems_exec(cs, j + 1) {
                None => None,
                Some((vs, e)) => Some((WireValue::Arr(vs), e)),
            }
        }
    } else if c == '{' {
        let k = skip_ws_exec(cs, j + 1);
        if j < k && k < cs.len() && cs[k] == '}' {
            let ms: Vec<(String, WireValue)> = Vec::new();
            proof {
                lemma_wire_view_members(ms@);
                assert(wire_view_members(ms@) =~= Seq::<(Seq<char>, JVal)>::empty());
            }
            Some((WireValue::Obj(ms), k + 1))
        } else {
            match parse_members_exec(cs, j + 1) {
                None => None,
                Some((ms, e)) => Some((WireValue::Obj(ms), e)),
            }
        }
    } else if c == '"' {
        match parse_string_chars(cs, j + 1) {
            None => None,
            Some((chars, e)) => Some((WireValue::Str(chars_to_string(&chars)), e)),
        }
    } else if c == 't' {
        if cs.len() >= 4 && j <= cs.len() - 4 && cs[j + 1] == 'r' && cs[j + 2] == 'u' && cs[j
            + 3] == 'e' {
            Some((WireValue::Bool(true), j + 4))
        } else {
            None
        }
    } else if c == 'f' {
        if cs.len() >= 5 && j <= cs.len() - 5 && cs[j + 1] == 'a' && cs[j + 2] == 'l' && cs[j
            + 3] == 's' && cs[j + 4] == 'e' {
            Some((WireValue::Bool(false), j + 5))
        } else {
            None
        }
    } else if c == 'n' {
        if cs.len() >= 4 && j <= cs.len() - 4 && cs[j + 1] == 'u' && cs[j + 2] == 'l' && cs[j
            + 3] == 'l' {
            Some((WireValue::Null, j + 4))
        } else {
            None
        }
    } else {
        let u = c as u32;
        if c == '-' || (48 <= u && u <= 57) {
            proof {
                assert(c == '-' || is_digit(cs@[j as int]));
            }
            parse_number_exec(cs, j)
        } else {
            proof {
                assert(!is_digit(cs@[j as int]));
            }
            None
        }
    }
}

/// The elements of a non-empty sequence up to the closing bracket.
fn parse_elems_exec(cs: &Vec<char>, i: usize) -> (r: Option<(Vec<WireValue>, usize)>)
    requires
        i <= cs@.len(),
    ensures
        opt_elems_view(r) == spec_parse_elems(cs@, i as int),
    decreases cs@.len() - i, 1int,
{
    match parse_value_exec(cs, i) {
        None => None,
        Some((v, k)) => {
            if !(i < k && k <= cs.len()) {
                None
            } else {
                let k2 = skip_ws_exec(cs, k);
                if !(k2 < cs.len()) {
                    None
                } else if cs[k2] == ',' {
                    match parse_elems_exec(cs, k2 + 1) {
                        None => None,
                        Some((mut rest, e)) => {
                            let ghost rest0 = rest@;
                            let ghost gv = v@;
                            rest.insert(0, v);
                            proof {
                                lemma_wire_views(rest@);
                                lemma_wire_views(rest0);
                                assert(wire_views(rest@) =~= seq![gv] + wire_views(rest0));
                            }
                            Some((rest, e))
                        },
                    }
                } else if cs[k2] == ']' {
                    let ghost gv = v@;
                    let mut out: Vec<WireValue> = Vec::new();
                    out.push(v);
                    proof {
                        lemma_wire_views(out@);
                        assert(wire_views(out@) =~= seq![gv]);
                    }
                    Some((out, k2 + 1))
                } else {
                    None
                }
            }
        },
    }
}

/// The members of a non-empty record up to the closing brace.
#[verifier::rlimit(60)]
fn parse_members_exec(cs: &Vec<char>, i: usize) -> (r: Option<(Vec<(String, WireValue)>, usize)>)
    requires
        i <= cs@.len(),
    ensures
        opt_members_view(r) == spec_parse_members(cs@, i as int),
    decreases cs@.len() - i, 1int,
{
    let j = skip_ws_exec(cs, i);
    if !(j < cs.len()) || !(cs[j] == '"') {
        return None;
    }
    match parse_string_chars(cs, j + 1) {
        None => None,
        Some((key_chars, k)) => {
            if !(j < k && k <= cs.len()) {
                None
            } else {
                let c = skip_ws_exec(cs, k);
                if !(c < cs.len()) || !(cs[c] == ':') {
                    None
                } else {
                    match parse_value_exec(cs, c + 1) {
                        None => None,
                        Some((v, k2)) => {
                            if !(c < k2 && k2 <= cs.len()) {
                                None
                            } else {
                                let k3 = skip_ws_exec(cs, k2);
                                if !(k3 < cs.len()) {
                                    None
                                } else if cs[k3] == ',' {
                                    match parse_members_exec(cs, k3 + 1) {
                                        None => None,
                                        Some((mut rest, e)) => {
                                            let ghost rest0 = rest@;
                                            let ghost gk = key_chars@;
                                            let ghost gv = v@;
                                            let key = chars_to_string(&key_chars);
                                            rest.insert(0, (key, v));
                                            proof {
                                                lemma_wire_view_members(rest@);
                                                lemma_wire_view_members(rest0);
                                                assert(wire_view_members(rest@) =~= seq![
                                                    (gk, gv),
                                                ] + wire_view_members(rest0));
                                            }
                                            Some((rest, e))
                                        },
                                    }
                                } else if cs[k3] == '}' {
                                    let ghost gk = key_chars@;
                                    let ghost gv = v@;
                                    let key = chars_to_string(&key_chars);
                                    let mut out: Vec<(String, WireValue)> = Vec::new();
                                    out.push((key, v));
                                    proof {
                                        lemma_wire_view_members(out@);
                                        assert(wire_view_members(out@) =~= seq![(gk, gv)]);
                                    }
                                    Some((out, k3 + 1))
                                } else {
                                    None
                                }
                            }
                        },
                    }
                }
            }
        },
    }
}

/// Parse one whole document out of connection text: exactly one value with
/// nothing but whitespace around it, or a parse failure — truncated text,
/// a bad escape, a number out of range, or trailing content all fail.
pub fn parse_document(s: &str) -> (r: Result<WireValue, ParseError>)
    ensures
        r is Ok <==> spec_parse_document(s@) is Some,
        r matches Ok(w) ==> spec_parse_document(s@) == Some(w@),
        r matches Err(e) ==> e == ParseError,
{
    let cs = str_to_chars(s);
    match parse_value_exec(&cs, 0) {
        None => Err(ParseError),
        Some((v, e)) => {
            if e <= cs.len() {
                let k = skip_ws_exec(&cs, e);
                if k == cs.len() {
                    Ok(v)
                } else {
                    Err(ParseError)
                }
            } else {
                Err(ParseError)
            }
        },
    }
}


// ---------------------------------------------------------------------------
// Round trip: parsing canonical text gives the document back
// ---------------------------------------------------------------------------
/// A document whose integer scalars all fit the wire's 64-bit signed
/// integers; every document a `WireValue` denotes is such.
pub open spec fn jval_wf(j: JVal) -> bool
    decreases j, 1int, 0int,
{
    match j {
        JVal::Int(v) => -0x8000_0000_0000_0000 <= v <= 0x7FFF_FFFF_FFFF_FFFF,
        JVal::Arr(vs) => jvals_wf(vs, 0),
        JVal::Obj(ms) => jmembers_wf(ms, 0),
        _ => true,
    }
}

/// Well-formedness of the elements from position `i` on.
pub open spec fn jvals_wf(vs: Seq<JVal>, i: int) -> bool
    decreases vs, 0int, vs.len() - i,
{
    if i < 0 || i >= vs.len() {
        true
    } else {
        jval_wf(vs[i]) && jvals_wf(vs, i + 1)
    }
}

/// Well-formedness of the members from position `i` on.
pub open spec fn jmembers_wf(ms: Seq<(Seq<char>, JVal)>, i: int) -> bool
    decreases ms, 0int, ms.len() - i,
{
    if i < 0 || i >= ms.len() {
        true
    } else {
        jval_wf(ms[i].1) && jmembers_wf(ms, i + 1)
    }
}

/// Every character of a number's digit run is a decimal digit, and there is
/// at least one.
proof fn lemma_dec_digits_chars(n: nat)
    ensures
        dec_digits(n).len() >= 1,
        forall|k: int| 0 <= k < dec_digits(n).len() ==> is_digit(#[trigger] dec_digits(n)[k]),
    decreases n,
{
    if n >= 10 {
        lemma_dec_digits_chars(n / 10);
    }
}

/// The value of a digit run read left to right onto an accumulator.
pub open spec fn digits_val(ds: Seq<char>, acc: int) -> int
    decreases ds.len(),
{
    if ds.len() == 0 {
        acc
    } else {
        digits_val(ds.drop_first(), acc * 10 + ((ds[0] as u32) - 48))
    }
}

/// Reading one more digit at the end multiplies and adds.
proof fn lemma_digits_val_snoc(ds: Seq<char>, d: char, acc: int)
    ensures
        digits_val(ds + seq![d], acc) == digits_val(ds, acc) * 10 + ((d as u32) - 48),
    decreases ds.len(),
{
    reveal_with_fuel(digits_val, 3);
    if ds.len() == 0 {
        assert((ds + seq![d])[0] == d);
        assert((ds + seq![d]).drop_first() =~= Seq::<char>::empty());
        assert(digits_val(ds + seq![d], acc) == acc * 10 + ((d as u32) - 48));
    } else {
        assert((ds + seq![d])[0] == ds[0]);
        assert((ds + seq![d]).drop_first() =~= ds.drop_first() + seq![d]);
        lemma_digits_val_snoc(ds.drop_first(), d, acc * 10 + ((ds[0] as u32) - 48));
    }
}

/// The digit run of `n` reads back as `n`.
proof fn lemma_dec_digits_val(n: nat)
    ensures
        digits_val(dec_digits(n), 0) == n,
    decreases n,
{
    reveal_with_fuel(digits_val, 3);
    if n < 10 {
        assert(dec_digits(n) =~= seq![digit_char(n as int)]);
        assert(digits_val(seq![digit_char(n as int)], 0) == digits_val(
            seq![digit_char(n as int)].drop_first(),
            (digit_char(n as int) as u32) - 48,
        ));
        assert(seq![digit_char(n as int)].drop_first() =~= Seq::<char>::empty());
        assert((digit_char(n as int) as u32) == 48 + n);
    } else {
        lemma_dec_digits_val(n / 10);
        lemma_digits_val_snoc(dec_digits(n / 10), digit_char((n % 10) as int), 0);
        assert(dec_digits(n) =~= dec_digits(n / 10) + seq![digit_char((n % 10) as int)]);
    }
}

/// Reading digits never shrinks a non-negative accumulator.
proof fn lemma_digits_val_mono(ds: Seq<char>, acc: int)
    requires
        acc >= 0,
        forall|k: int| 0 <= k < ds.len() ==> is_digit(#[trigger] ds[k]),
    ensures
        digits_val(ds, acc) >= acc,
    decreases ds.len(),
{
    if ds.len() > 0 {
        assert(is_digit(ds[0]));
        lemma_digits_val_mono(ds.drop_first(), acc * 10 + ((ds[0] as u32) - 48));
    }
}

/// The digit scan over an exact digit run, stopped by what follows it.
proof fn lemma_parse_digits_exact(s: Seq<char>, i: int, ds: Seq<char>, acc: int)
    requires
        0 <= i,
        i + ds.len() <= s.len(),
        s.subrange(i, i + ds.len()) == ds,
        forall|k: int| 0 <= k < ds.len() ==> is_digit(#[trigger] ds[k]),
        i + ds.len() == s.len() || !is_digit(s[i + ds.len()]),
        0 <= acc,
        digits_val(ds, acc) <= 0x8000_0000_0000_0000,
    ensures
        spec_parse_digits(s, i, acc) == (digits_val(ds, acc), i + ds.len()),
    decreases ds.len(),
{
    if ds.len() == 0 {
    } else {
        assert(ds[0] == s.subrange(i, i + ds.len())[0]);
        assert(s[i] == ds[0]);
        lemma_digits_val_mono(ds.drop_first(), acc * 10 + ((ds[0] as u32) - 48));
        assert(s.subrange(i + 1, i + ds.len()) =~= ds.drop_first()) by {
            assert forall|k: int| 0 <= k < ds.len() - 1 implies s.subrange(
                i + 1,
                i + ds.len(),
            )[k] == ds.drop_first()[k] by {
                assert(ds[k + 1] == s.subrange(i, i + ds.len())[k + 1]);
            }
        }
        lemma_parse_digits_exact(s, i + 1, ds.drop_first(), acc * 10 + ((ds[0] as u32) - 48));
    }
}

/// The number scan over the exact text of an in-range integer.
proof fn lemma_parse_number_render(s: Seq<char>, i: int, n: int)
    requires
        -0x8000_0000_0000_0000 <= n <= 0x7FFF_FFFF_FFFF_FFFF,
        0 <= i,
        i + spec_render_int(n).len() <= s.len(),
        s.subrange(i, i + spec_render_int(n).len()) == spec_render_int(n),
        i + spec_render_int(n).len() == s.len() || !is_digit(s[i + spec_render_int(n).len()]),
    ensures
        spec_parse_number(s, i) == Some((JVal::Int(n), i + spec_render_int(n).len())),
{
    let r = spec_render_int(n);
    if n < 0 {
        let m = (-n) as nat;
        lemma_dec_digits_chars(m);
        lemma_dec_digits_val(m);
        assert(r =~= seq!['-'] + dec_digits(m));
        assert(s[i] == r[0]);
        assert(r[0] == '-');
        assert(s.subrange(i + 1, i + r.len()) =~= dec_digits(m)) by {
            assert forall|k: int| 0 <= k < r.len() - 1 implies s.subrange(i + 1, i + r.len())[k]
                == dec_digits(m)[k] by {
                assert(s[i + 1 + k] == r[k + 1]);
            }
        }
        assert(s[i + 1] == dec_digits(m)[0]);
        assert(is_digit(s[i + 1]));
        assert(('-' as u32) == 45);
        lemma_parse_digits_exact(s, i + 1, dec_digits(m), 0);
    } else {
        let m = n as nat;
        lemma_dec_digits_chars(m);
        lemma_dec_digits_val(m);
        assert(r =~= dec_digits(m));
        assert(s[i] == r[0]);
        assert(is_digit(s[i]));
        assert(s[i] != '-') by {
            assert(('-' as u32) == 45);
        }
        lemma_parse_digits_exact(s, i, dec_digits(m), 0);
    }
}


/// The escape text of one string character parses back to that character.
proof fn lemma_parse_escape_render(s: Seq<char>, i: int, c: char)
    requires
        esc_char(c).len() >= 2,
        0 <= i,
        i - 1 + esc_char(c).len() <= s.len(),
        forall|k: int| 1 <= k < esc_char(c).len() ==> s[i + k - 1] == #[trigger] esc_char(c)[k],
    ensures
        spec_parse_escape(s, i) == Some((c, i - 1 + esc_char(c).len())),
{
    let e = esc_char(c);
    if c == '"' || c == '\\' || c == '\u{0008}' || c == '\u{000C}' || c == '\n' || c == '\r'
        || c == '\t' {
        assert(s[i] == e[1]);
    } else {
        assert((c as u32) < 32);
        assert(s[i] == e[1]);
        assert(s[i + 1] == e[2]);
        assert(s[i + 2] == e[3]);
        assert(s[i + 3] == e[4]);
        assert(s[i + 4] == e[5]);
        assert(s[i] == 'u');
        assert(hex_val('0') == 0) by {
            assert(('0' as u32) == 48);
        }
        let hi = ((c as u32) / 16) as int;
        let lo = ((c as u32) % 16) as int;
        assert(hex_val(hex_char(hi)) == hi && hex_val(hex_char(lo)) == lo);
        assert(spec_parse_hex4(s, i + 1) == Some(hi * 0x10 + lo));
        assert(hi * 0x10 + lo == c as u32);
        assert(((c as u32) as u32) as char == c);
    }
}

/// The escaped body of a string, closed by a quote, parses back to the
/// string's characters from position `j` on.
proof fn lemma_parse_string_render(s: Seq<char>, i: int, str: Seq<char>, j: int)
    requires
        0 <= j <= str.len(),
        0 <= i,
        i + esc_from(str, j).len() + 1 <= s.len(),
        s.subrange(i, i + esc_from(str, j).len() + 1) == esc_from(str, j) + seq!['"'],
    ensures
        spec_parse_string_body(s, i) == Some((str.skip(j), i + esc_from(str, j).len() + 1)),
    decreases str.len() - j,
{
    let body = esc_from(str, j);
    let whole = body + seq!['"'];
    assert forall|k: int| 0 <= k < whole.len() implies s[i + k] == #[trigger] whole[k] by {
        assert(s.subrange(i, i + body.len() + 1)[k] == whole[k]);
    }
    if j == str.len() {
        assert(body =~= Seq::<char>::empty());
        assert(whole[0] == '"');
        assert(s[i] == whole[0]);
        assert(str.skip(j) =~= Seq::<char>::empty());
    } else {
        let c = str[j];
        let e = esc_char(c);
        assert(body =~= e + esc_from(str, j + 1));
        assert forall|k: int| 0 <= k < e.len() implies s[i + k] == #[trigger] e[k] by {
            assert(whole[k] == e[k]);
        }
        let rest_at = i + e.len();
        let tail = esc_from(str, j + 1) + seq!['"'];
        assert forall|k: int|
            0 <= k < tail.len() implies s.subrange(rest_at, rest_at + esc_from(str, j + 1).len()
            + 1)[k] == #[trigger] tail[k] by {
            assert(whole[e.len() + k] == tail[k]);
            assert(s[rest_at + k] == whole[e.len() + k]);
        }
        assert(s.subrange(rest_at, rest_at + esc_from(str, j + 1).len() + 1) =~= tail);
        lemma_parse_string_render(s, rest_at, str, j + 1);
        if e.len() == 1 {
            assert(e[0] == c);
            assert(s[i] == c);
            assert(c != '"' && c != '\\' && (c as u32) >= 32);
            assert(seq![c] + str.skip(j + 1) =~= str.skip(j));
        } else {
            assert(e[0] == '\\');
            assert(s[i] == '\\');
            lemma_parse_escape_render(s, i + 1, c);
            assert(seq![c] + str.skip(j + 1) =~= str.skip(j));
        }
    }
}

/// The first character of a rendered document: never whitespace and never
/// a closing token, so the value scan starts exactly at it.
proof fn lemma_render_first(v: JVal)
    ensures
        spec_render(v).len() >= 1,
        !is_ws(spec_render(v)[0]),
        spec_render(v)[0] != ']',
        spec_render(v)[0] != '}',
        spec_render(v)[0] != ',',
        spec_render(v)[0] != ':',
        spec_render(v)[0] != '"' || v is Str,
{
    match v {
        JVal::Null => {
            assert(spec_render(v)[0] == 'n');
        },
        JVal::Bool(b) => {
            if b {
                assert(spec_render(v)[0] == 't');
            } else {
                assert(spec_render(v)[0] == 'f');
            }
        },
        JVal::Int(n) => {
            if n < 0 {
                assert(spec_render(v)[0] == '-');
            } else {
                lemma_dec_digits_chars(n as nat);
                assert(spec_render(v)[0] == dec_digits(n as nat)[0]);
                assert(is_digit(spec_render(v)[0]));
            }
        },
        JVal::Str(st) => {
            assert(spec_render(v)[0] == '"');
        },
        JVal::Arr(vs) => {
            assert(spec_render(v)[0] == '[');
        },
        JVal::Obj(ms) => {
            assert(spec_render(v)[0] == '{');
        },
    }
}


/// Elementwise reading of an exact subrange.
proof fn lemma_sub_chars(s: Seq<char>, i: int, t: Seq<char>)
    requires
        0 <= i,
        i + t.len() <= s.len(),
        s.subrange(i, i + t.len()) == t,
    ensures
        forall|k: int| 0 <= k < t.len() ==> s[i + k] == #[trigger] t[k],
{
    assert forall|k: int| 0 <= k < t.len() implies s[i + k] == #[trigger] t[k] by {
        assert(s.subrange(i, i + t.len())[k] == t[k]);
    }
}

/// An exact subrange from elementwise equality.
proof fn lemma_chars_sub(s: Seq<char>, i: int, t: Seq<char>)
    requires
        0 <= i,
        i + t.len() <= s.len(),
        forall|k: int| 0 <= k < t.len() ==> s[i + k] == #[trigger] t[k],
    ensures
        s.subrange(i, i + t.len()) == t,
{
    assert(s.subrange(i, i + t.len()) =~= t);
}

/// Parsing the canonical text of a well-formed document, in place inside a
/// larger text, gives the document back and stops right after it.
proof fn lemma_parse_render_value(v: JVal, s: Seq<char>, i: int)
    requires
        jval_wf(v),
        0 <= i,
        i + spec_render(v).len() <= s.len(),
        s.subrange(i, i + spec_render(v).len()) == spec_render(v),
        i + spec_render(v).len() == s.len() || !is_digit(s[i + spec_render(v).len()]),
    ensures
        spec_parse_value(s, i) == Some((v, i + spec_render(v).len())),
    decreases v, 2int, 0int,
{
    let rv = spec_render(v);
    lemma_sub_chars(s, i, rv);
    lemma_render_first(v);
    assert(s[i] == rv[0]);
    assert(skip_ws(s, i) == i);
    match v {
        JVal::Null => {
            assert(s[i + 1] == rv[1] && s[i + 2] == rv[2] && s[i + 3] == rv[3]);
        },
        JVal::Bool(b) => {
            if b {
                assert(s[i + 1] == rv[1] && s[i + 2] == rv[2] && s[i + 3] == rv[3]);
            } else {
                assert(s[i + 1] == rv[1] && s[i + 2] == rv[2] && s[i + 3] == rv[3] && s[i + 4]
                    == rv[4]);
            }
        },
        JVal::Int(n) => {
            lemma_parse_number_render(s, i, n);
        },
        JVal::Str(st) => {
            let body = esc_from(st, 0);
            assert(rv =~= seq!['"'] + (body + seq!['"']));
            assert forall|k: int| 0 <= k < body.len() + 1 implies s[i + 1 + k] == #[trigger] (body
                + seq!['"'])[k] by {
                assert(rv[1 + k] == (body + seq!['"'])[k]);
            }
            lemma_chars_sub(s, i + 1, body + seq!['"']);
            lemma_parse_string_render(s, i + 1, st, 0);
            assert(st.skip(0) =~= st);
        },
        JVal::Arr(vs) => {
            if vs.len() == 0 {
                assert(spec_render_elems(vs, 0) =~= Seq::<char>::empty());
                assert(rv[1] == ']');
                assert(s[i + 1] == ']');
                assert(skip_ws(s, i + 1) == i + 1);
                assert(v == JVal::Arr(Seq::<JVal>::empty())) by {
                    assert(vs =~= Seq::<JVal>::empty());
                }
            } else {
                let elems = spec_render_elems(vs, 0);
                lemma_render_first(vs[0]);
                assert(elems[0] == spec_render(vs[0])[0]);
                assert(s[i + 1] == rv[1]);
                assert(rv[1] == elems[0]);
                assert(skip_ws(s, i + 1) == i + 1);
                assert(s[i + 1] != ']');
                assert forall|k: int| 0 <= k < elems.len() + 1 implies s[i + 1 + k] == #[trigger] (
                elems + seq![']'])[k] by {
                    assert(rv[1 + k] == (elems + seq![']'])[k]);
                }
                lemma_chars_sub(s, i + 1, elems + seq![']']);
                lemma_parse_render_elems(vs, 0, s, i + 1);
                assert(vs.skip(0) =~= vs);
            }
        },
        JVal::Obj(ms) => {
            if ms.len() == 0 {
                assert(spec_render_members(ms, 0) =~= Seq::<char>::empty());
                assert(rv[1] == '}');
                assert(s[i + 1] == '}');
                assert(skip_ws(s, i + 1) == i + 1);
                assert(v == JVal::Obj(Seq::<(Seq<char>, JVal)>::empty())) by {
                    assert(ms =~= Seq::<(Seq<char>, JVal)>::empty());
                }
            } else {
                let mems = spec_render_members(ms, 0);
                assert(mems[0] == '"') by {
                    assert(spec_render_string(ms[0].0)[0] == '"');
                }
                assert(s[i + 1] == rv[1]);
                assert(rv[1] == mems[0]);
                assert(s[i + 1] != '}');
                assert forall|k: int| 0 <= k < mems.len() + 1 implies s[i + 1 + k] == #[trigger] (
                mems + seq!['}'])[k] by {
                    assert(rv[1 + k] == (mems + seq!['}'])[k]);
                }
                lemma_chars_sub(s, i + 1, mems + seq!['}']);
                lemma_parse_render_members(ms, 0, s, i + 1);
                assert(ms.skip(0) =~= ms);
            }
        },
    }
}

/// Parsing the comma-separated texts of the elements from position `j`,
/// closed by a bracket, gives exactly those elements.
proof fn lemma_parse_render_elems(vs: Seq<JVal>, j: int, s: Seq<char>, i: int)
    requires
        jvals_wf(vs, j),
        0 <= j < vs.len(),
        0 <= i,
        i + spec_render_elems(vs, j).len() + 1 <= s.len(),
        s.subrange(i, i + spec_render_elems(vs, j).len() + 1) == spec_render_elems(vs, j) + seq![
            ']',
        ],
    ensures
        spec_parse_elems(s, i) == Some((vs.skip(j), i + spec_render_elems(vs, j).len() + 1)),
    decreases vs, 1int, vs.len() - j,
{
    let elems = spec_render_elems(vs, j);
    let rv = spec_render(vs[j]);
    lemma_sub_chars(s, i, elems + seq![']']);
    lemma_render_first(vs[j]);
    if j == vs.len() - 1 {
        assert(elems =~= rv);
        assert forall|k: int| 0 <= k < rv.len() implies s[i + k] == #[trigger] rv[k] by {
            assert((elems + seq![']'])[k] == rv[k]);
        }
        lemma_chars_sub(s, i, rv);
        assert(s[i + rv.len()] == (elems + seq![']'])[rv.len() as int]);
        assert(s[i + rv.len()] == ']');
        assert(!is_digit(']')) by {
            assert((']' as u32) == 93);
        }
        lemma_parse_render_value(vs[j], s, i);
        let k = i + rv.len();
        assert(skip_ws(s, k) == k);
        assert((']' as u32) != (',' as u32)) by {
            assert((',' as u32) == 44);
        }
        assert(vs.skip(j) =~= seq![vs[j]]);
    } else {
        assert(elems =~= rv + seq![','] + spec_render_elems(vs, j + 1));
        assert forall|k: int| 0 <= k < rv.len() implies s[i + k] == #[trigger] rv[k] by {
            assert((elems + seq![']'])[k] == rv[k]);
        }
        lemma_chars_sub(s, i, rv);
        let k = i + rv.len();
        assert(s[k] == (elems + seq![']'])[rv.len() as int]);
        assert(s[k] == ',');
        assert(!is_digit(',')) by {
            assert((',' as u32) == 44);
        }
        lemma_parse_render_value(vs[j], s, i);
        assert(skip_ws(s, k) == k);
        let rest = spec_render_elems(vs, j + 1);
        assert forall|k2: int| 0 <= k2 < rest.len() + 1 implies s[k + 1 + k2] == #[trigger] (rest
            + seq![']'])[k2] by {
            assert((elems + seq![']'])[rv.len() + 1 + k2] == (rest + seq![']'])[k2]);
        }
        lemma_chars_sub(s, k + 1, rest + seq![']']);
        lemma_parse_render_elems(vs, j + 1, s, k + 1);
        assert(seq![vs[j]] + vs.skip(j + 1) =~= vs.skip(j));
    }
}

/// Parsing the comma-separated member texts from position `j`, closed by a
/// brace, gives exactly those members.
#[verifier::rlimit(100)]
#[verifier::spinoff_prover]
proof fn lemma_parse_render_members(ms: Seq<(Seq<char>, JVal)>, j: int, s: Seq<char>, i: int)
    requires
        jmembers_wf(ms, j),
        0 <= j < ms.len(),
        0 <= i,
        i + spec_render_members(ms, j).len() + 1 <= s.len(),
        s.subrange(i, i + spec_render_members(ms, j).len() + 1) == spec_render_members(ms, j)
            + seq!['}'],
    ensures
        spec_parse_members(s, i) == Some((ms.skip(j), i + spec_render_members(ms, j).len() + 1)),
    decreases ms, 1int, ms.len() - j,
{
    let mems = spec_render_members(ms, j);
    let key = ms[j].0;
    let ks = spec_render_string(key);
    let rv = spec_render(ms[j].1);
    let head = ks + seq![':'] + rv;
    lemma_sub_chars(s, i, mems + seq!['}']);
    lemma_render_first(ms[j].1);
    assert(s[i] == (mems + seq!['}'])[0]);
    assert(mems[0] == head[0]) by {
        if j == ms.len() - 1 {
            assert(mems =~= head);
        } else {
            assert(mems =~= head + seq![','] + spec_render_members(ms, j + 1));
        }
    }
    assert(s[i] == '"');
    assert(!is_ws('"')) by {
        assert(('"' as u32) == 34);
    }
    assert(skip_ws(s, i) == i);
    let body = esc_from(key, 0);
    assert forall|k: int| 0 <= k < body.len() + 1 implies s[i + 1 + k] == #[trigger] (body + seq![
        '"',
    ])[k] by {
        assert(ks =~= seq!['"'] + (body + seq!['"']));
        if j == ms.len() - 1 {
            assert(mems =~= head);
        } else {
            assert(mems =~= head + seq![','] + spec_render_members(ms, j + 1));
        }
        assert((mems + seq!['}'])[1 + k] == (body + seq!['"'])[k]);
    }
    lemma_chars_sub(s, i + 1, body + seq!['"']);
    lemma_parse_string_render(s, i + 1, key, 0);
    assert(key.skip(0) =~= key);
    let kk = i + ks.len();
    assert(s[kk] == (mems + seq!['}'])[ks.len() as int]);
    assert(s[kk] == ':') by {
        if j == ms.len() - 1 {
            assert(mems =~= head);
        } else {
            assert(mems =~= head + seq![','] + spec_render_members(ms, j + 1));
        }
        assert(head[ks.len() as int] == ':');
    }
    assert(!is_ws(':')) by {
        assert((':' as u32) == 58);
    }
    assert(skip_ws(s, kk) == kk);
    assert forall|k: int| 0 <= k < rv.len() implies s[kk + 1 + k] == #[trigger] rv[k] by {
        if j == ms.len() - 1 {
            assert(mems =~= head);
        } else {
            assert(mems =~= head + seq![','] + spec_render_members(ms, j + 1));
        }
        assert((mems + seq!['}'])[ks.len() + 1 + k] == head[ks.len() + 1 + k]);
        assert(head[ks.len() + 1 + k] == rv[k]);
    }
    lemma_chars_sub(s, kk + 1, rv);
    let k2 = kk + 1 + rv.len();
    if j == ms.len() - 1 {
        assert(mems =~= head);
        assert(s[k2] == (mems + seq!['}'])[mems.len() as int]);
        assert(s[k2] == '}');
        assert(!is_digit('}')) by {
            assert(('}' as u32) == 125);
        }
        lemma_parse_render_value(ms[j].1, s, kk + 1);
        assert(skip_ws(s, k2) == k2);
        assert(('}' as u32) != (',' as u32)) by {
            assert((',' as u32) == 44);
        }
        assert(ms.skip(j) =~= seq![(key, ms[j].1)]);
        assert(seq![(key, ms[j].1)] =~= seq![ms[j]]);
    } else {
        assert(mems =~= head + seq![','] + spec_render_members(ms, j + 1));
        assert(s[k2] == (mems + seq!['}'])[head.len() as int]);
        assert(s[k2] == ',');
        assert(!is_digit(',')) by {
            assert((',' as u32) == 44);
        }
        lemma_parse_render_value(ms[j].1, s, kk + 1);
        assert(skip_ws(s, k2) == k2);
        let rest = spec_render_members(ms, j + 1);
        assert forall|k3: int| 0 <= k3 < rest.len() + 1 implies s[k2 + 1 + k3] == #[trigger] (rest
            + seq!['}'])[k3] by {
            assert((mems + seq!['}'])[head.len() + 1 + k3] == (rest + seq!['}'])[k3]);
        }
        lemma_chars_sub(s, k2 + 1, rest + seq!['}']);
        lemma_parse_render_members(ms, j + 1, s, k2 + 1);
        assert(seq![(key, ms[j].1)] =~= seq![ms[j]]);
        assert(seq![ms[j]] + ms.skip(j + 1) =~= ms.skip(j));
    }
}

/// Text round trip: the canonical text of a well-formed document parses
/// back to exactly that document.
pub proof fn lemma_parse_render_document(v: JVal)
    requires
        jval_wf(v),
    ensures
        spec_parse_document(spec_render(v)) == Some(v),
{
    let s = spec_render(v);
    assert(s.subrange(0, s.len() as int) =~= s);
    lemma_parse_render_value(v, s, 0);
    assert(skip_ws(s, s.len() as int) == s.len());
}

} // verus!
