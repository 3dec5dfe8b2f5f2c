use vstd::prelude::*;
use vstd::utf8::is_scalar;
use vstd::std_specs::iter::IteratorSpec;

use crate::error::ErrorKind;
use crate::tokenizer::{digits_end, DOT, LOWER_E, MINUS, PLUS, UPPER_E};

verus! {

broadcast use vstd::string::group_string_axioms;

/// The value of a hexadecimal digit.
pub open spec fn hex_value(c: char) -> Option<int> {
    let v = c as u32;
    if 0x30 <= v <= 0x39 {
        Some(v - 0x30)
    } else if 0x61 <= v <= 0x66 {
        Some(v - 0x61 + 10)
    } else if 0x41 <= v <= 0x46 {
        Some(v - 0x41 + 10)
    } else {
        None
    }
}

/// The number that the four hexadecimal digits at `s[i..i + 4]` spell.
pub open spec fn hex4(s: Seq<char>, i: int) -> Option<int> {
    if 0 <= i && i + 4 <= s.len() && hex_value(s[i]) is Some && hex_value(s[i + 1]) is Some
        && hex_value(s[i + 2]) is Some && hex_value(s[i + 3]) is Some {
        Some(
            hex_value(s[i])->0 * 4096 + hex_value(s[i + 1])->0 * 256 + hex_value(s[i + 2])->0 * 16
                + hex_value(s[i + 3])->0,
        )
    } else {
        None
    }
}

/// Decoding the inside of a quoted string from `s[i]` on, `out` holding
/// what was decoded before. An unescaped quote ends the string; `\b` takes
/// back the last character decoded. Text that ends inside an escape fails
/// with `UnexpectedEndOfInput`; four characters after `\u` that are not
/// hexadecimal digits of a Unicode scalar value fail with
/// `InvalidUnicodeEscape`.
pub open spec fn unescape_from(s: Seq<char>, i: int, out: Seq<char>) -> Result<
    Seq<char>,
    ErrorKind,
>
    decreases s.len() - i,
{
    if i < 0 || i >= s.len() {
        Err(ErrorKind::UnterminatedString)
    } else if s[i] == '"' {
        Ok(out)
    } else if s[i] != '\\' {
        unescape_from(s, i + 1, out.push(s[i]))
    } else if i + 1 >= s.len() {
        Err(ErrorKind::UnexpectedEndOfInput)
    } else {
        let e = s[i + 1];
        if e == '"' || e == '\\' || e == '/' {
            unescape_from(s, i + 2, out.push(e))
        } else if e == 'n' {
            unescape_from(s, i + 2, out.push('\n'))
        } else if e == 'r' {
            unescape_from(s, i + 2, out.push('\r'))
        } else if e == 't' {
            unescape_from(s, i + 2, out.push('\t'))
        } else if e == 'f' {
            unescape_from(s, i + 2, out.push('\x0c'))
        } else if e == 'b' {
            unescape_from(s, i + 2, if out.len() > 0 { out.drop_last() } else { out })
        } else if e == 'u' {
            if i + 6 > s.len() {
                Err(ErrorKind::UnexpectedEndOfInput)
            } else {
                match hex4(s, i + 2) {
                    Some(v) => if is_scalar(v as u32) {
                        unescape_from(s, i + 6, out.push((v as u32) as char))
                    } else {
                        Err(ErrorKind::InvalidUnicodeEscape)
                    },
                    None => Err(ErrorKind::InvalidUnicodeEscape),
                }
            }
        } else {
            Err(ErrorKind::InvalidEscape)
        }
    }
}

/// The value of a quoted string literal: its first character (the opening
/// quote) is skipped, and decoding stops at the closing quote.
pub open spec fn unescape(s: Seq<char>) -> Result<Seq<char>, ErrorKind> {
    unescape_from(s, 1, Seq::empty())
}

/// Whether the text from `p` on is empty or an exponent: `e` or `E`, an
/// optional sign, and at least one digit.
pub open spec fn exponent_ok(t: Seq<u8>, p: int) -> bool {
    ||| p == t.len()
    ||| {
        &&& 0 <= p < t.len()
        &&& (t[p] == LOWER_E || t[p] == UPPER_E)
        &&& {
            let q = if p + 1 < t.len() && (t[p + 1] == PLUS || t[p + 1] == MINUS) {
                p + 2
            } else {
                p + 1
            };
            q < t.len() && digits_end(t, q) == t.len()
        }
    }
}

/// Whether `t` is decimal number text: an optional sign, digits with at
/// most one `.` among them and at least one digit, then an optional
/// exponent (`e` or `E`, an optional sign, at least one digit). Such text
/// converts to a float with `str::parse::<f64>`; a value out of range
/// becomes infinite.
pub open spec fn is_float_text(t: Seq<u8>) -> bool {
    let s = if 0 < t.len() && (t[0] == MINUS || t[0] == PLUS) { 1int } else { 0int };
    let i = digits_end(t, s);
    if i < t.len() && t[i] == DOT {
        let f = digits_end(t, i + 1);
        (i > s || f > i + 1) && exponent_ok(t, f)
    } else {
        i > s && exponent_ok(t, i)
    }
}

/// Relies on `char::from_u32`: `Some` exactly for a Unicode scalar value,
/// holding the character of that value.
#[verifier::external_body]
pub(crate) fn char_from_u32(v: u32) -> (r: Option<char>)
    ensures
        r is Some <==> is_scalar(v),
        r matches Some(c) ==> c as u32 == v,
{
    char::from_u32(v)
}

/// Relies on `String::push`: the character is appended.
#[verifier::external_body]
fn push_char(s: &mut String, c: char)
    ensures
        final(s)@ == old(s)@.push(c),
{
    s.push(c)
}

/// The characters of `s`, in order.
pub(crate) fn chars_of(s: &str) -> (r: Vec<char>)
    ensures
        r@ == s@,
{
    let mut it = s.chars();
    let mut out: Vec<char> = Vec::new();
    loop
        invariant
            it.obeys_prophetic_iter_laws(),
            out@ + it.remaining() == s@,
        ensures
            out@ == s@,
        decreases s@.len() - out@.len(),
    {
        match it.next() {
            Some(c) => {
                out.push(c);
            },
            None => {
                break;
            },
        }
    }
    out
}

/// Appends the characters of `s` to `out`.
pub(crate) fn push_text(out: &mut Vec<char>, s: &str)
    ensures
        final(out)@ == old(out)@ + s@,
{
    let mut v = chars_of(s);
    out.append(&mut v);
}

/// The string of the characters in `v`.
pub(crate) fn string_of(v: &Vec<char>) -> (r: String)
    ensures
        r@ == v@,
{
    let mut out = String::new();
    let mut i: usize = 0;
    while i < v.len()
        invariant
            i <= v@.len(),
            out@ == v@.subrange(0, i as int),
        decreases v@.len() - i,
    {
        push_char(&mut out, v[i]);
        i = i + 1;
        proof {
            assert(out@ =~= v@.subrange(0, i as int));
        }
    }
    proof {
        assert(v@.subrange(0, v@.len() as int) =~= v@);
    }
    out
}

/// The value of the hexadecimal digit `c`.
fn hex_digit(c: char) -> (r: Option<u32>)
    ensures
        r is Some <==> hex_value(c) is Some,
        r matches Some(d) ==> hex_value(c) == Some(d as int) && d < 16,
{
    let v = c as u32;
    if v >= 0x30 && v <= 0x39 {
        Some(v - 0x30)
    } else if v >= 0x61 && v <= 0x66 {
        Some(v - 0x61 + 10)
    } else if v >= 0x41 && v <= 0x46 {
        Some(v - 0x41 + 10)
    } else {
        None
    }
}

/// The number spelled by the four hexadecimal digits at `s[i..i + 4]`.
pub(crate) fn hex_number(s: &Vec<char>, i: usize) -> (r: Option<u32>)
    ensures
        r is Some <==> hex4(s@, i as int) is Some,
        r matches Some(v) ==> hex4(s@, i as int) == Some(v as int),
{
    if i > s.len() || s.len() - i < 4 {
        return None;
    }
    let a = match hex_digit(s[i]) {
        Some(d) => d,
        None => return None,
    };
    let b = match hex_digit(s[i + 1]) {
        Some(d) => d,
        None => return None,
    };
    let c = match hex_digit(s[i + 2]) {
        Some(d) => d,
        None => return None,
    };
    let d = match hex_digit(s[i + 3]) {
        Some(d) => d,
        None => return None,
    };
    Some(a * 4096 + b * 256 + c * 16 + d)
}

/// The end of the run of digits of `t` that starts at `p`.
fn skip_digits(t: &[u8], p: usize) -> (r: usize)
    requires
        p <= t@.len(),
    ensures
        r == digits_end(t@, p as int),
        p <= r <= t@.len(),
{
    let mut i = p;
    while i < t.len() && t[i] >= 0x30 && t[i] <= 0x39
        invariant
            p <= i <= t@.len(),
            digits_end(t@, i as int) == digits_end(t@, p as int),
        decreases t@.len() - i,
    {
        i = i + 1;
    }
    i
}

fn exponent_at(t: &[u8], p: usize) -> (r: bool)
    requires
        p <= t@.len(),
    ensures
        r == exponent_ok(t@, p as int),
{
    let n = t.len();
    if p == n {
        return true;
    }
    if t[p] != LOWER_E && t[p] != UPPER_E {
        return false;
    }
    let q = if p + 1 < n && (t[p + 1] == PLUS || t[p + 1] == MINUS) {
        p + 2
    } else {
        p + 1
    };
    q < n && skip_digits(t, q) == n
}

/// Whether `t` is decimal number text, as `is_float_text` describes it.
pub fn is_number_text(t: &[u8]) -> (r: bool)
    ensures
        r == is_float_text(t@),
{
    let n = t.len();
    let s: usize = if 0 < n && (t[0] == MINUS || t[0] == PLUS) {
        1
    } else {
        0
    };
    let i = skip_digits(t, s);
    if i < n && t[i] == DOT {
        let f = skip_digits(t, i + 1);
        (i > s || f > i + 1) && exponent_at(t, f)
    } else {
        i > s && exponent_at(t, i)
    }
}

} // verus!
