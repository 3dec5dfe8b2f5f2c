use vstd::prelude::*;
use vstd::utf8::*;

use crate::error::{ErrorKind, ParseError};
use crate::literal::{hex4, hex_value, is_float_text, unescape, unescape_from};
use crate::parser::{document, items_at, member_end, members_at, token_text, value_at, MAX_DEPTH};
use crate::tokenizer::{
    digits_end, false_word, lemma_digits_end, is_digit_byte, next_lexed, null_word, number_end, skip_spaces,
    string_end, true_word, word_at, Lexed, Lexeme, BACKSLASH, COLON, COMMA, DOT, LEFT_BRACE,
    LEFT_BRACKET, LOWER_E, MINUS, PLUS, QUOTE, RIGHT_BRACE, RIGHT_BRACKET, UPPER_E,
};
use crate::value::Json;

verus! {

broadcast use vstd::seq_lib::group_seq_properties;

/// The character that a backslash and `x` stand for, where that is one of
/// the escapes that keep the character: `\"`, `\\`, `\/`, `\n`, `\r`, `\t`
/// and `\f`.
pub open spec fn short_escape(x: char) -> Option<char> {
    if x == '"' || x == '\\' || x == '/' {
        Some(x)
    } else if x == 'n' {
        Some('\n')
    } else if x == 'r' {
        Some('\r')
    } else if x == 't' {
        Some('\t')
    } else if x == 'f' {
        Some('\x0c')
    } else {
        None
    }
}

/// Whether `e` writes the character `c` between quotes: the character
/// itself (unless it is a quote or a backslash), a backslash and a letter
/// that stands for it, or `\u` and four hexadecimal digits of its code.
pub open spec fn writes_char(c: char, e: Seq<char>) -> bool {
    ||| e == seq![c] && c != '"' && c != '\\'
    ||| e.len() == 2 && e[0] == '\\' && short_escape(e[1]) == Some(c)
    ||| e.len() == 6 && e[0] == '\\' && e[1] == 'u' && hex4(e, 2) == Some((c as u32) as int)
}

/// How a serializer writes a document: the text it writes for each
/// character of a string, and the order in which it writes the keys of an
/// object.
pub ghost struct Writer {
    pub esc: spec_fn(char) -> Seq<char>,
    pub keys: spec_fn(Map<Seq<char>, Json>) -> Seq<Seq<char>>,
}

/// A serializer that writes each character in a way that `writes_char`
/// allows, and lists each key of a finite object, and no other key.
pub open spec fn valid_writer(w: Writer) -> bool {
    &&& forall|c: char| writes_char(c, #[trigger] (w.esc)(c))
    &&& forall|m: Map<Seq<char>, Json>, k: Seq<char>|
        m.dom().finite() ==> (m.dom().contains(k) <==> #[trigger] (w.keys)(m).contains(k))
}

/// The characters of `s` as `esc` writes them between quotes.
pub open spec fn escaped(esc: spec_fn(char) -> Seq<char>, s: Seq<char>) -> Seq<char>
    decreases s.len(),
{
    if s.len() == 0 {
        Seq::empty()
    } else {
        esc(s[0]) + escaped(esc, s.drop_first())
    }
}

/// The string `s` written as a JSON string literal, in UTF-8.
pub open spec fn quoted(esc: spec_fn(char) -> Seq<char>, s: Seq<char>) -> Seq<u8> {
    encode_utf8(seq!['"'] + escaped(esc, s) + seq!['"'])
}

/// A JSON text for `v` as the serializer `w` writes it: no whitespace, a
/// number as its text.
pub open spec fn serialize(w: Writer, v: Json) -> Seq<u8>
    decreases v, 0int,
{
    match v {
        Json::Str(s) => quoted(w.esc, s),
        Json::Num(t) => encode_utf8(t),
        Json::Bool(b) => if b {
            true_word()
        } else {
            false_word()
        },
        Json::Null => null_word(),
        Json::Array(items) => seq![LEFT_BRACKET] + serialize_items(w, items) + seq![RIGHT_BRACKET],
        Json::Object(m) => seq![LEFT_BRACE] + serialize_members(w, m, (w.keys)(m)) + seq![
            RIGHT_BRACE,
        ],
    }
}

/// The elements `items`, separated by commas.
pub open spec fn serialize_items(w: Writer, items: Seq<Json>) -> Seq<u8>
    decreases items, 0int,
{
    if items.len() == 0 {
        Seq::empty()
    } else if items.len() == 1 {
        serialize(w, items[0])
    } else {
        proof {
            assert(decreases_to!(items => items.subrange(1, items.len() as int)));
        }
        serialize(w, items[0]) + seq![COMMA] + serialize_items(w, items.drop_first())
    }
}

/// The members of `m` under the keys `ks`, in that order, separated by
/// commas.
pub open spec fn serialize_members(w: Writer, m: Map<Seq<char>, Json>, ks: Seq<Seq<char>>) -> Seq<
    u8,
>
    decreases m, ks.len() as int,
{
    if ks.len() == 0 {
        Seq::empty()
    } else {
        let value = if m.dom().finite() && m.dom().contains(ks[0]) {
            serialize(w, m[ks[0]])
        } else {
            Seq::empty()
        };
        let entry = quoted(w.esc, ks[0]) + seq![COLON] + value;
        if ks.len() == 1 {
            entry
        } else {
            entry + seq![COMMA] + serialize_members(w, m, ks.drop_first())
        }
    }
}

/// Number text that the scanner reads whole and the parser accepts.
pub open spec fn number_text_ok(t: Seq<u8>) -> bool {
    &&& t.len() > 0
    &&& (t[0] == MINUS || is_digit_byte(t[0]))
    &&& number_end(t, 0) == t.len()
    &&& is_float_text(t)
}

/// The values that `serialize` writes so that they read back: numbers whose
/// text reads as one number, objects with finitely many keys, and arrays
/// and objects nested at most `room` deep.
pub open spec fn serializable(v: Json, room: nat) -> bool
    decreases v,
{
    match v {
        Json::Num(t) => number_text_ok(encode_utf8(t)),
        Json::Array(items) => room > 0 && forall|i: int|
            0 <= i < items.len() ==> serializable(#[trigger] items[i], (room - 1) as nat),
        Json::Object(m) => room > 0 && m.dom().finite() && forall|k: Seq<char>|
            m.dom().contains(k) ==> serializable(#[trigger] m[k], (room - 1) as nat),
        _ => true,
    }
}

/// A byte that may follow a value: a comma or a closing bracket, or the end
/// of the input.
pub open spec fn ends_value(b: Seq<u8>, e: int) -> bool {
    e == b.len() || b[e] == COMMA || b[e] == RIGHT_BRACKET || b[e] == RIGHT_BRACE
}

proof fn lemma_encode_concat(a: Seq<char>, c: Seq<char>)
    ensures
        encode_utf8(a + c) == encode_utf8(a) + encode_utf8(c),
    decreases a.len(),
{
    if a.len() == 0 {
        assert(a + c =~= c);
        assert(encode_utf8(a) =~= Seq::<u8>::empty());
        assert(encode_utf8(a) + encode_utf8(c) =~= encode_utf8(c));
    } else {
        assert((a + c).drop_first() =~= a.drop_first() + c);
        assert((a + c)[0] == a[0]);
        lemma_encode_concat(a.drop_first(), c);
        assert(encode_utf8(a + c) =~= encode_utf8(a) + encode_utf8(c));
    }
}

proof fn lemma_encode_ascii(c: char)
    requires
        (c as u32) < 0x80,
    ensures
        encode_utf8(seq![c]) == seq![(c as u32) as u8],
{
    assert(seq![c].drop_first() =~= Seq::<char>::empty());
    reveal_with_fuel(encode_utf8, 2);
    let v = c as u32;
    assert((v & 0x7F) as u8 == v as u8) by (bit_vector)
        requires
            v < 0x80,
    ;
    assert(encode_utf8(seq![c]) =~= seq![(c as u32) as u8]);
}

/// Outside ASCII, the bytes of a character are neither quotes nor
/// backslashes.
proof fn lemma_encode_high(c: char)
    requires
        (c as u32) >= 0x80,
    ensures
        forall|j: int| 0 <= j < encode_utf8(seq![c]).len() ==> #[trigger] encode_utf8(seq![c])[j] >= 0x80,
{
    char_is_scalar(c);
    assert(seq![c].drop_first() =~= Seq::<char>::empty());
    reveal_with_fuel(encode_utf8, 2);
    assert(encode_utf8(seq![c]) =~= encode_scalar(c as u32));
    let v = c as u32;
    assert(0x80 <= (0xC0 | ((v >> 6) & 0x1F) as u8)) by (bit_vector);
    assert(0x80 <= (0xE0 | ((v >> 12) & 0x0F) as u8)) by (bit_vector);
    assert(0x80 <= (0xF0 | ((v >> 18) & 0x7) as u8)) by (bit_vector);
    assert(0x80 <= (0x80 | (v & 0x3F) as u8)) by (bit_vector);
    assert(0x80 <= (0x80 | ((v >> 6) & 0x3F) as u8)) by (bit_vector);
    assert(0x80 <= (0x80 | ((v >> 12) & 0x3F) as u8)) by (bit_vector);
}

/// Bytes that are neither quotes nor backslashes do not end a string.
proof fn lemma_string_end_plain(b: Seq<u8>, i: int, j: int)
    requires
        0 <= i <= j <= b.len(),
        forall|k: int| i <= k < j ==> #[trigger] b[k] != QUOTE && b[k] != BACKSLASH,
    ensures
        string_end(b, i) == string_end(b, j),
    decreases j - i,
{
    if i < j {
        lemma_string_end_plain(b, i + 1, j);
    }
}

/// Text in ASCII is encoded byte for byte.
proof fn lemma_encode_ascii_seq(e: Seq<char>)
    requires
        forall|j: int| 0 <= j < e.len() ==> (#[trigger] e[j] as u32) < 0x80,
    ensures
        encode_utf8(e).len() == e.len(),
        forall|j: int| 0 <= j < e.len() ==> (#[trigger] encode_utf8(e)[j] as u32) == e[j] as u32,
    decreases e.len(),
{
    if e.len() > 0 {
        let c = e[0];
        assert(e =~= seq![c] + e.drop_first());
        lemma_encode_concat(seq![c], e.drop_first());
        lemma_encode_ascii(c);
        lemma_encode_ascii_seq(e.drop_first());
        let v = c as u32;
        assert(v < 0x80 ==> (v as u8) as u32 == v) by (bit_vector);
        assert forall|j: int| 0 <= j < e.len() implies (#[trigger] encode_utf8(e)[j] as u32)
            == e[j] as u32 by {
            if j > 0 {
                assert(encode_utf8(e)[j] == encode_utf8(e.drop_first())[j - 1]);
                assert(e[j] == e.drop_first()[j - 1]);
            }
        }
    }
}

/// A hexadecimal digit is an ASCII character other than a quote or a
/// backslash.
proof fn lemma_hex_digit_plain(c: char)
    requires
        hex_value(c) is Some,
    ensures
        (c as u32) < 0x80,
        c as u32 != 0x22,
        c as u32 != 0x5c,
{
}

/// The text that writes a character with a backslash is ASCII, and only its
/// first character is a quote or a backslash.
proof fn lemma_escape_ascii(c: char, e: Seq<char>)
    requires
        writes_char(c, e),
        e[0] == '\\',
    ensures
        2 <= e.len(),
        forall|j: int| 0 <= j < e.len() ==> (#[trigger] e[j] as u32) < 0x80,
        forall|j: int| 2 <= j < e.len() ==> #[trigger] e[j] as u32 != 0x22 && e[j] as u32 != 0x5c,
{
    assert('"' as u32 == 0x22 && '\\' as u32 == 0x5c && '/' as u32 == 0x2f && 'n' as u32 == 0x6e
        && 'r' as u32 == 0x72 && 't' as u32 == 0x74 && 'f' as u32 == 0x66 && 'u' as u32 == 0x75);
    if e.len() == 6 {
        lemma_hex_digit_plain(e[2]);
        lemma_hex_digit_plain(e[3]);
        lemma_hex_digit_plain(e[4]);
        lemma_hex_digit_plain(e[5]);
    }
}

/// Scanning the characters of `s`, as `esc` writes them, from `p` runs to
/// the quote after them.
proof fn lemma_string_end_escaped(b: Seq<u8>, p: int, w: Writer, s: Seq<char>)
    requires
        valid_writer(w),
        0 <= p,
        p + encode_utf8(escaped(w.esc, s)).len() < b.len(),
        b.subrange(p, p + encode_utf8(escaped(w.esc, s)).len()) == encode_utf8(escaped(w.esc, s)),
        b[p + encode_utf8(escaped(w.esc, s)).len()] == QUOTE,
    ensures
        string_end(b, p) == Some(p + encode_utf8(escaped(w.esc, s)).len() + 1),
    decreases s.len(),
{
    let e = encode_utf8(escaped(w.esc, s));
    if s.len() == 0 {
        assert(e.len() == 0);
        assert(b[p] == QUOTE);
    } else {
        let c = s[0];
        let rest = s.drop_first();
        let ec = (w.esc)(c);
        let piece = encode_utf8(ec);
        let tail = encode_utf8(escaped(w.esc, rest));
        assert(writes_char(c, ec));
        lemma_encode_concat(ec, escaped(w.esc, rest));
        assert(e == piece + tail);
        assert(b.subrange(p + piece.len(), p + e.len()) =~= tail) by {
            assert forall|k: int| 0 <= k < tail.len() implies b.subrange(
                p + piece.len(),
                p + e.len(),
            )[k] == tail[k] by {
                assert(b[p + piece.len() + k] == b.subrange(p, p + e.len())[piece.len() + k]);
            }
        }
        assert forall|k: int| 0 <= k < piece.len() implies b[p + k] == #[trigger] piece[k] by {
            assert(b[p + k] == b.subrange(p, p + e.len())[k]);
        }
        if ec == seq![c] && c != '"' && c != '\\' {
            if (c as u32) < 0x80 {
                lemma_encode_ascii(c);
                assert(piece =~= seq![(c as u32) as u8]);
                assert(b[p] == piece[0]);
                assert('"' as u32 == 0x22 && '\\' as u32 == 0x5c);
                char_u32_cast(c, c as u32);
                assert(c as u32 != 0x22 && c as u32 != 0x5c);
                let v = c as u32;
                assert(v < 0x80 && v != 0x22 && v != 0x5c ==> (v as u8) != 0x22u8 && (v as u8)
                    != 0x5cu8) by (bit_vector);
            } else {
                lemma_encode_high(c);
            }
            assert forall|k: int| p <= k < p + piece.len() implies #[trigger] b[k] != QUOTE && b[k]
                != BACKSLASH by {
                assert(b[p + (k - p)] == piece[k - p]);
            }
            lemma_string_end_plain(b, p, p + piece.len());
        } else {
            lemma_escape_ascii(c, ec);
            lemma_encode_ascii_seq(ec);
            assert(b[p] == piece[0]);
            assert(piece[0] as u32 == ec[0] as u32);
            assert('\\' as u32 == 0x5c);
            assert(b[p] as u32 == 0x5c);
            assert(b[p] == BACKSLASH);
            assert forall|k: int| p + 2 <= k < p + piece.len() implies #[trigger] b[k] != QUOTE
                && b[k] != BACKSLASH by {
                assert(b[p + (k - p)] == piece[k - p]);
                assert(piece[k - p] as u32 == ec[k - p] as u32);
            }
            lemma_string_end_plain(b, p + 2, p + piece.len());
        }
        lemma_string_end_escaped(b, p + piece.len(), w, rest);
    }
}

/// Decoding the characters of `s`, as `esc` writes them, up to the quote
/// after them, gives back `s`.
proof fn lemma_unescape_escaped(t: Seq<char>, i: int, w: Writer, s: Seq<char>, out: Seq<char>)
    requires
        valid_writer(w),
        0 <= i,
        i + escaped(w.esc, s).len() < t.len(),
        t.subrange(i, i + escaped(w.esc, s).len()) == escaped(w.esc, s),
        t[i + escaped(w.esc, s).len()] == '"',
    ensures
        unescape_from(t, i, out) == Ok::<Seq<char>, ErrorKind>(out + s),
    decreases s.len(),
{
    let es = escaped(w.esc, s);
    if s.len() == 0 {
        assert(out + s =~= out);
        assert(t[i] == '"');
    } else {
        let c = s[0];
        let rest = s.drop_first();
        let ec = (w.esc)(c);
        let n = ec.len();
        let er = escaped(w.esc, rest);
        assert(writes_char(c, ec));
        assert(es == ec + er);
        assert(t.subrange(i + n, i + n + er.len()) =~= er) by {
            assert forall|k: int| 0 <= k < er.len() implies t.subrange(i + n, i + n + er.len())[k]
                == er[k] by {
                assert(t[i + n + k] == t.subrange(i, i + es.len())[n + k]);
            }
        }
        assert forall|k: int| 0 <= k < n implies t[i + k] == #[trigger] ec[k] by {
            assert(t[i + k] == t.subrange(i, i + es.len())[k]);
        }
        if ec.len() == 6 && ec[0] == '\\' && ec[1] == 'u' {
            assert(t[i] == ec[0] && t[i + 1] == ec[1]);
            assert(t[i + 2] == ec[2] && t[i + 3] == ec[3] && t[i + 4] == ec[4] && t[i + 5]
                == ec[5]);
            assert(hex4(t, i + 2) == hex4(ec, 2));
            char_is_scalar(c);
            char_u32_cast(c, c as u32);
            assert(hex4(ec, 2) == Some((c as u32) as int));
        } else if ec.len() == 2 && ec[0] == '\\' {
            assert(t[i] == ec[0] && t[i + 1] == ec[1]);
        } else {
            assert(t[i] == ec[0]);
        }
        lemma_unescape_escaped(t, i + n, w, rest, out.push(c));
        assert(out.push(c) + rest =~= out + s);
    }
}

/// The first byte of a serialized value, which tells its kind to the
/// scanner.
proof fn lemma_first_byte(w: Writer, v: Json, room: nat)
    requires
        serializable(v, room),
    ensures
        serialize(w, v).len() > 0,
        serialize(w, v)[0] == QUOTE || serialize(w, v)[0] == MINUS || is_digit_byte(
            serialize(w, v)[0],
        ) || serialize(w, v)[0] == 0x74u8 || serialize(w, v)[0] == 0x66u8 || serialize(w, v)[0]
            == 0x6eu8 || serialize(w, v)[0] == LEFT_BRACKET || serialize(w, v)[0] == LEFT_BRACE,
{
    match v {
        Json::Str(s) => {
            lemma_encode_concat(seq!['"'], escaped(w.esc, s) + seq!['"']);
            assert(seq!['"'] + (escaped(w.esc, s) + seq!['"']) =~= seq!['"'] + escaped(w.esc, s)
                + seq!['"']);
            lemma_encode_ascii('"');
        },
        _ => {},
    }
}

/// A piece of `whole`, which stands at `p` in `b`, stands at `p + off`.
proof fn lemma_piece(b: Seq<u8>, p: int, whole: Seq<u8>, off: int, part: Seq<u8>)
    requires
        0 <= p,
        p + whole.len() <= b.len(),
        b.subrange(p, p + whole.len()) == whole,
        0 <= off,
        off + part.len() <= whole.len(),
        whole.subrange(off, off + part.len()) == part,
    ensures
        b.subrange(p + off, p + off + part.len()) == part,
{
    assert forall|k: int| 0 <= k < part.len() implies b.subrange(p + off, p + off + part.len())[k]
        == part[k] by {
        assert(b[p + off + k] == b.subrange(p, p + whole.len())[off + k]);
        assert(part[k] == whole.subrange(off, off + part.len())[k]);
    }
    assert(b.subrange(p + off, p + off + part.len()) =~= part);
}

proof fn lemma_byte(b: Seq<u8>, p: int, whole: Seq<u8>, off: int)
    requires
        0 <= p,
        p + whole.len() <= b.len(),
        b.subrange(p, p + whole.len()) == whole,
        0 <= off < whole.len(),
    ensures
        b[p + off] == whole[off],
{
    assert(b[p + off] == b.subrange(p, p + whole.len())[off]);
}

proof fn lemma_digits_shift(b: Seq<u8>, t: Seq<u8>, p: int, i: int)
    requires
        0 <= p,
        0 <= i <= t.len(),
        p + t.len() <= b.len(),
        b.subrange(p, p + t.len()) == t,
        p + t.len() < b.len() ==> !is_digit_byte(b[p + t.len()]),
    ensures
        digits_end(b, p + i) == p + digits_end(t, i),
    decreases t.len() - i,
{
    if i < t.len() {
        lemma_byte(b, p, t, i);
        lemma_digits_shift(b, t, p, i + 1);
    }
}

/// A byte that can continue the text of a number.
pub open spec fn number_byte(c: u8) -> bool {
    c == MINUS || c == PLUS || c == DOT || c == LOWER_E || c == UPPER_E || is_digit_byte(c)
}

/// A serialized number at `p`, followed by a byte that ends a value, is one
/// number token with the text of the number.
proof fn lemma_number_token(b: Seq<u8>, p: int, text: Seq<char>)
    requires
        number_text_ok(encode_utf8(text)),
        0 <= p,
        p + encode_utf8(text).len() <= b.len(),
        b.subrange(p, p + encode_utf8(text).len() as int) == encode_utf8(text),
        ends_value(b, p + encode_utf8(text).len()),
    ensures
        next_lexed(b, p) == Some(
            Lexed { kind: Lexeme::Number, start: p, end: p + encode_utf8(text).len() },
        ),
        is_float_text(b.subrange(p, p + encode_utf8(text).len() as int)),
        token_text(
            b,
            Lexed { kind: Lexeme::Number, start: p, end: p + encode_utf8(text).len() },
        ) == text,
{
    let t = encode_utf8(text);
    let n = t.len();
    encode_utf8_decode_utf8(text);
    assert forall|i: int| 0 <= i < n implies b[p + i] == #[trigger] t[i] by {
        lemma_byte(b, p, t, i);
    }
    assert(p + n < b.len() ==> !number_byte(b[p + n]));
    assert forall|i: int| 0 <= i <= n implies #[trigger] digits_end(b, p + i) == p + digits_end(
        t,
        i,
    ) by {
        lemma_digits_shift(b, t, p, i);
    }
    let sign_end = if 0 < n && t[0] == MINUS { 1int } else { 0int };
    let int_end = if sign_end < n && t[sign_end] == 0x30u8 {
        sign_end + 1
    } else if sign_end < n && 0x31u8 <= t[sign_end] <= 0x39u8 {
        digits_end(t, sign_end + 1)
    } else {
        sign_end
    };
    lemma_digits_end(t, sign_end + 1);
    assert(int_end <= n);
    let frac_end = if int_end < n && t[int_end] == DOT { digits_end(t, int_end + 1) } else { int_end };
    if int_end < n {
        lemma_digits_end(t, int_end + 1);
    }
    assert(frac_end <= n);
    if frac_end + 2 <= n {
        lemma_digits_end(t, frac_end + 2);
    }
    if frac_end + 1 <= n {
        lemma_digits_end(t, frac_end + 1);
    }
    assert(number_end(b, p) == p + number_end(t, 0));
    assert(skip_spaces(b, p) == p);
    assert(b.subrange(p, p + n) == t);
}

/// A serialized string at `p` is one string token, whose value is `s`.
proof fn lemma_string_token(b: Seq<u8>, p: int, w: Writer, s: Seq<char>)
    requires
        valid_writer(w),
        0 <= p,
        p + quoted(w.esc, s).len() <= b.len(),
        b.subrange(p, p + quoted(w.esc, s).len() as int) == quoted(w.esc, s),
    ensures
        next_lexed(b, p) == Some(Lexed { kind: Lexeme::String, start: p, end: p + quoted(w.esc, s).len() }),
        unescape(token_text(b, Lexed { kind: Lexeme::String, start: p, end: p + quoted(w.esc, s).len() }))
            == Ok::<Seq<char>, ErrorKind>(s),
{
    let e = encode_utf8(escaped(w.esc, s));
    let t = seq!['"'] + escaped(w.esc, s) + seq!['"'];
    lemma_encode_concat(seq!['"'], escaped(w.esc, s));
    lemma_encode_concat(seq!['"'] + escaped(w.esc, s), seq!['"']);
    lemma_encode_ascii('"');
    let q = quoted(w.esc, s);
    assert(q =~= seq![QUOTE] + e + seq![QUOTE]);
    lemma_byte(b, p, q, 0);
    lemma_byte(b, p, q, q.len() as int - 1);
    assert(q.subrange(1, 1 + e.len() as int) =~= e);
    lemma_piece(b, p, q, 1, e);
    lemma_string_end_escaped(b, p + 1, w, s);
    assert(skip_spaces(b, p) == p);
    encode_utf8_decode_utf8(t);
    assert(t.subrange(1, 1 + escaped(w.esc, s).len() as int) =~= escaped(w.esc, s));
    lemma_unescape_escaped(t, 1, w, s, Seq::empty());
    assert(Seq::<char>::empty() + s =~= s);
}

/// A serialized value at `p`, followed by a byte that ends a value, parses
/// back to that value.
proof fn lemma_value_round_trip(b: Seq<u8>, p: int, w: Writer, v: Json, room: nat)
    requires
        valid_writer(w),
        serializable(v, room),
        0 <= p,
        p + serialize(w, v).len() <= b.len(),
        b.subrange(p, p + serialize(w, v).len() as int) == serialize(w, v),
        ends_value(b, p + serialize(w, v).len()),
    ensures
        value_at(b, p, room) == Ok::<(Json, int), ParseError>(
            (v, p + serialize(w, v).len()),
        ),
    decreases v, 0int,
{
    let sv = serialize(w, v);
    lemma_first_byte(w, v, room);
    lemma_byte(b, p, sv, 0);
    assert(skip_spaces(b, p) == p);
    match v {
        Json::Str(s) => {
            lemma_string_token(b, p, w, s);
        },
        Json::Num(t) => {
            lemma_number_token(b, p, t);
        },
        Json::Bool(x) => {
            if x {
                assert(word_at(b, p, true_word()));
            } else {
                assert(word_at(b, p, false_word()));
            }
        },
        Json::Null => {
            assert(word_at(b, p, null_word()));
        },
        Json::Array(items) => {
            let inner = serialize_items(w, items);
            assert(sv.subrange(1, 1 + inner.len() as int) =~= inner);
            lemma_piece(b, p, sv, 1, inner);
            lemma_byte(b, p, sv, 1 + inner.len() as int);
            lemma_items_round_trip(b, p + 1, w, Seq::empty(), items, (room - 1) as nat);
            assert(Seq::<Json>::empty() + items =~= items);
        },
        Json::Object(m) => {
            let ks = (w.keys)(m);
            let inner = serialize_members(w, m, ks);
            assert(sv.subrange(1, 1 + inner.len() as int) =~= inner);
            lemma_piece(b, p, sv, 1, inner);
            lemma_byte(b, p, sv, 1 + inner.len() as int);
            assert forall|i: int| 0 <= i < ks.len() implies m.dom().contains(#[trigger] ks[i]) by {
                assert(ks.contains(ks[i]));
            }
            assert forall|k: Seq<char>| m.dom().contains(k) implies ks.contains(k) by {
                assert((w.keys)(m).contains(k));
            }
            lemma_members_round_trip(b, p + 1, w, Map::empty(), m, ks, (room - 1) as nat);
        },
    }
}

proof fn lemma_items_round_trip(
    b: Seq<u8>,
    p: int,
    w: Writer,
    done: Seq<Json>,
    rest: Seq<Json>,
    room: nat,
)
    requires
        valid_writer(w),
        forall|i: int| 0 <= i < rest.len() ==> serializable(#[trigger] rest[i], room),
        0 <= p,
        p + serialize_items(w, rest).len() < b.len(),
        b.subrange(p, p + serialize_items(w, rest).len() as int) == serialize_items(w, rest),
        b[p + serialize_items(w, rest).len()] == RIGHT_BRACKET,
    ensures
        items_at(b, p, room, done) == Ok::<(Json, int), ParseError>(
            (Json::Array(done + rest), p + serialize_items(w, rest).len() + 1),
        ),
    decreases rest, 0int,
{
    let si = serialize_items(w, rest);
    if rest.len() == 0 {
        assert(skip_spaces(b, p) == p);
        assert(done + rest =~= done);
    } else {
        let v = rest[0];
        let sv = serialize(w, v);
        let q = p + sv.len();
        assert(si.subrange(0, sv.len() as int) =~= sv);
        lemma_piece(b, p, si, 0, sv);
        assert(serializable(v, room));
        lemma_first_byte(w, v, room);
        lemma_byte(b, p, si, 0);
        assert(skip_spaces(b, p) == p);
        if rest.len() == 1 {
            assert(si == sv);
            lemma_value_round_trip(b, p, w, v, room);
            assert(skip_spaces(b, q) == q);
            assert(done.push(v) =~= done + rest);
        } else {
            let tail = serialize_items(w, rest.drop_first());
            assert(si == sv + seq![COMMA] + tail);
            lemma_byte(b, p, si, sv.len() as int);
            lemma_value_round_trip(b, p, w, v, room);
            assert(skip_spaces(b, q) == q);
            assert(si.subrange(sv.len() as int + 1, sv.len() as int + 1 + tail.len() as int) =~= tail);
            lemma_piece(b, p, si, sv.len() as int + 1, tail);
            assert(decreases_to!(rest => rest.subrange(1, rest.len() as int)));
            lemma_items_round_trip(b, q + 1, w, done.push(v), rest.drop_first(), room);
            assert(done.push(v) + rest.drop_first() =~= done + rest);
        }
    }
}

/// A member `k` of `m` at `p`, followed by a byte that ends a value, reads
/// into `fields`, up to what follows it.
proof fn lemma_member_round_trip(
    b: Seq<u8>,
    p: int,
    w: Writer,
    fields: Map<Seq<char>, Json>,
    m: Map<Seq<char>, Json>,
    k: Seq<char>,
    room: nat,
)
    requires
        valid_writer(w),
        m.dom().finite(),
        m.dom().contains(k),
        serializable(m[k], room),
        0 <= p,
        p + (quoted(w.esc, k) + seq![COLON] + serialize(w, m[k])).len() <= b.len(),
        b.subrange(p, p + (quoted(w.esc, k) + seq![COLON] + serialize(w, m[k])).len()) == quoted(w.esc, k) + seq![
            COLON,
        ] + serialize(w, m[k]),
        ends_value(b, p + (quoted(w.esc, k) + seq![COLON] + serialize(w, m[k])).len()),
    ensures
        members_at(b, p, room, fields) == member_end(
            b,
            p + (quoted(w.esc, k) + seq![COLON] + serialize(w, m[k])).len(),
            room,
            fields.insert(k, m[k]),
        ),
    decreases m, 0int,
{
    let qk = quoted(w.esc, k);
    let v = m[k];
    let sv = serialize(w, v);
    let entry = qk + seq![COLON] + sv;
    assert(entry.subrange(0, qk.len() as int) =~= qk);
    lemma_piece(b, p, entry, 0, qk);
    lemma_string_token(b, p, w, k);
    lemma_byte(b, p, entry, qk.len() as int);
    assert(skip_spaces(b, p + qk.len()) == p + qk.len());
    assert(entry.subrange(qk.len() as int + 1, qk.len() as int + 1 + sv.len() as int) =~= sv);
    lemma_piece(b, p, entry, qk.len() as int + 1, sv);
    lemma_value_round_trip(b, p + qk.len() + 1, w, v, room);
}

proof fn lemma_members_round_trip(
    b: Seq<u8>,
    p: int,
    w: Writer,
    fields: Map<Seq<char>, Json>,
    m: Map<Seq<char>, Json>,
    ks: Seq<Seq<char>>,
    room: nat,
)
    requires
        valid_writer(w),
        m.dom().finite(),
        forall|k: Seq<char>| m.dom().contains(k) ==> serializable(#[trigger] m[k], room),
        forall|i: int| 0 <= i < ks.len() ==> m.dom().contains(#[trigger] ks[i]),
        forall|k: Seq<char>| #[trigger]
            fields.dom().contains(k) ==> m.dom().contains(k) && fields[k] == m[k],
        forall|k: Seq<char>| #[trigger]
            m.dom().contains(k) ==> fields.dom().contains(k) || ks.contains(k),
        0 <= p,
        p + serialize_members(w, m, ks).len() < b.len(),
        b.subrange(p, p + serialize_members(w, m, ks).len()) == serialize_members(w, m, ks),
        b[p + serialize_members(w, m, ks).len()] == RIGHT_BRACE,
    ensures
        members_at(b, p, room, fields) == Ok::<(Json, int), ParseError>(
            (Json::Object(m), p + serialize_members(w, m, ks).len() + 1),
        ),
    decreases m, ks.len() as int,
{
    let sm = serialize_members(w, m, ks);
    if ks.len() == 0 {
        assert(skip_spaces(b, p) == p);
        assert(fields =~= m);
    } else {
        let k = ks[0];
        let v = m[k];
        let entry = quoted(w.esc, k) + seq![COLON] + serialize(w, v);
        let q = p + entry.len();
        let fields2 = fields.insert(k, v);
        if ks.len() == 1 {
            assert(sm == entry);
        } else {
            assert(sm == entry + seq![COMMA] + serialize_members(w, m, ks.drop_first()));
            lemma_byte(b, p, sm, entry.len() as int);
        }
        assert(sm.subrange(0, entry.len() as int) =~= entry);
        lemma_piece(b, p, sm, 0, entry);
        lemma_member_round_trip(b, p, w, fields, m, k, room);
        assert(skip_spaces(b, q) == q);
        if ks.len() == 1 {
            assert forall|k2: Seq<char>| m.dom().contains(k2) implies fields2.dom().contains(k2) by {
                if !fields.dom().contains(k2) {
                    assert(ks.contains(k2));
                    let j = choose|j: int| 0 <= j < ks.len() && ks[j] == k2;
                    assert(j == 0);
                }
            }
            assert(fields2 =~= m);
        } else {
            let rest = ks.drop_first();
            let tail = serialize_members(w, m, rest);
            assert(sm == entry + seq![COMMA] + tail);
            assert(sm.subrange(entry.len() as int + 1, entry.len() as int + 1 + tail.len() as int) =~= tail);
            lemma_piece(b, p, sm, entry.len() as int + 1, tail);
            assert forall|k2: Seq<char>| #[trigger]
                m.dom().contains(k2) implies fields2.dom().contains(k2) || rest.contains(k2) by {
                if !fields.dom().contains(k2) && k2 != k {
                    assert(ks.contains(k2));
                    let j = choose|j: int| 0 <= j < ks.len() && ks[j] == k2;
                    assert(rest[j - 1] == k2);
                }
            }
            lemma_members_round_trip(b, q + 1, w, fields2, m, rest, room);
        }
    }
}

/// Parsing the text that a serializer writes for a value gives the value
/// back. This holds for every serializer that writes each character of a
/// string raw (but a quote or a backslash), as `\"`, `\\`, `\/`, `\n`, `\r`,
/// `\t` or `\f`, or as `\u` and four hexadecimal digits, and that lists the
/// keys of an object in any order; and for every value that such a
/// serializer can write so that it reads back (see `serializable`).
pub proof fn lemma_round_trip(w: Writer, v: Json)
    requires
        valid_writer(w),
        serializable(v, MAX_DEPTH as nat),
    ensures
        document(serialize(w, v)) == Ok::<Json, ParseError>(v),
{
    let b = serialize(w, v);
    assert(b.subrange(0, b.len() as int) =~= b);
    lemma_value_round_trip(b, 0, w, v, MAX_DEPTH as nat);
}

} // verus!
