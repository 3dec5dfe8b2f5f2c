use vstd::prelude::*;
use vstd::utf8::*;
use vstd::string::StringSliceAdditionalSpecFns;

use crate::token::{Token, TokenType};

verus! {

pub const MINUS: u8 = 0x2d;
pub const QUOTE: u8 = 0x22;
pub const LEFT_BRACE: u8 = 0x7b;
pub const RIGHT_BRACE: u8 = 0x7d;
pub const LEFT_BRACKET: u8 = 0x5b;
pub const RIGHT_BRACKET: u8 = 0x5d;
pub const COMMA: u8 = 0x2c;
pub const COLON: u8 = 0x3a;
pub const SPACE: u8 = 0x20;
pub const NEWLINE: u8 = 0x0a;
pub const TAB: u8 = 0x09;
pub const RETURN: u8 = 0x0d;
pub const ONE: u8 = 0x31;
pub const NINE: u8 = 0x39;
pub const ZERO: u8 = 0x30;
pub const DOT: u8 = 0x2e;
pub const UPPER_E: u8 = 0x45;
pub const LOWER_E: u8 = 0x65;
pub const PLUS: u8 = 0x2b;
pub const BACKSLASH: u8 = 0x5c;
pub const LOWER_T: u8 = 0x74;
pub const LOWER_R: u8 = 0x72;
pub const LOWER_U: u8 = 0x75;
pub const LOWER_F: u8 = 0x66;
pub const LOWER_A: u8 = 0x61;
pub const LOWER_L: u8 = 0x6c;
pub const LOWER_S: u8 = 0x73;
pub const LOWER_N: u8 = 0x6e;

pub open spec fn is_space_byte(c: u8) -> bool {
    c == SPACE || c == NEWLINE || c == TAB || c == RETURN
}

pub open spec fn is_digit_byte(c: u8) -> bool {
    ZERO <= c && c <= NINE
}

pub open spec fn is_structural_byte(c: u8) -> bool {
    c == LEFT_BRACE || c == RIGHT_BRACE || c == LEFT_BRACKET || c == RIGHT_BRACKET || c == COMMA || c == COLON
}

/// The first position at or after `p` that does not hold whitespace.
pub open spec fn skip_spaces(b: Seq<u8>, p: int) -> int
    decreases b.len() - p,
{
    if 0 <= p < b.len() && is_space_byte(b[p]) {
        skip_spaces(b, p + 1)
    } else {
        p
    }
}

/// The end of the run of decimal digits that starts at `p`.
pub open spec fn digits_end(b: Seq<u8>, p: int) -> int
    decreases b.len() - p,
{
    if 0 <= p < b.len() && is_digit_byte(b[p]) {
        digits_end(b, p + 1)
    } else {
        p
    }
}

/// The end of the number that starts at `s`: an optional `-`, then a single
/// `0` or a run of digits led by `1`..`9`, then optionally `.` and digits,
/// then optionally `e` or `E`, a sign and digits. Every part may be empty.
/// The scan is loose on purpose and leaves the checking to the parser: a
/// lone `-` is scanned as a number that the parser then refuses, and after
/// a leading `0` the scan stops, so `01` is read as the two numbers `0` and
/// `1`, which the parser refuses as a missing comma.
pub open spec fn number_end(b: Seq<u8>, s: int) -> int {
    let sign_end = if s < b.len() && b[s] == MINUS { s + 1 } else { s };
    let int_end = if sign_end < b.len() && b[sign_end] == ZERO {
        sign_end + 1
    } else if sign_end < b.len() && ONE <= b[sign_end] <= NINE {
        digits_end(b, sign_end + 1)
    } else {
        sign_end
    };
    let frac_end = if int_end < b.len() && b[int_end] == DOT { digits_end(b, int_end + 1) } else { int_end };
    if frac_end < b.len() && (b[frac_end] == LOWER_E || b[frac_end] == UPPER_E) {
        let q = if frac_end + 1 < b.len() && (b[frac_end + 1] == PLUS || b[frac_end + 1] == MINUS) {
            frac_end + 2
        } else {
            frac_end + 1
        };
        digits_end(b, q)
    } else {
        frac_end
    }
}

/// Scanning the inside of a string from `p`: the position just after the
/// closing quote, where a backslash hides the byte that follows it, or
/// `None` when the input ends first.
pub open spec fn string_end(b: Seq<u8>, p: int) -> Option<int>
    decreases b.len() - p,
{
    if p < 0 || p >= b.len() {
        None
    } else if b[p] == QUOTE {
        Some(p + 1)
    } else if b[p] == BACKSLASH {
        if p + 1 < b.len() {
            string_end(b, p + 2)
        } else {
            None
        }
    } else {
        string_end(b, p + 1)
    }
}

/// The end of a bare word: the first whitespace or structural byte at or
/// after `p`, or the end of the input.
pub open spec fn keyword_end(b: Seq<u8>, p: int) -> int
    decreases b.len() - p,
{
    if 0 <= p < b.len() && !is_space_byte(b[p]) && !is_structural_byte(b[p]) {
        keyword_end(b, p + 1)
    } else {
        p
    }
}

/// Whether the bytes of `w` stand at position `p` of `b`.
pub open spec fn word_at(b: Seq<u8>, p: int, w: Seq<u8>) -> bool {
    0 <= p && p + w.len() <= b.len() && b.subrange(p, p + w.len()) == w
}

pub open spec fn true_word() -> Seq<u8> {
    seq![LOWER_T, LOWER_R, LOWER_U, LOWER_E]
}

pub open spec fn false_word() -> Seq<u8> {
    seq![LOWER_F, LOWER_A, LOWER_L, LOWER_S, LOWER_E]
}

pub open spec fn null_word() -> Seq<u8> {
    seq![LOWER_N, LOWER_U, LOWER_L, LOWER_L]
}

/// Number of newline bytes among the first `p` bytes of `b`.
pub open spec fn count_newlines(b: Seq<u8>, p: int) -> nat
    decreases p,
{
    if p <= 0 {
        0
    } else {
        count_newlines(b, p - 1) + if b[p - 1] == NEWLINE {
            1nat
        } else {
            0nat
        }
    }
}

/// The 1-based line on which byte `p` stands.
pub open spec fn line_at(b: Seq<u8>, p: int) -> int {
    1 + count_newlines(b, p) as int
}

/// What the scanner finds, before any position or text is attached.
pub enum Lexeme {
    String,
    Number,
    Colon,
    Comma,
    LeftBracket,
    RightBracket,
    LeftBrace,
    RightBrace,
    True,
    False,
    Null,
    Unterminated,
    Unknown,
}

/// A scanned token: its kind and the byte range `start..end` it covers.
pub ghost struct Lexed {
    pub kind: Lexeme,
    pub start: int,
    pub end: int,
}

/// The token that starts at `s`, a position that holds a byte other than
/// whitespace.
pub open spec fn scan_at(b: Seq<u8>, s: int) -> Lexed {
    let c = b[s];
    if c == MINUS || is_digit_byte(c) {
        Lexed { kind: Lexeme::Number, start: s, end: number_end(b, s) }
    } else if c == QUOTE {
        match string_end(b, s + 1) {
            Some(e) => Lexed { kind: Lexeme::String, start: s, end: e },
            None => Lexed { kind: Lexeme::Unterminated, start: s, end: b.len() as int },
        }
    } else if c == LEFT_BRACE {
        Lexed { kind: Lexeme::LeftBrace, start: s, end: s + 1 }
    } else if c == RIGHT_BRACE {
        Lexed { kind: Lexeme::RightBrace, start: s, end: s + 1 }
    } else if c == LEFT_BRACKET {
        Lexed { kind: Lexeme::LeftBracket, start: s, end: s + 1 }
    } else if c == RIGHT_BRACKET {
        Lexed { kind: Lexeme::RightBracket, start: s, end: s + 1 }
    } else if c == COLON {
        Lexed { kind: Lexeme::Colon, start: s, end: s + 1 }
    } else if c == COMMA {
        Lexed { kind: Lexeme::Comma, start: s, end: s + 1 }
    } else if c == LOWER_T && word_at(b, s, true_word()) {
        Lexed { kind: Lexeme::True, start: s, end: s + 4 }
    } else if c == LOWER_F && word_at(b, s, false_word()) {
        Lexed { kind: Lexeme::False, start: s, end: s + 5 }
    } else if c == LOWER_N && word_at(b, s, null_word()) {
        Lexed { kind: Lexeme::Null, start: s, end: s + 4 }
    } else {
        Lexed { kind: Lexeme::Unknown, start: s, end: keyword_end(b, s) }
    }
}

/// The next token at or after position `p`, or `None` when only whitespace
/// is left.
pub open spec fn next_lexed(b: Seq<u8>, p: int) -> Option<Lexed> {
    let s = skip_spaces(b, p);
    if s < b.len() {
        Some(scan_at(b, s))
    } else {
        None
    }
}

/// Whether `t` is the token that the scan `x` of `b` describes.
pub open spec fn is_token_of(t: Token, b: Seq<u8>, x: Lexed) -> bool {
    &&& t.index == x.start
    &&& t.line == line_at(b, x.start)
    &&& match x.kind {
        Lexeme::String => match t.token_type {
            TokenType::String { text } => text.spec_bytes() == b.subrange(x.start, x.end),
            _ => false,
        },
        Lexeme::Number => match t.token_type {
            TokenType::Number { text } => text.spec_bytes() == b.subrange(x.start, x.end),
            _ => false,
        },
        Lexeme::Colon => t.token_type == TokenType::Colon,
        Lexeme::Comma => t.token_type == TokenType::Comma,
        Lexeme::LeftBracket => t.token_type == TokenType::LeftSquareBracket,
        Lexeme::RightBracket => t.token_type == TokenType::RightSquareBracket,
        Lexeme::LeftBrace => t.token_type == TokenType::LeftCurlyBracket,
        Lexeme::RightBrace => t.token_type == TokenType::RightCurlyBracket,
        Lexeme::True => t.token_type == TokenType::True,
        Lexeme::False => t.token_type == TokenType::False,
        Lexeme::Null => t.token_type == TokenType::Null,
        Lexeme::Unterminated => match t.token_type {
            TokenType::Error { message } => message@ == "unterminated string"@,
            _ => false,
        },
        Lexeme::Unknown => match t.token_type {
            TokenType::Error { message } => message@ == "unknown keyword"@,
            _ => false,
        },
    }
}

pub proof fn lemma_newlines_bound(b: Seq<u8>, p: int)
    requires
        0 <= p,
    ensures
        count_newlines(b, p) <= p,
    decreases p,
{
    if p > 0 {
        lemma_newlines_bound(b, p - 1);
    }
}

pub proof fn lemma_skip_spaces(b: Seq<u8>, p: int)
    requires
        0 <= p <= b.len(),
    ensures
        p <= skip_spaces(b, p) <= b.len(),
        skip_spaces(b, p) < b.len() ==> !is_space_byte(b[skip_spaces(b, p)]),
    decreases b.len() - p,
{
    if p < b.len() && is_space_byte(b[p]) {
        lemma_skip_spaces(b, p + 1);
    }
}

pub proof fn lemma_digits_end(b: Seq<u8>, p: int)
    requires
        0 <= p <= b.len(),
    ensures
        p <= digits_end(b, p) <= b.len(),
        forall|i: int| p <= i < digits_end(b, p) ==> is_digit_byte(#[trigger] b[i]),
    decreases b.len() - p,
{
    if p < b.len() && is_digit_byte(b[p]) {
        lemma_digits_end(b, p + 1);
    }
}

pub proof fn lemma_keyword_end(b: Seq<u8>, p: int)
    requires
        0 <= p <= b.len(),
    ensures
        p <= keyword_end(b, p) <= b.len(),
    decreases b.len() - p,
{
    if p < b.len() && !is_space_byte(b[p]) && !is_structural_byte(b[p]) {
        lemma_keyword_end(b, p + 1);
    }
}

pub proof fn lemma_string_end(b: Seq<u8>, p: int)
    requires
        0 <= p,
    ensures
        string_end(b, p) matches Some(e) ==> p < e <= b.len() && b[e - 1] == QUOTE,
    decreases b.len() - p,
{
    if 0 <= p < b.len() && b[p] != QUOTE {
        if b[p] == BACKSLASH {
            if p + 1 < b.len() {
                lemma_string_end(b, p + 2);
            }
        } else {
            lemma_string_end(b, p + 1);
        }
    }
}

/// The number that starts at `s` ends with a byte of its own grammar.
pub proof fn lemma_number_end(b: Seq<u8>, s: int)
    requires
        0 <= s < b.len(),
        b[s] == MINUS || is_digit_byte(b[s]),
    ensures
        s < number_end(b, s) <= b.len(),
        b[number_end(b, s) - 1] < 0x80u8,
{
    let sign_end = if s < b.len() && b[s] == MINUS { s + 1 } else { s };
    if sign_end < b.len() {
        lemma_digits_end(b, sign_end + 1);
    }
    let int_end = if sign_end < b.len() && b[sign_end] == ZERO {
        sign_end + 1
    } else if sign_end < b.len() && ONE <= b[sign_end] <= NINE {
        digits_end(b, sign_end + 1)
    } else {
        sign_end
    };
    if int_end < b.len() {
        lemma_digits_end(b, int_end + 1);
    }
    let frac_end = if int_end < b.len() && b[int_end] == DOT { digits_end(b, int_end + 1) } else { int_end };
    if frac_end + 1 <= b.len() {
        lemma_digits_end(b, frac_end + 1);
    }
    if frac_end + 2 <= b.len() {
        lemma_digits_end(b, frac_end + 2);
    }
}

/// The token found by the scanner is never empty, and it lies in the input.
pub proof fn lemma_scan_at(b: Seq<u8>, s: int)
    requires
        0 <= s < b.len(),
        !is_space_byte(b[s]),
    ensures
        scan_at(b, s).start == s,
        s < scan_at(b, s).end <= b.len(),
{
    if b[s] == MINUS || is_digit_byte(b[s]) {
        lemma_number_end(b, s);
    } else if b[s] == QUOTE {
        lemma_string_end(b, s + 1);
    } else {
        lemma_keyword_end(b, s + 1);
    }
}

pub proof fn lemma_next_lexed(b: Seq<u8>, p: int)
    requires
        0 <= p <= b.len(),
    ensures
        next_lexed(b, p) matches Some(x) ==> p <= x.start < x.end <= b.len()
            && next_lexed(b, x.start) == Some(x),
{
    lemma_skip_spaces(b, p);
    let s = skip_spaces(b, p);
    if s < b.len() {
        lemma_scan_at(b, s);
        assert(skip_spaces(b, s) == s);
    }
}

/// In valid UTF-8, the byte after an ASCII byte is no continuation byte.
proof fn lemma_no_continuation_after_ascii(b: Seq<u8>, i: int)
    requires
        valid_utf8(b),
        0 <= i,
        i + 1 < b.len(),
        b[i] < 0x80u8,
    ensures
        !is_continuation_byte(b[i + 1]),
    decreases b.len(),
{
    let n = length_of_first_scalar(b);
    let rest = pop_first_scalar(b);
    assert(rest.len() == b.len() - n);
    assert(valid_utf8(rest));
    if i == 0 {
        assert(n == 1);
        assert(rest[0] == b[1]);
        assert(valid_first_scalar(rest)) by {
            reveal_with_fuel(valid_utf8, 2);
        }
    } else if i < n {
        assert(is_continuation_byte(b[i]));
    } else {
        assert(rest[i - n] == b[i]);
        assert(rest[i - n + 1] == b[i + 1]);
        lemma_no_continuation_after_ascii(rest, i - n);
    }
}

/// In valid UTF-8, the byte after an ASCII byte starts a new character.
pub proof fn lemma_boundary_after_ascii(b: Seq<u8>, i: int)
    requires
        valid_utf8(b),
        0 <= i < b.len(),
        b[i] < 0x80u8,
    ensures
        is_char_boundary(b, i + 1),
{
    if i + 1 < b.len() {
        lemma_no_continuation_after_ascii(b, i);
        is_char_boundary_iff_not_is_continuation_byte(b, i + 1);
    } else {
        is_char_boundary_start_end_of_seq(b);
    }
}

/// In valid UTF-8, an ASCII byte starts a character.
pub proof fn lemma_boundary_at_ascii(b: Seq<u8>, i: int)
    requires
        valid_utf8(b),
        0 <= i < b.len(),
        b[i] < 0x80u8,
    ensures
        is_char_boundary(b, i),
{
    is_char_boundary_iff_not_is_continuation_byte(b, i);
}

/// A scanner over a source text that hands out one token at a time, moving
/// forward only.
pub struct Tokenizer<'a> {
    current: usize,
    newlines: usize,
    src: &'a str,
    bytes: &'a [u8],
}

impl<'a> Tokenizer<'a> {
    /// The bytes of the source text.
    pub closed spec fn source(&self) -> Seq<u8> {
        self.src.spec_bytes()
    }

    /// The byte offset of the cursor.
    pub closed spec fn position(&self) -> int {
        self.current as int
    }

    /// The cursor lies within the source, and the newlines before it are
    /// counted.
    pub closed spec fn wf(&self) -> bool {
        &&& self.bytes@ == self.src.spec_bytes()
        &&& self.bytes@.len() <= usize::MAX
        &&& self.current <= self.src.spec_bytes().len()
        &&& self.newlines == count_newlines(self.src.spec_bytes(), self.current as int)
    }

    pub proof fn lemma_bounds(&self)
        requires
            self.wf(),
        ensures
            0 <= self.position() <= self.source().len(),
    {
    }

    pub fn new(src: &'a str) -> (r: Tokenizer<'a>)
        ensures
            r.wf(),
            r.source() == src.spec_bytes(),
            r.position() == 0,
    {
        let bytes = src.as_bytes();
        proof {
            assert(bytes.len() == bytes@.len());
        }
        Tokenizer { current: 0, newlines: 0, src, bytes }
    }

    /// The next token at or after the cursor, or `None` when only whitespace
    /// is left. The cursor moves past the token returned.
    pub fn next(&mut self) -> (r: Option<Token<'a>>)
        requires
            old(self).wf(),
        ensures
            final(self).wf(),
            final(self).source() == old(self).source(),
            old(self).position() <= final(self).position(),
            match next_lexed(old(self).source(), old(self).position()) {
                None => r is None && final(self).position() == old(self).source().len(),
                Some(x) => r matches Some(t) && is_token_of(t, old(self).source(), x)
                    && final(self).position() == x.end,
            },
    {
        let ghost b = self.source();
        proof {
            lemma_skip_spaces(b, self.current as int);
        }
        self.skip_white_spaces();
        let ghost s = self.current as int;
        proof {
            if s < b.len() {
                lemma_scan_at(b, s);
            }
        }
        if self.check_byte(MINUS) || self.is_digit() {
            return Some(self.number());
        }
        if self.check_byte(QUOTE) {
            return Some(self.string());
        }
        let c = match self.peek() {
            Some(c) => c,
            None => return None,
        };
        proof {
            lemma_newlines_bound(b, s);
            lemma_scan_at(b, s);
        }
        let index = self.current;
        let line = self.newlines + 1;
        if c == LEFT_BRACE {
            self.advance();
            Some(Token { line, index, token_type: TokenType::LeftCurlyBracket })
        } else if c == RIGHT_BRACE {
            self.advance();
            Some(Token { line, index, token_type: TokenType::RightCurlyBracket })
        } else if c == LEFT_BRACKET {
            self.advance();
            Some(Token { line, index, token_type: TokenType::LeftSquareBracket })
        } else if c == RIGHT_BRACKET {
            self.advance();
            Some(Token { line, index, token_type: TokenType::RightSquareBracket })
        } else if c == COLON {
            self.advance();
            Some(Token { line, index, token_type: TokenType::Colon })
        } else if c == COMMA {
            self.advance();
            Some(Token { line, index, token_type: TokenType::Comma })
        } else if c == LOWER_T && self.check(&[LOWER_T, LOWER_R, LOWER_U, LOWER_E]) {
            self.advance_by(4);
            Some(Token { line, index, token_type: TokenType::True })
        } else if c == LOWER_F && self.check(&[LOWER_F, LOWER_A, LOWER_L, LOWER_S, LOWER_E]) {
            self.advance_by(5);
            Some(Token { line, index, token_type: TokenType::False })
        } else if c == LOWER_N && self.check(&[LOWER_N, LOWER_U, LOWER_L, LOWER_L]) {
            self.advance_by(4);
            Some(Token { line, index, token_type: TokenType::Null })
        } else {
            Some(self.unknown_keyword())
        }
    }

    fn number(&mut self) -> (r: Token<'a>)
        requires
            old(self).wf(),
            old(self).current < old(self).source().len(),
            old(self).source()[old(self).current as int] == MINUS || is_digit_byte(
                old(self).source()[old(self).current as int],
            ),
        ensures
            final(self).wf(),
            final(self).src == old(self).src,
            final(self).current == number_end(old(self).source(), old(self).current as int),
            is_token_of(r, old(self).source(), scan_at(old(self).source(), old(self).current as int)),
    {
        let ghost b = self.source();
        let start = self.current;
        proof {
            lemma_newlines_bound(b, start as int);
        }
        let line = self.newlines + 1;
        if self.check_byte(MINUS) {
            self.advance();
        }
        if self.is_zero() {
            self.advance();
        } else if self.is_1to9() {
            self.advance();
            self.digits();
        }
        if self.check_byte(DOT) {
            self.advance();
            self.digits();
        }
        if self.check_byte(UPPER_E) || self.check_byte(LOWER_E) {
            self.advance();
            if self.check_byte(PLUS) || self.check_byte(MINUS) {
                self.advance();
            }
            self.digits();
        }
        proof {
            lemma_number_end(b, start as int);
        }
        let text = self.span(start, self.current);
        Token { line, index: start, token_type: TokenType::Number { text } }
    }

    fn string(&mut self) -> (r: Token<'a>)
        requires
            old(self).wf(),
            old(self).current < old(self).source().len(),
            old(self).source()[old(self).current as int] == QUOTE,
        ensures
            final(self).wf(),
            final(self).src == old(self).src,
            final(self).current == scan_at(old(self).source(), old(self).current as int).end,
            is_token_of(r, old(self).source(), scan_at(old(self).source(), old(self).current as int)),
    {
        let ghost b = self.source();
        let start = self.current;
        proof {
            lemma_newlines_bound(b, start as int);
            lemma_string_end(b, start + 1);
        }
        let line = self.newlines + 1;
        self.advance();
        while !self.at_end()
            invariant
                self.wf(),
                self.src == old(self).src,
                b == self.source(),
                b == old(self).source(),
                start == old(self).current,
                b[start as int] == QUOTE,
                line == line_at(b, start as int),
                start < self.current <= b.len(),
                string_end(b, self.current as int) == string_end(b, start + 1),
            ensures
                self.current == b.len(),
                string_end(b, start + 1) is None,
            decreases b.len() - self.current,
        {
            let ghost p = self.current as int;
            if self.check_byte(QUOTE) {
                self.advance();
                proof {
                    assert(string_end(b, p) == Some(p + 1));
                }
                let text = self.span(start, self.current);
                return Token { line, index: start, token_type: TokenType::String { text } };
            }
            if self.check_byte(BACKSLASH) {
                self.advance();
                if self.at_end() {
                    proof {
                        assert(string_end(b, p) is None);
                    }
                    break;
                }
            }
            self.advance();
        }
        Token { line, index: start, token_type: TokenType::Error { message: "unterminated string" } }
    }

    fn skip_white_spaces(&mut self)
        requires
            old(self).wf(),
        ensures
            final(self).wf(),
            final(self).src == old(self).src,
            final(self).current == skip_spaces(old(self).source(), old(self).current as int),
    {
        let ghost b = self.source();
        let ghost target = skip_spaces(b, self.current as int);
        while self.is_space()
            invariant
                self.wf(),
                self.src == old(self).src,
                b == self.source(),
                skip_spaces(b, self.current as int) == target,
            decreases b.len() - self.current,
        {
            self.advance();
        }
    }

    fn unknown_keyword(&mut self) -> (r: Token<'a>)
        requires
            old(self).wf(),
            old(self).current < old(self).source().len(),
        ensures
            final(self).wf(),
            final(self).src == old(self).src,
            final(self).current == keyword_end(old(self).source(), old(self).current as int),
            r.index == old(self).current,
            r.line == line_at(old(self).source(), old(self).current as int),
            r.token_type matches TokenType::Error { message } && message@ == "unknown keyword"@,
    {
        let ghost b = self.source();
        let start = self.current;
        proof {
            lemma_newlines_bound(b, start as int);
        }
        let line = self.newlines + 1;
        while !self.at_end()
            invariant
                self.wf(),
                self.src == old(self).src,
                b == self.source(),
                b == old(self).source(),
                start == old(self).current,
                start <= self.current <= b.len(),
                keyword_end(b, self.current as int) == keyword_end(b, start as int),
            ensures
                self.current == keyword_end(b, start as int),
            decreases b.len() - self.current,
        {
            let c = match self.peek() {
                Some(c) => c,
                None => break,
            };
            if self.is_space() {
                break;
            }
            if c == LEFT_BRACE || c == RIGHT_BRACE || c == LEFT_BRACKET || c == RIGHT_BRACKET || c == COMMA || c == COLON {
                proof {
                    assert(is_structural_byte(b[self.current as int]));
                }
                break;
            }
            self.advance();
        }
        Token { line, index: start, token_type: TokenType::Error { message: "unknown keyword" } }
    }

    /// Moves the cursor over a run of digits.
    fn digits(&mut self)
        requires
            old(self).wf(),
        ensures
            final(self).wf(),
            final(self).src == old(self).src,
            final(self).current == digits_end(old(self).source(), old(self).current as int),
    {
        let ghost b = self.source();
        let ghost target = digits_end(b, self.current as int);
        while self.is_digit()
            invariant
                self.wf(),
                self.src == old(self).src,
                b == self.source(),
                digits_end(b, self.current as int) == target,
            decreases b.len() - self.current,
        {
            self.advance();
        }
    }

    /// The source text between two byte offsets that hold ASCII bytes.
    fn span(&self, start: usize, end: usize) -> (r: &'a str)
        requires
            self.wf(),
            start < end <= self.source().len(),
            self.source()[start as int] < 0x80u8,
            self.source()[end - 1] < 0x80u8,
        ensures
            r.spec_bytes() == self.source().subrange(start as int, end as int),
    {
        let ghost b = self.source();
        proof {
            encode_utf8_valid_utf8(self.src@);
            lemma_boundary_at_ascii(b, start as int);
        }
        let (_, tail) = self.src.split_at(start);
        proof {
            let t = tail.spec_bytes();
            encode_utf8_valid_utf8(tail@);
            assert(t[end - 1 - start] == b[end - 1]);
            lemma_boundary_after_ascii(t, end - 1 - start);
        }
        let (r, _) = tail.split_at(end - start);
        proof {
            assert(r.spec_bytes() =~= b.subrange(start as int, end as int));
        }
        r
    }

    fn is_space(&self) -> (r: bool)
        requires
            self.wf(),
        ensures
            r == (self.current < self.source().len() && is_space_byte(
                self.source()[self.current as int],
            )),
    {
        match self.peek() {
            Some(c) => c == SPACE || c == NEWLINE || c == TAB || c == RETURN,
            None => false,
        }
    }

    fn is_digit(&self) -> (r: bool)
        requires
            self.wf(),
        ensures
            r == (self.current < self.source().len() && is_digit_byte(
                self.source()[self.current as int],
            )),
    {
        self.is_zero() || self.is_1to9()
    }

    fn is_1to9(&self) -> (r: bool)
        requires
            self.wf(),
        ensures
            r == (self.current < self.source().len() && ONE <= self.source()[self.current as int]
                <= NINE),
    {
        match self.peek() {
            Some(c) => c >= ONE && c <= NINE,
            None => false,
        }
    }

    fn is_zero(&self) -> (r: bool)
        requires
            self.wf(),
        ensures
            r == (self.current < self.source().len() && self.source()[self.current as int]
                == ZERO),
    {
        self.check_byte(ZERO)
    }

    /// Moves the cursor one byte forward.
    fn advance(&mut self)
        requires
            old(self).wf(),
            old(self).current < old(self).source().len(),
        ensures
            final(self).wf(),
            final(self).src == old(self).src,
            final(self).current == old(self).current + 1,
    {
        proof {
            lemma_newlines_bound(self.source(), self.current as int);
        }
        if self.bytes[self.current] == NEWLINE {
            self.newlines = self.newlines + 1;
        }
        self.current = self.current + 1;
    }

    /// Moves the cursor `n` bytes forward.
    fn advance_by(&mut self, n: usize)
        requires
            old(self).wf(),
            old(self).current + n <= old(self).source().len(),
        ensures
            final(self).wf(),
            final(self).src == old(self).src,
            final(self).current == old(self).current + n,
    {
        let mut k: usize = 0;
        while k < n
            invariant
                self.wf(),
                self.src == old(self).src,
                k <= n,
                self.current == old(self).current + k,
                old(self).current + n <= self.source().len(),
            decreases n - k,
        {
            self.advance();
            k = k + 1;
        }
    }

    fn peek(&self) -> (r: Option<u8>)
        requires
            self.wf(),
        ensures
            r == (if self.current < self.source().len() {
                Some(self.source()[self.current as int])
            } else {
                None::<u8>
            }),
    {
        if self.at_end() {
            return None;
        }
        Some(self.bytes[self.current])
    }

    fn at_end(&self) -> (r: bool)
        requires
            self.wf(),
        ensures
            r == (self.current >= self.source().len()),
    {
        self.current >= self.bytes.len()
    }

    fn check_byte(&self, byte: u8) -> (r: bool)
        requires
            self.wf(),
        ensures
            r == (self.current < self.source().len() && self.source()[self.current as int] == byte),
    {
        match self.peek() {
            Some(c) => c == byte,
            None => false,
        }
    }

    /// Whether the bytes of `word` stand at the cursor.
    fn check(&self, word: &[u8]) -> (r: bool)
        requires
            self.wf(),
        ensures
            r == word_at(self.source(), self.current as int, word@),
    {
        let ghost b = self.source();
        let bytes = self.bytes;
        if word.len() > bytes.len() - self.current {
            return false;
        }
        let mut i: usize = 0;
        while i < word.len()
            invariant
                self.wf(),
                b == self.source(),
                bytes@ == b,
                i <= word.len(),
                self.current + word.len() <= b.len(),
                forall|j: int| 0 <= j < i ==> b[self.current + j] == word@[j],
            decreases word.len() - i,
        {
            if bytes[self.current + i] != word[i] {
                proof {
                    assert(b.subrange(self.current as int, self.current + word.len())[i as int]
                        != word@[i as int]);
                }
                return false;
            }
            i = i + 1;
        }
        proof {
            assert(b.subrange(self.current as int, self.current + word.len()) =~= word@);
        }
        true
    }
}

} // verus!
