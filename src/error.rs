use vstd::prelude::*;

use crate::literal::{char_from_u32, push_text, string_of};

verus! {

/// What went wrong in a failed parse.
#[derive(Clone, Copy, Debug, PartialEq, Eq)]
pub enum ErrorKind {
    /// The input ended where a token was required.
    UnexpectedEndOfInput,
    /// `,`, `:`, `]` or `}` stands where a value is expected.
    UnexpectedToken(Punctuation),
    /// A string runs to the end of the input without its closing quote.
    UnterminatedString,
    /// A bare word other than `true`, `false` or `null`.
    UnknownKeyword,
    /// A backslash followed by a character that starts no escape.
    InvalidEscape,
    /// `\u` not followed by four hexadecimal digits of a Unicode scalar value.
    InvalidUnicodeEscape,
    /// An object member whose key is not a string.
    KeyNotString,
    /// An object key not followed by `:`.
    MissingColon,
    /// An element or member followed by neither `,` nor the closing bracket.
    MissingCommaOrCloser,
    /// Number text that the decimal-to-float conversion does not accept.
    InvalidNumber,
    /// Arrays and objects nested deeper than the parser allows.
    NestingTooDeep,
}

/// A punctuation token that cannot start a value.
#[derive(Clone, Copy, Debug, PartialEq, Eq)]
pub enum Punctuation {
    Colon,
    Comma,
    RightBracket,
    RightBrace,
}

/// Where the token at fault begins: its byte offset (0-based) and its line
/// (1-based).
#[derive(Clone, Copy, Debug, PartialEq, Eq)]
pub struct Position {
    pub index: usize,
    pub line: usize,
}

/// A failed parse: what went wrong, and where, when a token is at fault.
#[derive(Clone, Copy, Debug, PartialEq, Eq)]
pub struct ParseError {
    pub kind: ErrorKind,
    pub position: Option<Position>,
}

pub open spec fn kind_message(k: ErrorKind) -> Seq<char> {
    match k {
        ErrorKind::UnexpectedEndOfInput => "unexpected end of input"@,
        ErrorKind::UnexpectedToken(Punctuation::Colon) => "unexpected :"@,
        ErrorKind::UnexpectedToken(Punctuation::Comma) => "unexpected ,"@,
        ErrorKind::UnexpectedToken(Punctuation::RightBracket) => "unexpected ]"@,
        ErrorKind::UnexpectedToken(Punctuation::RightBrace) => "unexpected }"@,
        ErrorKind::UnterminatedString => "unterminated string"@,
        ErrorKind::UnknownKeyword => "unknown keyword"@,
        ErrorKind::InvalidEscape => "invalid escape"@,
        ErrorKind::InvalidUnicodeEscape => "parse \\u error"@,
        ErrorKind::KeyNotString => "object key is not string"@,
        ErrorKind::MissingColon => "expect :"@,
        ErrorKind::MissingCommaOrCloser => "expected comma or close"@,
        ErrorKind::InvalidNumber => "invalid number"@,
        ErrorKind::NestingTooDeep => "nesting too deep"@,
    }
}

/// The decimal digit `d` as a character.
pub open spec fn digit_char(d: nat) -> char {
    ((d + 48) as u32) as char
}

/// The decimal digits of `n`, most significant first.
pub open spec fn decimal(n: nat) -> Seq<char>
    decreases n,
{
    if n < 10 {
        seq![digit_char(n)]
    } else {
        decimal(n / 10).push(digit_char(n % 10))
    }
}

/// The text of an error: "error: <message>, at index: <index>, line: <line>",
/// or "error: <message>" when no token is at fault.
pub open spec fn error_text(e: ParseError) -> Seq<char> {
    match e.position {
        Some(p) => "error: "@ + kind_message(e.kind) + ", at index: "@ + decimal(p.index as nat)
            + ", line: "@ + decimal(p.line as nat),
        None => "error: "@ + kind_message(e.kind),
    }
}

impl ErrorKind {
    pub fn message(&self) -> (r: &'static str)
        ensures
            r@ == kind_message(*self),
    {
        match self {
            ErrorKind::UnexpectedEndOfInput => "unexpected end of input",
            ErrorKind::UnexpectedToken(Punctuation::Colon) => "unexpected :",
            ErrorKind::UnexpectedToken(Punctuation::Comma) => "unexpected ,",
            ErrorKind::UnexpectedToken(Punctuation::RightBracket) => "unexpected ]",
            ErrorKind::UnexpectedToken(Punctuation::RightBrace) => "unexpected }",
            ErrorKind::UnterminatedString => "unterminated string",
            ErrorKind::UnknownKeyword => "unknown keyword",
            ErrorKind::InvalidEscape => "invalid escape",
            ErrorKind::InvalidUnicodeEscape => "parse \\u error",
            ErrorKind::KeyNotString => "object key is not string",
            ErrorKind::MissingColon => "expect :",
            ErrorKind::MissingCommaOrCloser => "expected comma or close",
            ErrorKind::InvalidNumber => "invalid number",
            ErrorKind::NestingTooDeep => "nesting too deep",
        }
    }
}

fn push_decimal(out: &mut Vec<char>, n: usize)
    ensures
        final(out)@ == old(out)@ + decimal(n as nat),
    decreases n,
{
    if n >= 10 {
        push_decimal(out, n / 10);
    }
    let v = (n % 10) as u32 + 48;
    match char_from_u32(v) {
        Some(c) => {
            proof {
                vstd::utf8::char_u32_cast(c, v);
            }
            out.push(c);
        },
        None => {},
    }
    proof {
        if n < 10 {
            assert(old(out)@ + decimal(n as nat) =~= old(out)@.push(digit_char(n as nat)));
        } else {
            assert(old(out)@ + decimal(n as nat) =~= (old(out)@ + decimal((n / 10) as nat)).push(
                digit_char((n % 10) as nat),
            ));
        }
    }
}

impl ParseError {
    /// The error as text, in the form that `error_text` gives.
    pub fn describe(&self) -> (r: String)
        ensures
            r@ == error_text(*self),
    {
        let mut out: Vec<char> = Vec::new();
        push_text(&mut out, "error: ");
        push_text(&mut out, self.kind.message());
        match self.position {
            Some(p) => {
                push_text(&mut out, ", at index: ");
                push_decimal(&mut out, p.index);
                push_text(&mut out, ", line: ");
                push_decimal(&mut out, p.line);
            },
            None => {},
        }
        proof {
            match self.position {
                Some(p) => {
                    assert(out@ =~= error_text(*self));
                },
                None => {
                    assert(out@ =~= error_text(*self));
                },
            }
        }
        string_of(&out)
    }
}

} // verus!
