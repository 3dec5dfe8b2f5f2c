use vstd::prelude::*;

use crate::literal::{push_text, string_of};

verus! {

/// One lexical unit of the source text, with the line (1-based) and the byte
/// offset (0-based) at which it begins.
#[derive(PartialEq, Debug, Clone, Copy)]
pub struct Token<'a> {
    pub line: usize,
    pub index: usize,
    pub token_type: TokenType<'a>,
}

/// The kind of a token. Strings and numbers borrow their raw text from the
/// source: a string keeps its quotes and escapes, a number is not converted.
#[derive(PartialEq, Debug, Clone, Copy)]
pub enum TokenType<'a> {
    String { text: &'a str },
    Number { text: &'a str },
    Colon,
    Comma,
    LeftSquareBracket,
    RightSquareBracket,
    LeftCurlyBracket,
    RightCurlyBracket,
    True,
    False,
    Null,
    Error { message: &'a str },
}

/// The text that `Token::describe` gives: the kind of the token, with the
/// raw text of a string or a number and the message of an error.
pub open spec fn token_display(t: Token) -> Seq<char> {
    match t.token_type {
        TokenType::String { text } => "STR\""@ + text@ + "\""@,
        TokenType::Number { text } => "NUM\""@ + text@ + "\""@,
        TokenType::Colon => "<:>"@,
        TokenType::Comma => "<,>"@,
        TokenType::LeftSquareBracket => "<[>"@,
        TokenType::RightSquareBracket => "<]>"@,
        TokenType::LeftCurlyBracket => "<{>"@,
        TokenType::RightCurlyBracket => "<}>"@,
        TokenType::True => "<TRUE>"@,
        TokenType::False => "<FALSE>"@,
        TokenType::Null => "<NULL>"@,
        TokenType::Error { message } => "ERR\""@ + message@ + "\""@,
    }
}

impl<'a> Token<'a> {
    /// A short text for the token, such as `NUM"12"` or `<:>`.
    pub fn describe(&self) -> (r: String)
        ensures
            r@ == token_display(*self),
    {
        let mut out: Vec<char> = Vec::new();
        match self.token_type {
            TokenType::String { text } => {
                push_text(&mut out, "STR\"");
                push_text(&mut out, text);
                push_text(&mut out, "\"");
            },
            TokenType::Number { text } => {
                push_text(&mut out, "NUM\"");
                push_text(&mut out, text);
                push_text(&mut out, "\"");
            },
            TokenType::Colon => push_text(&mut out, "<:>"),
            TokenType::Comma => push_text(&mut out, "<,>"),
            TokenType::LeftSquareBracket => push_text(&mut out, "<[>"),
            TokenType::RightSquareBracket => push_text(&mut out, "<]>"),
            TokenType::LeftCurlyBracket => push_text(&mut out, "<{>"),
            TokenType::RightCurlyBracket => push_text(&mut out, "<}>"),
            TokenType::True => push_text(&mut out, "<TRUE>"),
            TokenType::False => push_text(&mut out, "<FALSE>"),
            TokenType::Null => push_text(&mut out, "<NULL>"),
            TokenType::Error { message } => {
                push_text(&mut out, "ERR\"");
                push_text(&mut out, message);
                push_text(&mut out, "\"");
            },
        }
        proof {
            assert(out@ =~= token_display(*self));
        }
        string_of(&out)
    }
}

} // verus!
