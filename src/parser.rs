use vstd::prelude::*;
use vstd::string::StringSliceAdditionalSpecFns;
use vstd::utf8::*;

use crate::error::{error_text, ErrorKind, ParseError, Position, Punctuation};
use crate::literal::{
    char_from_u32, chars_of, hex_number, is_float_text, is_number_text, string_of, unescape,
    unescape_from,
};
use crate::token::{Token, TokenType};
use crate::tokenizer::{is_token_of, lemma_next_lexed, line_at, next_lexed, Lexed, Lexeme, Tokenizer};
use crate::value::{lemma_nodes_view_push, nodes_view, same_text, Json, JsonNode, JsonObject};

verus! {

broadcast use vstd::string::group_string_axioms;

/// How deeply arrays and objects may nest. Deeper input fails with
/// `ErrorKind::NestingTooDeep` instead of exhausting the stack.
pub const MAX_DEPTH: usize = 128;

/// The error that the token `x` causes.
pub open spec fn error_at(b: Seq<u8>, x: Lexed, kind: ErrorKind) -> ParseError {
    ParseError {
        kind,
        position: Some(Position { index: x.start as usize, line: line_at(b, x.start) as usize }),
    }
}

/// The error when the input ends too early.
pub open spec fn error_at_end(kind: ErrorKind) -> ParseError {
    ParseError { kind, position: None }
}

/// The characters of the token `x`.
pub open spec fn token_text(b: Seq<u8>, x: Lexed) -> Seq<char> {
    decode_utf8(b.subrange(x.start, x.end))
}

/// The value that starts with the first token at or after `p`, and the
/// position after it; `room` is how many more levels of arrays and objects
/// may open.
pub open spec fn value_at(b: Seq<u8>, p: int, room: nat) -> Result<(Json, int), ParseError>
    decreases b.len() - p, 0int,
    when 0 <= p <= b.len()
{
    proof {
        lemma_next_lexed(b, p);
    }
    match next_lexed(b, p) {
        None => Err(error_at_end(ErrorKind::UnexpectedEndOfInput)),
        Some(x) => match x.kind {
            Lexeme::Number => if is_float_text(b.subrange(x.start, x.end)) {
                Ok((Json::Num(token_text(b, x)), x.end))
            } else {
                Err(error_at(b, x, ErrorKind::InvalidNumber))
            },
            Lexeme::String => match unescape(token_text(b, x)) {
                Ok(s) => Ok((Json::Str(s), x.end)),
                Err(k) => Err(error_at(b, x, k)),
            },
            Lexeme::True => Ok((Json::Bool(true), x.end)),
            Lexeme::False => Ok((Json::Bool(false), x.end)),
            Lexeme::Null => Ok((Json::Null, x.end)),
            Lexeme::LeftBracket => if room == 0 {
                Err(error_at(b, x, ErrorKind::NestingTooDeep))
            } else {
                items_at(b, x.end, (room - 1) as nat, Seq::empty())
            },
            Lexeme::LeftBrace => if room == 0 {
                Err(error_at(b, x, ErrorKind::NestingTooDeep))
            } else {
                members_at(b, x.end, (room - 1) as nat, Map::empty())
            },
            Lexeme::Unterminated => Err(error_at(b, x, ErrorKind::UnterminatedString)),
            Lexeme::Unknown => Err(error_at(b, x, ErrorKind::UnknownKeyword)),
            Lexeme::Colon => Err(error_at(b, x, ErrorKind::UnexpectedToken(Punctuation::Colon))),
            Lexeme::Comma => Err(error_at(b, x, ErrorKind::UnexpectedToken(Punctuation::Comma))),
            Lexeme::RightBracket => Err(
                error_at(b, x, ErrorKind::UnexpectedToken(Punctuation::RightBracket)),
            ),
            Lexeme::RightBrace => Err(
                error_at(b, x, ErrorKind::UnexpectedToken(Punctuation::RightBrace)),
            ),
        },
    }
}

/// The rest of an array from `p`, just after `[` or after a comma, with the
/// elements `items` read so far. A `]` there closes the array, so a comma
/// before the closing bracket is accepted.
pub open spec fn items_at(b: Seq<u8>, p: int, room: nat, items: Seq<Json>) -> Result<
    (Json, int),
    ParseError,
>
    decreases b.len() - p, 2int,
    when 0 <= p <= b.len()
{
    proof {
        lemma_next_lexed(b, p);
    }
    match next_lexed(b, p) {
        None => Err(error_at_end(ErrorKind::UnexpectedEndOfInput)),
        Some(x) => if x.kind is RightBracket {
            Ok((Json::Array(items), x.end))
        } else {
            match value_at(b, p, room) {
                Err(e) => Err(e),
                // A value always covers at least one token: the test on `q`
                // only lets the definition's termination be seen.
                Ok((v, q)) => if p < q <= b.len() {
                    item_end(b, q, room, items.push(v))
                } else {
                    Err(error_at_end(ErrorKind::UnexpectedEndOfInput))
                },
            }
        },
    }
}

/// What follows an element of an array: `]` closes the array, a comma
/// leads to the next element.
pub open spec fn item_end(b: Seq<u8>, q: int, room: nat, items: Seq<Json>) -> Result<
    (Json, int),
    ParseError,
>
    decreases b.len() - q, 3int,
    when 0 <= q <= b.len()
{
    proof {
        lemma_next_lexed(b, q);
    }
    match next_lexed(b, q) {
        None => Err(error_at_end(ErrorKind::UnexpectedEndOfInput)),
        Some(y) => if y.kind is RightBracket {
            Ok((Json::Array(items), y.end))
        } else if y.kind is Comma {
            items_at(b, y.end, room, items)
        } else {
            Err(error_at(b, y, ErrorKind::MissingCommaOrCloser))
        },
    }
}

/// The rest of an object from `p`, just after `{` or after a comma, with
/// the members `fields` read so far. A `}` there closes the object, so a
/// comma before the closing brace is accepted.
pub open spec fn members_at(b: Seq<u8>, p: int, room: nat, fields: Map<Seq<char>, Json>) -> Result<
    (Json, int),
    ParseError,
>
    decreases b.len() - p, 2int,
    when 0 <= p <= b.len()
{
    proof {
        lemma_next_lexed(b, p);
    }
    match next_lexed(b, p) {
        None => Err(error_at_end(ErrorKind::UnexpectedEndOfInput)),
        Some(x) => if x.kind is RightBrace {
            Ok((Json::Object(fields), x.end))
        } else if !(x.kind is String) {
            Err(error_at(b, x, ErrorKind::KeyNotString))
        } else {
            match unescape(token_text(b, x)) {
                Err(k) => Err(error_at(b, x, k)),
                Ok(key) => member_at(b, x.end, room, fields, key),
            }
        },
    }
}

/// A member of an object after its key `key`, which ends at `k`: a colon,
/// then the value. A later member of a key replaces an earlier one.
pub open spec fn member_at(
    b: Seq<u8>,
    k: int,
    room: nat,
    fields: Map<Seq<char>, Json>,
    key: Seq<char>,
) -> Result<(Json, int), ParseError>
    decreases b.len() - k, 3int,
    when 0 <= k <= b.len()
{
    proof {
        lemma_next_lexed(b, k);
    }
    match next_lexed(b, k) {
        None => Err(error_at_end(ErrorKind::MissingColon)),
        Some(c) => if !(c.kind is Colon) {
            Err(error_at(b, c, ErrorKind::MissingColon))
        } else {
            match value_at(b, c.end, room) {
                Err(e) => Err(e),
                // As in `items_at`, the test on `q` always passes.
                Ok((v, q)) => if c.end < q <= b.len() {
                    member_end(b, q, room, fields.insert(key, v))
                } else {
                    Err(error_at_end(ErrorKind::UnexpectedEndOfInput))
                },
            }
        },
    }
}

/// What follows a member of an object: `}` closes the object, a comma
/// leads to the next member.
pub open spec fn member_end(b: Seq<u8>, q: int, room: nat, fields: Map<Seq<char>, Json>) -> Result<
    (Json, int),
    ParseError,
>
    decreases b.len() - q, 3int,
    when 0 <= q <= b.len()
{
    proof {
        lemma_next_lexed(b, q);
    }
    match next_lexed(b, q) {
        None => Err(error_at_end(ErrorKind::UnexpectedEndOfInput)),
        Some(y) => if y.kind is RightBrace {
            Ok((Json::Object(fields), y.end))
        } else if y.kind is Comma {
            members_at(b, y.end, room, fields)
        } else {
            Err(error_at(b, y, ErrorKind::MissingCommaOrCloser))
        },
    }
}

/// The value of the document `b`: the first value in it. What follows that
/// value is not read, so `[1] x` parses as `[1]`; a caller that wants the
/// whole input to be one value can parse again from the parser's position
/// and expect `UnexpectedEndOfInput`.
pub open spec fn document(b: Seq<u8>) -> Result<Json, ParseError> {
    match value_at(b, 0, MAX_DEPTH as nat) {
        Ok((v, _)) => Ok(v),
        Err(e) => Err(e),
    }
}

/// Parses the first JSON value of `source` (see `document`: a comma before
/// a closing bracket is accepted, and text after the value is not read).
/// On failure the error is given
/// as text: see `error_text`.
pub fn parse(source: &str) -> (r: Result<JsonNode, String>)
    ensures
        match document(source.spec_bytes()) {
            Ok(v) => r matches Ok(n) && n@ == v,
            Err(e) => r matches Err(m) && m@ == error_text(e),
        },
{
    JsonParser::new(source).parse()
}

/// Parses the first JSON value of `source`, reporting a failure as a
/// structured error.
pub fn parse_json(source: &str) -> (r: Result<JsonNode, ParseError>)
    ensures
        match document(source.spec_bytes()) {
            Ok(v) => r matches Ok(n) && n@ == v,
            Err(e) => r == Err::<JsonNode, ParseError>(e),
        },
{
    JsonParser::new(source).parse_json()
}

/// A recursive-descent parser that pulls tokens from a tokenizer, with room
/// to push one token back.
pub struct JsonParser<'a> {
    tokenizer: Tokenizer<'a>,
    buffer: Option<Token<'a>>,
}

impl<'a> JsonParser<'a> {
    /// The bytes of the source text.
    pub closed spec fn source(&self) -> Seq<u8> {
        self.tokenizer.source()
    }

    /// Where the next token is looked for.
    pub closed spec fn position(&self) -> int {
        match self.buffer {
            Some(t) => t.index as int,
            None => self.tokenizer.position(),
        }
    }

    /// A token pushed back is the one found at its own position, and the
    /// tokenizer stands just after it.
    pub closed spec fn wf(&self) -> bool {
        &&& self.tokenizer.wf()
        &&& match self.buffer {
            None => true,
            Some(t) => next_lexed(self.source(), t.index as int) matches Some(x) && is_token_of(
                t,
                self.source(),
                x,
            ) && self.tokenizer.position() == x.end,
        }
    }

    proof fn lemma_bounds(&self)
        requires
            self.wf(),
        ensures
            0 <= self.position() <= self.source().len(),
    {
        self.tokenizer.lemma_bounds();
        if let Some(t) = self.buffer {
            lemma_next_lexed(self.source(), t.index as int);
        }
    }

    pub fn new(source: &'a str) -> (r: JsonParser<'a>)
        ensures
            r.wf(),
            r.source() == source.spec_bytes(),
            r.position() == 0,
    {
        JsonParser { tokenizer: Tokenizer::new(source), buffer: None }
    }

    /// Parses the value at the parser's position. On failure the error is
    /// given as text: see `error_text`.
    pub fn parse(&mut self) -> (r: Result<JsonNode, String>)
        requires
            old(self).wf(),
        ensures
            final(self).wf(),
            final(self).source() == old(self).source(),
            match value_at(old(self).source(), old(self).position(), MAX_DEPTH as nat) {
                Ok((v, _)) => r matches Ok(n) && n@ == v,
                Err(e) => r matches Err(m) && m@ == error_text(e),
            },
    {
        match self.parse_json() {
            Ok(json) => Ok(json),
            Err(e) => Err(e.describe()),
        }
    }

    /// Parses the value at the parser's position.
    pub fn parse_json(&mut self) -> (r: Result<JsonNode, ParseError>)
        requires
            old(self).wf(),
        ensures
            final(self).wf(),
            final(self).source() == old(self).source(),
            match value_at(old(self).source(), old(self).position(), MAX_DEPTH as nat) {
                Ok((v, _)) => r matches Ok(n) && n@ == v,
                Err(e) => r == Err::<JsonNode, ParseError>(e),
            },
    {
        self.value(MAX_DEPTH)
    }

    fn value(&mut self, room: usize) -> (r: Result<JsonNode, ParseError>)
        requires
            old(self).wf(),
        ensures
            final(self).wf(),
            final(self).source() == old(self).source(),
            match value_at(old(self).source(), old(self).position(), room as nat) {
                Ok((v, q)) => r matches Ok(n) && n@ == v && final(self).position() == q,
                Err(e) => r == Err::<JsonNode, ParseError>(e),
            },
            r is Ok ==> old(self).position() < final(self).position() <= old(self).source().len(),
        decreases old(self).source().len() - old(self).position(), 0int,
    {
        let ghost b = self.source();
        let ghost p = self.position();
        proof {
            self.lemma_bounds();
            lemma_next_lexed(b, p);
        }
        let token = match self.advance() {
            Some(t) => t,
            None => {
                return Err(ParseError { kind: ErrorKind::UnexpectedEndOfInput, position: None });
            },
        };
        match token.token_type {
            TokenType::Number { text } => {
                proof {
                    encode_utf8_decode_utf8(text@);
                }
                JsonParser::number(text, &token)
            },
            TokenType::String { text } => {
                proof {
                    encode_utf8_decode_utf8(text@);
                }
                JsonParser::string(text, &token)
            },
            TokenType::True => Ok(JsonNode::Bool(true)),
            TokenType::False => Ok(JsonNode::Bool(false)),
            TokenType::Null => Ok(JsonNode::Null),
            TokenType::LeftSquareBracket => {
                if room == 0 {
                    Err(JsonParser::error(&token, ErrorKind::NestingTooDeep))
                } else {
                    self.array(room - 1)
                }
            },
            TokenType::LeftCurlyBracket => {
                if room == 0 {
                    Err(JsonParser::error(&token, ErrorKind::NestingTooDeep))
                } else {
                    self.object(room - 1)
                }
            },
            TokenType::Error { message } => {
                proof {
                    reveal_strlit("unterminated string");
                    reveal_strlit("unknown keyword");
                }
                if same_text(message, "unterminated string") {
                    Err(JsonParser::error(&token, ErrorKind::UnterminatedString))
                } else {
                    proof {
                        assert("unterminated string"@[2] != "unknown keyword"@[2]);
                    }
                    Err(JsonParser::error(&token, ErrorKind::UnknownKeyword))
                }
            },
            TokenType::Colon => Err(
                JsonParser::error(&token, ErrorKind::UnexpectedToken(Punctuation::Colon)),
            ),
            TokenType::Comma => Err(
                JsonParser::error(&token, ErrorKind::UnexpectedToken(Punctuation::Comma)),
            ),
            TokenType::RightSquareBracket => Err(
                JsonParser::error(&token, ErrorKind::UnexpectedToken(Punctuation::RightBracket)),
            ),
            TokenType::RightCurlyBracket => Err(
                JsonParser::error(&token, ErrorKind::UnexpectedToken(Punctuation::RightBrace)),
            ),
        }
    }

    #[verifier::rlimit(60)]
    fn array(&mut self, room: usize) -> (r: Result<JsonNode, ParseError>)
        requires
            old(self).wf(),
        ensures
            final(self).wf(),
            final(self).source() == old(self).source(),
            match items_at(old(self).source(), old(self).position(), room as nat, Seq::empty()) {
                Ok((v, q)) => r matches Ok(n) && n@ == v && final(self).position() == q,
                Err(e) => r == Err::<JsonNode, ParseError>(e),
            },
            r is Ok ==> old(self).position() < final(self).position() <= old(self).source().len(),
        decreases old(self).source().len() - old(self).position(), 1int,
    {
        let ghost b = self.source();
        let ghost entry_pos = self.position();
        let mut arr: Vec<JsonNode> = Vec::new();
        proof {
            self.lemma_bounds();
        }
        loop
            invariant
                self.wf(),
                self.source() == b,
                0 <= entry_pos <= self.position() <= b.len(),
                b == old(self).source(),
                entry_pos == old(self).position(),
                items_at(b, self.position(), room as nat, nodes_view(arr@)) == items_at(
                    b,
                    entry_pos,
                    room as nat,
                    Seq::empty(),
                ),
            decreases b.len() - self.position(),
        {
            let ghost p = self.position();
            proof {
                lemma_next_lexed(b, p);
            }
            let token = match self.peek() {
                Some(t) => t,
                None => {
                    return Err(ParseError { kind: ErrorKind::UnexpectedEndOfInput, position: None });
                },
            };
            let ghost x = next_lexed(b, p)->0;
            proof {
                assert(items_at(b, p, room as nat, nodes_view(arr@)) == if x.kind is RightBracket {
                    Ok((Json::Array(nodes_view(arr@)), x.end))
                } else {
                    match value_at(b, p, room as nat) {
                        Err(e) => Err(e),
                        Ok((v, q)) => if p < q <= b.len() {
                            item_end(b, q, room as nat, nodes_view(arr@).push(v))
                        } else {
                            Err(error_at_end(ErrorKind::UnexpectedEndOfInput))
                        },
                    }
                });
            }
            if let TokenType::RightSquareBracket = token.token_type {
                self.advance();
                return Ok(JsonNode::Array(arr));
            }
            proof {
                lemma_value_at_start(b, p, room as nat);
            }
            let value = match self.value(room) {
                Ok(v) => v,
                Err(e) => {
                    return Err(e);
                },
            };
            let ghost q = self.position();
            proof {
                lemma_nodes_view_push(arr@, value);
                lemma_next_lexed(b, q);
                assert(items_at(b, p, room as nat, nodes_view(arr@)) == item_end(
                    b,
                    q,
                    room as nat,
                    nodes_view(arr@).push(value@),
                ));
            }
            arr.push(value);
            match self.advance() {
                Some(t) => {
                    match t.token_type {
                        TokenType::RightSquareBracket => {
                            return Ok(JsonNode::Array(arr));
                        },
                        TokenType::Comma => {},
                        _ => {
                            return Err(JsonParser::error(&t, ErrorKind::MissingCommaOrCloser));
                        },
                    }
                },
                None => {
                    return Err(ParseError { kind: ErrorKind::UnexpectedEndOfInput, position: None });
                },
            }
        }
    }

    #[verifier::rlimit(60)]
    fn object(&mut self, room: usize) -> (r: Result<JsonNode, ParseError>)
        requires
            old(self).wf(),
        ensures
            final(self).wf(),
            final(self).source() == old(self).source(),
            match members_at(old(self).source(), old(self).position(), room as nat, Map::empty()) {
                Ok((v, q)) => r matches Ok(n) && n@ == v && final(self).position() == q,
                Err(e) => r == Err::<JsonNode, ParseError>(e),
            },
            r is Ok ==> old(self).position() < final(self).position() <= old(self).source().len(),
        decreases old(self).source().len() - old(self).position(), 1int,
    {
        let ghost b = self.source();
        let ghost entry_pos = self.position();
        let mut obj = JsonObject::new();
        proof {
            self.lemma_bounds();
        }
        loop
            invariant
                self.wf(),
                self.source() == b,
                0 <= entry_pos <= self.position() <= b.len(),
                b == old(self).source(),
                entry_pos == old(self).position(),
                members_at(b, self.position(), room as nat, obj@) == members_at(
                    b,
                    entry_pos,
                    room as nat,
                    Map::empty(),
                ),
            decreases b.len() - self.position(),
        {
            let ghost p = self.position();
            proof {
                lemma_next_lexed(b, p);
            }
            let token = match self.advance() {
                Some(t) => t,
                None => {
                    return Err(ParseError { kind: ErrorKind::UnexpectedEndOfInput, position: None });
                },
            };
            let ghost x = next_lexed(b, p)->0;
            let key = match token.token_type {
                TokenType::RightCurlyBracket => {
                    return Ok(JsonNode::Object(obj));
                },
                TokenType::String { text } => {
                    proof {
                        encode_utf8_decode_utf8(text@);
                    }
                    match JsonParser::escape(text) {
                        Ok(s) => s,
                        Err(k) => {
                            return Err(JsonParser::error(&token, k));
                        },
                    }
                },
                _ => {
                    return Err(JsonParser::error(&token, ErrorKind::KeyNotString));
                },
            };
            proof {
                assert(members_at(b, p, room as nat, obj@) == member_at(
                    b,
                    x.end,
                    room as nat,
                    obj@,
                    key@,
                ));
                lemma_next_lexed(b, x.end);
            }
            let ghost k = x.end;
            match self.advance() {
                Some(t) => {
                    match t.token_type {
                        TokenType::Colon => {},
                        _ => {
                            return Err(JsonParser::error(&t, ErrorKind::MissingColon));
                        },
                    }
                },
                None => {
                    return Err(ParseError { kind: ErrorKind::MissingColon, position: None });
                },
            }
            let ghost c = self.position();
            proof {
                self.lemma_bounds();
            }
            let value = match self.value(room) {
                Ok(v) => v,
                Err(e) => {
                    return Err(e);
                },
            };
            let ghost q = self.position();
            proof {
                lemma_next_lexed(b, q);
                assert(member_at(b, k, room as nat, obj@, key@) == member_end(
                    b,
                    q,
                    room as nat,
                    obj@.insert(key@, value@),
                ));
            }
            obj.insert(key, value);
            match self.advance() {
                Some(t) => {
                    match t.token_type {
                        TokenType::RightCurlyBracket => {
                            return Ok(JsonNode::Object(obj));
                        },
                        TokenType::Comma => {},
                        _ => {
                            return Err(JsonParser::error(&t, ErrorKind::MissingCommaOrCloser));
                        },
                    }
                },
                None => {
                    return Err(ParseError { kind: ErrorKind::UnexpectedEndOfInput, position: None });
                },
            }
        }
    }

    /// The error that `token` causes.
    fn error(token: &Token<'a>, kind: ErrorKind) -> (r: ParseError)
        ensures
            r == (ParseError {
                kind,
                position: Some(Position { index: token.index, line: token.line }),
            }),
    {
        ParseError { kind, position: Some(Position { index: token.index, line: token.line }) }
    }

    fn number(text: &'a str, token: &Token<'a>) -> (r: Result<JsonNode, ParseError>)
        ensures
            is_float_text(text.spec_bytes()) ==> (r matches Ok(n) && n@ == Json::Num(text@)),
            !is_float_text(text.spec_bytes()) ==> r == Err::<JsonNode, ParseError>(
                JsonParser::error_spec(token, ErrorKind::InvalidNumber),
            ),
    {
        if is_number_text(text.as_bytes()) {
            Ok(JsonNode::Number(text.to_owned()))
        } else {
            Err(JsonParser::error(token, ErrorKind::InvalidNumber))
        }
    }

    fn string(text: &'a str, token: &Token<'a>) -> (r: Result<JsonNode, ParseError>)
        ensures
            match unescape(text@) {
                Ok(s) => r matches Ok(n) && n@ == Json::Str(s),
                Err(k) => r == Err::<JsonNode, ParseError>(JsonParser::error_spec(token, k)),
            },
    {
        match JsonParser::escape(text) {
            Ok(s) => Ok(JsonNode::String(s)),
            Err(k) => Err(JsonParser::error(token, k)),
        }
    }

    pub open spec fn error_spec(token: &Token<'a>, kind: ErrorKind) -> ParseError {
        ParseError { kind, position: Some(Position { index: token.index, line: token.line }) }
    }

    /// Decodes a quoted string literal, quotes included, into its value.
    pub fn escape(s: &str) -> (r: Result<String, ErrorKind>)
        ensures
            match unescape(s@) {
                Ok(t) => r matches Ok(u) && u@ == t,
                Err(k) => r == Err::<String, ErrorKind>(k),
            },
    {
        let chars = chars_of(s);
        let mut out: Vec<char> = Vec::new();
        let mut i: usize = 1;
        loop
            invariant
                chars@ == s@,
                unescape_from(chars@, i as int, out@) == unescape(s@),
            decreases chars@.len() - i,
        {
            if i >= chars.len() {
                return Err(ErrorKind::UnterminatedString);
            }
            let c = chars[i];
            if c == '"' {
                return Ok(string_of(&out));
            }
            if c != '\\' {
                out.push(c);
                i = i + 1;
                continue;
            }
            if i + 1 >= chars.len() {
                return Err(ErrorKind::UnexpectedEndOfInput);
            }
            let e = chars[i + 1];
            if e == '"' || e == '\\' || e == '/' {
                out.push(e);
            } else if e == 'n' {
                out.push('\n');
            } else if e == 'r' {
                out.push('\r');
            } else if e == 't' {
                out.push('\t');
            } else if e == 'f' {
                out.push('\x0c');
            } else if e == 'b' {
                out.pop();
            } else if e == 'u' {
                if chars.len() - (i + 2) < 4 {
                    return Err(ErrorKind::UnexpectedEndOfInput);
                }
                let v = match hex_number(&chars, i + 2) {
                    Some(v) => v,
                    None => {
                        return Err(ErrorKind::InvalidUnicodeEscape);
                    },
                };
                match char_from_u32(v) {
                    Some(ch) => {
                        proof {
                            char_u32_cast(ch, v);
                        }
                        out.push(ch);
                    },
                    None => {
                        return Err(ErrorKind::InvalidUnicodeEscape);
                    },
                }
                i = i + 6;
                continue;
            } else {
                return Err(ErrorKind::InvalidEscape);
            }
            i = i + 2;
        }
    }

    /// Takes the next token: the one pushed back, or else a new one.
    fn advance(&mut self) -> (r: Option<Token<'a>>)
        requires
            old(self).wf(),
        ensures
            final(self).wf(),
            final(self).source() == old(self).source(),
            match next_lexed(old(self).source(), old(self).position()) {
                None => r is None,
                Some(x) => r matches Some(t) && is_token_of(t, old(self).source(), x)
                    && final(self).position() == x.end,
            },
    {
        match self.buffer {
            Some(t) => {
                self.buffer = None;
                Some(t)
            },
            None => self.tokenizer.next(),
        }
    }

    /// The next token, left to be taken again.
    fn peek(&mut self) -> (r: Option<Token<'a>>)
        requires
            old(self).wf(),
        ensures
            final(self).wf(),
            final(self).source() == old(self).source(),
            match next_lexed(old(self).source(), old(self).position()) {
                None => r is None,
                Some(x) => r matches Some(t) && is_token_of(t, old(self).source(), x)
                    && final(self).position() == x.start,
            },
    {
        proof {
            self.lemma_bounds();
            lemma_next_lexed(self.source(), self.position());
        }
        match self.buffer {
            Some(t) => Some(t),
            None => {
                let t = self.tokenizer.next();
                match t {
                    Some(t) => {
                        self.buffer = Some(t);
                        Some(t)
                    },
                    None => None,
                }
            },
        }
    }
}

/// Whitespace before a value changes nothing about it.
proof fn lemma_value_at_start(b: Seq<u8>, p: int, room: nat)
    requires
        0 <= p <= b.len(),
        next_lexed(b, p) is Some,
    ensures
        value_at(b, p, room) == value_at(b, next_lexed(b, p)->0.start, room),
{
    lemma_next_lexed(b, p);
}

} // verus!
