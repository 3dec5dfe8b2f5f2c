use json_parser::token::{Token, TokenType};
use json_parser::tokenizer::Tokenizer;

fn vecs_eq<T: PartialEq + std::fmt::Debug>(a: &Vec<T>, b: &Vec<T>) {
    assert_eq!(a.len(), b.len());

    for i in 0..a.len() {
        assert_eq!(a[i], b[i]);
    }
}

#[test]
fn number() {
    let expected = Token {
        line: 1,
        index: 0,
        token_type: TokenType::Number { text: "1234" },
    };
    let actual = Tokenizer::new("1234").next().unwrap();
    assert_eq!(&actual, &expected);
}

#[test]
fn number_with_spaces() {
    let expected = Token {
        line: 1,
        index: 4,
        token_type: TokenType::Number { text: "1234" },
    };
    let actual = Tokenizer::new("    1234    ").next().unwrap();
    assert_eq!(&actual, &expected);
}

#[test]
fn number_with_fraction() {
    let expected = Token {
        line: 1,
        index: 0,
        token_type: TokenType::Number { text: "1234.5678" },
    };
    let actual = Tokenizer::new("1234.5678").next().unwrap();
    assert_eq!(&actual, &expected);
}

#[test]
fn number_with_exponent() {
    let expected = Token {
        line: 1,
        index: 0,
        token_type: TokenType::Number {
            text: "1234.5678E9",
        },
    };
    let actual = Tokenizer::new("1234.5678E9").next().unwrap();
    assert_eq!(&actual, &expected);
}

#[test]
fn number_with_positive_sign_exponent() {
    let expected = Token {
        line: 1,
        index: 0,
        token_type: TokenType::Number {
            text: "1234.5678E+9",
        },
    };
    let actual = Tokenizer::new("1234.5678E+9").next().unwrap();
    assert_eq!(&actual, &expected);
}

#[test]
fn number_with_negative_sign_exponent() {
    let expected = Token {
        line: 1,
        index: 0,
        token_type: TokenType::Number {
            text: "1234.5678E-9",
        },
    };
    let actual = Tokenizer::new("1234.5678E-9").next().unwrap();
    assert_eq!(&actual, &expected);
}

#[test]
fn string() {
    let expected = Token {
        line: 1,
        index: 0,
        token_type: TokenType::String {
            text: r#""string""#,
        },
    };
    let actual = Tokenizer::new(r#""string""#).next().unwrap();
    assert_eq!(&actual, &expected);
}

#[test]
fn unterminated_string() {
    let expected = Token {
        line: 1,
        index: 0,
        token_type: TokenType::Error {
            message: "unterminated string",
        },
    };
    let actual = Tokenizer::new(r#""string"#).next().unwrap();
    assert_eq!(&actual, &expected);
}

#[test]
fn string_with_inner_quote_mark() {
    let expected = Token {
        line: 1,
        index: 0,
        token_type: TokenType::String {
            text: r#""abc\"def""#,
        },
    };
    let actual = Tokenizer::new(r#""abc\"def""#).next().unwrap();
    assert_eq!(&actual, &expected);
}

#[test]
fn symbols_and_keywords() {
    let expected = vec![
        Token {
            line: 1,
            index: 0,
            token_type: TokenType::LeftCurlyBracket,
        },
        Token {
            line: 1,
            index: 1,
            token_type: TokenType::RightCurlyBracket,
        },
        Token {
            line: 1,
            index: 2,
            token_type: TokenType::LeftSquareBracket,
        },
        Token {
            line: 1,
            index: 3,
            token_type: TokenType::RightSquareBracket,
        },
        Token {
            line: 1,
            index: 4,
            token_type: TokenType::Comma,
        },
        Token {
            line: 1,
            index: 5,
            token_type: TokenType::Colon,
        },
        Token {
            line: 1,
            index: 7,
            token_type: TokenType::Null,
        },
        Token {
            line: 1,
            index: 12,
            token_type: TokenType::True,
        },
        Token {
            line: 1,
            index: 17,
            token_type: TokenType::False,
        },
    ];
    let mut tokenizer = Tokenizer::new("{}[],: null true false");

    let mut actual = vec![];
    for _ in 0..expected.len() {
        actual.push(tokenizer.next().unwrap());
    }
    vecs_eq(&actual, &expected);
}

#[test]
fn tokens_track_lines_and_offsets() {
    let mut tokenizer = Tokenizer::new("[\n  1,\n\n  \"a\nb\" x]");
    let kinds: Vec<(usize, usize)> = (0..6)
        .map(|_| {
            let t = tokenizer.next().unwrap();
            (t.index, t.line)
        })
        .collect();
    assert_eq!(kinds, vec![(0, 1), (4, 2), (5, 2), (10, 4), (16, 5), (17, 5)]);
    assert_eq!(tokenizer.next(), None);
}

#[test]
fn unknown_keyword_stops_at_structural_byte() {
    let mut tokenizer = Tokenizer::new("tru,nul falsey");
    let first = tokenizer.next().unwrap();
    assert_eq!(first.token_type, TokenType::Error { message: "unknown keyword" });
    assert_eq!(first.index, 0);
    assert_eq!(tokenizer.next().unwrap().token_type, TokenType::Comma);
    let second = tokenizer.next().unwrap();
    assert_eq!(second.token_type, TokenType::Error { message: "unknown keyword" });
    assert_eq!(second.index, 4);
    let third = tokenizer.next().unwrap();
    assert_eq!(third.token_type, TokenType::False);
    assert_eq!(third.index, 8);
    let fourth = tokenizer.next().unwrap();
    assert_eq!(fourth.token_type, TokenType::Error { message: "unknown keyword" });
    assert_eq!(fourth.index, 13);
    assert_eq!(tokenizer.next(), None);
}

#[test]
fn number_scan_is_loose_and_splits_leading_zero() {
    let mut tokenizer = Tokenizer::new("-  01 1e 2.");
    assert_eq!(tokenizer.next().unwrap().token_type, TokenType::Number { text: "-" });
    assert_eq!(tokenizer.next().unwrap().token_type, TokenType::Number { text: "0" });
    assert_eq!(tokenizer.next().unwrap().token_type, TokenType::Number { text: "1" });
    assert_eq!(tokenizer.next().unwrap().token_type, TokenType::Number { text: "1e" });
    assert_eq!(tokenizer.next().unwrap().token_type, TokenType::Number { text: "2." });
    assert_eq!(tokenizer.next(), None);
}

#[test]
fn string_token_ending_in_backslash_is_unterminated() {
    let mut tokenizer = Tokenizer::new("  \"ab\\");
    let t = tokenizer.next().unwrap();
    assert_eq!(t.index, 2);
    assert_eq!(t.token_type, TokenType::Error { message: "unterminated string" });
    assert_eq!(tokenizer.next(), None);
}

#[test]
fn whitespace_only_has_no_token() {
    assert_eq!(Tokenizer::new("").next(), None);
    assert_eq!(Tokenizer::new(" \t\r\n ").next(), None);
}
