use json_parser::error::{ErrorKind, ParseError, Position, Punctuation};
use json_parser::parser::{parse, parse_json, JsonParser, MAX_DEPTH};
use json_parser::tokenizer::Tokenizer;
use json_parser::value::{JsonNode, JsonObject};

fn kind_of(src: &str) -> ErrorKind {
    match parse_json(src) {
        Err(e) => e.kind,
        Ok(_) => panic!("{:?} should not parse", src),
    }
}

fn number_of(node: &JsonNode) -> f64 {
    node.as_number().unwrap().parse::<f64>().unwrap()
}

#[test]
fn empty_object() {
    let src = "{}";
    let json = parse(src).unwrap();

    json.as_map().unwrap();
}

#[test]
fn empty_array() {
    let src = "[]";
    let json = parse(src).unwrap();

    json.as_vec().unwrap();
}

#[test]
fn object_with_empty_array() {
    let src = "{\"a\":[]}";
    let json = parse(src).unwrap();

    json.as_map().unwrap().get("a").unwrap().as_vec().unwrap();
}

#[test]
fn it_works() {
    let s = "{\"hel\\\"lo\":[1,true,null,\"\\u263a\"]}";

    let json = parse(s).unwrap();

    let arr = json
        .as_map()
        .unwrap()
        .get("hel\"lo")
        .unwrap()
        .as_vec()
        .unwrap();

    assert_eq!(number_of(&arr[0]), 1_f64);
    assert_eq!(arr[1].as_bool().unwrap(), &true);
    assert_eq!(arr[2].is_null(), true);
    assert_eq!(arr[3].as_string().unwrap(), "\u{263a}");
}

#[test]
fn unicode_test() {
    let res = parse("[\"abcdefg\",\"abcdefg\",\"abcdefg\"]").unwrap();
    let arr = res.as_vec().unwrap();
    assert_eq!(arr.len(), 3);
    for item in arr {
        assert_eq!(item.as_string().unwrap(), "abcdefg");
    }
}

#[test]
fn json_object() {
    let res = parse("{\"id\":\"2489651045\",\"type\":\"CreateEvent\",\"actor\":{\"id\":665991,\"login\":\"petroav\",\"gravatar_id\":\"\",\"url\":\"https://api.github.com/users/petroav\",\"avatar_url\":\"https://avatars.githubusercontent.com/u/665991?\"},\"repo\":{\"id\":28688495,\"name\":\"petroav/6.828\",\"url\":\"https://api.github.com/repos/petroav/6.828\"},\"payload\":{\"ref\":\"master\",\"ref_type\":\"branch\",\"master_branch\":\"master\",\"description\":\"Solution to homework and assignments from MIT's 6.828 (Operating Systems Engineering). Done in my spare time.\",\"pusher_type\":\"user\"},\"public\":true,\"created_at\":\"2015-01-01T15:00:00Z\"}");

    res.unwrap();
}

#[test]
fn realistic_document_fields_are_retrievable() {
    let src = "{\"id\":\"2489651045\",\"type\":\"CreateEvent\",\"actor\":{\"id\":665991,\"login\":\"petroav\",\"gravatar_id\":\"\"},\"repo\":{\"id\":28688495,\"name\":\"petroav/6.828\"},\"tags\":[\"a\", 2.5, false, null, {\"k\": -1e3}],\"public\":true,\"created_at\":\"2015-01-01T15:00:00Z\"}";
    let json = parse(src).unwrap();
    let top = json.as_map().unwrap();
    assert_eq!(top.get("id").unwrap().as_string().unwrap(), "2489651045");
    assert_eq!(top.get("type").unwrap().as_string().unwrap(), "CreateEvent");
    let actor = top.get("actor").unwrap().as_map().unwrap();
    assert_eq!(number_of(actor.get("id").unwrap()), 665991.0);
    assert_eq!(actor.get("login").unwrap().as_string().unwrap(), "petroav");
    assert_eq!(actor.get("gravatar_id").unwrap().as_string().unwrap(), "");
    let repo = top.get("repo").unwrap().as_map().unwrap();
    assert_eq!(number_of(repo.get("id").unwrap()), 28688495.0);
    assert_eq!(repo.get("name").unwrap().as_string().unwrap(), "petroav/6.828");
    let tags = top.get("tags").unwrap().as_vec().unwrap();
    assert_eq!(tags.len(), 5);
    assert_eq!(tags[0].as_string().unwrap(), "a");
    assert_eq!(number_of(&tags[1]), 2.5);
    assert_eq!(tags[2].as_bool().unwrap(), &false);
    assert!(tags[3].is_null());
    assert_eq!(number_of(tags[4].as_map().unwrap().get("k").unwrap()), -1000.0);
    assert_eq!(top.get("public").unwrap().as_bool().unwrap(), &true);
    assert_eq!(top.get("created_at").unwrap().as_string().unwrap(), "2015-01-01T15:00:00Z");
    assert!(top.get("missing").is_none());
    assert!(top.get("id").unwrap().as_number().is_none());
}

#[test]
fn empty_or_blank_input_is_end_of_input() {
    for src in ["", " ", "\n\t\r ", "    \n\n"] {
        assert_eq!(
            parse_json(src).err().unwrap(),
            ParseError { kind: ErrorKind::UnexpectedEndOfInput, position: None }
        );
        assert_eq!(parse(src).err().unwrap(), "error: unexpected end of input");
    }
}

#[test]
fn every_escape_decodes() {
    let json = parse("\"q\\\" s\\\\ sl\\/ n\\n x\\b f\\f r\\r t\\t u\\u0041\"").unwrap();
    assert_eq!(
        json.as_string().unwrap(),
        "q\" s\\ sl/ n\n  f\u{c} r\r t\t uA"
    );
}

#[test]
fn escape_decodes_quoted_literal() {
    assert_eq!(JsonParser::escape("\"ab\\u00e9\\bc\"").unwrap(), "abc");
    assert_eq!(JsonParser::escape("\"\\b\\bx\"").unwrap(), "x");
    assert_eq!(JsonParser::escape("\"caf\u{e9} \\u263A\"").unwrap(), "caf\u{e9} \u{263a}");
    assert_eq!(JsonParser::escape("\"abc"), Err(ErrorKind::UnterminatedString));
    assert_eq!(JsonParser::escape(""), Err(ErrorKind::UnterminatedString));
    assert_eq!(JsonParser::escape("\"\\x\""), Err(ErrorKind::InvalidEscape));
    assert_eq!(JsonParser::escape("\"\\"), Err(ErrorKind::UnexpectedEndOfInput));
    assert_eq!(JsonParser::escape("\"\\u12\""), Err(ErrorKind::UnexpectedEndOfInput));
    assert_eq!(JsonParser::escape("\"\\u12\"ab"), Err(ErrorKind::InvalidUnicodeEscape));
    assert_eq!(JsonParser::escape("\"\\u+123\""), Err(ErrorKind::InvalidUnicodeEscape));
    assert_eq!(JsonParser::escape("\"\\ud83d\""), Err(ErrorKind::InvalidUnicodeEscape));
    assert_eq!(JsonParser::escape("\"ok\" trailing").unwrap(), "ok");
}

#[test]
fn deep_nesting_fails_with_limit_error() {
    let depth = 100_000;
    let src = "[".repeat(depth) + &"]".repeat(depth);
    let err = parse_json(&src).err().unwrap();
    assert_eq!(err.kind, ErrorKind::NestingTooDeep);
    assert_eq!(err.position, Some(Position { index: MAX_DEPTH, line: 1 }));
}

#[test]
fn nesting_up_to_the_limit_parses() {
    let src = "[".repeat(MAX_DEPTH) + &"]".repeat(MAX_DEPTH);
    let mut node = parse_json(&src).unwrap();
    let mut levels = 1;
    loop {
        let inner = node.as_vec().unwrap();
        if inner.is_empty() {
            break;
        }
        assert_eq!(inner.len(), 1);
        node = match inner.into_iter().next() {
            Some(n) => clone_shallow(n),
            None => unreachable!(),
        };
        levels += 1;
    }
    assert_eq!(levels, MAX_DEPTH);
    let deeper = "{\"a\":".repeat(MAX_DEPTH) + "{}" + &"}".repeat(MAX_DEPTH);
    assert_eq!(kind_of(&deeper), ErrorKind::NestingTooDeep);
}

fn clone_shallow(n: &JsonNode) -> JsonNode {
    match n.as_vec() {
        Some(v) if v.is_empty() => parse_json("[]").unwrap(),
        Some(v) => {
            let mut depth = 0;
            let mut cur = &v[0];
            while let Some(inner) = cur.as_vec() {
                depth += 1;
                if inner.is_empty() {
                    break;
                }
                cur = &inner[0];
            }
            let src = "[".repeat(depth) + &"]".repeat(depth);
            let wrapped = "[".to_string() + &src + "]";
            parse_json(&wrapped).unwrap()
        }
        None => panic!("not an array"),
    }
}

#[test]
fn duplicate_keys_keep_the_last_value() {
    let json = parse("{\"a\": 1, \"b\": 2, \"a\": 3}").unwrap();
    let map = json.as_map().unwrap();
    assert_eq!(number_of(map.get("a").unwrap()), 3.0);
    assert_eq!(number_of(map.get("b").unwrap()), 2.0);
    let escaped = parse("{\"k\\u0041\": true, \"kA\": false}").unwrap();
    assert_eq!(escaped.as_map().unwrap().get("kA").unwrap().as_bool().unwrap(), &false);
}

#[test]
fn trailing_comma_before_closer_is_accepted() {
    let arr = parse("[1, 2,]").unwrap();
    assert_eq!(arr.as_vec().unwrap().len(), 2);
    let obj = parse("{\"a\": 1,}").unwrap();
    assert!(obj.as_map().unwrap().get("a").is_some());
}

#[test]
fn only_the_first_value_is_read() {
    let json = parse("[1] this is ignored").unwrap();
    assert_eq!(json.as_vec().unwrap().len(), 1);
}

#[test]
fn numbers_keep_their_text() {
    let json = parse("[0, -12, 3.25, 1e3, 2E-2, 1.5e+2, 1.]").unwrap();
    let texts: Vec<&str> = json
        .as_vec()
        .unwrap()
        .iter()
        .map(|n| n.as_number().unwrap().as_str())
        .collect();
    assert_eq!(texts, vec!["0", "-12", "3.25", "1e3", "2E-2", "1.5e+2", "1."]);
    let values: Vec<f64> = json.as_vec().unwrap().iter().map(number_of).collect();
    assert_eq!(values, vec![0.0, -12.0, 3.25, 1000.0, 0.02, 150.0, 1.0]);
}

#[test]
fn each_error_kind_has_an_input() {
    assert_eq!(kind_of("[1,"), ErrorKind::UnexpectedEndOfInput);
    assert_eq!(kind_of("]"), ErrorKind::UnexpectedToken(Punctuation::RightBracket));
    assert_eq!(kind_of("[,1]"), ErrorKind::UnexpectedToken(Punctuation::Comma));
    assert_eq!(kind_of(":"), ErrorKind::UnexpectedToken(Punctuation::Colon));
    assert_eq!(kind_of("}"), ErrorKind::UnexpectedToken(Punctuation::RightBrace));
    assert_eq!(parse("}").err().unwrap(), "error: unexpected }, at index: 0, line: 1");
    assert_eq!(parse("[1,\n ,]").err().unwrap(), "error: unexpected ,, at index: 5, line: 2");
    assert_eq!(kind_of("[\"abc]"), ErrorKind::UnterminatedString);
    assert_eq!(kind_of("[nul]"), ErrorKind::UnknownKeyword);
    assert_eq!(kind_of("\"a\\qb\""), ErrorKind::InvalidEscape);
    assert_eq!(kind_of("\"\\uZZZZ\""), ErrorKind::InvalidUnicodeEscape);
    assert_eq!(kind_of("{1: 2}"), ErrorKind::KeyNotString);
    assert_eq!(kind_of("{\"a\" 2}"), ErrorKind::MissingColon);
    assert_eq!(kind_of("{\"a\""), ErrorKind::MissingColon);
    assert_eq!(kind_of("[1 2]"), ErrorKind::MissingCommaOrCloser);
    assert_eq!(kind_of("{\"a\": 1 \"b\": 2}"), ErrorKind::MissingCommaOrCloser);
    assert_eq!(kind_of("-"), ErrorKind::InvalidNumber);
    assert_eq!(kind_of("[1e]"), ErrorKind::InvalidNumber);
    assert_eq!(kind_of("[01]"), ErrorKind::MissingCommaOrCloser);
}

#[test]
fn errors_carry_position_and_text() {
    assert_eq!(
        parse_json("[1,\n  2,\n  tru]").err().unwrap(),
        ParseError {
            kind: ErrorKind::UnknownKeyword,
            position: Some(Position { index: 11, line: 3 })
        }
    );
    assert_eq!(
        parse("[1 2]").err().unwrap(),
        "error: expected comma or close, at index: 3, line: 1"
    );
    assert_eq!(parse("{\"a\"").err().unwrap(), "error: expect :");
    assert_eq!(
        parse("\n\n\n\n\n\n\n\n\n\n\n{\"k\": \"\\u12\"}").err().unwrap(),
        "error: unexpected end of input, at index: 17, line: 12"
    );
    let e = ParseError { kind: ErrorKind::InvalidNumber, position: Some(Position { index: 1234567, line: 90 }) };
    assert_eq!(e.describe(), "error: invalid number, at index: 1234567, line: 90");
}

#[test]
fn parser_continues_after_a_value() {
    let mut parser = JsonParser::new("true [2] null");
    assert_eq!(parser.parse().unwrap().as_bool().unwrap(), &true);
    assert_eq!(parser.parse().unwrap().as_vec().unwrap().len(), 1);
    assert!(parser.parse().unwrap().is_null());
    assert_eq!(parser.parse().err().unwrap(), "error: unexpected end of input");
}

#[test]
fn serialized_document_reads_back() {
    let text = "{\"a\":[1,\"x\\\"y\\\\z\",true,null,-0.5e-3],\"b\":{},\"\\\"k\\\"\":\"caf\u{e9}\"}";
    let json = parse(text).unwrap();
    let top = json.as_map().unwrap();
    let a = top.get("a").unwrap().as_vec().unwrap();
    assert_eq!(a.len(), 5);
    assert_eq!(a[0].as_number().unwrap(), "1");
    assert_eq!(a[1].as_string().unwrap(), "x\"y\\z");
    assert_eq!(a[2].as_bool().unwrap(), &true);
    assert!(a[3].is_null());
    assert_eq!(a[4].as_number().unwrap(), "-0.5e-3");
    assert_eq!(number_of(&a[4]), -0.0005);
    assert!(top.get("b").unwrap().as_map().unwrap().get("").is_none());
    assert_eq!(top.get("\"k\"").unwrap().as_string().unwrap(), "caf\u{e9}");
}

#[test]
fn token_describe_matches_kind() {
    let mut tokenizer = Tokenizer::new("\"s\" -1.5 : , [ ] { } true false null ?x");
    let mut texts = vec![];
    while let Some(t) = tokenizer.next() {
        texts.push(t.describe());
    }
    assert_eq!(
        texts,
        vec![
            "STR\"\"s\"\"", "NUM\"-1.5\"", "<:>", "<,>", "<[>", "<]>", "<{>", "<}>", "<TRUE>",
            "<FALSE>", "<NULL>", "ERR\"unknown keyword\""
        ]
    );
}

#[test]
fn object_insert_replaces_and_get_finds() {
    let mut obj = JsonObject::new();
    assert!(obj.get("k").is_none());
    obj.insert("k".to_string(), parse("1").unwrap());
    obj.insert("j".to_string(), parse("true").unwrap());
    obj.insert("k".to_string(), parse("\"two\"").unwrap());
    assert_eq!(obj.get("k").unwrap().as_string().unwrap(), "two");
    assert_eq!(obj.get("j").unwrap().as_bool().unwrap(), &true);
    assert!(obj.get("K").is_none());
}

#[test]
fn accessors_reject_other_kinds() {
    let s = parse("\"x\"").unwrap();
    assert!(s.as_number().is_none() && s.as_bool().is_none() && s.as_vec().is_none());
    assert!(s.as_map().is_none() && !s.is_null());
    let n = parse("-7").unwrap();
    assert!(n.as_string().is_none());
    assert_eq!(n.as_number().unwrap(), "-7");
}

#[test]
fn document_with_every_kept_escape_reads_back() {
    let text = "{\"k\\u0041\\/\":[\"\\\"\\\\\\/\\n\\r\\t\\f\\u263A\\u00e9x\"],\"n\":-12.5E+3}";
    let json = parse(text).unwrap();
    let top = json.as_map().unwrap();
    let list = top.get("kA/").unwrap().as_vec().unwrap();
    assert_eq!(list[0].as_string().unwrap(), "\"\\/\n\r\t\u{c}\u{263a}\u{e9}x");
    assert_eq!(number_of(top.get("n").unwrap()), -12500.0);
}
