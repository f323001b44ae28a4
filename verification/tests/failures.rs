use libjsonparser::{Content, JsonParser, ParseError, Tokenizer, DEFAULT_MAX_DEPTH};

fn failure_of(text: &str) -> (String, usize) {
    match JsonParser::content_from_str(text) {
        Err(ParseError::InvalidInput { message, pos }) => (message, pos),
        other => panic!("expected a failure with an offset for {:?}, got {:?}", text, other),
    }
}

fn expect(text: &str, message: &str, pos: usize) {
    assert_eq!(failure_of(text), (message.to_string(), pos), "for {:?}", text);
}

#[test]
fn a_missing_value_is_rejected_at_or_after_the_colon() {
    let (message, pos) = failure_of(r#"{"a":}"#);
    assert_eq!(message, "unexpected token");
    assert_eq!(pos, 5);
    assert!(pos >= 4);
}

#[test]
fn a_bare_scalar_is_no_document() {
    expect(r#""text""#, "parse error", 0);
    expect("  12 ", "parse error", 2);
    expect("}", "parse error", 0);
    expect(":", "parse error", 0);
}

#[test]
fn an_empty_text_is_no_document() {
    expect("", "EOF", 0);
    expect("    ", "EOF", 4);
}

#[test]
fn a_name_must_be_a_string() {
    expect("{1:2}", "must be string", 1);
    expect("{ {", "must be string", 2);
    expect(r#"{"a":1,,}"#, "must be string", 7);
    expect("{[", "must be string", 1);
}

#[test]
fn a_colon_must_follow_the_name() {
    // The offset is that of the name.
    expect(r#"{"a" 1}"#, "must be :", 1);
    expect(r#"{  "a","b"}"#, "must be :", 3);
    expect(r#"{"a""b"}"#, "must be :", 1);
}

#[test]
fn a_value_must_begin_with_a_value_token() {
    expect(r#"{"a"::1}"#, "unexpected token", 5);
    expect(r#"{"a":,}"#, "unexpected token", 5);
    expect(r#"{"a":]}"#, "unexpected token", 5);
    expect("[:]", "unexpected token", 1);
    expect("[,]", "unexpected token", 1);
    expect("[}", "unexpected token", 1);
    expect("[1,,2]", "unexpected token", 3);
}

#[test]
fn a_missing_separator_is_rejected() {
    expect(r#"{"a":1 "b":2}"#, "unexpected token", 7);
    expect("[1 2]", "unexpected token", 3);
    expect(r#"{"a":1]"#, "unexpected token", 6);
    expect("[1}", "unexpected token", 2);
    expect(r#"["a":1]"#, "unexpected token", 4);
}

#[test]
fn a_missing_closing_brace_fails_inside_the_input() {
    for text in [r#"{"a":1"#, r#"{"a":1,"#, "{", r#"{"a""#, r#"{"a":"#, r#"{"a":{"b":1}"#] {
        let (message, pos) = failure_of(text);
        assert_eq!(message, "EOF", "for {:?}", text);
        assert_eq!(pos, text.chars().count(), "for {:?}", text);
    }
}

#[test]
fn a_missing_closing_bracket_fails_inside_the_input() {
    for text in ["[", "[1", "[1,", "[1,2", "[[1]", r#"{"a":[1,2}"#] {
        let (message, pos) = failure_of(text);
        assert!(pos <= text.chars().count(), "for {:?}", text);
        if text.starts_with('[') {
            assert_eq!(message, "EOF", "for {:?}", text);
            assert_eq!(pos, text.chars().count(), "for {:?}", text);
        } else {
            assert_eq!(message, "unexpected token", "for {:?}", text);
            assert_eq!(pos, 9, "for {:?}", text);
        }
    }
}

#[test]
fn a_missing_closing_quote_fails_at_the_opening_quote() {
    expect(r#"{"a":"bc}"#, "unterminated string", 5);
    expect(r#"{"a"#, "unterminated string", 1);
    expect(r#"["x","y]"#, "unterminated string", 5);
    expect(r#"["x\"]"#, "unterminated string", 1);
}

#[test]
fn a_number_beyond_the_width_is_rejected() {
    expect("[2147483648]", "string to num", 1);
    expect(r#"{"n": 99999999999}"#, "string to num", 6);
    expect("[1,2,4294967296]", "string to num", 5);
    let ok = JsonParser::content_from_str("[2147483647]").unwrap();
    assert!(matches!(ok.at(0), Content::Number(2147483647)));
}

#[test]
fn an_unknown_character_is_rejected() {
    expect("[true]", "failed to parse", 1);
    expect("[null]", "failed to parse", 1);
    expect("[-1]", "failed to parse", 1);
    expect("[1.5]", "failed to parse", 2);
    expect("{\"a\":1,\n\"b\":2}", "failed to parse", 7);
}

#[test]
fn nesting_beyond_the_limit_is_rejected() {
    let mut two = JsonParser::with_max_depth(Tokenizer::new("[[1]]".to_string()), 2);
    assert!(two.parse().is_ok());
    let mut three = JsonParser::with_max_depth(Tokenizer::new("[[[1]]]".to_string()), 2);
    match three.parse() {
        Err(ParseError::InvalidInput { message, pos }) => {
            assert_eq!(message, "too deeply nested");
            assert_eq!(pos, 2);
        }
        other => panic!("expected a failure, got {:?}", other),
    }
    let mut mixed = JsonParser::with_max_depth(Tokenizer::new(r#"{"a":[{"b":1}]}"#.to_string()), 2);
    match mixed.parse() {
        Err(ParseError::InvalidInput { message, pos }) => {
            assert_eq!(message, "too deeply nested");
            assert_eq!(pos, 6);
        }
        other => panic!("expected a failure, got {:?}", other),
    }
    let mut none = JsonParser::with_max_depth(Tokenizer::new("[]".to_string()), 0);
    match none.parse() {
        Err(ParseError::InvalidInput { message, pos }) => {
            assert_eq!(message, "too deeply nested");
            assert_eq!(pos, 0);
        }
        other => panic!("expected a failure, got {:?}", other),
    }
}

#[test]
fn the_default_limit_is_128_levels() {
    assert_eq!(DEFAULT_MAX_DEPTH, 128);
    let fits = format!("{}{}", "[".repeat(128), "]".repeat(128));
    assert!(JsonParser::content_from_str(&fits).is_ok());
    let too_deep = format!("{}{}", "[".repeat(129), "]".repeat(129));
    expect(&too_deep, "too deeply nested", 128);
    let objects = format!("{}1{}", r#"{"a":"#.repeat(129), "}".repeat(129));
    expect(&objects, "too deeply nested", 128 * 5);
}

#[test]
fn very_deep_nesting_fails_without_exhausting_the_stack() {
    let text = "[".repeat(200_000);
    expect(&text, "too deeply nested", 128);
}

#[test]
fn a_wrong_container_gives_a_token_error() {
    let mut parser = JsonParser::new2(r#""a":1}"#);
    let mut target = Content::array();
    assert!(matches!(parser.parse_object(&mut target), Err(ParseError::TokenError)));
    assert!(target == Content::array());
    // Nothing was read: the same parser still reads the members.
    let mut object = Content::object();
    assert!(parser.parse_object(&mut object).is_ok());
    assert!(matches!(object.get("a"), Content::Number(1)));

    let mut elements = JsonParser::new2("1,2]");
    let mut number = Content::Number(5);
    assert!(matches!(elements.parse_array(&mut number), Err(ParseError::TokenError)));
    assert!(matches!(number, Content::Number(5)));
    let mut null = Content::Null;
    assert!(matches!(elements.parse_object(&mut null), Err(ParseError::TokenError)));
    let mut array = Content::array();
    assert!(elements.parse_array(&mut array).is_ok());
    assert!(matches!(array.at(1), Content::Number(2)));
}

#[test]
fn failures_are_described_with_their_offset() {
    let e = JsonParser::content_from_str(r#"{"a":}"#).unwrap_err();
    assert_eq!(e.to_string(), "unexpected token, pos: 5");
    let eof = JsonParser::content_from_str("").unwrap_err();
    assert_eq!(eof.to_string(), "EOF, pos: 0");
    let far = ParseError::InvalidInput { message: "must be :".to_string(), pos: 1234567890 };
    assert_eq!(far.to_string(), "must be :, pos: 1234567890");
    let nine = ParseError::InvalidInput { message: String::new(), pos: 9 };
    assert_eq!(nine.to_string(), ", pos: 9");
    let ten = ParseError::InvalidInput { message: "m".to_string(), pos: 10 };
    assert_eq!(ten.to_string(), "m, pos: 10");
    let max = ParseError::InvalidInput { message: "m".to_string(), pos: usize::MAX };
    assert_eq!(max.to_string(), format!("m, pos: {}", usize::MAX));
    assert_eq!(ParseError::TokenError.to_string(), "token error");
}

#[test]
fn a_failed_build_leaves_the_target_as_it_was() {
    let mut target = Content::object();
    target.insert("kept".to_string(), Content::Number(1)).unwrap();
    let mut parser = JsonParser::new2(r#""a":2,"b":}"#);
    match parser.parse_object(&mut target) {
        Err(ParseError::InvalidInput { message, pos }) => {
            assert_eq!(message, "unexpected token");
            assert_eq!(pos, 10);
        }
        other => panic!("expected a failure, got {:?}", other),
    }
    assert!(matches!(target.get("kept"), Content::Number(1)));
    assert!(matches!(target.get("a"), Content::Null));
    match &target {
        Content::Object(members) => assert_eq!(members.len(), 1),
        other => panic!("expected an object, got {:?}", other),
    }

    let mut list = Content::array();
    list.push(Content::Number(0)).unwrap();
    let mut elements = JsonParser::new2("1,2,");
    assert!(elements.parse_array(&mut list).is_err());
    match &list {
        Content::Array(items) => assert_eq!(items.len(), 1),
        other => panic!("expected an array, got {:?}", other),
    }
}
