use libjsonparser::{JsonToken, JsonTokenWrap, ParseError, Tokenizer};

fn tokenizer(text: &str) -> Tokenizer {
    Tokenizer::new(text.to_string())
}

fn expect_failure(result: Result<JsonTokenWrap, ParseError>, message: &str, pos: usize) {
    match result {
        Err(ParseError::InvalidInput { message: m, pos: p }) => {
            assert_eq!(m, message);
            assert_eq!(p, pos);
        }
        other => panic!("expected {:?} at {}, got {:?}", message, pos, other),
    }
}

#[test]
fn it_works() -> Result<(), ()> {
    Ok(())
}

#[test]
fn tokens_carry_their_start_offsets() {
    let mut t = tokenizer(r#"  { "k" : 12 }"#);
    let first = t.get_token().unwrap();
    assert_eq!(first.pos, 2);
    assert!(matches!(first.kind, JsonToken::OpenObject));
    let name = t.get_token().unwrap();
    assert_eq!(name.pos, 4);
    match name.kind {
        JsonToken::JsonString(text) => assert_eq!(text, "k"),
        other => panic!("expected a string, got {:?}", other),
    }
    let colon = t.get_token().unwrap();
    assert_eq!(colon.pos, 8);
    assert!(matches!(colon.kind, JsonToken::Colon));
    let number = t.get_token().unwrap();
    assert_eq!(number.pos, 10);
    assert!(matches!(number.kind, JsonToken::Number(12)));
    let close = t.get_token().unwrap();
    assert_eq!(close.pos, 13);
    assert!(matches!(close.kind, JsonToken::CloseObject));
    expect_failure(t.get_token(), "EOF", 14);
}

#[test]
fn each_structural_character_is_one_token() {
    let mut t = tokenizer("{}[]:,");
    let kinds: Vec<JsonToken> = (0..6).map(|_| t.get_token().unwrap().kind).collect();
    assert!(matches!(kinds[0], JsonToken::OpenObject));
    assert!(matches!(kinds[1], JsonToken::CloseObject));
    assert!(matches!(kinds[2], JsonToken::OpenArray));
    assert!(matches!(kinds[3], JsonToken::CloseArray));
    assert!(matches!(kinds[4], JsonToken::Colon));
    assert!(matches!(kinds[5], JsonToken::Comma));
    expect_failure(t.get_token(), "EOF", 6);
}

#[test]
fn structural_tokens_report_consecutive_offsets() {
    let mut t = tokenizer("{}[]:,");
    for expected in 0..6 {
        assert_eq!(t.get_token().unwrap().pos, expected);
    }
}

#[test]
fn end_of_input_is_a_failure_every_time() {
    let mut t = tokenizer("   ");
    expect_failure(t.get_token(), "EOF", 3);
    expect_failure(t.get_token(), "EOF", 3);
    let mut empty = tokenizer("");
    expect_failure(empty.get_token(), "EOF", 0);
}

#[test]
fn a_digit_run_is_read_greedily() {
    let mut t = tokenizer("123,45");
    let first = t.get_token().unwrap();
    assert_eq!(first.pos, 0);
    assert!(matches!(first.kind, JsonToken::Number(123)));
    assert!(matches!(t.get_token().unwrap().kind, JsonToken::Comma));
    let second = t.get_token().unwrap();
    assert_eq!(second.pos, 4);
    assert!(matches!(second.kind, JsonToken::Number(45)));
    expect_failure(t.get_token(), "EOF", 6);
}

#[test]
fn a_number_may_end_the_input() {
    let mut t = tokenizer(" 7");
    let token = t.get_token().unwrap();
    assert_eq!(token.pos, 1);
    assert!(matches!(token.kind, JsonToken::Number(7)));
}

#[test]
fn leading_zeros_do_not_change_a_number() {
    let mut t = tokenizer("0000000000000000000000042 ");
    assert!(matches!(t.get_token().unwrap().kind, JsonToken::Number(42)));
    let mut zero = tokenizer("0");
    assert!(matches!(zero.get_token().unwrap().kind, JsonToken::Number(0)));
}

#[test]
fn the_largest_number_is_accepted() {
    let mut t = tokenizer("2147483647");
    assert!(matches!(t.get_token().unwrap().kind, JsonToken::Number(2147483647)));
}

#[test]
fn a_number_beyond_the_width_fails_at_its_first_digit() {
    let mut t = tokenizer("  2147483648,");
    expect_failure(t.get_token(), "string to num", 2);
    // The cursor rests behind the digits.
    assert!(matches!(t.get_token().unwrap().kind, JsonToken::Comma));
    let mut long = tokenizer("99999999999999999999999999999999");
    expect_failure(long.get_token(), "string to num", 0);
    expect_failure(long.get_token(), "EOF", 32);
}

#[test]
fn a_sign_is_no_part_of_a_number() {
    let mut t = tokenizer("-1");
    expect_failure(t.get_token(), "failed to parse", 0);
    let mut plus = tokenizer("+1");
    expect_failure(plus.get_token(), "failed to parse", 0);
}

#[test]
fn an_unknown_character_fails_where_it_stands() {
    let mut t = tokenizer("  x");
    expect_failure(t.get_token(), "failed to parse", 2);
    // The cursor rests on the character.
    expect_failure(t.get_token(), "failed to parse", 2);
    let mut tab = tokenizer("\t{");
    expect_failure(tab.get_token(), "failed to parse", 0);
    let mut newline = tokenizer("{\n}");
    assert!(matches!(newline.get_token().unwrap().kind, JsonToken::OpenObject));
    expect_failure(newline.get_token(), "failed to parse", 1);
}

#[test]
fn a_non_ascii_digit_is_no_digit() {
    let mut t = tokenizer("\u{0663}");
    expect_failure(t.get_token(), "failed to parse", 0);
}

#[test]
fn a_string_is_decoded_between_its_quotes() {
    let mut t = tokenizer(r#""abc" "" "a b""#);
    let first = t.get_token().unwrap();
    assert_eq!(first.pos, 0);
    match first.kind {
        JsonToken::JsonString(text) => assert_eq!(text, "abc"),
        other => panic!("expected a string, got {:?}", other),
    }
    let second = t.get_token().unwrap();
    assert_eq!(second.pos, 6);
    match second.kind {
        JsonToken::JsonString(text) => assert_eq!(text, ""),
        other => panic!("expected a string, got {:?}", other),
    }
    let third = t.get_token().unwrap();
    assert_eq!(third.pos, 9);
    match third.kind {
        JsonToken::JsonString(text) => assert_eq!(text, "a b"),
        other => panic!("expected a string, got {:?}", other),
    }
}

#[test]
fn a_backslash_keeps_the_next_character_as_it_is() {
    let mut t = tokenizer(r#""valu\"e1" "a\\b" "\n" "\{""#);
    let texts: Vec<String> = (0..4)
        .map(|_| match t.get_token().unwrap().kind {
            JsonToken::JsonString(text) => text,
            other => panic!("expected a string, got {:?}", other),
        })
        .collect();
    assert_eq!(texts[0], "valu\"e1");
    assert_eq!(texts[1], "a\\b");
    assert_eq!(texts[2], "n");
    assert_eq!(texts[3], "{");
}

#[test]
fn non_ascii_text_is_kept_verbatim() {
    let mut t = tokenizer("\"한글 \u{1F600} é\" :");
    let token = t.get_token().unwrap();
    assert_eq!(token.pos, 0);
    match token.kind {
        JsonToken::JsonString(text) => assert_eq!(text, "한글 \u{1F600} é"),
        other => panic!("expected a string, got {:?}", other),
    }
    // Offsets count characters, not bytes.
    let colon = t.get_token().unwrap();
    assert_eq!(colon.pos, 9);
    assert!(matches!(colon.kind, JsonToken::Colon));
}

#[test]
fn an_unterminated_string_fails_at_its_opening_quote() {
    let mut t = tokenizer(r#"  "abc"#);
    expect_failure(t.get_token(), "unterminated string", 2);
    // The cursor rests at the end of the input.
    expect_failure(t.get_token(), "EOF", 6);
    let mut lone = tokenizer("\"");
    expect_failure(lone.get_token(), "unterminated string", 0);
    let mut escaped_quote = tokenizer(r#""abc\""#);
    expect_failure(escaped_quote.get_token(), "unterminated string", 0);
    let mut dangling = tokenizer(r#""abc\"#);
    expect_failure(dangling.get_token(), "unterminated string", 0);
}

#[test]
fn spaces_between_tokens_are_skipped() {
    let mut t = tokenizer("   [   1   ,   2   ]   ");
    assert_eq!(t.get_token().unwrap().pos, 3);
    assert_eq!(t.get_token().unwrap().pos, 7);
    assert_eq!(t.get_token().unwrap().pos, 11);
    assert_eq!(t.get_token().unwrap().pos, 15);
    assert_eq!(t.get_token().unwrap().pos, 19);
    expect_failure(t.get_token(), "EOF", 23);
}
