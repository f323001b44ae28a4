use libjsonparser::{Content, JsonParser, Tokenizer};

fn parse(text: &str) -> Content {
    match JsonParser::content_from_str(text) {
        Ok(content) => content,
        Err(e) => panic!("{:?} was rejected: {}", text, e.to_string()),
    }
}

fn text_of(content: &Content) -> &str {
    match content {
        Content::StringLiteral(text) => text,
        other => panic!("expected a string, got {:?}", other),
    }
}

fn member_count(content: &Content) -> usize {
    match content {
        Content::Object(members) => members.len(),
        other => panic!("expected an object, got {:?}", other),
    }
}

fn element_count(content: &Content) -> usize {
    match content {
        Content::Array(items) => items.len(),
        other => panic!("expected an array, got {:?}", other),
    }
}

#[test]
fn an_empty_object_has_no_members() {
    let parsed = parse("{}");
    assert_eq!(member_count(&parsed), 0);
    assert!(matches!(parsed.get("a"), Content::Null));
    assert!(matches!(parsed.get(""), Content::Null));
    assert!(matches!(parsed.at(0), Content::Null));
    assert!(parsed == Content::object());
}

#[test]
fn an_empty_array_has_no_elements() {
    let parsed = parse("[]");
    assert_eq!(element_count(&parsed), 0);
    assert!(matches!(parsed.at(0), Content::Null));
    assert!(matches!(parsed.at(usize::MAX), Content::Null));
    assert!(matches!(parsed.get("a"), Content::Null));
    assert!(parsed == Content::array());
}

#[test]
fn nested_objects_are_reached_by_chained_lookups() {
    let root = parse(r#"{"a":{"b":{"c":1}}}"#);
    assert!(matches!(root.get("a").get("b").get("c"), Content::Number(1)));
    assert!(matches!(root.get("a"), Content::Object(_)));
    assert!(matches!(root.get("a").get("b"), Content::Object(_)));
    assert_eq!(member_count(&root), 1);
    assert_eq!(member_count(root.get("a")), 1);
    assert_eq!(member_count(root.get("a").get("b")), 1);
    // A miss anywhere along the chain ends in Null.
    assert!(matches!(root.get("a").get("x").get("c"), Content::Null));
    assert!(matches!(root.get("a").get("b").get("c").get("d"), Content::Null));
    assert!(matches!(root.at(0).get("b"), Content::Null));
}

#[test]
fn an_array_holds_scalars_and_objects_in_source_order() {
    let parsed = parse(r#"[1,2,3,"x",{"k":1}]"#);
    assert_eq!(element_count(&parsed), 5);
    assert!(matches!(parsed.at(0), Content::Number(1)));
    assert!(matches!(parsed.at(1), Content::Number(2)));
    assert!(matches!(parsed.at(2), Content::Number(3)));
    assert_eq!(text_of(parsed.at(3)), "x");
    assert!(matches!(parsed.at(4), Content::Object(_)));
    assert!(matches!(parsed.at(4).get("k"), Content::Number(1)));
    assert!(matches!(parsed.at(5), Content::Null));
}

#[test]
fn arrays_nest_in_arrays() {
    let parsed = parse("[[1],[2,[3,[]]],[]]");
    assert_eq!(element_count(&parsed), 3);
    assert!(matches!(parsed.at(0).at(0), Content::Number(1)));
    assert!(matches!(parsed.at(1).at(0), Content::Number(2)));
    assert!(matches!(parsed.at(1).at(1).at(0), Content::Number(3)));
    assert_eq!(element_count(parsed.at(1).at(1).at(1)), 0);
    assert_eq!(element_count(parsed.at(2)), 0);
}

#[test]
fn objects_hold_arrays_and_arrays_hold_objects() {
    let parsed = parse(r#"{"vvv":1234, "array":[1,2,3,4, "hi"], "obj":{"depth1":1, "depth2":2}}"#);
    assert!(matches!(parsed.get("vvv"), Content::Number(1234)));
    assert_eq!(element_count(parsed.get("array")), 5);
    assert_eq!(text_of(parsed.get("array").at(4)), "hi");
    assert!(matches!(parsed.get("obj").get("depth2"), Content::Number(2)));
    let list = parse(r#"[1,2,3,4, "str", {"vvv":1234, "obj":{}}]"#);
    assert_eq!(element_count(&list), 6);
    assert_eq!(member_count(list.at(5).get("obj")), 0);
}

#[test]
fn non_ascii_text_is_preserved() {
    let parsed = parse(r#"{"vvv" : "한글"}"#);
    assert_eq!(text_of(parsed.get("vvv")), "한글");
    let names = parse("{\"키\":\"\u{1F600}\",\"é\":[\"ß\"]}");
    assert_eq!(text_of(names.get("키")), "\u{1F600}");
    assert_eq!(text_of(names.get("é").at(0)), "ß");
}

#[test]
fn escapes_are_decoded_in_names_and_values() {
    let parsed = parse(r#"{"vvv" : 3434,     "field":"valu\"e1", "a\\b":"\\"}"#);
    assert!(matches!(parsed.get("vvv"), Content::Number(3434)));
    assert_eq!(text_of(parsed.get("field")), "valu\"e1");
    assert_eq!(text_of(parsed.get("a\\b")), "\\");
}

#[test]
fn what_follows_the_document_is_not_read() {
    let parsed = parse(r#"{"vvv" : "한글"}444444"#);
    assert_eq!(text_of(parsed.get("vvv")), "한글");
    let list = parse("[1]]]]");
    assert_eq!(element_count(&list), 1);
    let odd = parse(r#"{"vvv":1234, "array":[1,2,3,4, "hi"]}}"#);
    assert!(matches!(odd.get("vvv"), Content::Number(1234)));
    let broken = parse("{} \"unterminated");
    assert_eq!(member_count(&broken), 0);
}

#[test]
fn a_repeated_name_keeps_the_last_value() {
    let parsed = parse(r#"{"a":1,"b":2,"a":3}"#);
    assert_eq!(member_count(&parsed), 2);
    assert!(matches!(parsed.get("a"), Content::Number(3)));
    assert!(matches!(parsed.get("b"), Content::Number(2)));
    let changed_kind = parse(r#"{"a":1,"a":"x","a":[]}"#);
    assert_eq!(member_count(&changed_kind), 1);
    assert_eq!(element_count(changed_kind.get("a")), 0);
}

#[test]
fn a_comma_may_stand_before_the_closing_mark() {
    let object = parse(r#"{"a":1,}"#);
    assert_eq!(member_count(&object), 1);
    let array = parse("[1,2,]");
    assert_eq!(element_count(&array), 2);
}

#[test]
fn spaces_may_stand_between_any_two_tokens() {
    let parsed = parse(r#"   {   "a"   :   [   1   ,   "b"   ]   ,   "c"   :   {   }   }   "#);
    assert_eq!(member_count(&parsed), 2);
    assert!(matches!(parsed.get("a").at(0), Content::Number(1)));
    assert_eq!(text_of(parsed.get("a").at(1)), "b");
    assert_eq!(member_count(parsed.get("c")), 0);
}

#[test]
fn parsing_the_same_text_twice_gives_equal_trees() {
    let text = r#"{"b":[1,{"c":"d"},[]],"a":{"x":{"y":7}},"n":0}"#;
    let first = parse(text);
    let second = parse(text);
    assert!(first == second);
    assert_eq!(format!("{:?}", first), format!("{:?}", second));
    let failed_once = JsonParser::content_from_str(r#"{"a":[1,}"#).unwrap_err();
    let failed_twice = JsonParser::content_from_str(r#"{"a":[1,}"#).unwrap_err();
    assert_eq!(failed_once.to_string(), failed_twice.to_string());
}

#[test]
fn the_three_ways_to_parse_agree() {
    let text = r#"{"a":[1,2,{"b":"c"}]}"#;
    let direct = parse(text);
    let mut from_str = JsonParser::new2(text);
    let mut from_tokenizer = JsonParser::new(Tokenizer::new(text.to_string()));
    assert!(from_str.parse().unwrap() == direct);
    assert!(from_tokenizer.parse().unwrap() == direct);
}

#[test]
fn a_parser_reads_one_document_after_another() {
    let mut parser = JsonParser::new2(r#"{"a":1} [2] {"b":3}"#);
    assert!(matches!(parser.parse().unwrap().get("a"), Content::Number(1)));
    assert!(matches!(parser.parse().unwrap().at(0), Content::Number(2)));
    assert!(matches!(parser.parse().unwrap().get("b"), Content::Number(3)));
    assert_eq!(parser.parse().unwrap_err().to_string(), "EOF, pos: 19");
}

#[test]
fn a_builder_fills_the_container_it_is_given() {
    let mut target = Content::object();
    target.insert("old".to_string(), Content::Number(1)).unwrap();
    target.insert("both".to_string(), Content::Number(2)).unwrap();
    let mut parser = JsonParser::new2(r#""new":3,"both":4}"#);
    parser.parse_object(&mut target).unwrap();
    assert_eq!(member_count(&target), 3);
    assert!(matches!(target.get("old"), Content::Number(1)));
    assert!(matches!(target.get("new"), Content::Number(3)));
    assert!(matches!(target.get("both"), Content::Number(4)));

    let mut list = Content::array();
    list.push(Content::Number(0)).unwrap();
    let mut elements = JsonParser::new2(r#"1,"two"]"#);
    elements.parse_array(&mut list).unwrap();
    assert_eq!(element_count(&list), 3);
    assert!(matches!(list.at(0), Content::Number(0)));
    assert!(matches!(list.at(1), Content::Number(1)));
    assert_eq!(text_of(list.at(2)), "two");
}
