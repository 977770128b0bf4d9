use json_parser::{parse, Json, ParseError};

fn parse_str(s: &str) -> Result<Json, ParseError> {
    parse(&String::from(s))
}

fn error_of(s: &str) -> ParseError {
    match parse_str(s) {
        Ok(value) => panic!("{:?} parsed to {:?}", s, value),
        Err(e) => e,
    }
}

fn number_of(s: &str) -> u32 {
    match parse_str(s) {
        Ok(Json::Number(n)) => n,
        other => panic!("{:?} gave {:?}", s, other),
    }
}

fn string_of(s: &str) -> String {
    match parse_str(s) {
        Ok(Json::String(text)) => text,
        other => panic!("{:?} gave {:?}", s, other),
    }
}

fn test_parse_ok(s: &str) {
    let test_json = String::from(s);
    let state = parse(&test_json);
    assert!(matches!(state, Ok(_)));
}

#[test]
fn test_parse_value() {
    test_parse_ok("null");
    test_parse_ok("true");
    test_parse_ok("false");
}

#[test]
fn literals_parse_to_their_values() {
    assert!(matches!(parse_str("null"), Ok(Json::Null)));
    assert!(matches!(parse_str("true"), Ok(Json::True)));
    assert!(matches!(parse_str("false"), Ok(Json::False)));
}

#[test]
fn misspelt_literals_are_invalid_literals() {
    assert_eq!(error_of("nul"), ParseError::InvalidLiteral);
    assert_eq!(error_of("nulx"), ParseError::InvalidLiteral);
    assert_eq!(error_of("tru"), ParseError::InvalidLiteral);
    assert_eq!(error_of("fals"), ParseError::InvalidLiteral);
    assert_eq!(error_of("n"), ParseError::InvalidLiteral);
    assert_eq!(error_of("talse"), ParseError::InvalidLiteral);
}

#[test]
fn numbers_parse_to_their_decimal_value() {
    assert_eq!(number_of("0"), 0);
    assert_eq!(number_of("7"), 7);
    assert_eq!(number_of("123456"), 123456);
    assert_eq!(number_of("4294967295"), u32::MAX);
    assert_eq!(number_of("007"), 7);
}

#[test]
fn numbers_wrap_around_past_the_largest() {
    assert_eq!(number_of("4294967296"), 0);
    assert_eq!(number_of("4294967297"), 1);
    assert_eq!(number_of("99999999999"), 99999999999u64 as u32);
}

#[test]
fn number_stops_at_the_first_other_character() {
    assert_eq!(number_of("12.5"), 12);
    assert_eq!(number_of("3e4"), 3);
    assert_eq!(number_of("42abc"), 42);
    assert_eq!(error_of("-1"), ParseError::InvalidValue);
    assert_eq!(error_of("[1.5]"), ParseError::InvalidArray);
}

#[test]
fn strings_are_taken_verbatim() {
    assert_eq!(string_of("\"\""), "");
    assert_eq!(string_of("\"abc\""), "abc");
    assert_eq!(string_of("\"hello world\""), "hello world");
    assert_eq!(string_of("\" a\tb \""), " a\tb ");
    assert_eq!(string_of("\"a\\nb\""), "a\\nb");
    assert_eq!(string_of("\"\u{e9}\u{4e2d}\""), "\u{e9}\u{4e2d}");
}

#[test]
fn backslash_does_not_escape_a_quote() {
    assert_eq!(string_of("\"a\\\"b\""), "a\\");
}

#[test]
fn unterminated_string_is_an_invalid_value() {
    assert_eq!(error_of("\"abc"), ParseError::InvalidValue);
    assert_eq!(error_of("\""), ParseError::InvalidValue);
    assert_eq!(error_of("[\"abc]"), ParseError::InvalidValue);
    assert_eq!(error_of("{\"abc"), ParseError::InvalidValue);
}

#[test]
fn array_of_literals() {
    match parse_str("[ null , true , false ]") {
        Ok(Json::Array(items)) => {
            assert_eq!(items.len(), 3);
            assert!(matches!(items[0], Json::Null));
            assert!(matches!(items[1], Json::True));
            assert!(matches!(items[2], Json::False));
        }
        other => panic!("{:?}", other),
    }
}

#[test]
fn array_keeps_the_order_of_its_elements() {
    match parse_str("[3,1,2,\"x\",[4]]") {
        Ok(Json::Array(items)) => {
            assert_eq!(items.len(), 5);
            assert!(matches!(items[0], Json::Number(3)));
            assert!(matches!(items[1], Json::Number(1)));
            assert!(matches!(items[2], Json::Number(2)));
            assert!(matches!(&items[3], Json::String(s) if s == "x"));
            match &items[4] {
                Json::Array(inner) => {
                    assert_eq!(inner.len(), 1);
                    assert!(matches!(inner[0], Json::Number(4)));
                }
                other => panic!("{:?}", other),
            }
        }
        other => panic!("{:?}", other),
    }
}

#[test]
fn nested_object() {
    match parse_str("{ \"a\" : { \"b\" : true } , \"c\" : false }") {
        Ok(Json::Object(object)) => {
            assert_eq!(object.len(), 2);
            match object.get("a") {
                Some(Json::Object(inner)) => {
                    assert_eq!(inner.len(), 1);
                    assert!(matches!(inner.get("b"), Some(Json::True)));
                }
                other => panic!("{:?}", other),
            }
            assert!(matches!(object.get("c"), Some(Json::False)));
            assert!(object.get("b").is_none());
        }
        other => panic!("{:?}", other),
    }
}

#[test]
fn repeated_key_keeps_the_last_value() {
    match parse_str("{\"a\":1,\"b\":2,\"a\":3}") {
        Ok(Json::Object(object)) => {
            assert_eq!(object.len(), 2);
            assert!(matches!(object.get("a"), Some(Json::Number(3))));
            assert!(matches!(object.get("b"), Some(Json::Number(2))));
        }
        other => panic!("{:?}", other),
    }
}

#[test]
fn empty_key_is_a_key() {
    match parse_str("{\"\":null}") {
        Ok(Json::Object(object)) => {
            assert_eq!(object.len(), 1);
            assert!(matches!(object.get(""), Some(Json::Null)));
        }
        other => panic!("{:?}", other),
    }
}

#[test]
fn whitespace_around_a_value_changes_nothing() {
    assert!(matches!(parse_str(" \t\r\n null"), Ok(Json::Null)));
    assert!(matches!(parse_str("null \t\r\n"), Ok(Json::Null)));
    assert_eq!(number_of("\n\n12\t"), 12);
    assert_eq!(string_of("  \"a b\"  "), "a b");
    assert_eq!(error_of(" \t\r\n"), ParseError::ExpectValue);
    assert_eq!(error_of("  x"), ParseError::InvalidValue);
}

#[test]
fn whitespace_between_tokens_changes_nothing() {
    let dense = "{\"k\":[1,{\"m\":null},\"s\"],\"n\":7}";
    let loose = " {\t\"k\" \r\n: [ 1 ,\n{ \"m\"\t:\tnull } , \"s\" ]\r,\n\"n\" : 7 } ";
    for text in [dense, loose] {
        match parse_str(text) {
            Ok(Json::Object(object)) => {
                assert_eq!(object.len(), 2);
                assert!(matches!(object.get("n"), Some(Json::Number(7))));
                match object.get("k") {
                    Some(Json::Array(items)) => {
                        assert_eq!(items.len(), 3);
                        assert!(matches!(items[0], Json::Number(1)));
                        match &items[1] {
                            Json::Object(inner) => {
                                assert_eq!(inner.len(), 1);
                                assert!(matches!(inner.get("m"), Some(Json::Null)));
                            }
                            other => panic!("{:?}", other),
                        }
                        assert!(matches!(&items[2], Json::String(s) if s == "s"));
                    }
                    other => panic!("{:?}", other),
                }
            }
            other => panic!("{:?}", other),
        }
    }
}

#[test]
fn whitespace_inside_a_string_is_kept() {
    assert_eq!(string_of("\"a , b\""), "a , b");
    assert_eq!(string_of("\"a,b\""), "a,b");
}

#[test]
fn empty_input_expects_a_value() {
    assert_eq!(error_of(""), ParseError::ExpectValue);
    assert_eq!(error_of("["), ParseError::ExpectValue);
    assert_eq!(error_of("[1,"), ParseError::ExpectValue);
    assert_eq!(error_of("{\"a\":"), ParseError::ExpectValue);
}

#[test]
fn unrecognized_character_is_an_invalid_value() {
    assert_eq!(error_of("x"), ParseError::InvalidValue);
    assert_eq!(error_of("]"), ParseError::InvalidValue);
    assert_eq!(error_of(":"), ParseError::InvalidValue);
    assert_eq!(error_of("[,]"), ParseError::InvalidValue);
}

#[test]
fn empty_array_and_object_are_not_in_the_grammar() {
    assert_eq!(error_of("[]"), ParseError::InvalidValue);
    assert_eq!(error_of("[ ]"), ParseError::InvalidValue);
    assert_eq!(error_of("{}"), ParseError::InvalidObject);
    assert_eq!(error_of("{ }"), ParseError::InvalidObject);
}

#[test]
fn array_without_its_end_is_an_invalid_array() {
    assert_eq!(error_of("[1, 2"), ParseError::InvalidArray);
    assert_eq!(error_of("[1 2]"), ParseError::InvalidArray);
    assert_eq!(error_of("[1}"), ParseError::InvalidArray);
    assert_eq!(error_of("[null"), ParseError::InvalidArray);
}

#[test]
fn object_without_colon_is_an_invalid_object() {
    assert_eq!(error_of("{\"a\" 1}"), ParseError::InvalidObject);
    assert_eq!(error_of("{\"a\""), ParseError::InvalidObject);
    assert_eq!(error_of("{\"a\",1}"), ParseError::InvalidObject);
}

#[test]
fn object_without_a_quoted_key_is_an_invalid_object() {
    assert_eq!(error_of("{1:2}"), ParseError::InvalidObject);
    assert_eq!(error_of("{a\":1}"), ParseError::InvalidObject);
    assert_eq!(error_of("{"), ParseError::InvalidObject);
    assert_eq!(error_of("{\"a\":1,}"), ParseError::InvalidObject);
}

#[test]
fn object_without_its_end_is_an_invalid_object() {
    assert_eq!(error_of("{\"a\":1"), ParseError::InvalidObject);
    assert_eq!(error_of("{\"a\":1 \"b\":2}"), ParseError::InvalidObject);
    assert_eq!(error_of("{\"a\":1]"), ParseError::InvalidObject);
}

#[test]
fn first_failure_is_the_one_reported() {
    assert_eq!(error_of("[1, nul, \"x"), ParseError::InvalidLiteral);
    assert_eq!(error_of("{\"a\": [1 2], \"b\" 3}"), ParseError::InvalidArray);
    assert_eq!(error_of("[{\"a\" 1}, x]"), ParseError::InvalidObject);
    assert_eq!(error_of("[[[x]]]"), ParseError::InvalidValue);
}

#[test]
fn what_follows_the_value_is_ignored() {
    assert!(matches!(parse_str("null x"), Ok(Json::Null)));
    assert!(matches!(parse_str("nullx"), Ok(Json::Null)));
    assert_eq!(number_of("1 2"), 1);
    assert!(matches!(parse_str("[1]]"), Ok(Json::Array(_))));
    assert_eq!(string_of("\"a\"\"b\""), "a");
}

// The parser recurses once for each level and sets no limit of its own, so
// how deep a text may nest is a matter of the stack. On the 2 MiB stack of a
// test thread 5000 levels parse and 20000 overflow it; this depth leaves
// room to spare.
#[test]
fn deeply_nested_arrays_parse_to_a_tree_of_that_depth() {
    let depth = 1000;
    let mut text = String::new();
    for _ in 0..depth {
        text.push('[');
    }
    text.push_str("null");
    for _ in 0..depth {
        text.push(']');
    }
    let mut value = parse(&text).expect("nested arrays");
    let mut seen = 0;
    loop {
        match value {
            Json::Array(mut items) => {
                assert_eq!(items.len(), 1);
                value = items.pop().expect("one element");
                seen += 1;
            }
            Json::Null => break,
            other => panic!("{:?}", other),
        }
    }
    assert_eq!(seen, depth);
}

#[test]
fn failure_messages() {
    assert_eq!(ParseError::ExpectValue.message(), "expect value error");
    assert_eq!(ParseError::InvalidValue.message(), "parse value error");
    assert_eq!(ParseError::InvalidLiteral.message(), "parse invalid literal");
    assert_eq!(ParseError::InvalidArray.message(), "parse invalid array");
    assert_eq!(ParseError::InvalidObject.message(), "parse invalid object");
}
