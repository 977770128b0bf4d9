use json_parser::text::{chars_of, collect_chars, same_text};
use json_parser::{Cursor, Json, Object, ParseError, Parser};

fn rest_of(parser: &mut Parser) -> String {
    let mut rest = String::new();
    while let Some(c) = parser.current() {
        rest.push(c);
        parser.next_char();
    }
    rest
}

#[test]
fn cursor_walks_the_input_once() {
    let mut cursor = Cursor::new(vec!['a', 'b']);
    assert_eq!(cursor.current(), Some('a'));
    assert_eq!(cursor.current(), Some('a'));
    cursor.advance();
    assert_eq!(cursor.current(), Some('b'));
    cursor.advance();
    assert_eq!(cursor.current(), None);
    cursor.advance();
    assert_eq!(cursor.current(), None);
}

#[test]
fn cursor_over_nothing_is_exhausted() {
    let mut cursor = Cursor::new(Vec::new());
    assert_eq!(cursor.current(), None);
    cursor.advance();
    assert_eq!(cursor.current(), None);
}

#[test]
fn new_parser_looks_at_the_first_character() {
    let parser = Parser::new("xyz".chars());
    assert_eq!(parser.current(), Some('x'));
    let empty = Parser::new("".chars());
    assert_eq!(empty.current(), None);
}

#[test]
fn next_char_consumes_one_character() {
    let mut parser = Parser::new("ab".chars());
    parser.next_char();
    assert_eq!(parser.current(), Some('b'));
    parser.next_char();
    assert_eq!(parser.current(), None);
    parser.next_char();
    assert_eq!(parser.current(), None);
}

#[test]
fn parse_whitespace_stops_at_the_first_other_character() {
    let mut parser = Parser::new(" \t\r\n x y".chars());
    parser.parse_whitespace();
    assert_eq!(rest_of(&mut parser), "x y");
}

#[test]
fn parse_whitespace_twice_is_parse_whitespace_once() {
    let mut parser = Parser::new("  \n[ 1 ]".chars());
    parser.parse_whitespace();
    assert_eq!(parser.current(), Some('['));
    parser.parse_whitespace();
    assert_eq!(rest_of(&mut parser), "[ 1 ]");
}

#[test]
fn parse_whitespace_runs_to_the_end() {
    let mut parser = Parser::new(" \t ".chars());
    parser.parse_whitespace();
    assert_eq!(parser.current(), None);
}

#[test]
fn parse_literals_consumes_the_spelling() {
    let mut parser = Parser::new("true,1".chars());
    assert!(matches!(parser.parse_literals("true"), Ok(Json::True)));
    assert_eq!(rest_of(&mut parser), ",1");
}

#[test]
fn parse_literals_stops_where_the_input_differs() {
    let mut parser = Parser::new("nuxl".chars());
    assert_eq!(parser.parse_literals("null").unwrap_err(), ParseError::InvalidLiteral);
    assert_eq!(rest_of(&mut parser), "xl");
}

#[test]
fn parse_literals_fails_on_the_wrong_literal() {
    let mut parser = Parser::new("true".chars());
    assert_eq!(parser.parse_literals("false").unwrap_err(), ParseError::InvalidLiteral);
    assert_eq!(rest_of(&mut parser), "true");
}

#[test]
fn parse_literals_knows_three_spellings() {
    let mut parser = Parser::new("nil!".chars());
    assert_eq!(parser.parse_literals("nil").unwrap_err(), ParseError::InvalidLiteral);
    assert_eq!(rest_of(&mut parser), "!");
}

#[test]
fn parse_number_leaves_what_is_no_digit() {
    let mut parser = Parser::new("905, 3".chars());
    assert!(matches!(parser.parse_number(), Ok(Json::Number(905))));
    assert_eq!(rest_of(&mut parser), ", 3");
}

#[test]
fn parse_number_of_no_digits_is_zero() {
    let mut parser = Parser::new("x1".chars());
    assert!(matches!(parser.parse_number(), Ok(Json::Number(0))));
    assert_eq!(rest_of(&mut parser), "x1");
}

#[test]
fn parse_string_consumes_both_quotes() {
    let mut parser = Parser::new("\"key\" : 1".chars());
    assert!(matches!(parser.parse_string(), Ok(Json::String(s)) if s == "key"));
    assert_eq!(rest_of(&mut parser), " : 1");
}

#[test]
fn parse_string_without_end_consumes_everything() {
    let mut parser = Parser::new("\"key : 1".chars());
    assert_eq!(parser.parse_string().unwrap_err(), ParseError::InvalidValue);
    assert_eq!(parser.current(), None);
}

#[test]
fn parse_value_does_not_skip_whitespace() {
    let mut parser = Parser::new(" 1".chars());
    assert_eq!(parser.parse_value().unwrap_err(), ParseError::InvalidValue);
    assert_eq!(rest_of(&mut parser), " 1");
}

#[test]
fn parse_value_leaves_what_follows() {
    let mut parser = Parser::new("[1, 2] tail".chars());
    assert!(matches!(parser.parse_value(), Ok(Json::Array(items)) if items.len() == 2));
    assert_eq!(rest_of(&mut parser), " tail");
}

#[test]
fn parse_array_stops_at_the_failure() {
    let mut parser = Parser::new("[1 ; 2]".chars());
    assert_eq!(parser.parse_array().unwrap_err(), ParseError::InvalidArray);
    assert_eq!(rest_of(&mut parser), "; 2]");
}

#[test]
fn parse_object_consumes_its_closing_brace() {
    let mut parser = Parser::new("{\"a\":1}}".chars());
    match parser.parse_object() {
        Ok(Json::Object(object)) => {
            assert_eq!(object.len(), 1);
            assert!(matches!(object.get("a"), Some(Json::Number(1))));
        }
        other => panic!("{:?}", other),
    }
    assert_eq!(rest_of(&mut parser), "}");
}

#[test]
fn parse_object_stops_at_the_missing_colon() {
    let mut parser = Parser::new("{\"a\" 1}".chars());
    assert_eq!(parser.parse_object().unwrap_err(), ParseError::InvalidObject);
    assert_eq!(rest_of(&mut parser), "1}");
}

#[test]
fn object_binds_and_rebinds() {
    let mut object = Object::new();
    assert_eq!(object.len(), 0);
    assert!(object.get("a").is_none());
    object.insert(String::from("a"), Json::Number(1));
    object.insert(String::from("b"), Json::Null);
    assert_eq!(object.len(), 2);
    assert!(matches!(object.get("a"), Some(Json::Number(1))));
    assert!(matches!(object.get("b"), Some(Json::Null)));
    object.insert(String::from("a"), Json::True);
    assert_eq!(object.len(), 2);
    assert!(matches!(object.get("a"), Some(Json::True)));
    assert!(matches!(object.get("b"), Some(Json::Null)));
    assert!(object.get("c").is_none());
    assert!(object.get("").is_none());
}

#[test]
fn object_hands_out_each_key_once() {
    let mut object = Object::new();
    object.insert(String::from("x"), Json::Number(1));
    object.insert(String::from("y"), Json::Number(2));
    object.insert(String::from("x"), Json::Number(3));
    let mut seen = Vec::new();
    for index in 0..object.len() {
        let (key, value) = object.entry(index);
        match value {
            Json::Number(n) => seen.push((key.clone(), *n)),
            other => panic!("{:?}", other),
        }
    }
    seen.sort();
    assert_eq!(seen, vec![(String::from("x"), 3), (String::from("y"), 2)]);
}

#[test]
fn characters_of_a_text() {
    assert_eq!(chars_of("a\u{e9}b"), vec!['a', '\u{e9}', 'b']);
    assert_eq!(chars_of(""), Vec::<char>::new());
    assert_eq!(collect_chars(vec!['x', 'y'].into_iter()), vec!['x', 'y']);
}

#[test]
fn texts_are_compared_character_by_character() {
    assert!(same_text("null", "null"));
    assert!(same_text("", ""));
    assert!(!same_text("null", "nul"));
    assert!(!same_text("nul", "null"));
    assert!(!same_text("true", "trua"));
}
