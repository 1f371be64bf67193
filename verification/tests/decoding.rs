use std::collections::HashMap;

use result_line::from_string;
use result_line::ParseError;
use result_line::ResultItem;

fn to_map(pairs: Vec<(String, ResultItem)>) -> HashMap<String, ResultItem> {
    let mut m = HashMap::new();
    for (k, v) in pairs {
        m.insert(k, v);
    }
    m
}

#[test]
fn test() {
    let s = r#"RESULT a="hello world" b=-123423904 "a key"=8123 nowhitespace=8123.23 d=true"#;
    let map = from_string(s).map(to_map);

    let mut expected = HashMap::<String, ResultItem>::new();
    expected.insert("a".to_owned(), ResultItem::Text("hello world".to_owned()));
    expected.insert("b".to_owned(), ResultItem::Integer(-123423904));
    expected.insert("a key".to_owned(), ResultItem::Integer(8123));
    expected.insert("nowhitespace".to_owned(), ResultItem::Float("8123.23".to_owned()));
    expected.insert("d".to_owned(), ResultItem::Boolean(true));

    assert_eq!(Ok(expected), map, "Parsed map does not match expected map");
}

#[test]
fn decodes_five_typed_pairs_in_order() {
    let s = r#"RESULT a="hello world" b=-123423904 "a key"=8123 nowhitespace=8123.23 d=true"#;
    let pairs = from_string(s).unwrap();
    assert_eq!(pairs.len(), 5);
    assert_eq!(pairs[0], ("a".to_owned(), ResultItem::Text("hello world".to_owned())));
    assert_eq!(pairs[1], ("b".to_owned(), ResultItem::Integer(-123423904)));
    assert_eq!(pairs[2], ("a key".to_owned(), ResultItem::Integer(8123)));
    assert_eq!(pairs[3], ("nowhitespace".to_owned(), ResultItem::Float("8123.23".to_owned())));
    assert_eq!(pairs[4], ("d".to_owned(), ResultItem::Boolean(true)));
}

#[test]
fn decodes_quoted_text_quoted_key_and_bool() {
    let s = r#"RESULT a="some value" "a key"=12315 c=true"#;
    let map = to_map(from_string(s).unwrap());
    let mut expected = HashMap::<String, ResultItem>::new();
    expected.insert("a".to_owned(), ResultItem::Text("some value".to_owned()));
    expected.insert("a key".to_owned(), ResultItem::Integer(12315));
    expected.insert("c".to_owned(), ResultItem::Boolean(true));
    assert_eq!(expected, map);
}

#[test]
fn trailing_bare_integer_decodes_as_float() {
    let pairs = from_string("RESULT k=5").unwrap();
    assert_eq!(pairs, vec![("k".to_owned(), ResultItem::Float("5".to_owned()))]);

    // the same token off the last position, with its trailing separator,
    // is an integer
    let pairs = from_string("RESULT k=5 d=true").unwrap();
    assert_eq!(pairs[0], ("k".to_owned(), ResultItem::Integer(5)));
}

#[test]
fn missing_literal_prefix_is_malformed() {
    assert_eq!(from_string("a=1 b=2"), Err(ParseError::MalformedLine));
    assert_eq!(from_string(""), Err(ParseError::MalformedLine));
    assert_eq!(from_string("RESUL"), Err(ParseError::MalformedLine));
}

#[test]
fn bare_literal_yields_no_pairs() {
    assert_eq!(from_string("RESULT"), Ok(vec![]));
}

#[test]
fn trailing_garbage_is_discarded() {
    let pairs = from_string("RESULT a=1 garbage").unwrap();
    assert_eq!(pairs, vec![("a".to_owned(), ResultItem::Integer(1))]);
}

#[test]
fn bare_value_runs_to_the_next_equals_sign() {
    // the fallback value rule reads bare tokens up to the next `=`, so the
    // rest of the line is swallowed into the value and discarded
    let pairs = from_string("RESULT a=b=c").unwrap();
    assert_eq!(pairs, vec![("a".to_owned(), ResultItem::Text("b".to_owned()))]);
}

#[test]
fn boolean_literal_matches_as_a_prefix() {
    let pairs = from_string("RESULT k=trueish x=1").unwrap();
    assert_eq!(pairs, vec![("k".to_owned(), ResultItem::Boolean(true))]);
}

#[test]
fn integer_overflow_falls_back_to_float() {
    let pairs = from_string("RESULT k=99999999999999999999 d=true").unwrap();
    assert_eq!(
        pairs[0],
        ("k".to_owned(), ResultItem::Float("99999999999999999999".to_owned()))
    );
    assert_eq!(pairs[1], ("d".to_owned(), ResultItem::Boolean(true)));
}

#[test]
fn extreme_integers_decode_exactly() {
    let pairs = from_string("RESULT a=-9223372036854775808 b=9223372036854775807 d=true").unwrap();
    assert_eq!(pairs[0], ("a".to_owned(), ResultItem::Integer(i64::MIN)));
    assert_eq!(pairs[1], ("b".to_owned(), ResultItem::Integer(i64::MAX)));
}

#[test]
fn exponential_floats_keep_their_token() {
    let pairs = from_string("RESULT a=1.5e3 b=-.5 c=+12. d=true").unwrap();
    assert_eq!(pairs[0], ("a".to_owned(), ResultItem::Float("1.5e3".to_owned())));
    assert_eq!(pairs[1], ("b".to_owned(), ResultItem::Float("-.5".to_owned())));
    assert_eq!(pairs[2], ("c".to_owned(), ResultItem::Float("+12.".to_owned())));
}
