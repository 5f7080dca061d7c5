use my_json::char_reader::CharReader;
use my_json::err::JsonParseError;
use my_json::parse::{JsonParse, Value};
use my_json::token::{parse_integer, TokenType, Tokenizer};

fn member<'a>(v: &'a Value, key: &str) -> Option<&'a Value> {
    let members = v.as_object()?;
    let mut found = None;
    for (k, value) in members.iter() {
        if k == key {
            assert!(found.is_none(), "key stored twice");
            found = Some(value);
        }
    }
    found
}

#[test]
fn parse_scalars() {
    assert!(JsonParse::parse("null").unwrap().is_null());
    assert_eq!(JsonParse::parse("true").unwrap().as_boolean(), Some(&true));
    assert_eq!(JsonParse::parse("false").unwrap().as_boolean(), Some(&false));
    assert_eq!(JsonParse::parse("-1234").unwrap().as_number(), Some(&-1234));
    assert_eq!(JsonParse::parse("0").unwrap().as_number(), Some(&0));
    assert_eq!(JsonParse::parse("\"a b\"").unwrap().as_string(), Some("a b"));
    assert_eq!(JsonParse::parse("\"\"").unwrap().as_string(), Some(""));
}

#[test]
fn parse_integer_limits() {
    assert_eq!(
        JsonParse::parse("9223372036854775807").unwrap().as_number(),
        Some(&i64::MAX)
    );
    assert_eq!(
        JsonParse::parse("-9223372036854775808").unwrap().as_number(),
        Some(&i64::MIN)
    );
    assert_eq!(JsonParse::parse("007").unwrap().as_number(), Some(&7));
    assert_eq!(
        JsonParse::parse("9223372036854775808").err(),
        Some(JsonParseError::InvalidValue)
    );
    assert_eq!(JsonParse::parse("-").err(), Some(JsonParseError::InvalidValue));
}

#[test]
fn parse_integer_direct() {
    assert_eq!(parse_integer(&vec!['4', '2']), Some(42));
    assert_eq!(parse_integer(&vec!['-', '0']), Some(0));
    assert_eq!(parse_integer(&vec!['-']), None);
    assert_eq!(parse_integer(&vec![]), None);
    assert_eq!(parse_integer(&vec!['1', 'x']), None);
}

#[test]
fn parse_array_elements() {
    let v = JsonParse::parse("[111,234,{}]").unwrap();
    let a = v.as_array().unwrap();
    assert_eq!(a.len(), 3);
    assert_eq!(a[0].as_number(), Some(&111));
    assert_eq!(a[1].as_number(), Some(&234));
    assert_eq!(a[2].as_object().map(|m| m.len()), Some(0));
}

#[test]
fn parse_nested_object() {
    let v = JsonParse::parse("{\"hh\":123,\"123\":[{\"456\":null},{\"789\":true},{}]}").unwrap();
    assert_eq!(v.as_object().unwrap().len(), 2);
    assert_eq!(member(&v, "hh").unwrap().as_number(), Some(&123));
    let a = member(&v, "123").unwrap().as_array().unwrap();
    assert_eq!(a.len(), 3);
    assert!(member(&a[0], "456").unwrap().is_null());
    assert_eq!(member(&a[1], "789").unwrap().as_boolean(), Some(&true));
    assert_eq!(a[2].as_object().unwrap().len(), 0);
}

#[test]
fn parse_nested_arrays() {
    let v = JsonParse::parse("[[1,2],[],[[\"x\"]]]").unwrap();
    let a = v.as_array().unwrap();
    assert_eq!(a.len(), 3);
    assert_eq!(a[0].as_array().unwrap().len(), 2);
    assert_eq!(a[1].as_array().unwrap().len(), 0);
    let inner = a[2].as_array().unwrap()[0].as_array().unwrap();
    assert_eq!(inner[0].as_string(), Some("x"));
}

#[test]
fn parse_duplicate_key_last_wins() {
    let v = JsonParse::parse("{\"a\":1,\"b\":2,\"a\":3}").unwrap();
    assert_eq!(v.as_object().unwrap().len(), 2);
    assert_eq!(member(&v, "a").unwrap().as_number(), Some(&3));
    assert_eq!(member(&v, "b").unwrap().as_number(), Some(&2));
}

#[test]
fn parse_with_spaces() {
    let v = JsonParse::parse("  { \"k\" : [ 1 , 2 ] }  ").unwrap();
    assert_eq!(member(&v, "k").unwrap().as_array().unwrap().len(), 2);
}

#[test]
fn parse_expected_value_errors() {
    assert_eq!(JsonParse::parse("").err(), Some(JsonParseError::ExpectedValue));
    assert_eq!(JsonParse::parse("   ").err(), Some(JsonParseError::ExpectedValue));
    assert_eq!(JsonParse::parse("{").err(), Some(JsonParseError::ExpectedValue));
    assert_eq!(JsonParse::parse("[").err(), Some(JsonParseError::ExpectedValue));
    assert_eq!(JsonParse::parse("[1,2").err(), Some(JsonParseError::ExpectedValue));
    assert_eq!(JsonParse::parse("{\"a\":1").err(), Some(JsonParseError::ExpectedValue));
    assert_eq!(JsonParse::parse("\"nllu").err(), Some(JsonParseError::ExpectedValue));
}

#[test]
fn parse_invalid_value_errors() {
    assert_eq!(JsonParse::parse("nllu").err(), Some(JsonParseError::InvalidValue));
    assert_eq!(JsonParse::parse("tru").err(), Some(JsonParseError::InvalidValue));
    assert_eq!(JsonParse::parse("x").err(), Some(JsonParseError::InvalidValue));
    assert_eq!(JsonParse::parse("]").err(), Some(JsonParseError::InvalidValue));
    assert_eq!(JsonParse::parse("[1,]").err(), Some(JsonParseError::InvalidValue));
    assert_eq!(JsonParse::parse("[1 2]").err(), Some(JsonParseError::InvalidValue));
    assert_eq!(JsonParse::parse("{\"a\" 1}").err(), Some(JsonParseError::InvalidValue));
    assert_eq!(JsonParse::parse("{\"a\":}").err(), Some(JsonParseError::InvalidValue));
    assert_eq!(JsonParse::parse("{1:2}").err(), Some(JsonParseError::InvalidValue));
    assert_eq!(JsonParse::parse("}{").err(), Some(JsonParseError::InvalidValue));
}

#[test]
fn parse_root_not_singular() {
    assert_eq!(JsonParse::parse("1 2").err(), Some(JsonParseError::RootNotSingular));
    assert_eq!(JsonParse::parse("null [").err(), Some(JsonParseError::RootNotSingular));
    assert_eq!(JsonParse::parse("[] 1").err(), Some(JsonParseError::RootNotSingular));
    assert_eq!(JsonParse::parse("{}{}").err(), Some(JsonParseError::RootNotSingular));
}

#[test]
fn parse_separator_placement() {
    // A comma right after an opener is taken as a separator.
    assert_eq!(JsonParse::parse("[,1]").unwrap().as_array().unwrap().len(), 1);
    assert_eq!(JsonParse::parse("[1,,2]").err(), Some(JsonParseError::InvalidValue));
    // A key with no colon and value is dropped when the object closes.
    assert_eq!(JsonParse::parse("{\"a\"}").unwrap().as_object().unwrap().len(), 0);
    assert_eq!(JsonParse::parse("{\"a\",\"b\":1}").err(), Some(JsonParseError::InvalidValue));
}

#[test]
fn as_number_on_every_variant() {
    let n = JsonParse::parse("5").unwrap();
    assert_eq!(n.as_number(), Some(&5));
    assert_eq!(n.as_number(), Some(&5));
    for text in ["null", "true", "\"5\"", "[5]", "{\"5\":5}"] {
        let v = JsonParse::parse(text).unwrap();
        assert_eq!(v.as_number(), None);
        assert!(!v.is_number());
    }
}

#[test]
fn accessors_by_variant() {
    let mut s = JsonParse::parse("\"ab\"").unwrap();
    assert!(s.is_string() && !s.is_null() && !s.is_array() && !s.is_object() && !s.is_boolean());
    s.as_string_mut().unwrap().push('c');
    assert_eq!(s.as_string(), Some("abc"));
    let mut a = JsonParse::parse("[1]").unwrap();
    a.as_array_mut().unwrap().push(Value::NULL);
    assert_eq!(a.as_array().unwrap().len(), 2);
    assert!(a.as_object_mut().is_none());
    let mut o = JsonParse::parse("{}").unwrap();
    o.as_object_mut().unwrap().push((String::from("k"), Value::BOOLEAN(false)));
    assert_eq!(member(&o, "k").unwrap().as_boolean(), Some(&false));
}

#[test]
fn tokenize_sequences() {
    let ts = Tokenizer::from("[123,234]").unwrap();
    let expected = vec![
        TokenType::BeginArray,
        TokenType::NUMBER(123),
        TokenType::SepComma,
        TokenType::NUMBER(234),
        TokenType::EndArray,
    ];
    assert_eq!(ts.into_iter().collect::<Vec<_>>(), expected);
    let ts = Tokenizer::from("true").unwrap();
    assert_eq!(ts.len(), 1);
    assert_eq!(ts[0], TokenType::BOOLEAN(true));
    let ts = Tokenizer::from(" { \"a b\" : -7 } ").unwrap();
    assert_eq!(ts.len(), 5);
    assert_eq!(ts[1], TokenType::STRING(String::from("a b")));
    assert_eq!(ts[2], TokenType::SepColon);
    assert_eq!(ts[3], TokenType::NUMBER(-7));
    assert_eq!(ts[4], TokenType::EndObject);
}

#[test]
fn tokenize_boundaries() {
    assert_eq!(Tokenizer::from("").unwrap().len(), 0);
    assert_eq!(Tokenizer::from("  ").unwrap().len(), 0);
    assert_eq!(Tokenizer::from("{").unwrap().len(), 1);
    assert_eq!(Tokenizer::from("nllu"), Err(JsonParseError::InvalidValue));
    assert_eq!(Tokenizer::from("\"nllu"), Err(JsonParseError::ExpectedValue));
    assert_eq!(Tokenizer::from("1\t"), Err(JsonParseError::InvalidValue));
    assert_eq!(Tokenizer::from("12ab"), Err(JsonParseError::InvalidValue));
}

#[test]
fn char_reader_moves() {
    let mut r = CharReader::new("  ab");
    assert_eq!(r.peek(), Some(' '));
    r.whitespace();
    assert_eq!(r.peek(), Some('a'));
    assert_eq!(r.next(), Some('a'));
    r.pop();
    assert_eq!(r.peek(), None);
    assert_eq!(r.next(), None);
}
