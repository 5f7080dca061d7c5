use my_json::parse::JsonParse;

#[test]
fn parse_test_null_parse() {
    let json = "null";
    let result = JsonParse::parse(json).unwrap();
    assert!(result.is_null())
}

#[test]
fn parse_test_number_parse() {
    let json = "-1234";
    let result = JsonParse::parse(json).unwrap();
    assert!(result.is_number())
}

#[test]
fn parse_test_string_parse() {
    let json = "\"-1234\"";
    let result = JsonParse::parse(json).unwrap();
    assert!(result.is_string())
}

#[test]
fn parse_test_boolean_parse() {
    let json = "true";
    let result = JsonParse::parse(json).unwrap();
    assert!(result.is_boolean())
}

#[test]
fn parse_test_simple_array_parse() {
    let json = "[]";
    let result = JsonParse::parse(json).unwrap();
    assert!(result.is_array())
}

#[test]
fn parse_test_simple_array_parse1() {
    let json = "[111,234]";
    let result = JsonParse::parse(json).unwrap();
    assert!(result.is_array())
}

#[test]
fn parse_test_simple_array_parse2() {
    let json = "[111,234,{}]";
    let result = JsonParse::parse(json).unwrap();
    assert!(result.is_array())
}

#[test]
fn parse_test_simple_object_parse() {
    let json = "{}";
    let result = JsonParse::parse(json).unwrap();
    assert!(result.is_object())
}

#[test]
fn parse_test_simple_object_parse1() {
    let json = "{\"hh\":123}";
    let result = JsonParse::parse(json).unwrap();
    assert!(result.is_object())
}

#[test]
fn parse_test_simple_object_parse2() {
    let json = "{\"hh\":123,\"123\":[{\"456\":null},{\"789\":true},{}]}";
    let result = JsonParse::parse(json).unwrap();
    assert!(result.is_object())
}
