use my_json::err::JsonParseError;
use my_json::token::{TokenType, Tokenizer};

#[test]
fn token_test_true_test() {
    let json = "true";
    let result = Tokenizer::from(json).ok().unwrap();
    assert_eq!(result[0], TokenType::BOOLEAN(true));
}

#[test]
fn token_test_false_test() {
    let json = "false";
    let result = Tokenizer::from(json).ok().unwrap();
    assert_eq!(result[0], TokenType::BOOLEAN(false));
}
#[test]
fn token_test_null_test() {
    let json = "null";
    let result = Tokenizer::from(json).ok().unwrap();
    assert_eq!(result[0], TokenType::NULL);
}

#[test]
fn token_test_number_test() {
    let json = "1234123";
    let result = Tokenizer::from(json).ok().unwrap();
    assert_eq!(result[0], TokenType::NUMBER(1234123));
}

#[test]
fn token_test_number_test2() {
    let json = "-1234123";
    let result = Tokenizer::from(json).ok().unwrap();
    assert_eq!(result[0], TokenType::NUMBER(-1234123));
}

#[test]
fn token_test_string_test() {
    let json = "\"123\"";
    let result = Tokenizer::from(json).ok().unwrap();
    assert_eq!(result[0], TokenType::STRING(String::from("123")));
}

#[test]
fn token_test_array_test() {
    let json = "[]";
    let result = Tokenizer::from(json).ok().unwrap();
    assert_eq!(result[0], TokenType::BeginArray);
    assert_eq!(result[1], TokenType::EndArray);
}

#[test]
fn token_test_array_test1() {
    let json = "[123,234]";
    let result = Tokenizer::from(json).ok().unwrap();
    assert_eq!(result[0], TokenType::BeginArray);
    assert_eq!(result[1], TokenType::NUMBER(123));
    assert_eq!(result[2], TokenType::SepComma);
    assert_eq!(result[3], TokenType::NUMBER(234));
    assert_eq!(result[4], TokenType::EndArray);
}

#[test]
fn token_test_object_test() {
    let json = "{}";
    let result = Tokenizer::from(json).ok().unwrap();
    assert_eq!(result[0], TokenType::BeginObject);
    assert_eq!(result[1], TokenType::EndObject);
}

#[test]
fn token_test_object_test1() {
    let json = "{\"11\":123}";
    let result = Tokenizer::from(json).ok().unwrap();
    assert_eq!(result[0], TokenType::BeginObject);
    assert_eq!(result[1], TokenType::STRING(String::from("11")));
    assert_eq!(result[2], TokenType::SepColon);
    assert_eq!(result[3], TokenType::NUMBER(123));
    assert_eq!(result[4], TokenType::EndObject);
}

#[test]
fn token_test_error_test() {
    let json = "nllu";
    assert_eq!(Tokenizer::from(json), Err(JsonParseError::InvalidValue));
}

#[test]
fn token_test_error_test2() {
    let json = "\"nllu";
    assert_eq!(Tokenizer::from(json), Err(JsonParseError::ExpectedValue));
}
