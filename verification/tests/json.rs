use neemo::json::parse_value;
use neemo::{StoreError, Value};

#[test]
fn words_that_stand_for_scalars() {
    assert_eq!(parse_value("null"), Ok(Value::Null));
    assert_eq!(parse_value("true"), Ok(Value::Bool(true)));
    assert_eq!(parse_value("false"), Ok(Value::Bool(false)));
    assert_eq!(parse_value("30"), Ok(Value::Number(30)));
    assert_eq!(parse_value("-7"), Ok(Value::Number(-7)));
    assert_eq!(parse_value("9223372036854775807"), Ok(Value::Number(i64::MAX)));
    assert_eq!(parse_value("-9223372036854775808"), Ok(Value::Number(i64::MIN)));
    assert_eq!(parse_value("\"Alice\""), Ok(Value::Text("Alice".to_string())));
    assert_eq!(parse_value("\"a\\nb\""), Ok(Value::Text("a\nb".to_string())));
    assert_eq!(parse_value(" 5 "), Ok(Value::Number(5)));
}

#[test]
fn words_that_stand_for_structured_values() {
    assert_eq!(parse_value("[1, 2 ,3]"), Ok(Value::Structured("[1,2,3]".to_string())));
    assert_eq!(parse_value("[]"), Ok(Value::Structured("[]".to_string())));
    assert_eq!(
        parse_value("{\"b\": 1, \"a\": [true, null]}"),
        Ok(Value::Structured("{\"a\":[true,null],\"b\":1}".to_string()))
    );
    assert_eq!(
        parse_value("{\"b\":{\"z\":1,\"y\":2},\"a\":0}"),
        parse_value("{ \"a\" : 0, \"b\" : { \"y\" : 2, \"z\" : 1 } }")
    );
}

#[test]
fn words_that_stand_for_no_value() {
    assert_eq!(parse_value(""), Err(StoreError::Validation));
    assert_eq!(parse_value("Alice"), Err(StoreError::Validation));
    assert_eq!(parse_value("1.5"), Err(StoreError::Validation));
    assert_eq!(parse_value("1e3"), Err(StoreError::Validation));
    assert_eq!(parse_value("9223372036854775808"), Err(StoreError::Validation));
    assert_eq!(parse_value("[1,"), Err(StoreError::Validation));
    assert_eq!(parse_value("1 2"), Err(StoreError::Validation));
}
