use edgelink_core::json::{option_value_equals_str, value_equals_str};
use serde_json::Value;

#[test]
fn value_equals_str_on_strings_and_others() {
    let s = Value::String("tab".to_string());
    assert!(value_equals_str(&s, "tab"));
    assert!(!value_equals_str(&s, "subflow"));
    assert!(!value_equals_str(&Value::Null, "null"));
    assert!(!value_equals_str(&Value::Bool(true), "true"));
    assert!(!value_equals_str(&Value::String(String::new()), "x"));
    assert!(value_equals_str(&Value::String(String::new()), ""));
}

#[test]
fn option_value_equals_str_cases() {
    let s = Value::String("group".to_string());
    assert!(option_value_equals_str(&Some(&s), "group"));
    assert!(!option_value_equals_str(&Some(&s), "tab"));
    assert!(!option_value_equals_str(&None, "group"));
}
