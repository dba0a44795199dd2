//! Tests of the value inference engine, through both the `toml_edit`-valued
//! `infer_value` and the plain-model `infer`.

use tomler::edit::infer_value;
use tomler::infer::{infer, infer_single, is_quoted_string, parse_i64, trim_str, eq_ignore_case};
use tomler::value::ConfigValue;

#[test]
fn infer_primitives() {
    assert!(infer_value("true").as_bool().unwrap());
    assert_eq!(infer_value("False").as_bool().unwrap(), false);
    assert_eq!(infer_value("  42 ").as_integer().unwrap(), 42);
    assert!((infer_value("3.14").as_float().unwrap() - 3.14).abs() < 1e-10);
    // quoted is string
    assert_eq!(infer_value("\"hello\"").as_str().unwrap(), "hello");
    // unquoted words are strings
    assert_eq!(infer_value("hello").as_str().unwrap(), "hello");
}

#[test]
fn infer_arrays() {
    // Simple comma-separated integers
    let v = infer_value("1,2,3");
    let arr = v.as_array().expect("should be array");
    assert_eq!(arr.len(), 3);
    let first = arr.iter().next().unwrap();
    assert_eq!(first.as_integer().unwrap(), 1);

    // Simple comma-separated booleans
    let v2 = infer_value("true,false,true");
    let a2 = v2.as_array().unwrap();
    assert_eq!(a2.len(), 3);
    let items: Vec<&toml_edit::Value> = a2.iter().collect();
    match &items[1] {
        toml_edit::Value::Boolean(formatted_bool) => {
            assert_eq!(*formatted_bool.value(), false);
        }
        _ => panic!("Expected boolean value"),
    }

    // Simple comma-separated strings (no commas within quotes)
    let v3 = infer_value("apple,banana,cherry");
    let a3 = v3.as_array().unwrap();
    let items: Vec<&toml_edit::Value> = a3.iter().collect();
    assert_eq!(items.len(), 3);
    match &items[0] {
        toml_edit::Value::String(formatted_str) => {
            assert_eq!(formatted_str.value().as_str(), "apple");
        }
        _ => panic!("Expected string value"),
    }

    // Quoted string should not be treated as array
    let v4 = infer_value("\"a,b,c\"");
    assert!(v4.as_str().is_some());
    assert_eq!(v4.as_str().unwrap(), "a,b,c");
}

#[test]
fn simple_array_parsing() {
    // Test the simplified array parsing
    assert_eq!(infer_value("a,b,c").as_array().unwrap().len(), 3);
    assert_eq!(infer_value("1,2,3").as_array().unwrap().len(), 3);

    // Quoted strings should not be split
    assert!(infer_value("\"a,b,c\"").as_str().is_some());
    assert!(infer_value("'x,y,z'").as_str().is_some());

    // Single values should not be arrays
    assert!(infer_value("single").as_str().is_some());
    assert!(infer_value("42").as_integer().is_some());
}

#[test]
fn plain_inference_scalars() {
    assert_eq!(infer("true"), ConfigValue::Boolean(true));
    assert_eq!(infer("False"), ConfigValue::Boolean(false));
    assert_eq!(infer("42"), ConfigValue::Integer(42));
    assert_eq!(infer("3.14"), ConfigValue::Float("3.14".to_string()));
    assert_eq!(infer("hello"), ConfigValue::Str("hello".to_string()));
    assert_eq!(infer("\"hello\""), ConfigValue::Str("hello".to_string()));
}

#[test]
fn plain_inference_arrays() {
    assert_eq!(
        infer("1,2,3"),
        ConfigValue::Array(vec![
            ConfigValue::Integer(1),
            ConfigValue::Integer(2),
            ConfigValue::Integer(3),
        ])
    );
    assert_eq!(
        infer("true,false,true"),
        ConfigValue::Array(vec![
            ConfigValue::Boolean(true),
            ConfigValue::Boolean(false),
            ConfigValue::Boolean(true),
        ])
    );
    assert_eq!(infer("\"a,b,c\""), ConfigValue::Str("a,b,c".to_string()));
}

#[test]
fn array_splitting_needs_two_nonempty_parts() {
    // a lone comma has no non-empty part: it stays a single string
    assert_eq!(infer(","), ConfigValue::Str(",".to_string()));
    // one non-empty part is not an array either
    assert_eq!(infer("a,"), ConfigValue::Str("a,".to_string()));
    // two non-empty parts split, and every part is kept, the empty one too
    assert_eq!(
        infer("a,,b"),
        ConfigValue::Array(vec![
            ConfigValue::Str("a".to_string()),
            ConfigValue::Str("".to_string()),
            ConfigValue::Str("b".to_string()),
        ])
    );
}

#[test]
fn quote_detection() {
    assert!(is_quoted_string("\"x\""));
    assert!(is_quoted_string("'x'"));
    assert!(!is_quoted_string("x"));
    assert!(!is_quoted_string(""));
    assert!(!is_quoted_string("\"x'"));
    // a lone quote character is not a matching pair
    assert!(!is_quoted_string("\""));
    assert!(is_quoted_string("\"\""));
    // inference stays total on a lone quote
    assert_eq!(infer_single("\""), ConfigValue::Str("\"".to_string()));
}

#[test]
fn integer_parsing_edges() {
    assert_eq!(parse_i64("42"), Some(42));
    assert_eq!(parse_i64("+7"), Some(7));
    assert_eq!(parse_i64("-0"), Some(0));
    assert_eq!(parse_i64("007"), Some(7));
    assert_eq!(parse_i64("9223372036854775807"), Some(i64::MAX));
    assert_eq!(parse_i64("-9223372036854775808"), Some(i64::MIN));
    assert_eq!(parse_i64("9223372036854775808"), None);
    assert_eq!(parse_i64("-9223372036854775809"), None);
    assert_eq!(parse_i64(""), None);
    assert_eq!(parse_i64("+"), None);
    assert_eq!(parse_i64("4 2"), None);
    assert_eq!(parse_i64("4.2"), None);
}

#[test]
fn trim_and_case() {
    assert_eq!(trim_str("  a b \t\n"), "a b");
    assert_eq!(trim_str(""), "");
    assert_eq!(trim_str(" \t "), "");
    assert!(eq_ignore_case("TRUE", "true"));
    assert!(eq_ignore_case("tRuE", "TrUe"));
    assert!(!eq_ignore_case("true", "truth"));
    assert!(!eq_ignore_case("true1", "true2"));
}
