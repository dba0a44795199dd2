//! Tests of the plain document model: round trips, nested creation,
//! collisions, removal semantics, and key listing.

use tomler::tree::Document;
use tomler::value::ConfigValue;
use tomler::error::TomlerError;
use tomler::path::parse_path;

fn path(key: &str) -> Vec<String> {
    parse_path(key).expect("non-empty path")
}

fn scalar_case(k: u32) -> ConfigValue {
    match k {
        0 => ConfigValue::Boolean(true),
        1 => ConfigValue::Integer(42),
        2 => ConfigValue::Float("3.14".to_string()),
        _ => ConfigValue::Str("hello".to_string()),
    }
}

#[test]
fn round_trip_by_type() {
    for k in 0..4 {
        let mut doc = Document::new();
        let p = path("k");
        assert_eq!(doc.set(&p, scalar_case(k)), Ok(()));
        assert_eq!(doc.get(&p), Some(&scalar_case(k)));
    }
}

#[test]
fn nested_creation() {
    let mut doc = Document::new();
    let p = path("a.b.c");
    assert_eq!(doc.set(&p, ConfigValue::Integer(5)), Ok(()));
    assert_eq!(doc.get(&p), Some(&ConfigValue::Integer(5)));
    assert_eq!(doc.keys(), vec!["a".to_string()]);
}

#[test]
fn non_table_collision() {
    let mut doc = Document::new();
    assert_eq!(doc.set(&path("a"), ConfigValue::Str("x".to_string())), Ok(()));
    assert_eq!(
        doc.set(&path("a.b"), ConfigValue::Integer(1)),
        Err(TomlerError::NotATable)
    );
    // the failing set left the document unchanged
    assert_eq!(doc.get(&path("a")), Some(&ConfigValue::Str("x".to_string())));
}

#[test]
fn remove_semantics() {
    let mut doc = Document::new();
    assert_eq!(doc.set(&path("x"), ConfigValue::Boolean(true)), Ok(()));
    assert_eq!(doc.remove(&path("x")), Ok(Some(ConfigValue::Boolean(true))));
    assert_eq!(doc.get(&path("x")), None);
    assert_eq!(doc.remove(&path("x")), Ok(None));
    assert_eq!(doc.remove(&path("y.z")), Err(TomlerError::KeyNotFound));
}

#[test]
fn remove_through_non_table() {
    let mut doc = Document::new();
    assert_eq!(doc.set(&path("a"), ConfigValue::Integer(1)), Ok(()));
    assert_eq!(doc.remove(&path("a.b")), Err(TomlerError::NotATable));
}

#[test]
fn list_emptiness() {
    let doc = Document::new();
    assert_eq!(doc.keys(), Vec::<String>::new());
}

#[test]
fn overwrite_replaces_whole_subtree() {
    let mut doc = Document::new();
    assert_eq!(doc.set(&path("a.b"), ConfigValue::Integer(1)), Ok(()));
    assert_eq!(doc.set(&path("a"), ConfigValue::Integer(2)), Ok(()));
    assert_eq!(doc.get(&path("a")), Some(&ConfigValue::Integer(2)));
    assert_eq!(doc.get(&path("a.b")), None);
}

#[test]
fn get_absent_and_wrong_type() {
    let mut doc = Document::new();
    assert_eq!(doc.set(&path("a"), ConfigValue::Integer(1)), Ok(()));
    // both a missing key and a non-table intermediate read as absent
    assert_eq!(doc.get(&path("b")), None);
    assert_eq!(doc.get(&path("a.b")), None);
}

#[test]
fn path_parsing() {
    assert_eq!(parse_path(""), Err(TomlerError::EmptyPath));
    assert_eq!(parse_path("a.b"), Ok(vec!["a".to_string(), "b".to_string()]));
    assert_eq!(
        parse_path("a..b"),
        Ok(vec!["a".to_string(), "".to_string(), "b".to_string()])
    );
    assert_eq!(parse_path(".a."), Ok(vec!["".to_string(), "a".to_string(), "".to_string()]));
    assert_eq!(parse_path("plain"), Ok(vec!["plain".to_string()]));
}

#[test]
fn error_descriptions() {
    assert_eq!(TomlerError::EmptyPath.describe(), "empty path");
    assert_eq!(TomlerError::NotATable.describe(), "not a table");
    assert_eq!(TomlerError::KeyNotFound.describe(), "key not found");
}
