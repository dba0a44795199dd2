//! Tests of the format-preserving editor against real `toml_edit` documents.

use tomler::edit::{
    get_value, get_value_raw, infer_value, remove_value, set_nested_in_document, top_level_keys,
};
use tomler::error::TomlerError;

#[test]
fn set_nested_creates_tables_and_sets_value() {
    let src = "# comment\n[server]\nhost = \"localhost\"\n";
    let mut doc: toml_edit::DocumentMut = src.parse().unwrap();
    set_nested_in_document(
        &mut doc,
        "server.port",
        toml_edit::Value::Integer(toml_edit::Formatted::new(8000)),
    )
    .unwrap();
    // check - use our getter function which handles nested keys
    assert!(get_value(&doc, "server.port").is_some());
    assert_eq!(get_value(&doc, "server.port").unwrap(), "8000");

    // create nested deeper - simple array
    set_nested_in_document(&mut doc, "servers.main.ports", infer_value("80,443")).unwrap();
    assert!(get_value(&doc, "servers.main.ports").is_some());
    assert_eq!(get_value(&doc, "servers.main.ports").unwrap(), "[80, 443]");
}

#[test]
fn format_preservation() {
    let src = "# leading comment\n[server]\nhost = \"localhost\" # inline\n";
    let mut doc: toml_edit::DocumentMut = src.parse().unwrap();
    set_nested_in_document(
        &mut doc,
        "server.port",
        toml_edit::Value::Integer(toml_edit::Formatted::new(8000)),
    )
    .unwrap();
    let out = doc.to_string();
    assert!(out.contains("# leading comment"));
    assert!(out.contains("host = \"localhost\" # inline"));
    assert!(out.contains("port = 8000"));
}

#[test]
fn round_trip_preserves_comment() {
    let src = "# initial config\n[app]\nname = \"example\"\n";
    let mut doc: toml_edit::DocumentMut = src.parse().unwrap();
    set_nested_in_document(&mut doc, "app.retries", infer_value("5")).unwrap();
    let out = doc.to_string();
    assert!(out.contains("retries = 5"));
    assert!(out.contains("# initial config"));
    // the written text parses back to a document with the new value
    let doc2: toml_edit::DocumentMut = out.parse().unwrap();
    assert_eq!(get_value(&doc2, "app.retries").unwrap(), "5");
    assert_eq!(get_value(&doc2, "app.name").unwrap(), "\"example\"");
}

#[test]
fn get_token_and_raw_modes() {
    let src = "[app]\nname = \"example\"\nretries = 3\n";
    let doc: toml_edit::DocumentMut = src.parse().unwrap();
    // token mode keeps the quotes of a string
    assert_eq!(get_value(&doc, "app.name").unwrap(), "\"example\"");
    // raw mode strips them
    assert_eq!(get_value_raw(&doc, "app.name").unwrap(), "example");
    // non-strings render identically in both modes
    assert_eq!(get_value(&doc, "app.retries").unwrap(), "3");
    assert_eq!(get_value_raw(&doc, "app.retries").unwrap(), "3");
}

#[test]
fn get_missing_paths() {
    let src = "[app]\nname = \"example\"\n";
    let doc: toml_edit::DocumentMut = src.parse().unwrap();
    assert_eq!(get_value(&doc, "nonexistent"), None);
    assert_eq!(get_value(&doc, "app.missing"), None);
    // a non-table intermediate reads as absent too
    assert_eq!(get_value(&doc, "app.name.deeper"), None);
    assert_eq!(get_value_raw(&doc, "nonexistent"), None);
}

#[test]
fn set_fails_on_non_table_intermediate() {
    let src = "a = 1\n";
    let mut doc: toml_edit::DocumentMut = src.parse().unwrap();
    let r = set_nested_in_document(
        &mut doc,
        "a.b",
        toml_edit::Value::Integer(toml_edit::Formatted::new(2)),
    );
    assert_eq!(r, Err(TomlerError::NotATable));
    // the document is unchanged: the non-table stays, nothing under it
    assert_eq!(get_value(&doc, "a").unwrap(), "1");
    assert_eq!(get_value(&doc, "a.b"), None);
    assert_eq!(doc.to_string(), "a = 1\n");
}

#[test]
fn set_collision_after_set() {
    let mut doc = toml_edit::DocumentMut::new();
    set_nested_in_document(&mut doc, "a", infer_value("x")).unwrap();
    let r = set_nested_in_document(&mut doc, "a.b", infer_value("1"));
    assert_eq!(r, Err(TomlerError::NotATable));
    assert_eq!(get_value_raw(&doc, "a").unwrap(), "x");
}

#[test]
fn set_overwrites_existing_value() {
    let src = "[server]\nport = 1\n";
    let mut doc: toml_edit::DocumentMut = src.parse().unwrap();
    set_nested_in_document(&mut doc, "server.port", infer_value("8080")).unwrap();
    assert_eq!(get_value(&doc, "server.port").unwrap(), "8080");
}

#[test]
fn inferred_values_round_trip_through_document() {
    let mut doc = toml_edit::DocumentMut::new();
    set_nested_in_document(&mut doc, "flag", infer_value("true")).unwrap();
    set_nested_in_document(&mut doc, "count", infer_value("42")).unwrap();
    set_nested_in_document(&mut doc, "pi", infer_value("3.14")).unwrap();
    set_nested_in_document(&mut doc, "name", infer_value("hello")).unwrap();
    assert_eq!(get_value(&doc, "flag").unwrap(), "true");
    assert_eq!(get_value(&doc, "count").unwrap(), "42");
    assert_eq!(get_value(&doc, "pi").unwrap(), "3.14");
    assert_eq!(get_value(&doc, "name").unwrap(), "\"hello\"");
    assert_eq!(get_value_raw(&doc, "name").unwrap(), "hello");
}

#[test]
fn editor_remove_semantics() {
    let mut doc = toml_edit::DocumentMut::new();
    set_nested_in_document(&mut doc, "x", infer_value("true")).unwrap();
    assert_eq!(remove_value(&mut doc, "x"), Ok(Some("true".to_string())));
    assert_eq!(get_value(&doc, "x"), None);
    assert_eq!(remove_value(&mut doc, "x"), Ok(None));
    assert_eq!(remove_value(&mut doc, "y.z"), Err(TomlerError::KeyNotFound));
}

#[test]
fn editor_remove_nested_and_errors() {
    let src = "# note\n[server]\nhost = \"localhost\"\nport = 1\n";
    let mut doc: toml_edit::DocumentMut = src.parse().unwrap();
    assert_eq!(remove_value(&mut doc, "server.port"), Ok(Some("1".to_string())));
    assert_eq!(get_value(&doc, "server.port"), None);
    // untouched entries keep their text, comment included
    let out = doc.to_string();
    assert!(out.contains("# note"));
    assert!(out.contains("host = \"localhost\""));
    // a present non-table intermediate is an error, and nothing changes
    let r = remove_value(&mut doc, "server.host.deeper");
    assert_eq!(r, Err(TomlerError::NotATable));
    assert_eq!(get_value(&doc, "server.host").unwrap(), "\"localhost\"");
}

#[test]
fn editor_top_level_keys() {
    let doc = toml_edit::DocumentMut::new();
    assert_eq!(top_level_keys(&doc), Vec::<String>::new());
    let src = "a = 1\n[server]\nhost = \"h\"\n";
    let doc2: toml_edit::DocumentMut = src.parse().unwrap();
    assert_eq!(top_level_keys(&doc2), vec!["a".to_string(), "server".to_string()]);
}
