//! A small library for editing TOML-like configuration documents addressed by
//! dot-separated path expressions.
//!
//! Two models coexist:
//! - a plain value model, an owned tree of [`value::Value`] nodes with
//!   verified get/set/remove/keys operations, and
//! - a format-preserving model, which mutates a `toml_edit` document in
//!   place, keeping comments, key order and whitespace of untouched nodes.

pub mod error;
pub mod value;
pub mod path;
pub mod tree;
pub mod laws;
pub mod toml_bridge;
pub mod infer;
pub mod edit;
