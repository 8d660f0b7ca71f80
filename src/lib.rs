//! A small parser and pretty-printer for a JSON-like text format.
pub mod json;
