//! Byte-budget analysis of JSON text: for every structural node the library
//! counts how many bytes are whitespace, how many are JSON punctuation, and
//! how many are payload data, and renders the breakdown as display lines.
//! A minifier and a prettifier share the same escape-aware scanning rules.
pub mod minify;
pub mod prettify;
pub mod scan;
pub mod size;
