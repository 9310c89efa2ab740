//! JSONPath queries over JSON documents, with the location of every match.
//!
//! A query is parsed and evaluated by the `jsonpath_rust` engine; documents
//! are `serde_json` values. This crate checks the parsed query (a slice step
//! of zero among its segments is refused; queries nested in filters are the
//! engine's and are not checked), runs it, and reports each match with its value and
//! its location written as a canonical path: `$`, then `.name` for a member
//! whose name is an identifier, `['name']` for any other member, and `[n]`
//! for an array element.
//!
//! - [`path`] reads the engine's normalized paths and renders them in
//!   canonical form, with the proof that both forms name one location each.
//! - [`engine`] declares what the crate relies on from the engine.
//! - [`query`] puts the two together.
//! - [`finder`] keeps a document for repeated queries.
pub mod engine;
pub mod finder;
pub mod path;
pub mod query;
