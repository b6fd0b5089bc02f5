//! Path queries over nested documents of mappings and sequences.
//!
//! A path is split into tokens ([`path::tokenize`]); each token is a mapping
//! key, a wildcard `*`, an integer index or a slice `start:end:step`, read
//! against the shape of the node it meets ([`engine`]). The entry points are
//! in [`query`]; [`laws`] proves properties that hold of every document.

pub mod engine;
pub mod laws;
pub mod path;
pub mod query;
pub mod value;
