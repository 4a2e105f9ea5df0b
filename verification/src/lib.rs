//! An in-memory full-text search index: a radix-tree inverted index with
//! insertion-ordered posting lists.
pub mod js;
pub mod engine;
pub mod levenshtein;
pub mod maps;
pub mod options;
pub mod radix;
pub mod reading;
pub mod removal;
pub mod search;
pub mod text;
pub mod tokens;
pub mod vecmap;
pub mod written;
