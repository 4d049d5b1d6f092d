//! A trigram-indexed substring search engine.
//!
//! The library scans text files, maps each to the set of trigrams
//! (overlapping three-code-point windows) of its content, and builds an
//! inverted index from trigram to file ids.  A query is answered by
//! intersecting the posting lists of the query's trigrams and then
//! verifying each candidate file line by line.

pub mod codec;
pub mod filter;
pub mod idb;
pub mod persist;
pub mod search;
pub mod tokenizer;
pub mod wire;
