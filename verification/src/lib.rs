//! Core of an embedded full-text search engine: schema and term model,
//! analysis pipeline, document preparation, an ordered key-value store with
//! segment-based inverted indexes, a persistent term dictionary, and a scored
//! Boolean query engine.

pub mod lex;
pub mod kvstore;
pub mod term;
pub mod assoc;
pub mod dec;
pub mod term_dictionary;
pub mod registry;
pub mod unicode;
pub mod ngram;
pub mod bm;
pub mod keys;
pub mod doc;
pub mod store;
pub mod search;
pub mod value;
pub mod query;
pub mod query_parser;
pub mod analyzer;
pub mod index;
