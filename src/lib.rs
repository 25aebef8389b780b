//! A trigram code-search engine: a trigram codec, a log-structured
//! key/value store for posting lists, a boolean query language and the
//! merge-iterator engine that evaluates queries against the index.
pub mod bytes;
pub mod index;
pub mod memtable;
pub mod ngram;
pub mod query;
pub mod record;
pub mod search;
pub mod sstable;
