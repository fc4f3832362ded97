//! An in-memory full-text search core: an inverted index from tokens to
//! ascending postings lists, answering conjunctive queries by intersection.

pub mod analyzer;
pub mod chars;
pub mod index;
pub mod laws;
pub mod postings;
pub mod query;
pub mod tokenizer;

pub use analyzer::{analyze, stopword_filter, Analyzer, Stopwords};
pub use index::{Document, Index, InvertedIndex};
pub use postings::{insert_sorted, intersection, PostingsStore};
pub use query::{evaluate, Query};
pub use tokenizer::tokenize;
