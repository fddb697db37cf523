//! Statistics over plain-text documents: word, character and line counts,
//! the most frequent cleaned words, ranking by a metric, aggregation over a
//! set of documents, and line search.

pub mod text;
pub mod order;
pub mod words;
pub mod document;
pub mod ranking;
pub mod aggregate;
pub mod search;
