//! An embeddable information-retrieval engine: a positional inverted index
//! with delta and variable-byte compressed posting lists stored in chunks,
//! and lazy Boolean and positional query evaluation.

pub mod storage;
pub mod vbyte;
pub mod posting;
pub mod indexing;
pub mod chunked;
pub mod vocabulary;
pub mod corpus;
pub mod index;
pub mod hierarchy;
pub mod query;
pub mod handoff;
pub mod language;
pub mod nary;
