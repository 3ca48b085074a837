//! An in-memory vector store: embeddings filed under UUIDs, and retrieval of
//! the entries most similar to a query.
//!
//! Embeddings and scores are vectors and values of IEEE 754 binary32 numbers.
//! The library carries them as bit patterns and does no arithmetic on them:
//! the caller supplies the similarity metric, and the library files the
//! embeddings, scores every entry with the metric, ranks the scores and keeps
//! the best.
//!
//! - [`ident`]: identifiers and the 128-bit values they stand for.
//! - [`score`]: the order of scores, and the convention for vectors of zero
//!   norm.
//! - [`rank`]: the ranking of scored entries and its first `k`.
//! - [`store`]: the store itself.

pub mod ident;
pub mod rank;
pub mod score;
pub mod store;
