//! An in-memory text retrieval engine: documents are split into byte-bounded
//! chunks, which can be searched literally or ranked by TF-IDF statistics.
//!
//! A TF-IDF score is a real number. This crate holds the whole numbers that
//! it is made of, exactly: the counts of a term frequency and the counts
//! under the logarithm of an inverse document frequency. From them it
//! decides whether a score is above zero. Whoever needs the number itself
//! takes quotient, logarithm and product; the scorer asks its caller for
//! the weight of each chunk that has a score above zero: an unsigned number
//! that orders as the scores do.

pub mod text;
pub mod unicode;
pub mod words;
pub mod chunker;
pub mod chunk_laws;
pub mod progress;
pub mod tfidf;
pub mod tfidf_laws;
pub mod search;
pub mod ranking;
