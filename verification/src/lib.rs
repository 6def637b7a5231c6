//! Groups a corpus of extracted page texts, split into named tiers, into
//! per-tier clusters of near-duplicate documents.
//!
//! The pipeline per tier: build a sorted stop-word-free vocabulary from all
//! documents, turn each document into a fixed-length term-frequency vector
//! aligned to that vocabulary, then assign documents in input order to the
//! most similar existing cluster (by cosine similarity against a running
//! centroid) or start a new one.
//!
//! Term frequencies and centroids are held in fixed-point arithmetic
//! (thousandths), and every cosine-similarity comparison is decided exactly
//! with cross-multiplied integer arithmetic, so the whole pipeline is free of
//! floating point and its results are reproducible bit for bit.

pub mod clustering;
pub mod laws;
pub mod loader;
pub mod pipeline;
pub mod tokenizer;
pub mod vectorizer;
pub mod vocabulary;
