//! Overlap detection over precomputed content fingerprints.
//!
//! A corpus maps repositories to fingerprints; the pipeline builds an inverted
//! index from fingerprint hash to locations, keeps the occurrences whose hash
//! is neither absent nor too common in their own repository, counts the kept
//! matches per ordered pair of documents and ranks the pairs by that count.
//!
//! Two decisions shape the scores. For each occurrence that it keeps, the
//! filter records one match of the occurrence's location with itself, so a
//! run of the whole pipeline scores pairs of a document with itself only;
//! pairs of different documents get a score from a match map that a caller
//! fills with other matches. And the pair of a document with itself is
//! scored only where the configuration asks for it, which by default it does
//! not. Scores are directional: the score of `(a, b)` counts the matches that
//! lead from `a` to `b`, not those that lead back.
//!
//! Every collection keeps its entries in a vector, in the order in which
//! their keys first came; the hash maps inside them find an entry and are
//! never walked.

pub mod assoc;
pub mod buckets;
pub mod corpus;
pub mod detector;
pub mod digest;
pub mod documents;
pub mod filter;
pub mod index;
pub mod laws;
pub mod matches;
pub mod model;
pub mod pairs;
pub mod rank;
