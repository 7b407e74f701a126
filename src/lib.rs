//! Word-embedding lookups: an embedding store with exact lookup by word,
//! a random-hyperplane hashing index for approximate nearest neighbours,
//! and the ranking and count policy of the query engine.
//!
//! The floating-point work (normalising vectors, dot products with the
//! hyperplanes, cosine distances) is done by the caller; the library takes
//! its outcomes as plain values: the sign of each dot product, and for each
//! candidate an order-preserving integer key of its distance.

pub mod buckets;
pub mod dictionary;
pub mod lsh;
pub mod query;
pub mod rank;
