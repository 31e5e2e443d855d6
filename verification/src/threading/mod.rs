//! Compressing an input in chunks on several threads, and putting the results together.
//!
//! What runs where and in which order is worked out here, as is what becomes of every result. Whoever
//! owns the threads goes through the [`Step`](schedule::Step)s and hands the results to a
//! [`Merge`](merge::Merge).
pub mod chunks;
pub mod merge;
pub mod owned;
pub mod schedule;
