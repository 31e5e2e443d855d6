//! What the operations of the library are for: laws that hold of their results, stated over inputs and
//! results alone.

pub mod bit_cost;
pub mod blocks;
pub mod chunks;
pub mod cluster;
pub mod cost_key;
pub mod histogram;
pub mod merge;
pub mod owned;
pub mod sampling;
pub mod schedule;
pub mod scores;
pub mod search;
pub mod split;
pub mod streams;
pub mod tagged;
pub mod vectorization;
pub mod writer;
