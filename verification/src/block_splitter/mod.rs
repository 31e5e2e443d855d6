//! Splitting the streams of a metablock into blocks of similar statistics.
pub mod block_lengths;
pub mod cheapest_way;
pub mod cluster_blocks;
pub mod entropy_codes;
pub mod find_blocks;
pub mod remap;
pub mod split;
pub mod streams;
