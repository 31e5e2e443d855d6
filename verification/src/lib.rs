//! Verified building blocks of a Brotli encoder: the tagged match finder, population costs, block
//! splitting, multi-threaded chunk compression and the compressing writer.
#![allow(non_snake_case, non_upper_case_globals, non_camel_case_types)]

pub mod backward_references;
pub mod bit_cost;
pub mod block_split;
pub mod block_splitter;
pub mod command;
pub mod cost_key;
pub mod histogram;
pub mod laws;
pub mod params;
pub mod static_dict;
pub mod threading;
pub mod vectorization;
pub mod writer;
