//! The parameters of an encoder, as far as the library reads or sets them.
use vstd::prelude::*;

verus! {

/// Encoder parameters.
#[derive(Clone, Copy, PartialEq, Eq, Debug, Structural)]
pub struct BrotliEncoderParams {
    pub quality: i32,
    pub lgwin: i32,
    /// Hash the input once for all chunks, instead of leaving each chunk to hash what comes before it.
    pub favor_cpu_efficiency: bool,
    /// The stream can be put behind another one.
    pub catable: bool,
    /// Another stream can be put behind this one.
    pub appendable: bool,
    /// The stream starts with a magic number.
    pub magic_number: bool,
}

} // verus!
