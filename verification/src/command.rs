//! Commands: a run of literals and the copy behind it.
use vstd::prelude::*;

verus! {

/// A run of literals, a copy, and the prefix codes that spell them.
#[derive(Clone, Copy, PartialEq, Eq, Debug, Structural)]
pub struct Command {
    pub insert_len_: u32,
    pub copy_len_: u32,
    pub dist_extra_: u32,
    pub cmd_prefix_: u16,
    pub dist_prefix_: u16,
}

impl Command {
    /// The length of the copy: the upper bits hold how its code differs from it.
    pub open spec fn spec_copy_len(&self) -> u32 {
        self.copy_len_ & 0x01ff_ffff
    }

    /// The length of the copy.
    pub fn copy_len(&self) -> (len: u32)
        ensures
            len == self.spec_copy_len(),
    {
        self.copy_len_ & 0x01ff_ffff
    }

    /// The command spells out a distance: it copies something, and its prefix does not imply the
    /// last distance.
    pub open spec fn has_distance(&self) -> bool {
        self.spec_copy_len() != 0 && self.cmd_prefix_ >= 128
    }
}

} // verus!
