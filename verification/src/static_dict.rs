//! Unaligned little-endian loads and common-prefix lengths.
use vstd::prelude::*;

verus! {

/// The first four bytes of `data` as a little-endian number.
pub open spec fn load32(data: Seq<u8>) -> int {
    data[0] + 0x100 * data[1] + 0x1_0000 * data[2] + 0x100_0000 * data[3]
}

/// The first eight bytes of `data` as a little-endian number.
pub open spec fn load64(data: Seq<u8>) -> int {
    load32(data) + 0x1_0000_0000 * load32(data.skip(4))
}

/// Loads the first four bytes of `data`, least significant byte first.
pub fn BROTLI_UNALIGNED_LOAD32(data: &[u8]) -> (value: u32)
    requires
        data@.len() >= 4,
    ensures
        value == load32(data@),
{
    data[0] as u32 + 0x100 * (data[1] as u32) + 0x1_0000 * (data[2] as u32) + 0x100_0000 * (
    data[3] as u32)
}

/// Loads the first eight bytes of `data`, least significant byte first.
pub fn BROTLI_UNALIGNED_LOAD64(data: &[u8]) -> (value: u64)
    requires
        data@.len() >= 8,
    ensures
        value == load64(data@),
{
    let low: u32 = BROTLI_UNALIGNED_LOAD32(data);
    let high: u32 = BROTLI_UNALIGNED_LOAD32(&data[4..data.len()]);
    assert(data@.subrange(4, data@.len() as int) =~= data@.skip(4));
    low as u64 + 0x1_0000_0000 * (high as u64)
}

/// The first position from `i` on where `a` and `b` differ, one of them ends, or `limit` is reached.
pub open spec fn common_prefix_from(a: Seq<u8>, b: Seq<u8>, limit: int, i: int) -> int
    decreases limit - i,
{
    if i >= limit || i >= a.len() || i >= b.len() || a[i] != b[i] {
        i
    } else {
        common_prefix_from(a, b, limit, i + 1)
    }
}

/// How many leading bytes `a` and `b` share, counting at most `limit`.
pub open spec fn common_prefix(a: Seq<u8>, b: Seq<u8>, limit: int) -> int {
    common_prefix_from(a, b, limit, 0)
}

proof fn lemma_common_prefix_from(a: Seq<u8>, b: Seq<u8>, limit: int, i: int)
    requires
        0 <= i <= limit,
        i <= a.len(),
        i <= b.len(),
        forall|k: int| 0 <= k < i ==> a[k] == b[k],
    ensures
        i <= common_prefix_from(a, b, limit, i) <= limit,
        common_prefix_from(a, b, limit, i) <= a.len(),
        common_prefix_from(a, b, limit, i) <= b.len(),
        forall|k: int| 0 <= k < common_prefix_from(a, b, limit, i) ==> a[k] == b[k],
        ({
            let n = common_prefix_from(a, b, limit, i);
            n == limit || n == a.len() || n == b.len() || a[n] != b[n]
        }),
    decreases limit - i,
{
    if !(i >= limit || i >= a.len() || i >= b.len() || a[i] != b[i]) {
        lemma_common_prefix_from(a, b, limit, i + 1);
    }
}

/// The common prefix is the longest stretch of equal leading bytes that stays within the limit and
/// within both strings.
pub proof fn lemma_common_prefix(a: Seq<u8>, b: Seq<u8>, limit: int)
    requires
        0 <= limit,
    ensures
        0 <= common_prefix(a, b, limit) <= limit,
        common_prefix(a, b, limit) <= a.len(),
        common_prefix(a, b, limit) <= b.len(),
        forall|k: int| 0 <= k < common_prefix(a, b, limit) ==> a[k] == b[k],
        ({
            let n = common_prefix(a, b, limit);
            n == limit || n == a.len() || n == b.len() || a[n] != b[n]
        }),
{
    lemma_common_prefix_from(a, b, limit, 0);
}

/// Measures how many leading bytes `s1` and `s2` share, up to `limit`.
pub fn FindMatchLengthWithLimit(s1: &[u8], s2: &[u8], limit: usize) -> (len: usize)
    ensures
        len == common_prefix(s1@, s2@, limit as int),
{
    let mut i: usize = 0;
    while i < limit && i < s1.len() && i < s2.len() && s1[i] == s2[i]
        invariant
            i <= limit,
            common_prefix_from(s1@, s2@, limit as int, i as int) == common_prefix(
                s1@,
                s2@,
                limit as int,
            ),
        decreases limit - i,
    {
        i += 1;
    }
    i
}

} // verus!
