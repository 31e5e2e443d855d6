//! Laws of the three streams of a metablock.
use crate::block_splitter::streams::{
    command_prefixes, distance_prefixes, distance_prefixes_of, first_commands, literal_count,
    literals_of, next_from, ring_run, CopyLiteralsToByteArray, CountLiterals,
};
use crate::block_split::BlockSplit;
use crate::block_splitter::split::{BrotliSplitBlock, SplitStreams};
use crate::command::Command;
use crate::params::BrotliEncoderParams;
use vstd::arithmetic::power2::pow2;
use vstd::prelude::*;

verus! {

/// A masked number is its remainder, where the mask is one less than a power of two.
pub proof fn lemma_masked_is_remainder(x: usize, mask: usize, bits: nat)
    requires
        mask + 1 == pow2(bits),
    ensures
        (x & mask) as int == x as int % (mask + 1),
{
    if bits < usize::BITS {
        vstd::bits::lemma_usize_low_bits_mask_is_mod(x, bits);
        vstd::bits::lemma_usize_pow2_no_overflow(bits);
        assert(vstd::bits::low_bits_mask(bits) == mask);
        assert(pow2(bits) as usize == mask + 1);
    } else {
        lemma_all_ones(mask, bits);
        assert(!0usize >= mask && x & !0usize == x) by (bit_vector);
        vstd::arithmetic::div_mod::lemma_small_mod(x as nat, (mask + 1) as nat);
    }
}

proof fn lemma_all_ones(mask: usize, bits: nat)
    requires
        mask + 1 == pow2(bits),
        bits >= usize::BITS,
    ensures
        mask == usize::MAX,
{
    vstd::arithmetic::power2::lemma2_to64();
    vstd::arithmetic::power2::lemma2_to64_rest();
    if bits > usize::BITS {
        vstd::arithmetic::power2::lemma_pow2_strictly_increases(usize::BITS as nat, bits);
    }
}

/// A copy length is the lower twenty-five bits of what a command holds.
pub proof fn law_copy_len(cmd: Command, len: u32)
    requires
        call_ensures(Command::copy_len, (&cmd,), len),
    ensures
        len == cmd.copy_len_ % 0x200_0000,
{
    let held = cmd.copy_len_;
    assert(held & 0x01ff_ffff == held % 0x200_0000) by (bit_vector);
}

/// How many literals the first `i` commands insert.
pub open spec fn inserted(cmds: Seq<Command>, i: int) -> nat
    decreases i,
{
    if i <= 0 {
        0
    } else {
        inserted(cmds, i - 1) + cmds[i - 1].insert_len_ as nat
    }
}

/// How far the first `i` commands go: what they insert and what they copy.
pub open spec fn gone(cmds: Seq<Command>, i: int) -> nat
    decreases i,
{
    if i <= 0 {
        0
    } else {
        gone(cmds, i - 1) + cmds[i - 1].insert_len_ as nat + (cmds[i - 1].copy_len_ % 0x200_0000) as nat
    }
}

proof fn lemma_behind_first(cmds: Seq<Command>, i: int)
    requires
        0 < i <= cmds.len(),
    ensures
        inserted(cmds, i) == cmds[0].insert_len_ + inserted(cmds.skip(1), i - 1),
        gone(cmds, i) == cmds[0].insert_len_ + cmds[0].copy_len_ % 0x200_0000 + gone(
            cmds.skip(1),
            i - 1,
        ),
    decreases i,
{
    if i > 1 {
        lemma_behind_first(cmds, i - 1);
        assert(cmds.skip(1)[i - 2] == cmds[i - 1]);
    } else {
        reveal_with_fuel(inserted, 2);
        reveal_with_fuel(gone, 2);
    }
}

proof fn lemma_inserted_grows(cmds: Seq<Command>, i: int, j: int)
    requires
        0 <= i <= j <= cmds.len(),
    ensures
        inserted(cmds, i) <= inserted(cmds, j),
    decreases j,
{
    if i < j {
        lemma_inserted_grows(cmds, i, j - 1);
    }
}

/// No command inserts more literals than the ring buffer holds.
pub open spec fn inserts_fit(cmds: Seq<Command>, mask: usize) -> bool {
    forall|i: int| 0 <= i < cmds.len() ==> (#[trigger] cmds[i]).insert_len_ <= mask + 1
}

proof fn lemma_next_from(cmd: Command, from: usize, mask: usize, bits: nat)
    requires
        mask + 1 == pow2(bits),
        from <= mask,
        cmd.insert_len_ <= mask + 1,
    ensures
        next_from(cmd, from, mask) == (from + cmd.insert_len_ + cmd.copy_len_ % 0x200_0000) % (mask
            + 1),
        next_from(cmd, from, mask) <= mask,
{
    let held = cmd.copy_len_;
    assert(held & 0x01ff_ffff == held % 0x200_0000) by (bit_vector);
    let m = mask + 1;
    let end = from + cmd.insert_len_;
    let copy = cmd.copy_len_ % 0x200_0000;
    let folded = if end > mask {
        end - mask - 1
    } else {
        end
    };
    let wrapped = (folded as usize).wrapping_add(copy as usize);
    lemma_masked_is_remainder(wrapped, mask, bits);
    vstd::arithmetic::div_mod::lemma_mod_bound(wrapped as int, m);
    if bits <= usize::BITS {
        lemma_wrap_keeps_remainder(folded as usize, copy as usize, mask, bits);
    } else {
        lemma_all_ones(mask, bits);
        lemma_usize_power();
        vstd::arithmetic::power2::lemma_pow2_strictly_increases(usize::BITS as nat, bits);
    }
    if end > mask {
        vstd::arithmetic::div_mod::lemma_mod_add_multiples_vanish(folded + copy, m);
        assert(m + (folded + copy) == end + copy);
    }
}

proof fn lemma_usize_power()
    ensures
        usize::MAX + 1 == pow2(usize::BITS as nat),
{
    vstd::arithmetic::power2::lemma2_to64();
    vstd::arithmetic::power2::lemma2_to64_rest();
}

proof fn lemma_wrap_keeps_remainder(a: usize, b: usize, mask: usize, bits: nat)
    requires
        mask + 1 == pow2(bits),
        bits <= usize::BITS,
    ensures
        a.wrapping_add(b) as int % (mask + 1) == (a + b) % (mask + 1),
{
    let m = mask + 1;
    if a + b > usize::MAX {
        lemma_usize_power();
        let rest = (usize::BITS - bits) as nat;
        vstd::arithmetic::power2::lemma_pow2_adds(bits, rest);
        let w = a + b - (usize::MAX + 1);
        vstd::arithmetic::div_mod::lemma_mod_multiples_vanish(pow2(rest) as int, w, m);
        assert(a + b == m * pow2(rest) + w);
    }
}

proof fn lemma_literal(
    cmds: Seq<Command>,
    data: Seq<u8>,
    from: usize,
    mask: usize,
    bits: nat,
    i: int,
    j: int,
)
    requires
        mask + 1 == pow2(bits),
        from <= mask,
        inserts_fit(cmds, mask),
        0 <= i < cmds.len(),
        0 <= j < cmds[i].insert_len_,
    ensures
        inserted(cmds, i) + j < literals_of(cmds, data, from, mask).len(),
        literals_of(cmds, data, from, mask)[inserted(cmds, i) + j] == data[(from + gone(cmds, i) + j)
            % (mask + 1)],
    decreases cmds.len(),
{
    let m = mask + 1;
    let run = ring_run(data, from as int, cmds[0].insert_len_ as nat, mask as int);
    let rest = cmds.skip(1);
    let next = next_from(cmds[0], from, mask);
    let all = literals_of(cmds, data, from, mask);
    assert(all == run + literals_of(rest, data, next, mask));
    if i == 0 {
        assert(all[j] == run[j]);
        assert(cmds[0].insert_len_ <= mask + 1);
        if from + j <= mask {
            vstd::arithmetic::div_mod::lemma_small_mod((from + j) as nat, m as nat);
        } else {
            vstd::arithmetic::div_mod::lemma_mod_add_multiples_vanish(from + j - m, m);
            vstd::arithmetic::div_mod::lemma_small_mod((from + j - m) as nat, m as nat);
            assert(m + (from + j - m) == from + j);
        }
    } else {
        assert(cmds[0].insert_len_ <= mask + 1);
        assert(rest[i - 1] == cmds[i]);
        assert forall|k: int| 0 <= k < rest.len() implies (#[trigger] rest[k]).insert_len_ <= mask
            + 1 by {
            assert(cmds[k + 1].insert_len_ <= mask + 1);
        }
        lemma_next_from(cmds[0], from, mask, bits);
        lemma_literal(rest, data, next, mask, bits, i - 1, j);
        lemma_behind_first(cmds, i);
        let step = from + cmds[0].insert_len_ + cmds[0].copy_len_ % 0x200_0000;
        let more = gone(rest, i - 1) + j;
        vstd::arithmetic::div_mod::lemma_add_mod_noop_right(more, step, m);
        assert((more + step % m) % m == (more + step) % m);
        assert(all[run.len() + (inserted(rest, i - 1) + j)] == literals_of(rest, data, next, mask)[inserted(
            rest,
            i - 1,
        ) + j]);
    }
}

proof fn lemma_literals_len(cmds: Seq<Command>, data: Seq<u8>, from: usize, mask: usize)
    ensures
        literals_of(cmds, data, from, mask).len() == inserted(cmds, cmds.len() as int),
    decreases cmds.len(),
{
    if cmds.len() > 0 {
        lemma_literals_len(cmds.skip(1), data, next_from(cmds[0], from, mask), mask);
        lemma_behind_first(cmds, cmds.len() as int);
    }
}

/// Literal `j` of command `i` stands in the ring buffer where the commands before it have led: at the
/// offset, moved on by all that they insert and copy, and by `j`.
pub proof fn law_literal_place(
    cmds: Seq<Command>,
    num_commands: usize,
    data: Seq<u8>,
    offset: usize,
    mask: usize,
    bits: nat,
    i: int,
    j: int,
)
    requires
        mask + 1 == pow2(bits),
        inserts_fit(cmds, mask),
        0 <= i < cmds.len(),
        i < num_commands,
        0 <= j < cmds[i].insert_len_,
    ensures
        ({
            let literals = literals_of(
                first_commands(cmds, num_commands),
                data,
                offset & mask,
                mask,
            );
            &&& inserted(cmds, i) + j < literals.len()
            &&& literals[inserted(cmds, i) + j] == data[(offset + gone(cmds, i) + j) % (mask + 1)]
        }),
{
    let m = mask + 1;
    let first = first_commands(cmds, num_commands);
    let from = offset & mask;
    lemma_masked_is_remainder(offset, mask, bits);
    vstd::arithmetic::div_mod::lemma_mod_bound(offset as int, m);
    assert forall|k: int| 0 <= k < first.len() implies (#[trigger] first[k]).insert_len_ <= mask
        + 1 by {
        assert(cmds[k].insert_len_ <= mask + 1);
    }
    lemma_literal(first, data, from, mask, bits, i, j);
    lemma_sums_of_first(cmds, first, i);
    let more = gone(cmds, i) + j;
    vstd::arithmetic::div_mod::lemma_add_mod_noop_right(more, offset as int, m);
    assert((more + offset as int % m) % m == (more + offset) % m);
}

/// The literals that are copied are those of the commands, each from its place in the ring buffer.
pub proof fn law_literals(
    cmds: &[Command],
    num_commands: usize,
    data: &[u8],
    offset: usize,
    mask: usize,
    bits: nat,
    literals: Vec<u8>,
    i: int,
    j: int,
)
    requires
        mask + 1 == pow2(bits),
        inserts_fit(cmds@, mask),
        0 <= i < cmds@.len(),
        i < num_commands,
        0 <= j < cmds@[i].insert_len_,
        call_ensures(CopyLiteralsToByteArray, (cmds, num_commands, data, offset, mask), literals),
    ensures
        inserted(cmds@, i) + j < literals@.len(),
        literals@[inserted(cmds@, i) + j] == data@[(offset + gone(cmds@, i) + j) % (mask + 1)],
{
    law_literal_place(cmds@, num_commands, data@, offset, mask, bits, i, j);
}

/// The streams of a metablock are read off the commands: literal `j` of command `i` from its place in the
/// ring buffer, and the distance prefixes of the commands that spell one out, in order.
pub proof fn law_streams_of_block(
    cmds: &[Command],
    num_commands: usize,
    data: &[u8],
    pos: usize,
    mask: usize,
    params: BrotliEncoderParams,
    literal_split: &mut BlockSplit,
    command_split: &mut BlockSplit,
    distance_split: &mut BlockSplit,
    streams: SplitStreams,
    bits: nat,
    i: int,
    j: int,
    positions: Seq<int>,
)
    requires
        mask + 1 == pow2(bits),
        inserts_fit(cmds@, mask),
        num_commands <= cmds@.len(),
        0 <= i < num_commands,
        0 <= j < cmds@[i].insert_len_,
        spell_distances(cmds@.take(num_commands as int), positions),
        call_ensures(
            BrotliSplitBlock,
            (
                cmds,
                num_commands,
                data,
                pos,
                mask,
                &params,
                literal_split,
                command_split,
                distance_split,
            ),
            streams,
        ),
    ensures
        inserted(cmds@, i) + j < streams.literals@.len(),
        streams.literals@[inserted(cmds@, i) + j] == data@[(pos + gone(cmds@, i) + j) % (mask + 1)],
        streams.distances@.len() == positions.len(),
        forall|k: int|
            0 <= k < positions.len() ==> #[trigger] streams.distances@[k]
                == cmds@[positions[k]].dist_prefix_ % 1024,
{
    law_literal_place(cmds@, num_commands, data@, pos, mask, bits, i, j);
    lemma_distances(cmds@.take(num_commands as int), positions);
    assert forall|k: int| 0 <= k < positions.len() implies #[trigger] streams.distances@[k]
        == cmds@[positions[k]].dist_prefix_ % 1024 by {
        assert(0 <= positions[k] < num_commands);
    }
}

proof fn lemma_sums_of_first(cmds: Seq<Command>, first: Seq<Command>, i: int)
    requires
        i <= first.len() <= cmds.len(),
        first == cmds.take(first.len() as int),
    ensures
        inserted(first, i) == inserted(cmds, i),
        gone(first, i) == gone(cmds, i),
    decreases i,
{
    if i > 0 {
        lemma_sums_of_first(cmds, first, i - 1);
    }
}

/// There are as many literals as the commands insert, and counting them says so.
pub proof fn law_literal_count(
    cmds: &[Command],
    num_commands: usize,
    data: &[u8],
    offset: usize,
    mask: usize,
    literals: Vec<u8>,
    count: usize,
)
    requires
        num_commands <= cmds@.len(),
        call_ensures(CopyLiteralsToByteArray, (cmds, num_commands, data, offset, mask), literals),
        call_ensures(CountLiterals, (cmds, num_commands), count),
    ensures
        literals@.len() == inserted(cmds@, num_commands as int),
        count == inserted(cmds@, num_commands as int) % (usize::MAX + 1) as nat,
{
    let first = first_commands(cmds@, num_commands);
    lemma_literals_len(first, data@, offset & mask, mask);
    lemma_sums_of_first(cmds@, first, num_commands as int);
    lemma_counted(first);
}

proof fn lemma_counted(cmds: Seq<Command>)
    ensures
        literal_count(cmds) == inserted(cmds, cmds.len() as int) % (usize::MAX + 1) as nat,
    decreases cmds.len(),
{
    let range = usize::MAX + 1;
    if cmds.len() > 0 {
        let n = cmds.len() - 1;
        lemma_counted(cmds.drop_last());
        lemma_sums_of_first(cmds, cmds.drop_last(), n);
        let before = inserted(cmds, n) as int;
        let last = cmds.last().insert_len_ as int;
        vstd::arithmetic::div_mod::lemma_add_mod_noop_right(last, before, range);
        vstd::arithmetic::div_mod::lemma_mod_bound(before, range);
        let total = last + before % range;
        if total < range {
            vstd::arithmetic::div_mod::lemma_small_mod(total as nat, range as nat);
        } else {
            vstd::arithmetic::div_mod::lemma_small_mod((total - range) as nat, range as nat);
            vstd::arithmetic::div_mod::lemma_mod_add_multiples_vanish(total - range, range);
        }
    } else {
        vstd::arithmetic::div_mod::lemma_small_mod(0, range as nat);
    }
}

/// Whatever the mask is, the literals of the first command are read from the offset on, and from the
/// start of the ring buffer on once they are beyond the mask. Those of the other commands are read as if
/// these came first, from where the first one ends: behind what it inserts, folded back over the mask
/// once, and what it copies.
pub proof fn law_first_command(
    cmds: &[Command],
    rest: &[Command],
    num_commands: usize,
    data: &[u8],
    offset: usize,
    mask: usize,
    next: usize,
    literals: Vec<u8>,
    others: Vec<u8>,
)
    requires
        0 < num_commands <= cmds@.len(),
        rest@ == cmds@.skip(1),
        offset <= mask,
        offset & mask == offset,
        ({
            let end = offset + cmds@[0].insert_len_;
            let folded = if end > mask {
                end - mask - 1
            } else {
                end
            };
            &&& folded <= usize::MAX
            &&& next == ((folded + cmds@[0].copy_len_ % 0x200_0000) % (usize::MAX + 1)) as usize & mask
        }),
        call_ensures(CopyLiteralsToByteArray, (cmds, num_commands, data, offset, mask), literals),
        call_ensures(
            CopyLiteralsToByteArray,
            (rest, (num_commands - 1) as usize, data, next, mask),
            others,
        ),
    ensures
        literals@.len() == cmds@[0].insert_len_ + others@.len(),
        forall|k: int|
            0 <= k < cmds@[0].insert_len_ ==> #[trigger] literals@[k] == if offset + k <= mask {
                data@[offset + k]
            } else {
                data@[offset + k - mask - 1]
            },
        forall|k: int|
            0 <= k < others@.len() ==> #[trigger] others@[k] == literals@[cmds@[0].insert_len_ + k],
{
    let first = first_commands(cmds@, num_commands);
    let held = cmds@[0].copy_len_;
    assert(held & 0x01ff_ffff == held % 0x200_0000) by (bit_vector);
    let end = offset + cmds@[0].insert_len_;
    let folded = if end > mask {
        end - mask - 1
    } else {
        end
    };
    let copy = (held % 0x200_0000) as usize;
    let total = folded + copy;
    let range = usize::MAX + 1;
    if total < range {
        vstd::arithmetic::div_mod::lemma_small_mod(total as nat, range as nat);
    } else {
        vstd::arithmetic::div_mod::lemma_small_mod((total - range) as nat, range as nat);
        vstd::arithmetic::div_mod::lemma_mod_add_multiples_vanish(total - range, range);
    }
    let at = (folded as usize).wrapping_add(copy);
    assert(at == total % range);
    assert((at & mask) & mask == at & mask) by (bit_vector);
    assert(next == next_from(cmds@[0], offset, mask));
    assert(first.skip(1) =~= first_commands(rest@, (num_commands - 1) as usize));
    let run = ring_run(data@, offset as int, cmds@[0].insert_len_ as nat, mask as int);
    assert(literals@ == run + others@);
    assert forall|k: int| 0 <= k < others@.len() implies #[trigger] others@[k]
        == literals@[cmds@[0].insert_len_ + k] by {
        assert((run + others@)[run.len() + k] == others@[k]);
    }
}

/// Where more commands are asked for than there are, the streams are those of all commands, but that a
/// command which is missing counts with a prefix of zero.
pub proof fn law_missing_commands(
    cmds: &[Command],
    num_commands: usize,
    data: &[u8],
    offset: usize,
    mask: usize,
    literals: Vec<u8>,
    all_literals: Vec<u8>,
    count: usize,
    all_count: usize,
    prefixes: Vec<u16>,
    distances: Vec<u16>,
    all_distances: Vec<u16>,
)
    requires
        cmds@.len() < num_commands,
        call_ensures(CopyLiteralsToByteArray, (cmds, num_commands, data, offset, mask), literals),
        call_ensures(
            CopyLiteralsToByteArray,
            (cmds, cmds@.len() as usize, data, offset, mask),
            all_literals,
        ),
        call_ensures(CountLiterals, (cmds, num_commands), count),
        call_ensures(CountLiterals, (cmds, cmds@.len() as usize), all_count),
        call_ensures(command_prefixes, (cmds, num_commands), prefixes),
        call_ensures(distance_prefixes, (cmds, num_commands), distances),
        call_ensures(distance_prefixes, (cmds, cmds@.len() as usize), all_distances),
    ensures
        literals@ == all_literals@,
        count == all_count,
        prefixes@.len() == num_commands,
        forall|i: int|
            0 <= i < num_commands ==> #[trigger] prefixes@[i] == if i < cmds@.len() {
                cmds@[i].cmd_prefix_
            } else {
                0
            },
        distances@ == all_distances@,
{
}

/// The command prefixes are those of the commands, one for each that was asked for.
pub proof fn law_command_prefixes(cmds: &[Command], num_commands: usize, prefixes: Vec<u16>)
    requires
        num_commands <= cmds@.len(),
        call_ensures(command_prefixes, (cmds, num_commands), prefixes),
    ensures
        prefixes@.len() == num_commands,
        forall|i: int| 0 <= i < num_commands ==> #[trigger] prefixes@[i] == cmds@[i].cmd_prefix_,
{
}

/// `positions` are, in order, the commands that copy something and whose prefix does not imply the last
/// distance.
pub open spec fn spell_distances(cmds: Seq<Command>, positions: Seq<int>) -> bool {
    &&& forall|i: int|
        0 <= i < positions.len() ==> 0 <= #[trigger] positions[i] < cmds.len()
            && cmds[positions[i]].copy_len_ % 0x200_0000 != 0 && cmds[positions[i]].cmd_prefix_ >= 128
    &&& forall|i: int, j: int|
        0 <= i < j < positions.len() ==> #[trigger] positions[i] < #[trigger] positions[j]
    &&& forall|p: int|
        0 <= p < cmds.len() && (#[trigger] cmds[p]).copy_len_ % 0x200_0000 != 0
            && cmds[p].cmd_prefix_ >= 128 ==> positions.contains(p)
}

proof fn lemma_distances(cmds: Seq<Command>, positions: Seq<int>)
    requires
        spell_distances(cmds, positions),
    ensures
        distance_prefixes_of(cmds) == Seq::new(
            positions.len(),
            |i: int| (cmds[positions[i]].dist_prefix_ % 1024) as u16,
        ),
    decreases cmds.len(),
{
    let all = Seq::new(
        positions.len(),
        |i: int| (cmds[positions[i]].dist_prefix_ % 1024) as u16,
    );
    if cmds.len() == 0 {
        if positions.len() > 0 {
            assert(0 <= positions[0] < cmds.len());
        }
        assert(distance_prefixes_of(cmds) =~= all);
    } else {
        let last = cmds.len() - 1;
        let rest = cmds.drop_last();
        let held = cmds[last].copy_len_;
        let prefix = cmds[last].dist_prefix_;
        assert(held & 0x01ff_ffff == held % 0x200_0000) by (bit_vector);
        assert(prefix & 0x03ff == prefix % 1024) by (bit_vector);
        if held % 0x200_0000 != 0 && cmds[last].cmd_prefix_ >= 128 {
            assert(positions.contains(last));
            let at = positions.index_of(last);
            if at < positions.len() - 1 {
                assert(positions[at] < positions[at + 1]);
            }
            assert(positions.last() == last);
            let before = positions.drop_last();
            assert forall|p: int|
                0 <= p < rest.len() && (#[trigger] rest[p]).copy_len_ % 0x200_0000 != 0
                    && rest[p].cmd_prefix_ >= 128 implies before.contains(p) by {
                assert(cmds[p] == rest[p]);
                let i = positions.index_of(p);
                assert(before[i] == p);
            }
            assert forall|i: int| 0 <= i < before.len() implies 0 <= #[trigger] before[i] < rest.len()
                && rest[before[i]].copy_len_ % 0x200_0000 != 0 && rest[before[i]].cmd_prefix_
                >= 128 by {
                assert(positions[i] < positions[positions.len() - 1]);
            }
            lemma_distances(rest, before);
            assert(distance_prefixes_of(cmds) =~= all);
        } else {
            assert forall|i: int| 0 <= i < positions.len() implies 0 <= #[trigger] positions[i]
                < rest.len() && rest[positions[i]].copy_len_ % 0x200_0000 != 0
                && rest[positions[i]].cmd_prefix_ >= 128 by {}
            assert forall|p: int|
                0 <= p < rest.len() && (#[trigger] rest[p]).copy_len_ % 0x200_0000 != 0
                    && rest[p].cmd_prefix_ >= 128 implies positions.contains(p) by {
                assert(cmds[p] == rest[p]);
            }
            lemma_distances(rest, positions);
            assert(distance_prefixes_of(cmds) =~= all);
        }
    }
}

/// The distance prefixes are, in order, those of the commands that spell one out: the lower ten bits of
/// what such a command holds.
pub proof fn law_distance_prefixes(
    cmds: &[Command],
    num_commands: usize,
    prefixes: Vec<u16>,
    positions: Seq<int>,
)
    requires
        num_commands <= cmds@.len(),
        spell_distances(cmds@.take(num_commands as int), positions),
        call_ensures(distance_prefixes, (cmds, num_commands), prefixes),
    ensures
        prefixes@.len() == positions.len(),
        forall|i: int|
            0 <= i < positions.len() ==> #[trigger] prefixes@[i] == cmds@[positions[i]].dist_prefix_
                % 1024,
{
    lemma_distances(cmds@.take(num_commands as int), positions);
    assert forall|i: int| 0 <= i < positions.len() implies #[trigger] prefixes@[i]
        == cmds@[positions[i]].dist_prefix_ % 1024 by {
        assert(0 <= positions[i] < num_commands);
    }
}

} // verus!
