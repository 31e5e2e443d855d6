//! The three streams that are split into blocks: literals, command prefixes and distance prefixes.
use crate::command::Command;
use vstd::prelude::*;

verus! {

/// How many literals the commands insert, wrapping around.
pub open spec fn literal_count(cmds: Seq<Command>) -> usize
    decreases cmds.len(),
{
    if cmds.len() == 0 {
        0
    } else {
        literal_count(cmds.drop_last()).wrapping_add(cmds.last().insert_len_ as usize)
    }
}

/// The first `num_commands` commands, or all where there are fewer.
pub open spec fn first_commands(cmds: Seq<Command>, num_commands: usize) -> Seq<Command> {
    cmds.take(if num_commands <= cmds.len() { num_commands as int } else { cmds.len() as int })
}

/// How many of the first `num_commands` commands there are.
fn available(cmds: &[Command], num_commands: usize) -> (n: usize)
    ensures
        n == first_commands(cmds@, num_commands).len(),
        n <= cmds@.len(),
{
    if num_commands <= cmds.len() {
        num_commands
    } else {
        cmds.len()
    }
}

/// Counts the literals that the first `num_commands` commands insert.
pub fn CountLiterals(cmds: &[Command], num_commands: usize) -> (total_length: usize)
    ensures
        total_length == literal_count(first_commands(cmds@, num_commands)),
{
    let n: usize = available(cmds, num_commands);
    let ghost taken = first_commands(cmds@, num_commands);
    let mut total_length: usize = 0;
    let mut i: usize = 0;
    assert(taken.take(0) =~= Seq::empty());
    while i < n
        invariant
            i <= n <= cmds@.len(),
            n == taken.len(),
            taken == first_commands(cmds@, num_commands),
            total_length == literal_count(taken.take(i as int)),
        decreases n - i,
    {
        total_length = total_length.wrapping_add(cmds[i].insert_len_ as usize);
        assert(taken.take(i + 1).drop_last() =~= taken.take(i as int));
        i += 1;
    }
    assert(taken.take(i as int) =~= taken);
    total_length
}

/// `len` bytes of the ring buffer `data` from `from` on; those beyond `mask` stand at its start.
pub open spec fn ring_run(data: Seq<u8>, from: int, len: nat, mask: int) -> Seq<u8> {
    Seq::new(
        len,
        |k: int|
            if from + k <= mask {
                data[from + k]
            } else {
                data[from + k - mask - 1]
            },
    )
}

/// Where the literals of the next command start, those of `cmd` starting at `from`.
pub open spec fn next_from(cmd: Command, from: usize, mask: usize) -> usize {
    let end = from + cmd.insert_len_;
    let folded = if end > mask {
        end - mask - 1
    } else {
        end
    };
    (folded as usize).wrapping_add(cmd.spec_copy_len() as usize) & mask
}

/// The literals that the commands insert, in order, those of the first starting at `from`.
pub open spec fn literals_of(cmds: Seq<Command>, data: Seq<u8>, from: usize, mask: usize) -> Seq<u8>
    decreases cmds.len(),
{
    if cmds.len() == 0 {
        Seq::empty()
    } else {
        ring_run(data, from as int, cmds[0].insert_len_ as nat, mask as int) + literals_of(
            cmds.skip(1),
            data,
            next_from(cmds[0], from, mask),
            mask,
        )
    }
}

proof fn lemma_literals_len_last(cmds: Seq<Command>, data: Seq<u8>, from: usize, mask: usize)
    requires
        cmds.len() > 0,
    ensures
        literals_of(cmds, data, from, mask).len() == literals_of(
            cmds.drop_last(),
            data,
            from,
            mask,
        ).len() + cmds.last().insert_len_,
    decreases cmds.len(),
{
    reveal_with_fuel(literals_of, 2);
    let rest = cmds.skip(1);
    if rest.len() > 0 {
        lemma_literals_len_last(rest, data, next_from(cmds[0], from, mask), mask);
        assert(cmds.drop_last().skip(1) =~= rest.drop_last());
    }
}

/// There are as many literals as the commands count, as long as that many can be counted.
pub proof fn lemma_literal_count(cmds: Seq<Command>, data: Seq<u8>, from: usize, mask: usize)
    requires
        literals_of(cmds, data, from, mask).len() <= usize::MAX,
    ensures
        literal_count(cmds) == literals_of(cmds, data, from, mask).len(),
    decreases cmds.len(),
{
    if cmds.len() > 0 {
        lemma_literals_len_last(cmds, data, from, mask);
        lemma_literal_count(cmds.drop_last(), data, from, mask);
    }
}

/// A run of `len` literals from `from` on lies within a ring buffer of `size` bytes.
pub open spec fn run_fits(size: nat, from: int, len: nat, mask: int) -> bool {
    ||| len == 0
    ||| from + len <= mask && from + len <= size
    ||| from + len > mask && from + len <= usize::MAX && mask + 1 <= size && from + len - mask - 1
        <= size
}

/// The literals of every command lie within a ring buffer of `size` bytes.
pub open spec fn literals_fit(cmds: Seq<Command>, size: nat, from: usize, mask: usize) -> bool
    decreases cmds.len(),
{
    cmds.len() > 0 ==> {
        &&& run_fits(size, from as int, cmds[0].insert_len_ as nat, mask as int)
        &&& literals_fit(cmds.skip(1), size, next_from(cmds[0], from, mask), mask)
    }
}

/// Appends `data[from..end]` to `literals`.
fn append(literals: &mut Vec<u8>, data: &[u8], from: usize, end: usize)
    requires
        from <= end <= data@.len(),
    ensures
        final(literals)@ == old(literals)@ + data@.subrange(from as int, end as int),
{
    let mut k: usize = from;
    while k < end
        invariant
            from <= k <= end <= data@.len(),
            literals@ == old(literals)@ + data@.subrange(from as int, k as int),
        decreases end - k,
    {
        literals.push(data[k]);
        assert(data@.subrange(from as int, k + 1) =~= data@.subrange(from as int, k as int).push(
            data@[k as int],
        ));
        k += 1;
    }
}

/// Copies the literals of the first `num_commands` commands out of the ring buffer `data`, those of
/// the first command standing at `offset`.
pub fn CopyLiteralsToByteArray(
    cmds: &[Command],
    num_commands: usize,
    data: &[u8],
    offset: usize,
    mask: usize,
) -> (literals: Vec<u8>)
    requires
        literals_fit(
            first_commands(cmds@, num_commands),
            data@.len(),
            offset & mask,
            mask,
        ),
    ensures
        literals@ == literals_of(
            first_commands(cmds@, num_commands),
            data@,
            offset & mask,
            mask,
        ),
{
    let n: usize = available(cmds, num_commands);
    let ghost taken = first_commands(cmds@, num_commands);
    let mut literals: Vec<u8> = Vec::new();
    let mut from_pos: usize = offset & mask;
    let mut i: usize = 0;
    proof {
        crate::backward_references::search::lemma_masked(offset, mask);
        assert(taken.skip(0) =~= taken);
    }
    while i < n
        invariant
            i <= n <= cmds@.len(),
            n == taken.len(),
            taken == first_commands(cmds@, num_commands),
            from_pos <= mask,
            literals_fit(taken.skip(i as int), data@.len(), from_pos, mask),
            literals@ + literals_of(taken.skip(i as int), data@, from_pos, mask) == literals_of(
                taken,
                data@,
                offset & mask,
                mask,
            ),
        decreases n - i,
    {
        let cmd = cmds[i];
        let ghost rest = taken.skip(i as int);
        let ghost start = from_pos;
        let ghost before = literals@;
        let mut insert_len: usize = cmd.insert_len_ as usize;
        assert(data.len() <= usize::MAX);
        assert(rest[0] == cmd);
        assert(rest.skip(1) =~= taken.skip(i + 1));
        if insert_len > mask - from_pos {
            let head_size: usize = mask - from_pos + 1;
            append(&mut literals, data, from_pos, from_pos + head_size);
            from_pos = 0;
            insert_len = insert_len - head_size;
        }
        if insert_len > 0 {
            append(&mut literals, data, from_pos, from_pos + insert_len);
        }
        proof {
            let run = ring_run(data@, start as int, cmd.insert_len_ as nat, mask as int);
            assert(literals@ =~= before + run);
            assert(literals@ + literals_of(
                rest.skip(1),
                data@,
                next_from(cmd, start, mask),
                mask,
            ) =~= before + literals_of(rest, data@, start, mask));
        }
        from_pos = from_pos.wrapping_add(insert_len).wrapping_add(cmd.copy_len() as usize) & mask;
        proof {
            assert(from_pos == next_from(cmd, start, mask));
            crate::backward_references::search::lemma_masked(
                (if start + cmd.insert_len_ > mask {
                    start + cmd.insert_len_ - mask - 1
                } else {
                    start + cmd.insert_len_
                } as usize).wrapping_add(cmd.spec_copy_len() as usize),
                mask,
            );
        }
        i += 1;
    }
    assert(taken.skip(i as int) =~= Seq::empty());
    literals
}

/// The command prefixes of `num_commands` commands, zero where a command is missing.
pub open spec fn command_prefixes_of(cmds: Seq<Command>, num_commands: usize) -> Seq<u16> {
    Seq::new(
        num_commands as nat,
        |i: int|
            if i < cmds.len() {
                cmds[i].cmd_prefix_
            } else {
                0
            },
    )
}

/// The command prefixes of `num_commands` commands.
pub fn command_prefixes(cmds: &[Command], num_commands: usize) -> (prefixes: Vec<u16>)
    ensures
        prefixes@ == command_prefixes_of(cmds@, num_commands),
{
    let mut prefixes: Vec<u16> = vec![0u16; num_commands];
    let n: usize = available(cmds, num_commands);
    let mut i: usize = 0;
    while i < n
        invariant
            i <= n <= cmds@.len(),
            n == first_commands(cmds@, num_commands).len(),
            prefixes@.len() == num_commands,
            forall|j: int| 0 <= j < i ==> #[trigger] prefixes@[j] == cmds@[j].cmd_prefix_,
            forall|j: int| i <= j < num_commands ==> #[trigger] prefixes@[j] == 0,
        decreases n - i,
    {
        prefixes[i] = cmds[i].cmd_prefix_;
        i += 1;
    }
    assert(prefixes@ =~= command_prefixes_of(cmds@, num_commands));
    prefixes
}

/// The prefix of a distance: its lower ten bits.
pub open spec fn distance_prefix(cmd: Command) -> u16 {
    cmd.dist_prefix_ & 0x03ff
}

/// The distance prefixes that the commands spell out.
pub open spec fn distance_prefixes_of(cmds: Seq<Command>) -> Seq<u16>
    decreases cmds.len(),
{
    if cmds.len() == 0 {
        Seq::empty()
    } else {
        let before = distance_prefixes_of(cmds.drop_last());
        if cmds.last().has_distance() {
            before.push(distance_prefix(cmds.last()))
        } else {
            before
        }
    }
}

/// No command spells out more than one distance.
pub proof fn lemma_distance_count(cmds: Seq<Command>)
    ensures
        distance_prefixes_of(cmds).len() <= cmds.len(),
    decreases cmds.len(),
{
    if cmds.len() > 0 {
        lemma_distance_count(cmds.drop_last());
    }
}

/// The distance prefixes of the first `num_commands` commands, of those that spell one out.
pub fn distance_prefixes(cmds: &[Command], num_commands: usize) -> (prefixes: Vec<u16>)
    ensures
        prefixes@ == distance_prefixes_of(first_commands(cmds@, num_commands)),
        forall|i: int| 0 <= i < prefixes@.len() ==> #[trigger] prefixes@[i] < 1024,
{
    let n: usize = available(cmds, num_commands);
    let ghost taken = first_commands(cmds@, num_commands);
    let mut prefixes: Vec<u16> = Vec::new();
    let mut i: usize = 0;
    assert(taken.take(0) =~= Seq::empty());
    while i < n
        invariant
            i <= n <= cmds@.len(),
            n == taken.len(),
            taken == first_commands(cmds@, num_commands),
            prefixes@ == distance_prefixes_of(taken.take(i as int)),
            forall|j: int| 0 <= j < prefixes@.len() ==> #[trigger] prefixes@[j] < 1024,
        decreases n - i,
    {
        let cmd = cmds[i];
        assert(taken.take(i + 1).drop_last() =~= taken.take(i as int));
        if cmd.copy_len() != 0 && cmd.cmd_prefix_ >= 128 {
            let prefix: u16 = cmd.dist_prefix_;
            assert(prefix & 0x03ff < 1024) by (bit_vector);
            prefixes.push(prefix & 0x03ff);
        }
        i += 1;
    }
    assert(taken.take(i as int) =~= taken);
    prefixes
}

} // verus!
