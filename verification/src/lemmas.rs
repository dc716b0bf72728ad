//! Facts about the numbers of the wire format that the codec's proofs rest on.

use crate::wire::{
    group_run, groups_value, is_valid_up_to, le_bytes, le_value, length_groups, radix,
    valid_up_to,
};
use vstd::prelude::*;
use vstd::utf8::valid_utf8;

verus! {

/// The number of values that 1, 2, 4 and 8 bytes hold.
pub proof fn lemma_radix_values()
    ensures
        radix(1) == 0x100,
        radix(2) == 0x1_0000,
        radix(4) == 0x1_0000_0000,
        radix(8) == 0x1_0000_0000_0000_0000,
{
    reveal_with_fuel(radix, 9);
}

/// A single byte holds its own value.
pub proof fn lemma_le_value_single(bytes: Seq<u8>)
    requires
        bytes.len() == 1,
    ensures
        le_value(bytes) == bytes[0],
{
    reveal_with_fuel(le_value, 2);
}

/// Every sequence of bytes has a longest prefix that is valid UTF-8.
pub proof fn lemma_valid_up_to_exists(bytes: Seq<u8>)
    ensures
        is_valid_up_to(bytes, valid_up_to(bytes) as int),
{
    lemma_longest_valid_prefix(bytes, bytes.len() as int);
}

/// Among the prefixes of up to `bound` bytes there is a longest valid one,
/// if only the empty one; where all longer ones are not valid, it is the
/// longest of all.
proof fn lemma_longest_valid_prefix(bytes: Seq<u8>, bound: int)
    requires
        0 <= bound <= bytes.len(),
        forall|m: int|
            bound < m <= bytes.len() ==> !valid_utf8(#[trigger] bytes.subrange(0, m)),
    ensures
        exists|n: int| is_valid_up_to(bytes, n),
    decreases bound,
{
    if valid_utf8(bytes.subrange(0, bound)) {
        assert(is_valid_up_to(bytes, bound));
    } else {
        lemma_longest_valid_prefix(bytes, bound - 1);
    }
}

/// The longest valid prefix is unique: a length that qualifies is the one.
pub proof fn lemma_valid_up_to_unique(bytes: Seq<u8>, n: int)
    requires
        is_valid_up_to(bytes, n),
    ensures
        valid_up_to(bytes) == n,
{
    lemma_valid_up_to_exists(bytes);
    let m = valid_up_to(bytes) as int;
    // Of two lengths that qualify, the longer would be a valid prefix beyond
    // the shorter.
    if m < n {
        assert(!valid_utf8(bytes.subrange(0, n)));
    } else if n < m {
        assert(!valid_utf8(bytes.subrange(0, m)));
    }
}

/// Bytes with bit 7 set lengthen a run of groups one for one.
pub proof fn lemma_group_run_skip(input: Seq<u8>, from: int, to: int)
    requires
        0 <= from <= to <= input.len(),
        forall|j: int| from <= j < to ==> input[j] >= 128,
    ensures
        group_run(input, from) == match group_run(input, to) {
            Some(run) => Some((run + to - from) as nat),
            None => None,
        },
    decreases to - from,
{
    if from < to {
        lemma_group_run_skip(input, from + 1, to);
    }
}

/// The value of a run of groups, from that of the run without its first.
pub proof fn lemma_groups_value_step(input: Seq<u8>, from: int, to: int)
    requires
        0 <= from < to <= input.len(),
    ensures
        groups_value(input.subrange(from, to)) == input[from] % 128 + 128 * groups_value(
            input.subrange(from + 1, to),
        ),
{
    assert(input.subrange(from, to).drop_first() =~= input.subrange(from + 1, to));
}

/// A number on `width` bytes takes `width` bytes.
pub proof fn lemma_le_bytes_len(value: nat, width: nat)
    ensures
        le_bytes(value, width).len() == width,
    decreases width,
{
    if width > 0 {
        lemma_le_bytes_len(value / 256, (width - 1) as nat);
    }
}

/// The bytes of a number that fits in `width` bytes hold that number.
pub proof fn lemma_le_round_trip(value: nat, width: nat)
    requires
        value < radix(width),
    ensures
        le_value(le_bytes(value, width)) == value,
    decreases width,
{
    if width > 0 {
        let rest = le_bytes(value / 256, (width - 1) as nat);
        lemma_le_round_trip(value / 256, (width - 1) as nat);
        assert(le_bytes(value, width).drop_first() =~= rest);
    }
}

/// The groups of a length: every byte but the last has bit 7 set, and the
/// groups hold the length.
pub proof fn lemma_length_groups(value: nat)
    ensures
        length_groups(value).len() >= 1,
        length_groups(value).last() < 128,
        forall|j: int|
            0 <= j < length_groups(value).len() - 1 ==> #[trigger] length_groups(value)[j] >= 128,
        groups_value(length_groups(value)) == value,
    decreases value,
{
    reveal_with_fuel(groups_value, 2);
    if value >= 128 {
        let rest = length_groups(value / 128);
        lemma_length_groups(value / 128);
        assert(length_groups(value).drop_first() =~= rest);
    }
}

/// An input that holds the groups of a length at an offset has a run of
/// exactly these groups there.
pub proof fn lemma_length_groups_run(input: Seq<u8>, at: int, value: nat)
    requires
        0 <= at,
        at + length_groups(value).len() <= input.len(),
        input.subrange(at, at + length_groups(value).len()) == length_groups(value),
    ensures
        group_run(input, at) == Some(length_groups(value).len()),
{
    let groups = length_groups(value);
    lemma_length_groups(value);
    assert forall|j: int| at <= j < at + groups.len() - 1 implies input[j] >= 128 by {
        assert(groups[j - at] >= 128);
    }
    lemma_group_run_skip(input, at, at + groups.len() - 1);
}

/// A run of groups is the same in every input that holds the same bytes
/// where the run stands.
pub proof fn lemma_group_run_local(input: Seq<u8>, other: Seq<u8>, at: int)
    requires
        group_run(input, at) is Some,
        at + group_run(input, at)->Some_0 <= other.len(),
        forall|j: int| at <= j < at + group_run(input, at)->Some_0 ==> other[j] == input[j],
    ensures
        group_run(other, at) == group_run(input, at),
    decreases input.len() - at,
{
    if input[at] >= 128 {
        lemma_group_run_local(input, other, at + 1);
    }
}

} // verus!
