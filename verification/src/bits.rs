//! Bit strings read most significant bit first, and the slot a digest selects at each depth.

use vstd::prelude::*;

verus! {

/// The value of a bit string read as an unsigned integer, most significant bit first.
pub open spec fn spec_to_int(bits: Seq<bool>) -> nat
    decreases bits.len(),
{
    if bits.len() == 0 {
        0
    } else {
        2 * spec_to_int(bits.drop_last()) + if bits.last() { 1nat } else { 0nat }
    }
}

/// Two to the power `width`: the number of slots of a node that consumes `width` bits.
pub open spec fn spec_fanout(width: nat) -> nat
    decreases width,
{
    if width == 0 {
        1
    } else {
        2 * spec_fanout((width - 1) as nat)
    }
}

/// Bit `i` of a byte string, counting from the most significant bit of the first byte.
pub open spec fn spec_bit(bytes: Seq<u8>, i: int) -> bool {
    (bytes[i / 8] >> ((7 - i % 8) as u8)) & 1 == 1
}

/// The `len` bits of a byte string that start at bit `start`.
pub open spec fn spec_bits(bytes: Seq<u8>, start: int, len: nat) -> Seq<bool> {
    Seq::new(len, |j: int| spec_bit(bytes, start + j))
}

/// The slot that `digest` selects in a node at `depth` when every level consumes `width` bits.
pub open spec fn spec_slot(digest: Seq<u8>, depth: nat, width: nat) -> nat {
    spec_to_int(spec_bits(digest, (depth * width) as int, width))
}

/// A bit string of `n` bits has a value below two to the `n`.
pub proof fn lemma_to_int_bound(bits: Seq<bool>)
    ensures
        spec_to_int(bits) < spec_fanout(bits.len()),
    decreases bits.len(),
{
    if bits.len() > 0 {
        lemma_to_int_bound(bits.drop_last());
    }
}

/// The value of a prefix of a bit string is at most the value of the whole.
pub proof fn lemma_to_int_prefix(bits: Seq<bool>, n: int)
    requires
        0 <= n <= bits.len(),
    ensures
        spec_to_int(bits.take(n)) <= spec_to_int(bits),
    decreases bits.len(),
{
    if n == bits.len() {
        assert(bits.take(n) =~= bits);
    } else {
        assert(bits.drop_last().take(n) =~= bits.take(n));
        lemma_to_int_prefix(bits.drop_last(), n);
    }
}

/// The number of slots grows with the width.
pub proof fn lemma_fanout_monotonic(a: nat, b: nat)
    requires
        a <= b,
    ensures
        1 <= spec_fanout(a) <= spec_fanout(b),
    decreases b,
{
    if b > 0 {
        if a < b {
            lemma_fanout_monotonic(a, (b - 1) as nat);
        } else {
            lemma_fanout_monotonic((a - 1) as nat, (b - 1) as nat);
        }
    }
}

/// Reads a bit string as an unsigned integer, most significant bit first.
pub fn to_int(slice: &[bool]) -> (value: usize)
    requires
        spec_to_int(slice@) <= usize::MAX,
    ensures
        value == spec_to_int(slice@),
{
    let mut acc: usize = 0;
    let mut i: usize = 0;
    while i < slice.len()
        invariant
            i <= slice.len(),
            acc == spec_to_int(slice@.take(i as int)),
            spec_to_int(slice@) <= usize::MAX,
        decreases slice.len() - i,
    {
        proof {
            lemma_to_int_prefix(slice@, i + 1);
            assert(slice@.take(i + 1).drop_last() =~= slice@.take(i as int));
        }
        if slice[i] {
            acc = 2 * acc + 1;
        } else {
            acc = 2 * acc;
        }
        i = i + 1;
    }
    proof {
        assert(slice@.take(i as int) =~= slice@);
    }
    acc
}

/// The number of slots of a node, for a width of at most eight bits.
pub fn fanout(width: usize) -> (slots: usize)
    requires
        width <= 8,
    ensures
        slots == spec_fanout(width as nat),
        1 <= slots <= 256,
{
    let mut slots: usize = 1;
    let mut i: usize = 0;
    while i < width
        invariant
            i <= width <= 8,
            slots == spec_fanout(i as nat),
            slots <= 256,
        decreases width - i,
    {
        proof {
            lemma_fanout_monotonic((i + 1) as nat, 8);
            reveal_with_fuel(spec_fanout, 9);
        }
        slots = 2 * slots;
        i = i + 1;
    }
    proof {
        lemma_fanout_monotonic(0, width as nat);
    }
    slots
}

/// The slot that `digest` selects at `depth`: its bits from `depth * width`, `width` of them,
/// read most significant bit first.
pub fn slot_index(digest: &[u8], depth: usize, width: usize) -> (slot: usize)
    requires
        1 <= width <= 8,
        (depth + 1) * width <= 8 * digest@.len(),
        8 * digest@.len() <= usize::MAX,
    ensures
        slot == spec_slot(digest@, depth as nat, width as nat),
        slot < spec_fanout(width as nat),
{
    assert(depth * width + width == (depth + 1) * width) by (nonlinear_arith);
    assert(0 <= depth * width) by (nonlinear_arith);
    let start: usize = depth * width;
    let mut acc: usize = 0;
    let mut j: usize = 0;
    let ghost bits = spec_bits(digest@, start as int, width as nat);
    while j < width
        invariant
            j <= width <= 8,
            start + width <= 8 * digest@.len(),
            8 * digest@.len() <= usize::MAX,
            bits == spec_bits(digest@, start as int, width as nat),
            acc == spec_to_int(bits.take(j as int)),
            acc < spec_fanout(j as nat),
        decreases width - j,
    {
        let i: usize = start + j;
        let shift: u8 = (7 - i % 8) as u8;
        let bit: bool = (digest[i / 8] >> shift) & 1 == 1;
        proof {
            assert(bits.take(j + 1).drop_last() =~= bits.take(j as int));
            assert(bits.take(j + 1).last() == bit);
            lemma_fanout_monotonic(j as nat, 8);
            reveal_with_fuel(spec_fanout, 9);
        }
        if bit {
            acc = 2 * acc + 1;
        } else {
            acc = 2 * acc;
        }
        j = j + 1;
    }
    proof {
        assert(bits.take(j as int) =~= bits);
    }
    acc
}

} // verus!
