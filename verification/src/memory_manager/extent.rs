//! Spans of the arena: when one is a block of the buddy system, and the
//! arithmetic that splitting and merging rest on.

use vstd::arithmetic::power2::is_pow2;
use vstd::prelude::*;

verus! {

/// The number of bytes in the arena.
pub const CAPACITY: usize = 65536;

/// A block of the buddy system: a power of two in size, aligned to its own
/// size, and inside the arena.
pub open spec fn valid_extent(start: usize, size: usize) -> bool {
    &&& is_pow2(size as int)
    &&& start % size == 0
    &&& start + size <= CAPACITY
}

/// Whether the span of `size` bytes at `start` holds the address `addr`.
pub open spec fn extent_holds(start: usize, size: usize, addr: int) -> bool {
    start <= addr < start + size
}

/// Whether two spans share an address.
pub open spec fn extents_overlap(s1: usize, z1: usize, s2: usize, z2: usize) -> bool {
    s1 < s2 + z2 && s2 < s1 + z1
}

/// The powers of two up to twice the capacity, listed.
spec fn listed_size(size: usize) -> bool {
    ||| size == 0x1
    ||| size == 0x2
    ||| size == 0x4
    ||| size == 0x8
    ||| size == 0x10
    ||| size == 0x20
    ||| size == 0x40
    ||| size == 0x80
    ||| size == 0x100
    ||| size == 0x200
    ||| size == 0x400
    ||| size == 0x800
    ||| size == 0x1000
    ||| size == 0x2000
    ||| size == 0x4000
    ||| size == 0x8000
    ||| size == 0x10000
    ||| size == 0x20000
}

/// A single bit, no higher than bit 17.
spec fn one_bit(size: usize) -> bool {
    size > 0 && size & ((size - 1) as usize) == 0 && size <= 0x20000
}

/// Whether the bits of `start` below the bit of `size` are all clear.
spec fn low_bits_clear(start: usize, size: usize) -> bool {
    start & ((size - 1) as usize) == 0
}

proof fn lemma_one_bit(size: usize)
    requires
        size <= 0x20000,
    ensures
        one_bit(size) <==> is_pow2(size as int),
{
    reveal_with_fuel(is_pow2, 19);
    assert(listed_size(size) <==> is_pow2(size as int));
    assert(listed_size(size) <==> one_bit(size)) by (bit_vector)
        requires
            size <= 0x20000,
    ;
}

proof fn lemma_low_bits(start: usize, size: usize)
    requires
        one_bit(size),
        start <= 0x20000,
    ensures
        low_bits_clear(start, size) <==> start % size == 0,
{
    assert(low_bits_clear(start, size) <==> start % size == 0) by (bit_vector)
        requires
            one_bit(size),
            start <= 0x20000,
    ;
}

/// The two halves of a block of two bytes or more are blocks.
pub proof fn lemma_halves(start: usize, size: usize)
    requires
        valid_extent(start, size),
        size >= 2,
    ensures
        valid_extent(start, (size / 2) as usize),
        valid_extent((start + size / 2) as usize, (size / 2) as usize),
        size / 2 + size / 2 == size,
        size / 2 >= 1,
        (((start + size / 2) as usize) ^ ((size / 2) as usize)) == start,
{
    lemma_one_bit(size);
    lemma_low_bits(start, size);
    let half = (size / 2) as usize;
    let upper = (start + size / 2) as usize;
    assert(one_bit(half) && low_bits_clear(start, half) && low_bits_clear(upper, half) && half
        + half == size && upper == start + half && (upper ^ half) == start) by (bit_vector)
        requires
            one_bit(size),
            size >= 2,
            low_bits_clear(start, size),
            start <= 0x10000,
            half == size / 2,
            upper == ((start + size / 2) as usize),
    ;
    lemma_one_bit(half);
    lemma_low_bits(start, half);
    lemma_low_bits(upper, half);
}

/// Where the buddy of a block lies: above a block that is aligned to twice
/// its size, below any other.
pub proof fn lemma_buddy_address(start: usize, size: usize)
    requires
        valid_extent(start, size),
    ensures
        start % ((2 * size) as usize) == 0 ==> (start ^ size) == start + size,
        start % ((2 * size) as usize) != 0 ==> start >= size && (start ^ size) == start - size
            && (start - size) % (2 * size) == 0,
        ((start ^ size) ^ size) == start,
{
    lemma_one_bit(size);
    lemma_low_bits(start, size);
    let twice = (2 * size) as usize;
    let below = if start >= size { (start - size) as usize } else { 0 };
    assert(one_bit(twice) && (low_bits_clear(start, twice) ==> (start ^ size) == start + size)
        && (!low_bits_clear(start, twice) ==> start >= size && (start ^ size) == start - size
        && low_bits_clear(below, twice)) && ((start ^ size) ^ size) == start) by (bit_vector)
        requires
            one_bit(size),
            size <= 0x10000,
            low_bits_clear(start, size),
            start <= 0x10000,
            twice == ((2 * size) as usize),
            below == (if start >= size { (start - size) as usize } else { 0usize }),
    ;
    lemma_low_bits(start, twice);
    lemma_low_bits(below, twice);
}

/// A block and the block of the same size right above it make one block
/// when the lower one is aligned to twice the size.
pub proof fn lemma_joined(start: usize, size: usize)
    requires
        valid_extent(start, size),
        start % ((2 * size) as usize) == 0,
        start + 2 * size <= CAPACITY,
    ensures
        valid_extent(start, (2 * size) as usize),
{
    lemma_one_bit(size);
    let twice = (2 * size) as usize;
    assert(one_bit(twice)) by (bit_vector)
        requires
            one_bit(size),
            size <= 0x8000,
            twice == ((2 * size) as usize),
    ;
    lemma_one_bit(twice);
}

/// Two blocks that share an address are nested: the smaller one lies in the
/// larger one.
pub proof fn lemma_nested(s1: usize, z1: usize, s2: usize, z2: usize)
    requires
        valid_extent(s1, z1),
        valid_extent(s2, z2),
        z1 <= z2,
        extents_overlap(s1, z1, s2, z2),
    ensures
        s2 <= s1,
        s1 + z1 <= s2 + z2,
{
    lemma_one_bit(z1);
    lemma_one_bit(z2);
    lemma_low_bits(s1, z1);
    lemma_low_bits(s2, z2);
    assert(s2 <= s1 && s1 + z1 <= s2 + z2) by (bit_vector)
        requires
            one_bit(z1),
            one_bit(z2),
            low_bits_clear(s1, z1),
            low_bits_clear(s2, z2),
            z1 <= z2,
            s1 <= 0x10000,
            s2 <= 0x10000,
            z1 <= 0x10000,
            z2 <= 0x10000,
            s1 < s2 + z2,
            s2 < s1 + z1,
    ;
}

/// The buddy of a block that lies in a larger block is a block, and lies in
/// the larger block too, as does the block that the two make together.
pub proof fn lemma_buddy_inside(start: usize, size: usize, s: usize, z: usize)
    requires
        valid_extent(start, size),
        valid_extent(s, z),
        size < z,
        s <= start,
        start + size <= s + z,
    ensures
        valid_extent((start ^ size), size),
        s <= (start ^ size),
        (start ^ size) + size <= s + z,
        (start ^ size) != start,
        ({
            let lower = if (start ^ size) < start {
                (start ^ size)
            } else {
                start
            };
            valid_extent(lower, (2 * size) as usize) && s <= lower && lower + 2 * size <= s + z
        }),
{
    lemma_one_bit(size);
    lemma_one_bit(z);
    lemma_low_bits(start, size);
    lemma_low_bits(s, z);
    let buddy = start ^ size;
    let twice = (2 * size) as usize;
    let lower = if buddy < start {
        buddy
    } else {
        start
    };
    assert(low_bits_clear(buddy, size) && s <= buddy && buddy + size <= s + z && buddy != start
        && one_bit(twice) && low_bits_clear(lower, twice) && s <= lower && lower + twice <= s + z
        && buddy <= 0x10000) by (bit_vector)
        requires
            one_bit(size),
            one_bit(z),
            low_bits_clear(start, size),
            low_bits_clear(s, z),
            size < z,
            z <= 0x10000,
            s <= 0x10000,
            s + z <= 0x10000,
            start <= 0x10000,
            s <= start,
            start + size <= s + z,
            buddy == start ^ size,
            twice == ((2 * size) as usize),
            lower == (if buddy < start {
                buddy
            } else {
                start
            }),
    ;
    lemma_low_bits(buddy, size);
    lemma_one_bit(twice);
    lemma_low_bits(lower, twice);
}

} // verus!
