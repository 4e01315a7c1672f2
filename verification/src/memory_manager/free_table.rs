//! The table of free blocks: what holds of it, how a request is served
//! from it, and how freed blocks are merged back.
//!
//! The table has an order, and a request is served from the first block in
//! that order that is large enough. Coalescing leaves the table in the order
//! of the addresses; the halves that a request leaves behind go to the end
//! of the table, the larger before the smaller.

use super::coalescing::lemma_coalescing_unique;
use super::extent::{
    extent_holds, extents_overlap, lemma_buddy_address, lemma_halves, lemma_joined, valid_extent,
    CAPACITY,
};
use super::free_block::FreeBlock;
use super::AllocationFailure;
use crate::{lemma_pow2_gap, lemma_round_up_pow2_bounds, nearest_power_of_two, round_up_pow2};
use vstd::prelude::*;
use vstd::seq_lib::{to_multiset_build, to_multiset_contains, to_multiset_insert};

verus! {

/// Every entry is a free block of the buddy system, and no two entries share
/// an address.
pub open spec fn free_table_wf(table: Seq<FreeBlock>) -> bool {
    &&& forall|i: int|
        0 <= i < table.len() ==> (#[trigger] table[i]).is_free && valid_extent(
            table[i].start,
            table[i].size,
        )
    &&& forall|i: int, j: int|
        0 <= i < j < table.len() ==> !extents_overlap(
            (#[trigger] table[i]).start,
            table[i].size,
            (#[trigger] table[j]).start,
            table[j].size,
        )
}

/// The number of bytes in the blocks of the table.
pub open spec fn free_bytes(table: Seq<FreeBlock>) -> int
    decreases table.len(),
{
    if table.len() == 0 {
        0
    } else {
        free_bytes(table.drop_last()) + table.last().size
    }
}

/// Whether some block of the table holds the address.
pub open spec fn covers(table: Seq<FreeBlock>, addr: int) -> bool {
    exists|i: int|
        0 <= i < table.len() && extent_holds((#[trigger] table[i]).start, table[i].size, addr)
}

/// No block of the table shares an address with the span of `size` bytes at
/// `start`.
pub open spec fn clear_of(table: Seq<FreeBlock>, start: usize, size: usize) -> bool {
    forall|j: int|
        0 <= j < table.len() ==> !extents_overlap(
            start,
            size,
            (#[trigger] table[j]).start,
            table[j].size,
        )
}

/// The two tables cover the same addresses.
pub open spec fn same_addresses(a: Seq<FreeBlock>, b: Seq<FreeBlock>) -> bool {
    forall|addr: int|
        #![trigger covers(a, addr)]
        #![trigger covers(b, addr)]
        covers(a, addr) <==> covers(b, addr)
}

/// `whole` covers the addresses that `part` covers and those of the span of
/// `size` bytes at `start`, and no others.
pub open spec fn covers_with(
    whole: Seq<FreeBlock>,
    part: Seq<FreeBlock>,
    start: usize,
    size: usize,
) -> bool {
    forall|addr: int|
        #![trigger covers(whole, addr)]
        #![trigger covers(part, addr)]
        #![trigger extent_holds(start, size, addr)]
        covers(whole, addr) <==> covers(part, addr) || extent_holds(start, size, addr)
}

/// The blocks stand in the order of their addresses.
pub open spec fn sorted_by_start(table: Seq<FreeBlock>) -> bool {
    forall|i: int, j: int|
        0 <= i < j < table.len() ==> (#[trigger] table[i]).start < (#[trigger] table[j]).start
}

/// The buddy relation: two blocks of one size, the second at the address of
/// the first with the bit of the size flipped.
pub open spec fn buddies(a: FreeBlock, b: FreeBlock) -> bool {
    a.size == b.size && (a.start ^ a.size) == b.start
}

/// No two blocks of the table are buddies.
pub open spec fn no_buddies(table: Seq<FreeBlock>) -> bool {
    forall|i: int, j: int|
        0 <= i < table.len() && 0 <= j < table.len() && i != j ==> !buddies(
            #[trigger] table[i],
            #[trigger] table[j],
        )
}

/// `merged` is `source` with every pair of buddies joined, over and over,
/// until none is left: the same bytes, in blocks that can grow no more, in
/// the order of their addresses. There is one such table for each source
/// (`lemma_coalescing_unique`).
pub open spec fn is_coalescing_of(merged: Seq<FreeBlock>, source: Seq<FreeBlock>) -> bool {
    &&& free_table_wf(merged)
    &&& sorted_by_start(merged)
    &&& no_buddies(merged)
    &&& free_bytes(merged) == free_bytes(source)
    &&& same_addresses(merged, source)
}

/// The table coalesced: its buddies joined until none is left, in the order
/// of the addresses.
pub open spec fn coalesced(source: Seq<FreeBlock>) -> Seq<FreeBlock> {
    choose|merged: Seq<FreeBlock>| is_coalescing_of(merged, source)
}

/// The bytes of a table with one more block at its end.
pub proof fn lemma_free_bytes_push(table: Seq<FreeBlock>, block: FreeBlock)
    ensures
        free_bytes(table.push(block)) == free_bytes(table) + block.size,
{
    assert(table.push(block).drop_last() =~= table);
}

/// The bytes of a table with one more block anywhere in it.
pub proof fn lemma_free_bytes_insert(table: Seq<FreeBlock>, at: int, block: FreeBlock)
    requires
        0 <= at <= table.len(),
    ensures
        free_bytes(table.insert(at, block)) == free_bytes(table) + block.size,
    decreases table.len(),
{
    if at == table.len() {
        assert(table.insert(at, block) =~= table.push(block));
        lemma_free_bytes_push(table, block);
    } else {
        assert(table.insert(at, block).drop_last() =~= table.drop_last().insert(at, block));
        lemma_free_bytes_insert(table.drop_last(), at, block);
    }
}

/// The bytes of a table with one block taken out.
pub proof fn lemma_free_bytes_remove(table: Seq<FreeBlock>, at: int)
    requires
        0 <= at < table.len(),
    ensures
        free_bytes(table.remove(at)) == free_bytes(table) - table[at].size,
    decreases table.len(),
{
    if at == table.len() - 1 {
        assert(table.remove(at) =~= table.drop_last());
    } else {
        assert(table.remove(at).drop_last() =~= table.drop_last().remove(at));
        lemma_free_bytes_remove(table.drop_last(), at);
    }
}

/// A table in another order is a table still, over the same addresses.
pub proof fn lemma_reordered_table(a: Seq<FreeBlock>, b: Seq<FreeBlock>)
    requires
        free_table_wf(a),
        a.to_multiset() == b.to_multiset(),
    ensures
        free_table_wf(b),
        same_addresses(b, a),
{
    lemma_distinct_blocks(a);
    a.lemma_multiset_has_no_duplicates();
    b.lemma_multiset_has_no_duplicates_conv();
    assert forall|j: int| 0 <= j < b.len() implies a.contains(#[trigger] b[j]) by {
        assert(b.contains(b[j]));
        to_multiset_contains(b, b[j]);
        to_multiset_contains(a, b[j]);
    }
    assert forall|i: int| 0 <= i < a.len() implies b.contains(#[trigger] a[i]) by {
        assert(a.contains(a[i]));
        to_multiset_contains(a, a[i]);
        to_multiset_contains(b, a[i]);
    }
    assert forall|i: int, j: int| 0 <= i < j < b.len() implies !extents_overlap(
        (#[trigger] b[i]).start,
        b[i].size,
        (#[trigger] b[j]).start,
        b[j].size,
    ) by {
        assert(a.contains(b[i]));
        assert(a.contains(b[j]));
        let p = choose|p: int| 0 <= p < a.len() && a[p] == b[i];
        let q = choose|q: int| 0 <= q < a.len() && a[q] == b[j];
        assert(b[i] != b[j]);
        assert(p != q);
    }
    assert forall|j: int| 0 <= j < b.len() implies (#[trigger] b[j]).is_free && valid_extent(
        b[j].start,
        b[j].size,
    ) by {
        assert(a.contains(b[j]));
    }
    assert forall|addr: int|
        #![trigger covers(b, addr)]
        #![trigger covers(a, addr)]
        covers(b, addr) <==> covers(a, addr) by {
        if covers(b, addr) {
            let j = choose|j: int|
                0 <= j < b.len() && extent_holds((#[trigger] b[j]).start, b[j].size, addr);
            assert(a.contains(b[j]));
            let p = choose|p: int| 0 <= p < a.len() && a[p] == b[j];
            assert(extent_holds(a[p].start, a[p].size, addr));
        }
        if covers(a, addr) {
            let i = choose|i: int|
                0 <= i < a.len() && extent_holds((#[trigger] a[i]).start, a[i].size, addr);
            assert(b.contains(a[i]));
            let q = choose|q: int| 0 <= q < b.len() && b[q] == a[i];
            assert(extent_holds(b[q].start, b[q].size, addr));
        }
    }
}

/// No block stands twice in a table.
pub proof fn lemma_distinct_blocks(table: Seq<FreeBlock>)
    requires
        free_table_wf(table),
    ensures
        table.no_duplicates(),
        forall|i: int, j: int|
            0 <= i < table.len() && 0 <= j < table.len() && i != j ==> (#[trigger] table[i]).start
                != (#[trigger] table[j]).start,
{
    assert forall|i: int, j: int|
        0 <= i < table.len() && 0 <= j < table.len() && i != j implies (#[trigger] table[i]).start
        != (#[trigger] table[j]).start by {
        lemma_block_not_empty(table[i].start, table[i].size);
        lemma_block_not_empty(table[j].start, table[j].size);
        if i < j {
            assert(!extents_overlap(table[i].start, table[i].size, table[j].start, table[j].size));
        } else {
            assert(!extents_overlap(table[j].start, table[j].size, table[i].start, table[i].size));
        }
    }
}

/// A block has a byte at least.
pub proof fn lemma_block_not_empty(start: usize, size: usize)
    requires
        valid_extent(start, size),
    ensures
        size >= 1,
{
    reveal(vstd::arithmetic::power2::is_pow2);
}

/// The blocks in the order of their addresses, where two of them may have
/// one address.
pub(crate) open spec fn ordered_by_start(table: Seq<FreeBlock>) -> bool {
    forall|i: int, j: int|
        0 <= i < j < table.len() ==> (#[trigger] table[i]).start <= (#[trigger] table[j]).start
}

/// Puts the blocks of the table in the order of their addresses.
fn sort_by_start(table: &mut Vec<FreeBlock>)
    requires
        free_table_wf(old(table)@),
    ensures
        free_table_wf(final(table)@),
        sorted_by_start(final(table)@),
        final(table)@.to_multiset() == old(table)@.to_multiset(),
        final(table)@.len() == old(table)@.len(),
        free_bytes(final(table)@) == free_bytes(old(table)@),
        same_addresses(final(table)@, old(table)@),
{
    let mut sorted: Vec<FreeBlock> = Vec::new();
    let mut k: usize = 0;
    let n = table.len();
    assert(table@.subrange(0, 0) =~= Seq::<FreeBlock>::empty());
    while k < n
        invariant
            n == table@.len(),
            k <= n,
            sorted@.len() == k,
            ordered_by_start(sorted@),
            sorted@.to_multiset() == table@.subrange(0, k as int).to_multiset(),
            free_bytes(sorted@) == free_bytes(table@.subrange(0, k as int)),
        decreases n - k,
    {
        let block = table[k];
        let mut at: usize = 0;
        while at < sorted.len() && sorted[at].start <= block.start
            invariant
                at <= sorted@.len(),
                forall|j: int| 0 <= j < at ==> (#[trigger] sorted@[j]).start <= block.start,
            decreases sorted@.len() - at,
        {
            at += 1;
        }
        proof {
            let before = sorted@;
            let after = before.insert(at as int, block);
            before.insert_ensures(at as int, block);
            to_multiset_insert(before, at as int, block);
            lemma_free_bytes_insert(before, at as int, block);
            let seen = table@.subrange(0, k as int);
            assert(table@.subrange(0, k + 1) =~= seen.push(block));
            to_multiset_build(seen, block);
            lemma_free_bytes_push(seen, block);
            assert forall|i: int, j: int| 0 <= i < j < after.len() implies (#[trigger] after[i])
                .start <= (#[trigger] after[j]).start by {
                if j < at {
                    assert(after[i] == before[i] && after[j] == before[j]);
                } else if j == at {
                    assert(after[i] == before[i]);
                } else if i < at {
                    assert(after[i] == before[i] && after[j] == before[j - 1]);
                } else if i == at {
                    assert(after[j] == before[j - 1]);
                    assert(before[at as int].start > block.start);
                } else {
                    assert(after[i] == before[i - 1] && after[j] == before[j - 1]);
                }
            }
        }
        sorted.insert(at, block);
        k += 1;
    }
    proof {
        assert(table@.subrange(0, n as int) =~= table@);
        lemma_reordered_table(table@, sorted@);
        lemma_distinct_blocks(sorted@);
    }
    *table = sorted;
}

/// Whether one of the first `n` blocks of the table holds the address.
spec fn covers_below(table: Seq<FreeBlock>, n: int, addr: int) -> bool {
    exists|i: int| 0 <= i < n && extent_holds((#[trigger] table[i]).start, table[i].size, addr)
}

/// No block of the table is the buddy of the block right behind it.
pub(crate) open spec fn no_adjacent_buddies(table: Seq<FreeBlock>, n: int) -> bool {
    forall|k: int| 0 <= k < n && k + 1 < table.len() ==> !buddies(#[trigger] table[k], table[k + 1])
}

/// In a table in address order, buddies can only stand side by side.
pub(crate) proof fn lemma_no_adjacent_buddies(table: Seq<FreeBlock>)
    requires
        free_table_wf(table),
        sorted_by_start(table),
        no_adjacent_buddies(table, table.len() as int),
    ensures
        no_buddies(table),
{
    assert forall|i: int, j: int|
        0 <= i < table.len() && 0 <= j < table.len() && i != j implies !buddies(
        #[trigger] table[i],
        #[trigger] table[j],
    ) by {
        if buddies(table[i], table[j]) {
            lemma_buddy_address(table[i].start, table[i].size);
            lemma_buddy_address(table[j].start, table[j].size);
            lemma_block_not_empty(table[i].start, table[i].size);
            let (lo, hi) = if table[i].start < table[j].start {
                (i, j)
            } else {
                (j, i)
            };
            assert(table[lo].start + table[lo].size == table[hi].start);
            assert(buddies(table[lo], table[hi]));
            assert(lo < hi);
            if lo + 1 < hi {
                assert(!extents_overlap(
                    table[lo].start,
                    table[lo].size,
                    table[lo + 1].start,
                    table[lo + 1].size,
                ));
                assert(table[lo + 1].start < table[hi].start);
            }
            assert(!buddies(table[lo], table[lo + 1]));
        }
    }
}

/// What a sweep has written when it has read the first `read` blocks of the
/// table: a table of as many bytes, over the addresses of those blocks, and
/// ahead of all the blocks that are still to be read.
spec fn swept(table: Seq<FreeBlock>, read: int, written: Seq<FreeBlock>) -> bool {
    &&& free_table_wf(written)
    &&& forall|j: int, k: int|
        0 <= j < written.len() && read <= k < table.len() ==> (#[trigger] written[j]).start
            + written[j].size <= (#[trigger] table[k]).start
    &&& free_bytes(written) == free_bytes(table.subrange(0, read))
    &&& forall|addr: int| covers(written, addr) <==> covers_below(table, read, addr)
}

/// A sweep goes on by writing one block for the next block of the table, or
/// one block for the next two where they lie side by side.
proof fn lemma_sweep_step(
    table: Seq<FreeBlock>,
    read: int,
    written: Seq<FreeBlock>,
    count: int,
    block: FreeBlock,
)
    requires
        free_table_wf(table),
        sorted_by_start(table),
        swept(table, read, written),
        0 <= read,
        1 <= count <= 2,
        read + count <= table.len(),
        block.is_free,
        valid_extent(block.start, block.size),
        block.start == table[read].start,
        count == 1 ==> block.size == table[read].size,
        count == 2 ==> table[read].start + table[read].size == table[read + 1].start && block.size
            == table[read].size + table[read + 1].size,
    ensures
        swept(table, read + count, written.push(block)),
{
    let more = written.push(block);
    let last = read + count - 1;
    lemma_block_not_empty(table[read].start, table[read].size);
    lemma_block_not_empty(table[last].start, table[last].size);
    lemma_free_bytes_push(written, block);
    lemma_free_bytes_push(table.subrange(0, read), table[read]);
    assert(table.subrange(0, read + 1) =~= table.subrange(0, read).push(table[read]));
    if count == 2 {
        lemma_free_bytes_push(table.subrange(0, read + 1), table[read + 1]);
        assert(table.subrange(0, read + 2) =~= table.subrange(0, read + 1).push(table[read + 1]));
    }
    assert forall|j: int, k: int|
        0 <= j < more.len() && read + count <= k < table.len() implies (#[trigger] more[j]).start
        + more[j].size <= (#[trigger] table[k]).start by {
        if j < written.len() {
            assert(more[j] == written[j]);
        } else {
            assert(!extents_overlap(
                table[last].start,
                table[last].size,
                table[k].start,
                table[k].size,
            ));
        }
    }
    assert forall|a: int, b: int| 0 <= a < b < more.len() implies !extents_overlap(
        (#[trigger] more[a]).start,
        more[a].size,
        (#[trigger] more[b]).start,
        more[b].size,
    ) by {
        assert(more[a] == written[a]);
        if b < written.len() {
            assert(more[b] == written[b]);
        } else {
            assert(written[a].start + written[a].size <= table[read].start);
        }
    }
    assert forall|addr: int| covers(more, addr) <==> covers_below(table, read + count, addr) by {
        if covers(more, addr) {
            let j = choose|j: int|
                0 <= j < more.len() && extent_holds((#[trigger] more[j]).start, more[j].size, addr);
            if j < written.len() {
                assert(extent_holds(written[j].start, written[j].size, addr));
                assert(covers(written, addr));
                let k = choose|k: int|
                    0 <= k < read && extent_holds(
                        (#[trigger] table[k]).start,
                        table[k].size,
                        addr,
                    );
                assert(extent_holds(table[k].start, table[k].size, addr));
            } else if addr < table[read].start + table[read].size {
                assert(extent_holds(table[read].start, table[read].size, addr));
            } else {
                assert(extent_holds(table[read + 1].start, table[read + 1].size, addr));
            }
        }
        if covers_below(table, read + count, addr) {
            let k = choose|k: int|
                0 <= k < read + count && extent_holds(
                    (#[trigger] table[k]).start,
                    table[k].size,
                    addr,
                );
            if k < read {
                assert(covers_below(table, read, addr));
                assert(covers(written, addr));
                let j = choose|j: int|
                    0 <= j < written.len() && extent_holds(
                        (#[trigger] written[j]).start,
                        written[j].size,
                        addr,
                    );
                assert(more[j] == written[j]);
                assert(extent_holds(more[j].start, more[j].size, addr));
            } else {
                let end = more.len() - 1;
                assert(more[end] == block);
                assert(extent_holds(more[end].start, more[end].size, addr));
            }
        }
    }
}

/// One sweep over a table in address order: a block whose buddy stands right
/// behind it is joined with it. The flag tells whether any pair was joined.
fn merge_pass(table: &Vec<FreeBlock>) -> (result: (Vec<FreeBlock>, bool))
    requires
        free_table_wf(table@),
        sorted_by_start(table@),
    ensures
        free_table_wf(result.0@),
        free_bytes(result.0@) == free_bytes(table@),
        same_addresses(result.0@, table@),
        result.1 ==> result.0@.len() < table@.len(),
        !result.1 ==> result.0@ == table@ && no_buddies(table@),
{
    let mut merged: Vec<FreeBlock> = Vec::new();
    let mut changed = false;
    let mut i: usize = 0;
    let n = table.len();
    assert(table@.subrange(0, 0) =~= Seq::<FreeBlock>::empty());
    while i < n
        invariant
            n == table@.len(),
            i <= n,
            free_table_wf(table@),
            sorted_by_start(table@),
            swept(table@, i as int, merged@),
            !changed ==> merged@ == table@.subrange(0, i as int) && no_adjacent_buddies(
                table@,
                i as int,
            ),
            changed ==> merged@.len() < i,
            merged@.len() <= i,
        decreases n - i,
    {
        let current = table[i];
        if i + 1 < n && table[i + 1].size == current.size && (current.start ^ current.size)
            == table[i + 1].start {
            let next = table[i + 1];
            let start = if current.start < next.start {
                current.start
            } else {
                next.start
            };
            proof {
                lemma_block_not_empty(current.start, current.size);
                lemma_buddy_address(current.start, current.size);
                lemma_joined(current.start, current.size);
            }
            let joined = FreeBlock::new(start, current.size * 2);
            proof {
                lemma_sweep_step(table@, i as int, merged@, 2, joined);
            }
            merged.push(joined);
            changed = true;
            i += 2;
        } else {
            proof {
                lemma_sweep_step(table@, i as int, merged@, 1, current);
                if !changed {
                    assert(merged@.push(current) =~= table@.subrange(0, i + 1));
                }
            }
            merged.push(current);
            i += 1;
        }
    }
    proof {
        assert(table@.subrange(0, n as int) =~= table@);
        if !changed {
            lemma_no_adjacent_buddies(table@);
        }
    }
    (merged, changed)
}

/// Joins buddies in the table until no two blocks of it are buddies, and
/// leaves the blocks in the order of their addresses.
pub fn coalesce(table: &mut Vec<FreeBlock>)
    requires
        free_table_wf(old(table)@),
    ensures
        final(table)@ == coalesced(old(table)@),
        is_coalescing_of(final(table)@, old(table)@),
{
    let ghost source = table@;
    loop
        invariant_except_break
            free_table_wf(table@),
            free_bytes(table@) == free_bytes(source),
            same_addresses(table@, source),
        ensures
            is_coalescing_of(table@, source),
        decreases table@.len(),
    {
        sort_by_start(table);
        let (merged, changed) = merge_pass(table);
        *table = merged;
        if !changed {
            break;
        }
    }
    proof {
        lemma_coalescing_unique(table@, coalesced(source), source);
    }
}

/// The index of the first free block, from `from` on, that has `need` bytes
/// or more; the length of the table where there is none.
pub open spec fn first_fit(table: Seq<FreeBlock>, need: int, from: int) -> int
    decreases table.len() - from,
{
    if from < 0 || from >= table.len() {
        table.len() as int
    } else if table[from].is_free && table[from].size >= need {
        from
    } else {
        first_fit(table, need, from + 1)
    }
}

/// The upper halves that are left when the block of `size` bytes at `start`
/// is halved until `need` bytes remain, largest first.
pub open spec fn split_remainders(start: usize, size: usize, need: usize) -> Seq<FreeBlock>
    decreases size,
{
    if size <= need || size < 2 {
        Seq::empty()
    } else {
        let half = (size / 2) as usize;
        seq![FreeBlock { start: (start + half) as usize, size: half, is_free: true }]
            + split_remainders(start, half, need)
    }
}

/// What a request does to the table and what it hands out: the first block
/// that is large enough leaves the table, its lower end in the size the
/// request is rounded to is handed out, and the rest goes back in halves.
pub open spec fn reserve_spec(table: Seq<FreeBlock>, requested: usize) -> (
    Seq<FreeBlock>,
    Result<FreeBlock, AllocationFailure>,
) {
    if requested == 0 {
        (table, Err(AllocationFailure::InvalidSize))
    } else if requested > CAPACITY {
        (table, Err(AllocationFailure::TooLarge))
    } else {
        let need = round_up_pow2(requested as nat) as usize;
        let at = first_fit(table, need as int, 0);
        if at >= table.len() {
            (table, Err(AllocationFailure::NoSpace))
        } else {
            (
                table.remove(at) + split_remainders(table[at].start, table[at].size, need),
                Ok(FreeBlock { start: table[at].start, size: need, is_free: false }),
            )
        }
    }
}

/// The first fit is the least index of a block that is large enough.
pub proof fn lemma_first_fit(table: Seq<FreeBlock>, need: int, from: int)
    requires
        0 <= from <= table.len(),
    ensures
        from <= first_fit(table, need, from) <= table.len(),
        first_fit(table, need, from) < table.len() ==> table[first_fit(table, need, from)].is_free
            && table[first_fit(table, need, from)].size >= need,
        forall|i: int|
            from <= i < first_fit(table, need, from) ==> !((#[trigger] table[i]).is_free
                && table[i].size >= need),
    decreases table.len() - from,
{
    if from < table.len() && !(table[from].is_free && table[from].size >= need) {
        lemma_first_fit(table, need, from + 1);
    }
}

/// A table with one block taken out is a table, and the block shares no
/// address with what is left.
pub proof fn lemma_table_remove(table: Seq<FreeBlock>, at: int)
    requires
        free_table_wf(table),
        0 <= at < table.len(),
    ensures
        free_table_wf(table.remove(at)),
        clear_of(table.remove(at), table[at].start, table[at].size),
        covers_with(table, table.remove(at), table[at].start, table[at].size),
{
    let rest = table.remove(at);
    assert forall|j: int| 0 <= j < rest.len() implies !extents_overlap(
        table[at].start,
        table[at].size,
        (#[trigger] rest[j]).start,
        rest[j].size,
    ) by {
        if j < at {
            assert(rest[j] == table[j]);
        } else {
            assert(rest[j] == table[j + 1]);
        }
    }
    let taken = table[at];
    assert forall|addr: int|
        #![trigger covers(table, addr)]
        #![trigger covers(rest, addr)]
        #![trigger extent_holds(taken.start, taken.size, addr)]
        covers(table, addr) <==> covers(rest, addr) || extent_holds(
            taken.start,
            taken.size,
            addr,
        ) by {
        if covers(table, addr) {
            let i = choose|i: int|
                0 <= i < table.len() && extent_holds(
                    (#[trigger] table[i]).start,
                    table[i].size,
                    addr,
                );
            if i < at {
                assert(rest[i] == table[i]);
                assert(extent_holds(rest[i].start, rest[i].size, addr));
            } else if i > at {
                assert(rest[i - 1] == table[i]);
                assert(extent_holds(rest[i - 1].start, rest[i - 1].size, addr));
            }
        }
        if covers(rest, addr) {
            let j = choose|j: int|
                0 <= j < rest.len() && extent_holds((#[trigger] rest[j]).start, rest[j].size, addr);
            if j < at {
                assert(rest[j] == table[j]);
                assert(extent_holds(table[j].start, table[j].size, addr));
            } else {
                assert(rest[j] == table[j + 1]);
                assert(extent_holds(table[j + 1].start, table[j + 1].size, addr));
            }
        }
        if extent_holds(table[at].start, table[at].size, addr) {
            assert(covers(table, addr));
        }
    }
}

/// A table with one more block, which shares no address with the others, is
/// a table.
pub proof fn lemma_table_push(table: Seq<FreeBlock>, block: FreeBlock)
    requires
        free_table_wf(table),
        block.is_free,
        valid_extent(block.start, block.size),
        clear_of(table, block.start, block.size),
    ensures
        free_table_wf(table.push(block)),
        free_bytes(table.push(block)) == free_bytes(table) + block.size,
        covers_with(table.push(block), table, block.start, block.size),
{
    let more = table.push(block);
    lemma_free_bytes_push(table, block);
    assert forall|i: int, j: int| 0 <= i < j < more.len() implies !extents_overlap(
        (#[trigger] more[i]).start,
        more[i].size,
        (#[trigger] more[j]).start,
        more[j].size,
    ) by {
        assert(more[i] == table[i]);
        if j < table.len() {
            assert(more[j] == table[j]);
        }
    }
    assert forall|addr: int|
        #![trigger covers(more, addr)]
        #![trigger covers(table, addr)]
        #![trigger extent_holds(block.start, block.size, addr)]
        covers(more, addr) <==> covers(table, addr) || extent_holds(
            block.start,
            block.size,
            addr,
        ) by {
        if covers(more, addr) {
            let i = choose|i: int|
                0 <= i < more.len() && extent_holds((#[trigger] more[i]).start, more[i].size, addr);
            if i < table.len() {
                assert(more[i] == table[i]);
                assert(extent_holds(table[i].start, table[i].size, addr));
            }
        }
        if covers(table, addr) {
            let i = choose|i: int|
                0 <= i < table.len() && extent_holds(
                    (#[trigger] table[i]).start,
                    table[i].size,
                    addr,
                );
            assert(more[i] == table[i]);
            assert(extent_holds(more[i].start, more[i].size, addr));
        }
        if extent_holds(block.start, block.size, addr) {
            let last = more.len() - 1;
            assert(more[last] == block);
            assert(extent_holds(more[last].start, more[last].size, addr));
        }
    }
}

/// A table with one block taken out has no buddies where the table had none.
proof fn lemma_remove_no_buddies(table: Seq<FreeBlock>, at: int)
    requires
        no_buddies(table),
        0 <= at < table.len(),
    ensures
        no_buddies(table.remove(at)),
{
    let rest = table.remove(at);
    assert forall|i: int, j: int|
        0 <= i < rest.len() && 0 <= j < rest.len() && i != j implies !buddies(
        #[trigger] rest[i],
        #[trigger] rest[j],
    ) by {
        let a = if i < at {
            i
        } else {
            i + 1
        };
        let b = if j < at {
            j
        } else {
            j + 1
        };
        assert(rest[i] == table[a] && rest[j] == table[b]);
    }
}

/// Halving a block down to `need` bytes beside a table leaves a table: the
/// upper halves share no address with each other, with the table, or with
/// what remains of the block, and together with what remains they hold the
/// bytes of the block. No two of them are buddies, and none is the buddy of
/// a block of the table.
proof fn lemma_split(table: Seq<FreeBlock>, start: usize, size: usize, need: usize)
    requires
        free_table_wf(table),
        valid_extent(start, size),
        vstd::arithmetic::power2::is_pow2(need as int),
        need <= size,
        clear_of(table, start, size),
    ensures
        free_table_wf(table + split_remainders(start, size, need)),
        valid_extent(start, need),
        clear_of(table + split_remainders(start, size, need), start, need),
        free_bytes(table + split_remainders(start, size, need)) + need == free_bytes(table) + size,
        forall|addr: int|
            #![trigger covers(table + split_remainders(start, size, need), addr)]
            #![trigger covers(table, addr)]
            covers(table + split_remainders(start, size, need), addr) || extent_holds(
                start,
                need,
                addr,
            ) <==> covers(table, addr) || extent_holds(start, size, addr),
        no_buddies(table) ==> no_buddies(table + split_remainders(start, size, need)),
    decreases size,
{
    lemma_block_not_empty(start, size);
    if size <= need || size < 2 {
        reveal(vstd::arithmetic::power2::is_pow2);
        assert(table + split_remainders(start, size, need) =~= table);
    } else {
        lemma_pow2_gap(need as int, size as int);
        lemma_halves(start, size);
        let half = (size / 2) as usize;
        let upper = FreeBlock { start: (start + half) as usize, size: half, is_free: true };
        let more = table.push(upper);
        lemma_table_push(table, upper);
        assert(more + split_remainders(start, half, need) =~= table + split_remainders(
            start,
            size,
            need,
        ));
        assert forall|j: int| 0 <= j < more.len() implies !extents_overlap(
            start,
            half,
            (#[trigger] more[j]).start,
            more[j].size,
        ) by {
            if j < table.len() {
                assert(more[j] == table[j]);
                assert(!extents_overlap(start, size, table[j].start, table[j].size));
            }
        }
        if no_buddies(table) {
            assert forall|i: int, j: int|
                0 <= i < more.len() && 0 <= j < more.len() && i != j implies !buddies(
                #[trigger] more[i],
                #[trigger] more[j],
            ) by {
                if i < table.len() && j < table.len() {
                    assert(more[i] == table[i] && more[j] == table[j]);
                } else {
                    let k = if i < table.len() {
                        i
                    } else {
                        j
                    };
                    assert(more[k] == table[k]);
                    assert(!extents_overlap(start, size, table[k].start, table[k].size));
                    lemma_block_not_empty(table[k].start, table[k].size);
                    lemma_buddy_address(table[k].start, table[k].size);
                }
            }
        }
        lemma_split(more, start, half, need);
    }
}

/// Serving a request from a table leaves a table. The block that is handed
/// out has the size that the request is rounded up to; it shares no address
/// with the blocks that stay, and together with them it holds the bytes and
/// the addresses that the table held. No buddies come to stand in the table
/// that did not stand in it.
pub proof fn lemma_reserve(table: Seq<FreeBlock>, requested: usize)
    requires
        free_table_wf(table),
    ensures
        free_table_wf(reserve_spec(table, requested).0),
        no_buddies(table) ==> no_buddies(reserve_spec(table, requested).0),
        reserve_spec(table, requested).1 is Err ==> reserve_spec(table, requested).0 == table,
        reserve_spec(table, requested).1 matches Ok(block) ==> {
            &&& 0 < requested <= block.size
            &&& block.size == round_up_pow2(requested as nat)
            &&& valid_extent(block.start, block.size)
            &&& free_bytes(reserve_spec(table, requested).0) + block.size == free_bytes(table)
            &&& clear_of(reserve_spec(table, requested).0, block.start, block.size)
            &&& covers_with(table, reserve_spec(table, requested).0, block.start, block.size)
        },
{
    if 0 < requested <= CAPACITY {
        lemma_round_up_pow2_bounds(requested as nat);
        let need = round_up_pow2(requested as nat) as usize;
        let at = first_fit(table, need as int, 0);
        lemma_first_fit(table, need as int, 0);
        if at < table.len() {
            lemma_table_remove(table, at);
            lemma_free_bytes_remove(table, at);
            if no_buddies(table) {
                lemma_remove_no_buddies(table, at);
            }
            lemma_split(table.remove(at), table[at].start, table[at].size, need);
        }
    }
}

/// Serves a request from the table: finds the first block that is large
/// enough, halves it down to the size the request is rounded to, and hands
/// out what remains. A request that cannot be served leaves the table as it
/// is.
pub fn reserve(table: &mut Vec<FreeBlock>, requested_size: usize) -> (result: Result<
    FreeBlock,
    AllocationFailure,
>)
    requires
        free_table_wf(old(table)@),
    ensures
        (final(table)@, result) == reserve_spec(old(table)@, requested_size),
{
    if requested_size == 0 {
        return Err(AllocationFailure::InvalidSize);
    }
    if requested_size > CAPACITY {
        return Err(AllocationFailure::TooLarge);
    }
    proof {
        lemma_round_up_pow2_bounds(requested_size as nat);
    }
    let need = nearest_power_of_two(requested_size);
    let mut at: usize = 0;
    while at < table.len() && !(table[at].is_free && table[at].size >= need)
        invariant
            at <= table@.len(),
            first_fit(table@, need as int, 0) == first_fit(table@, need as int, at as int),
        decreases table@.len() - at,
    {
        at += 1;
    }
    if at >= table.len() {
        return Err(AllocationFailure::NoSpace);
    }
    let ghost found = table@[at as int];
    let mut block = table.remove(at);
    let ghost rest = table@;
    assert(table@ + split_remainders(block.start, block.size, need) =~= rest + split_remainders(
        found.start,
        found.size,
        need,
    ));
    while block.size > need
        invariant
            vstd::arithmetic::power2::is_pow2(need as int),
            1 <= need <= block.size,
            block.start == found.start,
            valid_extent(block.start, block.size),
            table@ + split_remainders(block.start, block.size, need) == rest + split_remainders(
                found.start,
                found.size,
                need,
            ),
        decreases block.size,
    {
        let ghost before = table@;
        proof {
            lemma_pow2_gap(need as int, block.size as int);
            lemma_halves(block.start, block.size);
        }
        let half_size = block.size / 2;
        let right_block = FreeBlock::new(block.start + half_size, half_size);
        table.push(right_block);
        block.size = half_size;
        assert(before.push(right_block) + split_remainders(block.start, half_size, need)
            =~= before + split_remainders(block.start, (2 * half_size) as usize, need));
    }
    block.is_free = false;
    Ok(block)
}

/// Gives a block back to the table and joins it with whatever it can be
/// joined with.
pub fn release(table: &mut Vec<FreeBlock>, region: FreeBlock)
    requires
        free_table_wf(old(table)@),
        valid_extent(region.start, region.size),
        clear_of(old(table)@, region.start, region.size),
    ensures
        final(table)@ == coalesced(
            old(table)@.push(FreeBlock { start: region.start, size: region.size, is_free: true }),
        ),
{
    let block = FreeBlock::new(region.start, region.size);
    proof {
        lemma_table_push(table@, block);
    }
    table.push(block);
    coalesce(table);
}

} // verus!
