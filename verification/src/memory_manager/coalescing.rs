//! Why coalescing is well defined: every table can be coalesced, and to one
//! table only.

use super::extent::{
    extent_holds, extents_overlap, lemma_buddy_address, lemma_buddy_inside, lemma_joined,
    lemma_nested, valid_extent,
};
use super::free_block::FreeBlock;
use super::free_table::{
    buddies, clear_of, coalesced, covers, free_bytes, free_table_wf, is_coalescing_of,
    lemma_block_not_empty, lemma_distinct_blocks, lemma_free_bytes_insert, lemma_free_bytes_push,
    lemma_free_bytes_remove, lemma_no_adjacent_buddies, lemma_reordered_table, lemma_table_push,
    lemma_table_remove, no_adjacent_buddies, no_buddies, ordered_by_start, same_addresses,
    sorted_by_start,
};
use super::sorting::{lemma_strict_order_unique, strictly_sorted};
use crate::lemma_pow2_gap;
use vstd::prelude::*;
use vstd::seq_lib::{to_multiset_build, to_multiset_insert};

verus! {

/// Where a table without buddies covers a block whole, a block of the table
/// that lies inside that block is no smaller than it.
proof fn lemma_no_block_inside(table: Seq<FreeBlock>, i: int, start: usize, size: usize)
    requires
        free_table_wf(table),
        no_buddies(table),
        valid_extent(start, size),
        forall|addr: int| extent_holds(start, size, addr) ==> #[trigger] covers(table, addr),
        0 <= i < table.len(),
        start <= table[i].start,
        table[i].start + table[i].size <= start + size,
    ensures
        table[i].size >= size,
    decreases table[i].size,
{
    if table[i].size >= size {
        return ;
    }
    let inner = table[i];
    lemma_block_not_empty(inner.start, inner.size);
    lemma_buddy_inside(inner.start, inner.size, start, size);
    lemma_buddy_address(inner.start, inner.size);
    let buddy = inner.start ^ inner.size;
    assert(extent_holds(start, size, buddy as int));
    assert(covers(table, buddy as int));
    let j = choose|j: int|
        0 <= j < table.len() && extent_holds(
            (#[trigger] table[j]).start,
            table[j].size,
            buddy as int,
        );
    let other = table[j];
    lemma_block_not_empty(other.start, other.size);
    if other.size == inner.size {
        lemma_nested(buddy, inner.size, other.start, other.size);
        assert(buddies(table[i], table[j]));
    } else if other.size > inner.size {
        let lower = if buddy < inner.start {
            buddy
        } else {
            inner.start
        };
        lemma_pow2_gap(inner.size as int, other.size as int);
        lemma_nested(lower, (2 * inner.size) as usize, other.start, other.size);
        if i < j {
            assert(!extents_overlap(inner.start, inner.size, other.start, other.size));
        } else {
            assert(!extents_overlap(other.start, other.size, inner.start, inner.size));
        }
    } else {
        lemma_nested(other.start, other.size, buddy, inner.size);
        lemma_no_block_inside(table, j, start, size);
    }
}

/// Of two tables without buddies over the same addresses, each holds the
/// blocks of the other.
proof fn lemma_same_blocks(a: Seq<FreeBlock>, b: Seq<FreeBlock>)
    requires
        free_table_wf(a),
        free_table_wf(b),
        no_buddies(a),
        no_buddies(b),
        same_addresses(a, b),
    ensures
        forall|block: FreeBlock| a.contains(block) ==> b.contains(block),
{
    assert forall|block: FreeBlock| a.contains(block) implies b.contains(block) by {
        let i = choose|i: int| 0 <= i < a.len() && a[i] == block;
        lemma_block_not_empty(block.start, block.size);
        assert(extent_holds(a[i].start, a[i].size, block.start as int));
        assert(covers(a, block.start as int));
        assert(covers(b, block.start as int));
        let j = choose|j: int|
            0 <= j < b.len() && extent_holds(
                (#[trigger] b[j]).start,
                b[j].size,
                block.start as int,
            );
        let other = b[j];
        lemma_block_not_empty(other.start, other.size);
        if other.size == block.size {
            lemma_nested(block.start, block.size, other.start, other.size);
            assert(other == block);
        } else if other.size > block.size {
            lemma_nested(block.start, block.size, other.start, other.size);
            assert forall|addr: int|
                extent_holds(other.start, other.size, addr) implies #[trigger] covers(a, addr) by {
                assert(extent_holds(b[j].start, b[j].size, addr));
                assert(covers(b, addr));
            }
            lemma_no_block_inside(a, i, other.start, other.size);
        } else {
            lemma_nested(other.start, other.size, block.start, block.size);
            assert forall|addr: int|
                extent_holds(block.start, block.size, addr) implies #[trigger] covers(b, addr) by {
                assert(extent_holds(a[i].start, a[i].size, addr));
                assert(covers(a, addr));
            }
            lemma_no_block_inside(b, j, block.start, block.size);
        }
    }
}

/// Coalescing leaves no choice: a table can be coalesced to one table only.
pub proof fn lemma_coalescing_unique(a: Seq<FreeBlock>, b: Seq<FreeBlock>, source: Seq<FreeBlock>)
    requires
        is_coalescing_of(a, source),
        is_coalescing_of(b, source),
    ensures
        a == b,
{
    lemma_same_blocks(a, b);
    lemma_same_blocks(b, a);
    let less = |x: FreeBlock, y: FreeBlock| x.start < y.start;
    assert(strictly_sorted(a, less));
    assert(strictly_sorted(b, less));
    lemma_strict_order_unique(a, b, less);
}

/// A block has a place in a table in address order.
proof fn lemma_place(sorted: Seq<FreeBlock>, block: FreeBlock) -> (at: int)
    requires
        ordered_by_start(sorted),
    ensures
        0 <= at <= sorted.len(),
        ordered_by_start(sorted.insert(at, block)),
    decreases sorted.len(),
{
    if sorted.len() == 0 || sorted.last().start <= block.start {
        let at = sorted.len() as int;
        let placed = sorted.insert(at, block);
        sorted.insert_ensures(at, block);
        assert forall|i: int, j: int| 0 <= i < j < placed.len() implies (#[trigger] placed[i])
            .start <= (#[trigger] placed[j]).start by {
            assert(placed[i] == sorted[i]);
            if j < at {
                assert(placed[j] == sorted[j]);
            } else if i < at - 1 {
                assert(sorted[i].start <= sorted[at - 1].start);
            }
        }
        at
    } else {
        let front = sorted.drop_last();
        let at = lemma_place(front, block);
        let inner = front.insert(at, block);
        let placed = sorted.insert(at, block);
        front.insert_ensures(at, block);
        assert(placed =~= inner.push(sorted.last()));
        assert forall|i: int, j: int| 0 <= i < j < placed.len() implies (#[trigger] placed[i])
            .start <= (#[trigger] placed[j]).start by {
            assert(placed[i] == inner[i]);
            if j < inner.len() {
                assert(placed[j] == inner[j]);
            } else if i < at {
                assert(inner[i] == front[i]);
                assert(sorted[i].start <= sorted[sorted.len() - 1].start);
            } else if i > at {
                assert(inner[i] == front[i - 1]);
                assert(sorted[i - 1].start <= sorted[sorted.len() - 1].start);
            }
        }
        at
    }
}

/// The blocks of a table can stand in the order of their addresses.
proof fn lemma_some_sorted(table: Seq<FreeBlock>) -> (sorted: Seq<FreeBlock>)
    requires
        free_table_wf(table),
    ensures
        free_table_wf(sorted),
        sorted_by_start(sorted),
        sorted.len() == table.len(),
        free_bytes(sorted) == free_bytes(table),
        same_addresses(sorted, table),
    decreases table.len(),
{
    if table.len() == 0 {
        table
    } else {
        let front = table.drop_last();
        let last = table.last();
        assert(free_table_wf(front)) by {
            assert forall|i: int| 0 <= i < front.len() implies (#[trigger] front[i])
                == table[i] by {}
        }
        let rest = lemma_some_sorted(front);
        let at = lemma_place(rest, last);
        let sorted = rest.insert(at, last);
        assert(front.push(last) =~= table);
        lemma_free_bytes_insert(rest, at, last);
        lemma_free_bytes_push(front, last);
        assert(clear_of(rest, last.start, last.size)) by {
            assert forall|j: int| 0 <= j < rest.len() implies !extents_overlap(
                last.start,
                last.size,
                (#[trigger] rest[j]).start,
                rest[j].size,
            ) by {
                lemma_block_not_empty(rest[j].start, rest[j].size);
                lemma_block_not_empty(last.start, last.size);
                if extents_overlap(last.start, last.size, rest[j].start, rest[j].size) {
                    let addr = if last.start < rest[j].start {
                        rest[j].start as int
                    } else {
                        last.start as int
                    };
                    assert(extent_holds(rest[j].start, rest[j].size, addr));
                    assert(covers(rest, addr));
                    assert(covers(front, addr));
                    let i = choose|i: int|
                        0 <= i < front.len() && extent_holds(
                            (#[trigger] front[i]).start,
                            front[i].size,
                            addr,
                        );
                    assert(!extents_overlap(
                        table[i].start,
                        table[i].size,
                        table[table.len() - 1].start,
                        table[table.len() - 1].size,
                    ));
                }
            }
        }
        lemma_table_push(rest, last);
        lemma_table_push(front, last);
        to_multiset_insert(rest, at, last);
        to_multiset_build(rest, last);
        lemma_reordered_table(rest.push(last), sorted);
        lemma_distinct_blocks(sorted);
        sorted
    }
}

/// Two buddies of a table can be taken out of it and put back as one block.
proof fn lemma_join(table: Seq<FreeBlock>, k: int) -> (joined: Seq<FreeBlock>)
    requires
        free_table_wf(table),
        sorted_by_start(table),
        0 <= k,
        k + 1 < table.len(),
        buddies(table[k], table[k + 1]),
    ensures
        free_table_wf(joined),
        joined.len() + 1 == table.len(),
        free_bytes(joined) == free_bytes(table),
        same_addresses(joined, table),
{
    let lower = table[k];
    let upper = table[k + 1];
    lemma_block_not_empty(lower.start, lower.size);
    lemma_buddy_address(lower.start, lower.size);
    assert(!extents_overlap(lower.start, lower.size, upper.start, upper.size));
    lemma_joined(lower.start, lower.size);
    let whole = FreeBlock { start: lower.start, size: (2 * lower.size) as usize, is_free: true };
    let first = table.remove(k + 1);
    lemma_table_remove(table, k + 1);
    lemma_free_bytes_remove(table, k + 1);
    assert(first[k] == lower);
    let second = first.remove(k);
    lemma_table_remove(first, k);
    lemma_free_bytes_remove(first, k);
    assert forall|j: int| 0 <= j < second.len() implies !extents_overlap(
        whole.start,
        whole.size,
        (#[trigger] second[j]).start,
        second[j].size,
    ) by {
        let i = if j < k {
            j
        } else {
            j + 1
        };
        assert(second[j] == first[i]);
        assert(!extents_overlap(upper.start, upper.size, first[i].start, first[i].size));
        assert(!extents_overlap(lower.start, lower.size, second[j].start, second[j].size));
    }
    lemma_table_push(second, whole);
    let joined = second.push(whole);
    assert forall|addr: int|
        #![trigger covers(joined, addr)]
        #![trigger covers(table, addr)]
        covers(joined, addr) <==> covers(table, addr) by {
        assert(extent_holds(whole.start, whole.size, addr) <==> extent_holds(
            lower.start,
            lower.size,
            addr,
        ) || extent_holds(upper.start, upper.size, addr));
        assert(covers(joined, addr) <==> covers(second, addr) || extent_holds(
            whole.start,
            whole.size,
            addr,
        ));
        assert(covers(first, addr) <==> covers(second, addr) || extent_holds(
            lower.start,
            lower.size,
            addr,
        ));
        assert(covers(table, addr) <==> covers(first, addr) || extent_holds(
            upper.start,
            upper.size,
            addr,
        ));
    }
    joined
}

/// Every table can be coalesced: the coalesced table has the bytes and the
/// addresses of the table, in blocks of which no two are buddies, in the
/// order of the addresses.
pub proof fn lemma_coalesced(source: Seq<FreeBlock>)
    requires
        free_table_wf(source),
    ensures
        is_coalescing_of(coalesced(source), source),
    decreases source.len(),
{
    let sorted = lemma_some_sorted(source);
    if no_adjacent_buddies(sorted, sorted.len() as int) {
        lemma_no_adjacent_buddies(sorted);
        assert(is_coalescing_of(sorted, source));
    } else {
        let k = choose|k: int|
            0 <= k < sorted.len() && k + 1 < sorted.len() && buddies(
                #[trigger] sorted[k],
                sorted[k + 1],
            );
        let joined = lemma_join(sorted, k);
        lemma_coalesced(joined);
        assert(is_coalescing_of(coalesced(joined), source));
    }
}

} // verus!
