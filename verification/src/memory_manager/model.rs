//! The state of a manager as the contracts speak of it, and what each
//! operation makes of it.

use super::allocated_block::AllocatedRegion;
use super::extent::{extent_holds, extents_overlap, valid_extent, CAPACITY};
use super::free_block::FreeBlock;
use super::coalescing::lemma_coalesced;
use super::free_table::{
    clear_of, coalesced, covers, covers_with, free_bytes, free_table_wf, lemma_block_not_empty,
    lemma_first_fit, lemma_reserve, lemma_table_push, no_buddies, reserve_spec,
};
use super::{AllocationFailure, BlockNotFound, UpdateError, WriteError};
use crate::{lemma_round_up_pow2_bounds, round_up_pow2};
use vstd::prelude::*;

verus! {

/// The state of a manager: the bytes of the arena, the table of free blocks
/// in its order, the allocated blocks by identifier, and the identifier that
/// the next block will get.
pub struct ManagerView {
    pub arena: Seq<u8>,
    pub free: Seq<FreeBlock>,
    pub blocks: Map<usize, AllocatedRegion>,
    pub next_id: usize,
}

/// The bytes reserved by the allocated blocks with an identifier below `n`.
pub open spec fn allocated_bytes_below(blocks: Map<usize, AllocatedRegion>, n: int) -> int
    decreases n,
{
    if n <= 0 {
        0
    } else {
        allocated_bytes_below(blocks, n - 1) + reserved_by(blocks, n - 1)
    }
}

/// The bytes that the block of identifier `id` reserves; none where there is
/// no such block.
pub open spec fn reserved_by(blocks: Map<usize, AllocatedRegion>, id: int) -> int {
    if 0 <= id <= usize::MAX && blocks.contains_key(id as usize) {
        blocks[id as usize].size as int
    } else {
        0
    }
}

/// `bytes` laid over `arena` from the address `at` on.
pub open spec fn overwrite(arena: Seq<u8>, at: int, bytes: Seq<u8>) -> Seq<u8> {
    Seq::new(
        arena.len(),
        |i: int|
            if at <= i < at + bytes.len() {
                bytes[i - at]
            } else {
                arena[i]
            },
    )
}

/// `arena` with the `count` bytes from the address `at` on set to zero.
pub open spec fn zeroed(arena: Seq<u8>, at: int, count: int) -> Seq<u8> {
    Seq::new(
        arena.len(),
        |i: int|
            if at <= i < at + count {
                0u8
            } else {
                arena[i]
            },
    )
}

impl ManagerView {
    /// The bytes reserved by all allocated blocks, whatever their
    /// identifiers.
    pub open spec fn allocated_bytes(self) -> int {
        allocated_bytes_below(self.blocks, usize::MAX + 1)
    }

    /// What holds of a manager between any two operations: the arena is
    /// parted into blocks, no two free blocks are buddies, and the
    /// identifier that comes next is above all that are in use.
    pub open spec fn inv(self) -> bool {
        &&& self.partitioned()
        &&& no_buddies(self.free)
        &&& forall|id: usize| #[trigger] self.blocks.contains_key(id) ==> id < self.next_id
    }

    /// The arena is parted into blocks: the blocks of both tables are blocks
    /// of the buddy system, no two of them share an address, and together
    /// they hold every byte of the arena once.
    pub open spec fn partitioned(self) -> bool {
        &&& self.arena.len() == CAPACITY
        &&& free_table_wf(self.free)
        &&& self.blocks.dom().finite()
        &&& forall|id: usize| #[trigger]
            self.blocks.contains_key(id) ==> {
                &&& valid_extent(self.blocks[id].start, self.blocks[id].size)
                &&& self.blocks[id].used_length <= self.blocks[id].size
            }
        &&& forall|a: usize, b: usize|
            #[trigger] self.blocks.contains_key(a) && #[trigger] self.blocks.contains_key(b) && a
                != b ==> !extents_overlap(
                self.blocks[a].start,
                self.blocks[a].size,
                self.blocks[b].start,
                self.blocks[b].size,
            )
        &&& forall|i: int, id: usize|
            0 <= i < self.free.len() && #[trigger] self.blocks.contains_key(id)
                ==> !extents_overlap(
                (#[trigger] self.free[i]).start,
                self.free[i].size,
                self.blocks[id].start,
                self.blocks[id].size,
            )
        &&& free_bytes(self.free) + self.allocated_bytes() == CAPACITY
    }

    /// The state of a manager that has allocated nothing yet.
    pub open spec fn fresh() -> ManagerView {
        ManagerView {
            arena: Seq::new(CAPACITY as nat, |i: int| 0u8),
            free: seq![FreeBlock { start: 0, size: CAPACITY, is_free: true }],
            blocks: Map::empty(),
            next_id: 0,
        }
    }

    /// The bytes in use of the block `id`.
    pub open spec fn content(self, id: usize) -> Seq<u8> {
        self.arena.subrange(
            self.blocks[id].start as int,
            self.blocks[id].start + self.blocks[id].used_length,
        )
    }

    /// What a request for `requested` bytes makes of the state, and what it
    /// returns: a block is reserved from the free table and entered under
    /// the next identifier, with `requested` bytes in use; a request that
    /// cannot be served changes nothing.
    pub open spec fn allocate(self, requested: usize) -> (
        ManagerView,
        Result<usize, AllocationFailure>,
    ) {
        match reserve_spec(self.free, requested).1 {
            Ok(block) => (
                ManagerView {
                    arena: self.arena,
                    free: reserve_spec(self.free, requested).0,
                    blocks: self.blocks.insert(
                        self.next_id,
                        AllocatedRegion {
                            start: block.start,
                            size: block.size,
                            used_length: requested,
                        },
                    ),
                    next_id: (self.next_id + 1) as usize,
                },
                Ok(self.next_id),
            ),
            Err(e) => (self, Err(e)),
        }
    }

    /// What writing `bytes` to the block `id` makes of the state, and what it
    /// returns: the bytes lie at the start of the block and are what the
    /// block has in use; a write that fails changes nothing.
    pub open spec fn write(self, id: usize, bytes: Seq<u8>) -> (
        ManagerView,
        Result<(), WriteError>,
    ) {
        if !self.blocks.contains_key(id) {
            (self, Err(WriteError::BlockNotFound))
        } else if bytes.len() > self.blocks[id].size {
            (self, Err(WriteError::DataTooLarge))
        } else {
            (
                ManagerView {
                    arena: overwrite(self.arena, self.blocks[id].start as int, bytes),
                    free: self.free,
                    blocks: self.blocks.insert(
                        id,
                        AllocatedRegion {
                            start: self.blocks[id].start,
                            size: self.blocks[id].size,
                            used_length: bytes.len() as usize,
                        },
                    ),
                    next_id: self.next_id,
                },
                Ok(()),
            )
        }
    }

    /// The state after `bytes` have replaced the content of the block `id`
    /// in place: the bytes lie at the start of the block and the rest of the
    /// block is zero.
    pub open spec fn rewrite(self, id: usize, bytes: Seq<u8>) -> ManagerView {
        ManagerView {
            arena: overwrite(
                zeroed(
                    self.arena,
                    self.blocks[id].start as int,
                    self.blocks[id].size as int,
                ),
                self.blocks[id].start as int,
                bytes,
            ),
            free: self.free,
            blocks: self.blocks.insert(
                id,
                AllocatedRegion {
                    start: self.blocks[id].start,
                    size: self.blocks[id].size,
                    used_length: bytes.len() as usize,
                },
            ),
            next_id: self.next_id,
        }
    }

    /// The block `id` as a free block.
    pub open spec fn freed(self, id: usize) -> FreeBlock {
        FreeBlock { start: self.blocks[id].start, size: self.blocks[id].size, is_free: true }
    }

    /// What deleting the block `id` makes of the state, and what it returns:
    /// the block leaves the allocated blocks and goes to the end of the free
    /// table, which is then coalesced; where there is no such block, nothing
    /// changes.
    pub open spec fn delete(self, id: usize) -> (ManagerView, Result<(), BlockNotFound>) {
        if self.blocks.contains_key(id) {
            (
                ManagerView {
                    arena: self.arena,
                    free: coalesced(self.free.push(self.freed(id))),
                    blocks: self.blocks.remove(id),
                    next_id: self.next_id,
                },
                Ok(()),
            )
        } else {
            (self, Err(BlockNotFound))
        }
    }

    /// What replacing the content of the block `id` by `bytes` makes of the
    /// state, and what it returns. Bytes that fit in the block are written in
    /// place, and the identifier stays. Bytes that do not fit get a new
    /// block, under a new identifier, and the old block is deleted; where no
    /// new block can be had, nothing changes.
    pub open spec fn update(self, id: usize, bytes: Seq<u8>) -> (
        ManagerView,
        Result<usize, UpdateError>,
    ) {
        if !self.blocks.contains_key(id) {
            (self, Err(UpdateError::BlockNotFound))
        } else if bytes.len() <= self.blocks[id].size {
            (self.rewrite(id, bytes), Ok(id))
        } else {
            match self.allocate(bytes.len() as usize) {
                (moved, Ok(new_id)) => (moved.write(new_id, bytes).0.delete(id).0, Ok(new_id)),
                (_, Err(e)) => (self, Err(UpdateError::Allocation(e))),
            }
        }
    }

    /// The state with the free table coalesced.
    pub open spec fn coalesce(self) -> ManagerView {
        ManagerView { free: coalesced(self.free), ..self }
    }
}

/// What one identifier adds to the bytes reserved below `n`.
proof fn lemma_allocated_bytes_change(
    a: Map<usize, AllocatedRegion>,
    b: Map<usize, AllocatedRegion>,
    n: int,
    id: usize,
)
    requires
        n <= usize::MAX + 1,
        forall|k: usize| k != id ==> reserved_by(a, k as int) == reserved_by(b, k as int),
    ensures
        allocated_bytes_below(b, n) - allocated_bytes_below(a, n) == if id < n {
            reserved_by(b, id as int) - reserved_by(a, id as int)
        } else {
            0
        },
    decreases n,
{
    if n > 0 {
        lemma_allocated_bytes_change(a, b, n - 1, id);
        if id != n - 1 {
            assert(reserved_by(a, ((n - 1) as usize) as int) == reserved_by(
                b,
                ((n - 1) as usize) as int,
            ));
        }
    }
}

/// Two blocks that share no address with the blocks a table covers share
/// none with its blocks.
proof fn lemma_clear_of_table(table: Seq<FreeBlock>, i: int, start: usize, size: usize)
    requires
        0 <= i < table.len(),
        table[i].size >= 1,
        size >= 1,
        forall|addr: int| covers(table, addr) ==> !extent_holds(start, size, addr),
    ensures
        !extents_overlap(table[i].start, table[i].size, start, size),
{
    if extents_overlap(table[i].start, table[i].size, start, size) {
        let addr = if table[i].start < start {
            start as int
        } else {
            table[i].start as int
        };
        assert(extent_holds(table[i].start, table[i].size, addr));
        assert(covers(table, addr));
    }
}

/// A free table over no more addresses than the one it replaces, and with
/// as many bytes, leaves the state in order.
proof fn lemma_free_replaced(pre: ManagerView, free: Seq<FreeBlock>)
    requires
        pre.partitioned(),
        free_table_wf(free),
        free_bytes(free) == free_bytes(pre.free),
        forall|addr: int|
            #![trigger covers(free, addr)]
            #![trigger covers(pre.free, addr)]
            covers(free, addr) ==> covers(pre.free, addr),
    ensures
        (ManagerView { free, ..pre }).partitioned(),
{
    let post = ManagerView { free, ..pre };
    assert forall|i: int, id: usize|
        0 <= i < post.free.len() && #[trigger] post.blocks.contains_key(id) implies !extents_overlap(
        (#[trigger] post.free[i]).start,
        post.free[i].size,
        post.blocks[id].start,
        post.blocks[id].size,
    ) by {
        let b = pre.blocks[id];
        lemma_block_not_empty(b.start, b.size);
        lemma_block_not_empty(free[i].start, free[i].size);
        assert forall|addr: int| covers(free, addr) implies !extent_holds(
            b.start,
            b.size,
            addr,
        ) by {
            let k = choose|k: int|
                0 <= k < pre.free.len() && extent_holds(
                    (#[trigger] pre.free[k]).start,
                    pre.free[k].size,
                    addr,
                );
            assert(!extents_overlap(pre.free[k].start, pre.free[k].size, b.start, b.size));
        }
        lemma_clear_of_table(free, i, b.start, b.size);
    }
}

/// Moving a block from the allocated blocks to the end of the free table
/// leaves the state in order.
proof fn lemma_block_freed(pre: ManagerView, id: usize)
    requires
        pre.partitioned(),
        pre.blocks.contains_key(id),
    ensures
        (ManagerView {
            free: pre.free.push(
                FreeBlock {
                    start: pre.blocks[id].start,
                    size: pre.blocks[id].size,
                    is_free: true,
                },
            ),
            blocks: pre.blocks.remove(id),
            ..pre
        }).partitioned(),
        free_table_wf(
            pre.free.push(
                FreeBlock {
                    start: pre.blocks[id].start,
                    size: pre.blocks[id].size,
                    is_free: true,
                },
            ),
        ),
{
    let block = FreeBlock { start: pre.blocks[id].start, size: pre.blocks[id].size, is_free: true };
    let post = ManagerView { free: pre.free.push(block), blocks: pre.blocks.remove(id), ..pre };
    assert forall|j: int| 0 <= j < pre.free.len() implies !extents_overlap(
        block.start,
        block.size,
        (#[trigger] pre.free[j]).start,
        pre.free[j].size,
    ) by {
        assert(!extents_overlap(pre.free[j].start, pre.free[j].size, block.start, block.size));
    }
    lemma_table_push(pre.free, block);
    lemma_allocated_bytes_change(pre.blocks, post.blocks, usize::MAX + 1, id);
    assert forall|i: int, k: usize|
        0 <= i < post.free.len() && #[trigger] post.blocks.contains_key(k) implies !extents_overlap(
        (#[trigger] post.free[i]).start,
        post.free[i].size,
        post.blocks[k].start,
        post.blocks[k].size,
    ) by {
        if i < pre.free.len() {
            assert(post.free[i] == pre.free[i]);
        } else {
            assert(pre.blocks.contains_key(k) && pre.blocks.contains_key(id));
        }
    }
}

/// Entering a block that was taken from the free table under the next
/// identifier leaves the state in order.
proof fn lemma_block_allocated(
    pre: ManagerView,
    free: Seq<FreeBlock>,
    block: FreeBlock,
    used: usize,
)
    requires
        pre.partitioned(),
        !pre.blocks.contains_key(pre.next_id),
        free_table_wf(free),
        valid_extent(block.start, block.size),
        used <= block.size,
        free_bytes(free) + block.size == free_bytes(pre.free),
        clear_of(free, block.start, block.size),
        covers_with(pre.free, free, block.start, block.size),
    ensures
        (ManagerView {
            arena: pre.arena,
            free,
            blocks: pre.blocks.insert(
                pre.next_id,
                AllocatedRegion { start: block.start, size: block.size, used_length: used },
            ),
            next_id: (pre.next_id + 1) as usize,
        }).partitioned(),
{
    let region = AllocatedRegion { start: block.start, size: block.size, used_length: used };
    let id = pre.next_id;
    let post = ManagerView {
        arena: pre.arena,
        free,
        blocks: pre.blocks.insert(id, region),
        next_id: (pre.next_id + 1) as usize,
    };
    lemma_carved_clear(pre, free, block);
    lemma_block_not_empty(block.start, block.size);
    lemma_allocated_bytes_change(pre.blocks, post.blocks, usize::MAX + 1, id);
    assert(reserved_by(post.blocks, id as int) == block.size);
    assert forall|a: usize, b: usize|
        #[trigger] post.blocks.contains_key(a) && #[trigger] post.blocks.contains_key(b) && a
            != b implies !extents_overlap(
        post.blocks[a].start,
        post.blocks[a].size,
        post.blocks[b].start,
        post.blocks[b].size,
    ) by {
        if a == id {
            assert(pre.blocks.contains_key(b));
        } else if b == id {
            assert(pre.blocks.contains_key(a));
        } else {
            assert(pre.blocks.contains_key(a) && pre.blocks.contains_key(b));
        }
    }
    assert forall|i: int, k: usize|
        0 <= i < post.free.len() && #[trigger] post.blocks.contains_key(k) implies !extents_overlap(
        (#[trigger] post.free[i]).start,
        post.free[i].size,
        post.blocks[k].start,
        post.blocks[k].size,
    ) by {
        if k != id {
            assert(pre.blocks.contains_key(k));
        }
    }
    assert forall|k: usize| #[trigger] post.blocks.contains_key(k) implies {
        &&& valid_extent(post.blocks[k].start, post.blocks[k].size)
        &&& post.blocks[k].used_length <= post.blocks[k].size
    } by {
        if k != id {
            assert(pre.blocks.contains_key(k));
        }
    }
}

/// What was carved out of the free table shares no address with the
/// allocated blocks, neither what is handed out nor what stays free.
proof fn lemma_carved_clear(pre: ManagerView, free: Seq<FreeBlock>, block: FreeBlock)
    requires
        pre.partitioned(),
        free_table_wf(free),
        valid_extent(block.start, block.size),
        covers_with(pre.free, free, block.start, block.size),
    ensures
        forall|k: usize| #[trigger]
            pre.blocks.contains_key(k) ==> !extents_overlap(
                block.start,
                block.size,
                pre.blocks[k].start,
                pre.blocks[k].size,
            ),
        forall|i: int, k: usize|
            0 <= i < free.len() && #[trigger] pre.blocks.contains_key(k) ==> !extents_overlap(
                (#[trigger] free[i]).start,
                free[i].size,
                pre.blocks[k].start,
                pre.blocks[k].size,
            ),
{
    lemma_block_not_empty(block.start, block.size);
    assert forall|k: usize| #[trigger] pre.blocks.contains_key(k) implies !extents_overlap(
        block.start,
        block.size,
        pre.blocks[k].start,
        pre.blocks[k].size,
    ) && (forall|i: int|
        0 <= i < free.len() ==> !extents_overlap(
            (#[trigger] free[i]).start,
            free[i].size,
            pre.blocks[k].start,
            pre.blocks[k].size,
        )) by {
        let b = pre.blocks[k];
        lemma_block_not_empty(b.start, b.size);
        assert forall|addr: int| covers(pre.free, addr) implies !extent_holds(
            b.start,
            b.size,
            addr,
        ) by {
            let j = choose|j: int|
                0 <= j < pre.free.len() && extent_holds(
                    (#[trigger] pre.free[j]).start,
                    pre.free[j].size,
                    addr,
                );
            assert(!extents_overlap(pre.free[j].start, pre.free[j].size, b.start, b.size));
        }
        let one = seq![block];
        assert(one[0] == block);
        assert forall|addr: int| covers(one, addr) implies !extent_holds(
            b.start,
            b.size,
            addr,
        ) by {
            let j = choose|j: int|
                0 <= j < one.len() && extent_holds((#[trigger] one[j]).start, one[j].size, addr);
            assert(extent_holds(block.start, block.size, addr));
            assert(covers(pre.free, addr));
        }
        lemma_clear_of_table(one, 0, b.start, b.size);
        assert forall|i: int| 0 <= i < free.len() implies !extents_overlap(
            (#[trigger] free[i]).start,
            free[i].size,
            b.start,
            b.size,
        ) by {
            lemma_block_not_empty(free[i].start, free[i].size);
            lemma_clear_of_table(free, i, b.start, b.size);
        }
    }
}

/// Changing the bytes of the arena and the bytes in use of one block leaves
/// the state in order.
proof fn lemma_block_written(pre: ManagerView, id: usize, arena: Seq<u8>, used: usize)
    requires
        pre.partitioned(),
        pre.blocks.contains_key(id),
        used <= pre.blocks[id].size,
        arena.len() == pre.arena.len(),
    ensures
        (ManagerView {
            arena,
            free: pre.free,
            blocks: pre.blocks.insert(
                id,
                AllocatedRegion {
                    start: pre.blocks[id].start,
                    size: pre.blocks[id].size,
                    used_length: used,
                },
            ),
            next_id: pre.next_id,
        }).partitioned(),
{
    let region = AllocatedRegion {
        start: pre.blocks[id].start,
        size: pre.blocks[id].size,
        used_length: used,
    };
    let post = ManagerView {
        arena,
        free: pre.free,
        blocks: pre.blocks.insert(id, region),
        next_id: pre.next_id,
    };
    lemma_allocated_bytes_change(pre.blocks, post.blocks, usize::MAX + 1, id);
    assert forall|a: usize, b: usize|
        #[trigger] post.blocks.contains_key(a) && #[trigger] post.blocks.contains_key(b) && a
            != b implies !extents_overlap(
        post.blocks[a].start,
        post.blocks[a].size,
        post.blocks[b].start,
        post.blocks[b].size,
    ) by {
        assert(pre.blocks.contains_key(a) && pre.blocks.contains_key(b));
    }
    assert forall|i: int, k: usize|
        0 <= i < post.free.len() && #[trigger] post.blocks.contains_key(k) implies !extents_overlap(
        (#[trigger] post.free[i]).start,
        post.free[i].size,
        post.blocks[k].start,
        post.blocks[k].size,
    ) by {
        assert(pre.blocks.contains_key(k));
    }
    assert forall|k: usize| #[trigger] post.blocks.contains_key(k) implies {
        &&& valid_extent(post.blocks[k].start, post.blocks[k].size)
        &&& post.blocks[k].used_length <= post.blocks[k].size
    } by {
        assert(pre.blocks.contains_key(k));
    }
}

/// The state of a manager that has allocated nothing yet is in order.
pub proof fn lemma_fresh_inv()
    ensures
        ManagerView::fresh().inv(),
{
    let state = ManagerView::fresh();
    reveal_with_fuel(vstd::arithmetic::power2::is_pow2, 18);
    reveal_with_fuel(free_bytes, 2);
    assert(valid_extent(0, CAPACITY));
    assert(state.blocks.dom() =~= Set::empty());
    lemma_no_allocated_bytes(state.blocks, usize::MAX + 1);
}

/// Where no block is allocated, no byte is reserved.
proof fn lemma_no_allocated_bytes(blocks: Map<usize, AllocatedRegion>, n: int)
    requires
        forall|id: usize| !blocks.contains_key(id),
    ensures
        allocated_bytes_below(blocks, n) == 0,
    decreases n,
{
    if n > 0 {
        lemma_no_allocated_bytes(blocks, n - 1);
    }
}

/// Whatever the request, and whether it is served or not, it leaves the
/// arena parted into blocks: the free blocks and the allocated blocks hold
/// as many bytes as the arena has, no two of them share an address, and no
/// two free blocks are buddies.
pub proof fn lemma_allocate_partitions(state: ManagerView, requested: usize)
    requires
        state.inv(),
    ensures
        state.allocate(requested).0.partitioned(),
        no_buddies(state.allocate(requested).0.free),
        free_bytes(state.allocate(requested).0.free) + state.allocate(
            requested,
        ).0.allocated_bytes() == CAPACITY,
{
    lemma_reserve(state.free, requested);
    if let Ok(block) = reserve_spec(state.free, requested).1 {
        lemma_block_allocated(state, reserve_spec(state.free, requested).0, block, requested);
    }
}

/// A request leaves the state in order, whether it is served or not, as
/// long as the identifiers have not run out.
pub proof fn lemma_allocate_inv(state: ManagerView, requested: usize)
    requires
        state.inv(),
        state.next_id < usize::MAX,
    ensures
        state.allocate(requested).0.inv(),
{
    lemma_allocate_partitions(state, requested);
}

/// Writing to a block leaves the state in order, whether the bytes are
/// written or not; so does rewriting a block with bytes that fit in it.
pub proof fn lemma_write_inv(state: ManagerView, id: usize, bytes: Seq<u8>)
    requires
        state.inv(),
    ensures
        state.write(id, bytes).0.inv(),
        state.blocks.contains_key(id) && bytes.len() <= state.blocks[id].size ==> state.rewrite(
            id,
            bytes,
        ).inv(),
{
    if state.blocks.contains_key(id) && bytes.len() <= state.blocks[id].size {
        lemma_block_written(state, id, state.write(id, bytes).0.arena, bytes.len() as usize);
        lemma_block_written(state, id, state.rewrite(id, bytes).arena, bytes.len() as usize);
    }
}

/// Deleting a block leaves the state in order, whether there is such a
/// block or not.
pub proof fn lemma_delete_inv(state: ManagerView, id: usize)
    requires
        state.inv(),
    ensures
        state.delete(id).0.inv(),
{
    if state.blocks.contains_key(id) {
        let between = ManagerView {
            free: state.free.push(state.freed(id)),
            blocks: state.blocks.remove(id),
            ..state
        };
        lemma_block_freed(state, id);
        lemma_coalesced(between.free);
        lemma_free_replaced(between, coalesced(between.free));
        assert(state.delete(id).0 == (ManagerView { free: coalesced(between.free), ..between }));
    }
}

/// Coalescing the free table leaves the state in order.
pub proof fn lemma_coalesce_inv(state: ManagerView)
    requires
        state.inv(),
    ensures
        state.coalesce().inv(),
{
    lemma_coalesced(state.free);
    lemma_free_replaced(state, coalesced(state.free));
}

/// Replacing the content of a block leaves the state in order, whether the
/// content is replaced or not.
pub proof fn lemma_update_inv(state: ManagerView, id: usize, bytes: Seq<u8>)
    requires
        state.inv(),
        state.next_id < usize::MAX,
    ensures
        state.update(id, bytes).0.inv(),
{
    if state.blocks.contains_key(id) {
        if bytes.len() <= state.blocks[id].size {
            lemma_write_inv(state, id, bytes);
        } else {
            lemma_allocate_inv(state, bytes.len() as usize);
            if let (moved, Ok(new_id)) = state.allocate(bytes.len() as usize) {
                lemma_write_inv(moved, new_id, bytes);
                lemma_delete_inv(moved.write(new_id, bytes).0, id);
            }
        }
    }
}

/// A block that had to move for its new content is gone under its old
/// identifier and stands under the next one, with the new content.
pub proof fn lemma_update_moves(state: ManagerView, id: usize, bytes: Seq<u8>)
    requires
        state.inv(),
        state.next_id < usize::MAX,
        state.blocks.contains_key(id),
        state.blocks[id].size < bytes.len() <= usize::MAX,
        state.update(id, bytes).1 is Ok,
    ensures
        state.update(id, bytes).1 == Ok::<usize, UpdateError>(state.next_id),
        !state.update(id, bytes).0.blocks.contains_key(id),
        state.update(id, bytes).0.blocks.contains_key(state.next_id),
        state.update(id, bytes).0.content(state.next_id) == bytes,
{
    let moved = state.allocate(bytes.len() as usize).0;
    lemma_allocated_block(state, bytes.len() as usize);
    lemma_round_up_pow2_bounds(bytes.len());
    lemma_allocate_inv(state, bytes.len() as usize);
    lemma_write_then_read(moved, state.next_id, bytes);
}

/// The free blocks and the allocated blocks hold, between them, as many
/// bytes as the arena has.
pub proof fn lemma_bytes_conserved(state: ManagerView)
    requires
        state.inv(),
    ensures
        free_bytes(state.free) + state.allocated_bytes() == CAPACITY,
{
}

/// A request that is served gets the next identifier, and a block of the
/// size that the request is rounded up to, with the requested bytes in use.
pub proof fn lemma_allocated_block(state: ManagerView, requested: usize)
    requires
        state.allocate(requested).1 is Ok,
    ensures
        state.allocate(requested).1 == Ok::<usize, AllocationFailure>(state.next_id),
        state.allocate(requested).0.blocks.contains_key(state.next_id),
        state.allocate(requested).0.blocks[state.next_id].size == round_up_pow2(requested as nat),
        state.allocate(requested).0.blocks[state.next_id].used_length == requested,
        0 < requested <= CAPACITY,
        requested <= state.allocate(requested).0.blocks[state.next_id].size,
{
    lemma_round_up_pow2_bounds(requested as nat);
}

/// A request is turned down for its size alone when it is for no bytes or
/// for more than the arena has, and for want of space when no free block
/// has the size it is rounded up to.
pub proof fn lemma_allocate_failures(state: ManagerView, requested: usize)
    ensures
        state.allocate(requested).1 == Err::<usize, AllocationFailure>(
            AllocationFailure::InvalidSize,
        ) <==> requested == 0,
        state.allocate(requested).1 == Err::<usize, AllocationFailure>(AllocationFailure::TooLarge)
            <==> requested > CAPACITY,
        state.allocate(requested).1 == Err::<usize, AllocationFailure>(AllocationFailure::NoSpace)
            <==> 0 < requested <= CAPACITY && forall|i: int|
            0 <= i < state.free.len() ==> !((#[trigger] state.free[i]).is_free && state.free[i].size
                >= round_up_pow2(requested as nat)),
        state.allocate(requested).1 is Err ==> state.allocate(requested).0 == state,
{
    if 0 < requested <= CAPACITY {
        lemma_round_up_pow2_bounds(requested as nat);
        let need = round_up_pow2(requested as nat) as usize;
        lemma_first_fit(state.free, need as int, 0);
    }
}

/// What was written to a block is what the block holds.
pub proof fn lemma_write_then_read(state: ManagerView, id: usize, bytes: Seq<u8>)
    requires
        state.inv(),
        state.blocks.contains_key(id),
        bytes.len() <= state.blocks[id].size,
    ensures
        state.write(id, bytes).1 is Ok,
        state.write(id, bytes).0.content(id) == bytes,
        state.rewrite(id, bytes).content(id) == bytes,
{
    assert(state.write(id, bytes).0.content(id) =~= bytes);
    assert(state.rewrite(id, bytes).content(id) =~= bytes);
}

/// Writing to a block changes no byte outside it, and so the content of no
/// other block.
pub proof fn lemma_write_elsewhere(state: ManagerView, id: usize, bytes: Seq<u8>, other: usize)
    requires
        state.inv(),
        state.blocks.contains_key(id),
        state.blocks.contains_key(other),
        other != id,
        bytes.len() <= state.blocks[id].size,
    ensures
        state.write(id, bytes).0.content(other) == state.content(other),
        state.rewrite(id, bytes).content(other) == state.content(other),
{
    let a = state.blocks[id];
    let b = state.blocks[other];
    assert(!extents_overlap(a.start, a.size, b.start, b.size));
    assert(state.write(id, bytes).0.content(other) =~= state.content(other));
    assert(state.rewrite(id, bytes).content(other) =~= state.content(other));
}

} // verus!
