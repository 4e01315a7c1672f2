//! The manager of the arena: the table of free blocks, the table of
//! allocated blocks, and the bytes themselves.

use std::collections::HashMap;
use vstd::prelude::*;
use vstd::std_specs::hash::group_hash_axioms;

pub mod allocated_block;
pub mod coalescing;
pub mod dump;
pub mod extent;
pub mod free_block;
pub mod free_table;
pub mod memory_block;
pub mod model;
pub mod report;
pub mod sorting;

use self::allocated_block::AllocatedBlock;
use self::extent::{extents_overlap, CAPACITY};
use self::free_block::FreeBlock;
use self::free_table::{coalesce, release, reserve};
use self::model::{
    lemma_allocate_inv, lemma_coalesce_inv, lemma_delete_inv, lemma_fresh_inv, lemma_write_inv,
    overwrite, zeroed, ManagerView,
};

verus! {

/// Why a request for a block was turned down.
#[derive(Clone, Copy, Debug, PartialEq, Eq, Structural)]
pub enum AllocationFailure {
    /// The request was for no bytes at all.
    InvalidSize,
    /// The request was for more bytes than the arena has.
    TooLarge,
    /// No free block is large enough.
    NoSpace,
}

/// The identifier names no allocated block.
#[derive(Clone, Copy, Debug, PartialEq, Eq, Structural)]
pub struct BlockNotFound;

/// Why bytes could not be written to a block.
#[derive(Clone, Copy, Debug, PartialEq, Eq, Structural)]
pub enum WriteError {
    /// The identifier names no allocated block.
    BlockNotFound,
    /// There are more bytes than the block reserves.
    DataTooLarge,
}

/// Why the content of a block could not be replaced.
#[derive(Clone, Copy, Debug, PartialEq, Eq, Structural)]
pub enum UpdateError {
    /// The identifier names no allocated block.
    BlockNotFound,
    /// The new content needs a larger block, and none could be had.
    Allocation(AllocationFailure),
}

/// The manager of one arena of `CAPACITY` bytes.
pub struct MemoryManager {
    memory: Vec<u8>,
    free_blocks: Vec<FreeBlock>,
    allocated_blocks: HashMap<usize, AllocatedBlock>,
    next_id: usize,
}

impl View for MemoryManager {
    type V = ManagerView;

    closed spec fn view(&self) -> ManagerView {
        ManagerView {
            arena: self.memory@,
            free: self.free_blocks@,
            blocks: Map::new(
                |id: usize| self.allocated_blocks@.contains_key(id),
                |id: usize| self.allocated_blocks@[id].region(),
            ),
            next_id: self.next_id,
        }
    }
}

impl MemoryManager {
    /// The manager is in order: its state is, and each record it keeps
    /// stands under its own identifier and carries no bytes.
    pub closed spec fn wf(&self) -> bool {
        &&& self@.inv()
        &&& forall|id: usize| #[trigger]
            self.allocated_blocks@.contains_key(id) ==> self.allocated_blocks@[id].id == id
                && self.allocated_blocks@[id].data@.len() == 0
    }

    /// A manager in order has a state in order.
    pub proof fn lemma_wf(&self)
        requires
            self.wf(),
        ensures
            self@.inv(),
    {
    }

    /// The number of bytes in the arena.
    pub fn total_capacity(&self) -> (capacity: usize)
        ensures
            capacity == CAPACITY,
    {
        CAPACITY
    }

    /// The bytes of the arena.
    pub fn memory(&self) -> (bytes: &[u8])
        ensures
            bytes@ == self@.arena,
    {
        self.memory.as_slice()
    }

    /// The table of free blocks, in its order.
    pub fn free_blocks(&self) -> (blocks: &[FreeBlock])
        ensures
            blocks@ == self@.free,
    {
        self.free_blocks.as_slice()
    }

    /// The identifier that the next block will get.
    pub fn next_id(&self) -> (id: usize)
        ensures
            id == self@.next_id,
    {
        self.next_id
    }

    /// A manager of an arena of zeros, all of it free in one block.
    pub fn new() -> (manager: MemoryManager)
        ensures
            manager.wf(),
            manager@ == ManagerView::fresh(),
    {
        broadcast use group_hash_axioms;

        let mut free_blocks: Vec<FreeBlock> = Vec::new();
        free_blocks.push(FreeBlock::new(0, CAPACITY));
        let manager = MemoryManager {
            memory: vec![0u8; CAPACITY],
            free_blocks,
            allocated_blocks: HashMap::new(),
            next_id: 0,
        };
        proof {
            assert(manager@.arena =~= ManagerView::fresh().arena);
            assert(manager@.free =~= ManagerView::fresh().free);
            assert(manager@.blocks =~= ManagerView::fresh().blocks);
            lemma_fresh_inv();
        }
        manager
    }

    /// Allocates a block for `requested_size` bytes and returns its
    /// identifier. The block has the size that the request is rounded up to
    /// and `requested_size` bytes in use.
    pub fn allocate(&mut self, requested_size: usize) -> (result: Result<usize, AllocationFailure>)
        requires
            old(self).wf(),
            old(self)@.next_id < usize::MAX,
        ensures
            final(self).wf(),
            (final(self)@, result) == old(self)@.allocate(requested_size),
    {
        broadcast use group_hash_axioms;

        let ghost pre = self@;
        match reserve(&mut self.free_blocks, requested_size) {
            Ok(block) => {
                let id = self.next_id;
                self.allocated_blocks.insert(
                    id,
                    AllocatedBlock::new(block.start, block.size, id, requested_size),
                );
                self.next_id += 1;
                proof {
                    lemma_allocate_inv(pre, requested_size);
                    assert(self@.blocks =~= pre.allocate(requested_size).0.blocks);
                }
                Ok(id)
            },
            Err(e) => Err(e),
        }
    }

    /// Allocates a block for `data_size` bytes and returns its identifier,
    /// as `allocate` does.
    pub fn insert(&mut self, data_size: usize) -> (result: Result<usize, AllocationFailure>)
        requires
            old(self).wf(),
            old(self)@.next_id < usize::MAX,
        ensures
            final(self).wf(),
            (final(self)@, result) == old(self)@.allocate(data_size),
    {
        self.allocate(data_size)
    }

    /// Writes `data` to the start of the block `id` and records its length
    /// as the bytes in use.
    pub fn set(&mut self, id: usize, data: &[u8]) -> (result: Result<(), WriteError>)
        requires
            old(self).wf(),
        ensures
            final(self).wf(),
            (final(self)@, result) == old(self)@.write(id, data@),
    {
        broadcast use group_hash_axioms;

        let ghost pre = self@;
        let (start, size) = match self.allocated_blocks.get(&id) {
            Some(block) => (block.get_start(), block.get_size()),
            None => {
                return Err(WriteError::BlockNotFound);
            },
        };
        if data.len() > size {
            return Err(WriteError::DataTooLarge);
        }
        assert(pre.blocks.contains_key(id));
        let mut i: usize = 0;
        while i < data.len()
            invariant
                i <= data@.len(),
                data@.len() <= size,
                start + size <= CAPACITY,
                self.memory@.len() == CAPACITY,
                self.memory@ == overwrite(pre.arena, start as int, data@.subrange(0, i as int)),
                self.free_blocks == old(self).free_blocks,
                self.allocated_blocks == old(self).allocated_blocks,
                self.next_id == old(self).next_id,
            decreases data@.len() - i,
        {
            self.memory[start + i] = data[i];
            i += 1;
            assert(self.memory@ =~= overwrite(pre.arena, start as int, data@.subrange(0, i as int)));
        }
        self.allocated_blocks.insert(id, AllocatedBlock::new(start, size, id, data.len()));
        proof {
            assert(data@.subrange(0, i as int) =~= data@);
            lemma_write_inv(pre, id, data@);
            assert(self@.blocks =~= pre.write(id, data@).0.blocks);
        }
        Ok(())
    }

    /// A copy of `count` bytes of the arena, from `start` on.
    fn copy_bytes(&self, start: usize, count: usize) -> (bytes: Vec<u8>)
        requires
            start + count <= self.memory@.len(),
        ensures
            bytes@ == self.memory@.subrange(start as int, start + count),
    {
        let mut bytes: Vec<u8> = Vec::new();
        let mut i: usize = 0;
        let len = self.memory.len();
        while i < count
            invariant
                i <= count,
                start + count <= len,
                len == self.memory@.len(),
                bytes@ == self.memory@.subrange(start as int, start + i),
            decreases count - i,
        {
            bytes.push(self.memory[start + i]);
            i += 1;
            assert(bytes@ =~= self.memory@.subrange(start as int, start + i));
        }
        bytes
    }

    /// A handle to the block `id`, with a copy of the bytes it has in use.
    pub fn read(&self, id: usize) -> (result: Result<AllocatedBlock, BlockNotFound>)
        requires
            self.wf(),
        ensures
            match result {
                Ok(block) => {
                    &&& self@.blocks.contains_key(id)
                    &&& block.region() == self@.blocks[id]
                    &&& block.id == id
                    &&& block.data@ == self@.content(id)
                },
                Err(_) => !self@.blocks.contains_key(id),
            },
    {
        broadcast use group_hash_axioms;

        match self.allocated_blocks.get(&id) {
            Some(block) => {
                let start = block.get_start();
                let data_size = block.get_data_size();
                assert(self@.blocks.contains_key(id));
                let data = self.copy_bytes(start, data_size);
                Ok(AllocatedBlock { start, size: block.get_size(), id, data_size, data })
            },
            None => Err(BlockNotFound),
        }
    }

    /// Deletes the block `id`: its bytes go back to the free table, which is
    /// then coalesced. The identifier is never used again.
    pub fn delete(&mut self, id: usize) -> (result: Result<(), BlockNotFound>)
        requires
            old(self).wf(),
        ensures
            final(self).wf(),
            (final(self)@, result) == old(self)@.delete(id),
    {
        broadcast use group_hash_axioms;

        let ghost pre = self@;
        match self.allocated_blocks.remove(&id) {
            Some(block) => {
                proof {
                    assert(pre.blocks.contains_key(id));
                    assert(self@.blocks =~= pre.blocks.remove(id));
                    assert forall|j: int| 0 <= j < pre.free.len() implies !extents_overlap(
                        block.start,
                        block.size,
                        (#[trigger] pre.free[j]).start,
                        pre.free[j].size,
                    ) by {
                        assert(!extents_overlap(
                            pre.free[j].start,
                            pre.free[j].size,
                            pre.blocks[id].start,
                            pre.blocks[id].size,
                        ));
                    }
                }
                release(&mut self.free_blocks, FreeBlock::new(block.start, block.size));
                proof {
                    lemma_delete_inv(pre, id);
                }
                Ok(())
            },
            None => {
                assert(self@.blocks =~= pre.blocks);
                Err(BlockNotFound)
            },
        }
    }

    /// Replaces the content of the block `id` by `new_data` and returns the
    /// identifier under which the content now stands: `id` where the bytes
    /// fit in the block, a new one where they had to move.
    pub fn update(&mut self, id: usize, new_data: &[u8]) -> (result: Result<usize, UpdateError>)
        requires
            old(self).wf(),
            old(self)@.next_id < usize::MAX,
        ensures
            final(self).wf(),
            (final(self)@, result) == old(self)@.update(id, new_data@),
    {
        broadcast use group_hash_axioms;

        let ghost pre = self@;
        let (start, size) = match self.allocated_blocks.get(&id) {
            Some(block) => (block.get_start(), block.get_size()),
            None => {
                return Err(UpdateError::BlockNotFound);
            },
        };
        assert(pre.blocks.contains_key(id));
        if new_data.len() > size {
            let new_id = match self.allocate(new_data.len()) {
                Ok(new_id) => new_id,
                Err(e) => {
                    return Err(UpdateError::Allocation(e));
                },
            };
            let ghost moved = self@;
            assert(moved.blocks.contains_key(new_id) && moved.blocks.contains_key(id));
            assert(moved.blocks[new_id].size >= new_data@.len()) by {
                crate::lemma_round_up_pow2_bounds(new_data@.len());
            }
            let written = self.set(new_id, new_data);
            assert(self@.blocks.contains_key(id));
            assert(self@.blocks[id] == pre.blocks[id]);
            let deleted = self.delete(id);
            assert(written is Ok && deleted is Ok);
            Ok(new_id)
        } else {
            let mut i: usize = 0;
            while i < size
                invariant
                    i <= size,
                    new_data@.len() <= size,
                    start + size <= CAPACITY,
                    self.memory@.len() == CAPACITY,
                    self.memory@ == overwrite(
                        zeroed(pre.arena, start as int, i as int),
                        start as int,
                        new_data@.subrange(
                            0,
                            if i < new_data@.len() {
                                i as int
                            } else {
                                new_data@.len() as int
                            },
                        ),
                    ),
                    self.free_blocks == old(self).free_blocks,
                    self.allocated_blocks == old(self).allocated_blocks,
                    self.next_id == old(self).next_id,
                decreases size - i,
            {
                if i < new_data.len() {
                    self.memory[start + i] = new_data[i];
                } else {
                    self.memory[start + i] = 0;
                }
                i += 1;
                assert(self.memory@ =~= overwrite(
                    zeroed(pre.arena, start as int, i as int),
                    start as int,
                    new_data@.subrange(
                        0,
                        if i < new_data@.len() {
                            i as int
                        } else {
                            new_data@.len() as int
                        },
                    ),
                ));
            }
            self.allocated_blocks.insert(id, AllocatedBlock::new(start, size, id, new_data.len()));
            proof {
                assert(new_data@.subrange(0, new_data@.len() as int) =~= new_data@);
                lemma_write_inv(pre, id, new_data@);
                assert(self@.blocks =~= pre.rewrite(id, new_data@).blocks);
            }
            Ok(id)
        }
    }

    /// Coalesces the free table: buddies are joined until none is left, and
    /// the table is left in the order of the addresses. A manager in order
    /// has no buddies in its free table, as every deletion coalesces it, so
    /// what is left to do here is to put the table in that order.
    pub fn merge_free_blocks(&mut self)
        requires
            old(self).wf(),
        ensures
            final(self).wf(),
            final(self)@ == old(self)@.coalesce(),
    {
        let ghost pre = self@;
        coalesce(&mut self.free_blocks);
        proof {
            lemma_coalesce_inv(pre);
        }
    }
}

} // verus!
