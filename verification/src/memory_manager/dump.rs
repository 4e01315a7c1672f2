//! The description of the arena that a dump gives: one descriptor for each
//! block, allocated or free, in an order that the state alone decides.

use super::extent::CAPACITY;
use super::free_block::FreeBlock;
use super::free_table::{free_table_wf, lemma_block_not_empty, lemma_distinct_blocks};
use super::model::ManagerView;
use super::sorting::{
    lemma_insert_sorted, lemma_strict_order_unique, pair_le, sort_pairs, strictly_sorted,
};
use super::MemoryManager;
use vstd::prelude::*;
use vstd::seq_lib::to_multiset_contains;
use vstd::std_specs::hash::group_hash_axioms;
use vstd::std_specs::iter::IteratorSpec;

verus! {

/// Whether a block is allocated or free.
#[derive(Clone, Copy, Debug, PartialEq, Eq, Structural)]
pub enum BlockKind {
    Allocated,
    Free,
}

/// What a dump says of one block. `end` is the address of its last byte. An
/// allocated block has an identifier, a number of bytes in use, and those
/// bytes; a free block has none of them.
#[derive(Clone, Debug, PartialEq, Eq)]
pub struct BlockDescriptor {
    pub start: usize,
    pub end: usize,
    pub kind: BlockKind,
    pub size: usize,
    pub id: Option<usize>,
    pub used_length: Option<usize>,
    pub content: Option<Vec<u8>>,
}

/// A descriptor as the contracts speak of it.
pub struct DescriptorView {
    pub start: usize,
    pub end: usize,
    pub kind: BlockKind,
    pub size: usize,
    pub id: Option<usize>,
    pub used_length: Option<usize>,
    pub content: Option<Seq<u8>>,
}

impl View for BlockDescriptor {
    type V = DescriptorView;

    open spec fn view(&self) -> DescriptorView {
        DescriptorView {
            start: self.start,
            end: self.end,
            kind: self.kind,
            size: self.size,
            id: self.id,
            used_length: self.used_length,
            content: match self.content {
                Some(bytes) => Some(bytes@),
                None => None,
            },
        }
    }
}

/// The descriptors as the contracts speak of them.
pub open spec fn descriptor_views(lines: Seq<BlockDescriptor>) -> Seq<DescriptorView> {
    Seq::new(lines.len(), |i: int| lines[i]@)
}

/// The descriptor of the allocated block `id`.
pub open spec fn describe_allocated(state: ManagerView, id: usize) -> DescriptorView {
    DescriptorView {
        start: state.blocks[id].start,
        end: (state.blocks[id].start + state.blocks[id].size - 1) as usize,
        kind: BlockKind::Allocated,
        size: state.blocks[id].size,
        id: Some(id),
        used_length: Some(state.blocks[id].used_length),
        content: Some(state.content(id)),
    }
}

/// The descriptor of a free block.
pub open spec fn describe_free(block: FreeBlock) -> DescriptorView {
    DescriptorView {
        start: block.start,
        end: (block.start + block.size - 1) as usize,
        kind: BlockKind::Free,
        size: block.size,
        id: None,
        used_length: None,
        content: None,
    }
}

/// The order of allocated blocks in a dump: by address.
pub open spec fn allocated_before(state: ManagerView) -> spec_fn(usize, usize) -> bool {
    |a: usize, b: usize| state.blocks[a].start < state.blocks[b].start
}

/// The order of free blocks in a dump: by size, and by address among blocks
/// of one size.
pub open spec fn free_before() -> spec_fn(FreeBlock, FreeBlock) -> bool {
    |a: FreeBlock, b: FreeBlock| a.size < b.size || (a.size == b.size && a.start < b.start)
}

/// `ids` are the identifiers of the allocated blocks, each once, in the
/// order of the addresses of their blocks.
pub open spec fn is_allocated_order(ids: Seq<usize>, state: ManagerView) -> bool {
    &&& strictly_sorted(ids, allocated_before(state))
    &&& forall|id: usize| ids.contains(id) <==> state.blocks.contains_key(id)
}

/// `blocks` are the free blocks, each once, in the order of their sizes and
/// then of their addresses.
pub open spec fn is_free_order(blocks: Seq<FreeBlock>, state: ManagerView) -> bool {
    &&& strictly_sorted(blocks, free_before())
    &&& forall|block: FreeBlock| blocks.contains(block) <==> state.free.contains(block)
}

impl ManagerView {
    /// The identifiers of the allocated blocks in the order of a dump.
    pub open spec fn allocated_order(self) -> Seq<usize> {
        choose|ids: Seq<usize>| is_allocated_order(ids, self)
    }

    /// The free blocks in the order of a dump.
    pub open spec fn free_order(self) -> Seq<FreeBlock> {
        choose|blocks: Seq<FreeBlock>| is_free_order(blocks, self)
    }

    /// The dump of the state: the allocated blocks by address, then the free
    /// blocks by size and address.
    pub open spec fn dump(self) -> Seq<DescriptorView> {
        Seq::new(
            self.allocated_order().len(),
            |i: int| describe_allocated(self, self.allocated_order()[i]),
        ) + Seq::new(self.free_order().len(), |i: int| describe_free(self.free_order()[i]))
    }
}

/// The allocated blocks can stand in the order of a dump in one way only.
pub proof fn lemma_allocated_order_unique(ids: Seq<usize>, state: ManagerView)
    requires
        is_allocated_order(ids, state),
    ensures
        ids == state.allocated_order(),
{
    let other = state.allocated_order();
    assert(is_allocated_order(other, state));
    lemma_strict_order_unique(ids, other, allocated_before(state));
}

/// The free blocks can stand in the order of a dump in one way only.
pub proof fn lemma_free_order_unique(blocks: Seq<FreeBlock>, state: ManagerView)
    requires
        is_free_order(blocks, state),
    ensures
        blocks == state.free_order(),
{
    let other = state.free_order();
    assert(is_free_order(other, state));
    lemma_strict_order_unique(blocks, other, free_before());
}

/// Any finite set of allocated blocks can stand in the order of their
/// addresses.
proof fn lemma_some_allocated_order(state: ManagerView, ids: Set<usize>) -> (order: Seq<usize>)
    requires
        state.inv(),
        ids.finite(),
        forall|id: usize| ids.contains(id) ==> state.blocks.contains_key(id),
    ensures
        strictly_sorted(order, allocated_before(state)),
        forall|id: usize| order.contains(id) <==> ids.contains(id),
    decreases ids.len(),
{
    if ids.len() == 0 {
        Seq::empty()
    } else {
        let x = ids.choose();
        let rest = lemma_some_allocated_order(state, ids.remove(x));
        assert forall|i: int| 0 <= i < rest.len() implies allocated_before(state)(
            #[trigger] rest[i],
            x,
        ) || allocated_before(state)(x, rest[i]) by {
            assert(rest.contains(rest[i]));
            assert(state.blocks.contains_key(rest[i]) && state.blocks.contains_key(x));
            lemma_block_not_empty(state.blocks[x].start, state.blocks[x].size);
            lemma_block_not_empty(state.blocks[rest[i]].start, state.blocks[rest[i]].size);
        }
        lemma_insert_sorted(rest, x, allocated_before(state))
    }
}

/// The blocks of a free table can stand in the order of their sizes and
/// addresses.
proof fn lemma_some_free_order(blocks: Seq<FreeBlock>) -> (order: Seq<FreeBlock>)
    requires
        free_table_wf(blocks),
    ensures
        strictly_sorted(order, free_before()),
        forall|block: FreeBlock| order.contains(block) <==> blocks.contains(block),
    decreases blocks.len(),
{
    if blocks.len() == 0 {
        Seq::empty()
    } else {
        let front = blocks.drop_last();
        let last = blocks.last();
        assert(free_table_wf(front)) by {
            assert forall|i: int| 0 <= i < front.len() implies (#[trigger] front[i])
                == blocks[i] by {}
        }
        let rest = lemma_some_free_order(front);
        lemma_distinct_blocks(blocks);
        assert forall|i: int| 0 <= i < rest.len() implies free_before()(#[trigger] rest[i], last)
            || free_before()(last, rest[i]) by {
            assert(rest.contains(rest[i]));
            let k = choose|k: int| 0 <= k < front.len() && front[k] == rest[i];
            assert(blocks[k].start != blocks[blocks.len() - 1].start);
        }
        let order = lemma_insert_sorted(rest, last, free_before());
        assert forall|block: FreeBlock| order.contains(block) <==> blocks.contains(block) by {
            if blocks.contains(block) {
                let k = choose|k: int| 0 <= k < blocks.len() && blocks[k] == block;
                if k < front.len() {
                    assert(front[k] == block);
                    assert(front.contains(block));
                }
            }
            if front.contains(block) {
                let k = choose|k: int| 0 <= k < front.len() && front[k] == block;
                assert(blocks[k] == block);
            }
            assert(blocks[blocks.len() - 1] == last);
        }
        order
    }
}

/// A dump of a state in order lists every allocated block and every free
/// block, and each of them once.
pub proof fn lemma_dump_lists_all(state: ManagerView)
    requires
        state.inv(),
    ensures
        is_allocated_order(state.allocated_order(), state),
        is_free_order(state.free_order(), state),
{
    let ids = lemma_some_allocated_order(state, state.blocks.dom());
    assert(is_allocated_order(ids, state));
    let blocks = lemma_some_free_order(state.free);
    assert(is_free_order(blocks, state));
}

/// Two dumps of one state are the same dump.
pub proof fn lemma_dump_repeats(
    first: Seq<BlockDescriptor>,
    second: Seq<BlockDescriptor>,
    state: ManagerView,
)
    requires
        descriptor_views(first) == state.dump(),
        descriptor_views(second) == state.dump(),
    ensures
        descriptor_views(first) == descriptor_views(second),
{
}

/// The second numbers of the pairs.
spec fn second_of(pairs: Seq<(usize, usize)>) -> Seq<usize> {
    Seq::new(pairs.len(), |i: int| pairs[i].1)
}

/// The free blocks that pairs of a size and an address stand for.
spec fn free_blocks_of(pairs: Seq<(usize, usize)>) -> Seq<FreeBlock> {
    Seq::new(pairs.len(), |i: int| FreeBlock { start: pairs[i].1, size: pairs[i].0, is_free: true })
}

/// Sorting keeps the pairs and repeats none that was not repeated.
proof fn lemma_sorted_pairs(before: Seq<(usize, usize)>, after: Seq<(usize, usize)>)
    requires
        before.no_duplicates(),
        before.to_multiset() == after.to_multiset(),
    ensures
        after.no_duplicates(),
        forall|pair: (usize, usize)| before.contains(pair) <==> after.contains(pair),
{
    before.lemma_multiset_has_no_duplicates();
    after.lemma_multiset_has_no_duplicates_conv();
    assert forall|pair: (usize, usize)| before.contains(pair) <==> after.contains(pair) by {
        to_multiset_contains(before, pair);
        to_multiset_contains(after, pair);
    }
}

impl MemoryManager {
    /// The allocated blocks in the order of a dump, each as its address and
    /// its identifier.
    fn allocated_in_order(&self) -> (pairs: Vec<(usize, usize)>)
        requires
            self.wf(),
        ensures
            second_of(pairs@) == self@.allocated_order(),
            forall|i: int|
                0 <= i < pairs@.len() ==> self.allocated_blocks@.contains_key(
                    (#[trigger] pairs@[i]).1,
                ),
    {
        broadcast use group_hash_axioms;

        let ghost state = self@;
        let mut pairs: Vec<(usize, usize)> = Vec::new();
        let ghost keys = self.allocated_blocks.keys().remaining();
        proof {
            assert forall|j: int| 0 <= j < keys.len() implies self.allocated_blocks@.contains_key(
                *#[trigger] keys[j],
            ) by {
                assert(keys.unref()[j] == *keys[j]);
                assert(keys.unref().contains(*keys[j]));
                assert(keys.unref().to_set().contains(*keys[j]));
            }
        }
        for key in it: self.allocated_blocks.keys()
            invariant
                it.seq() == keys,
                pairs@.len() == it.index(),
                forall|j: int|
                    0 <= j < keys.len() ==> self.allocated_blocks@.contains_key(*#[trigger] keys[j]),
                forall|j: int|
                    0 <= j < pairs@.len() ==> (#[trigger] pairs@[j]).1 == *keys[j] && pairs@[j].0
                        == self.allocated_blocks@[*keys[j]].start,
        {
            assert(self.allocated_blocks@.contains_key(*keys[pairs@.len() as int]));
            match self.allocated_blocks.get(key) {
                Some(block) => {
                    pairs.push((block.get_start(), *key));
                },
                None => {
                    assert(false);
                },
            }
        }
        let ghost unsorted = pairs@;
        sort_pairs(&mut pairs);
        proof {
            assert forall|i: int, j: int|
                0 <= i < unsorted.len() && 0 <= j < unsorted.len() && i != j implies unsorted[i]
                != unsorted[j] by {
                assert(keys[i] != keys[j]);
            }
            lemma_sorted_pairs(unsorted, pairs@);
            let ids = second_of(pairs@);
            assert forall|i: int| 0 <= i < pairs@.len() implies self.allocated_blocks@.contains_key(
                (#[trigger] pairs@[i]).1,
            ) && pairs@[i].0 == state.blocks[pairs@[i].1].start by {
                assert(pairs@.contains(pairs@[i]));
                assert(unsorted.contains(pairs@[i]));
                let k = choose|k: int| 0 <= k < unsorted.len() && unsorted[k] == pairs@[i];
                assert(unsorted[k].1 == *keys[k]);
            }
            assert forall|id: usize| ids.contains(id) <==> state.blocks.contains_key(id) by {
                if ids.contains(id) {
                    let j = choose|j: int| 0 <= j < ids.len() && ids[j] == id;
                    assert(pairs@[j].1 == id);
                }
                if state.blocks.contains_key(id) {
                    assert(keys.unref().to_set().contains(id));
                    assert(keys.unref().contains(id));
                    let k = choose|k: int| 0 <= k < keys.unref().len() && keys.unref()[k] == id;
                    assert(unsorted[k].1 == id);
                    assert(unsorted.contains(unsorted[k]));
                    assert(pairs@.contains(unsorted[k]));
                    let j = choose|j: int| 0 <= j < pairs@.len() && pairs@[j] == unsorted[k];
                    assert(ids[j] == id);
                }
            }
            assert forall|i: int, j: int| 0 <= i < j < ids.len() implies allocated_before(state)(
                #[trigger] ids[i],
                #[trigger] ids[j],
            ) by {
                assert(pair_le(pairs@[i], pairs@[j]));
                assert(pairs@[i] != pairs@[j]);
                assert(state.blocks.contains_key(pairs@[i].1));
                assert(state.blocks.contains_key(pairs@[j].1));
                lemma_block_not_empty(
                    state.blocks[pairs@[i].1].start,
                    state.blocks[pairs@[i].1].size,
                );
                lemma_block_not_empty(
                    state.blocks[pairs@[j].1].start,
                    state.blocks[pairs@[j].1].size,
                );
            }
            lemma_allocated_order_unique(ids, state);
        }
        pairs
    }

    /// The free blocks in the order of a dump, each as its size and its
    /// address.
    fn free_in_order(&self) -> (pairs: Vec<(usize, usize)>)
        requires
            self.wf(),
        ensures
            free_blocks_of(pairs@) == self@.free_order(),
            forall|i: int|
                0 <= i < pairs@.len() ==> 1 <= (#[trigger] pairs@[i]).0 && pairs@[i].1
                    + pairs@[i].0 <= CAPACITY,
    {
        let ghost state = self@;
        let mut pairs: Vec<(usize, usize)> = Vec::new();
        let mut i: usize = 0;
        while i < self.free_blocks.len()
            invariant
                i <= self.free_blocks@.len(),
                pairs@.len() == i,
                forall|j: int|
                    0 <= j < i ==> #[trigger] pairs@[j] == (
                        self.free_blocks@[j].size,
                        self.free_blocks@[j].start,
                    ),
            decreases self.free_blocks@.len() - i,
        {
            let block = self.free_blocks[i];
            pairs.push((block.get_size(), block.get_start()));
            i += 1;
        }
        let ghost unsorted = pairs@;
        sort_pairs(&mut pairs);
        proof {
            lemma_distinct_blocks(state.free);
            assert forall|a: int, b: int|
                0 <= a < unsorted.len() && 0 <= b < unsorted.len() && a != b implies unsorted[a]
                != unsorted[b] by {
                assert(state.free[a].start != state.free[b].start);
            }
            lemma_sorted_pairs(unsorted, pairs@);
            let blocks = free_blocks_of(pairs@);
            assert forall|j: int| 0 <= j < pairs@.len() implies state.free.contains(blocks[j]) && 1
                <= (#[trigger] pairs@[j]).0 && pairs@[j].1 + pairs@[j].0 <= CAPACITY by {
                assert(pairs@.contains(pairs@[j]));
                assert(unsorted.contains(pairs@[j]));
                let k = choose|k: int| 0 <= k < unsorted.len() && unsorted[k] == pairs@[j];
                assert(state.free[k] == blocks[j]);
                lemma_block_not_empty(state.free[k].start, state.free[k].size);
            }
            assert forall|block: FreeBlock| blocks.contains(block) <==> state.free.contains(
                block,
            ) by {
                if blocks.contains(block) {
                    let j = choose|j: int| 0 <= j < blocks.len() && blocks[j] == block;
                    assert(1 <= pairs@[j].0);
                    assert(state.free.contains(blocks[j]));
                }
                if state.free.contains(block) {
                    let k = choose|k: int| 0 <= k < state.free.len() && state.free[k] == block;
                    assert(unsorted[k] == (block.size, block.start));
                    assert(unsorted.contains(unsorted[k]));
                    assert(pairs@.contains(unsorted[k]));
                    let j = choose|j: int| 0 <= j < pairs@.len() && pairs@[j] == unsorted[k];
                    assert(blocks[j] == block);
                }
            }
            assert forall|a: int, b: int| 0 <= a < b < blocks.len() implies free_before()(
                #[trigger] blocks[a],
                #[trigger] blocks[b],
            ) by {
                assert(pair_le(pairs@[a], pairs@[b]));
                assert(pairs@[a] != pairs@[b]);
            }
            lemma_free_order_unique(blocks, state);
        }
        pairs
    }

    /// One descriptor for each block of the arena: the allocated blocks in
    /// the order of their addresses, then the free blocks in the order of
    /// their sizes and, among blocks of one size, of their addresses.
    pub fn dump(&self) -> (lines: Vec<BlockDescriptor>)
        requires
            self.wf(),
        ensures
            descriptor_views(lines@) == self@.dump(),
    {
        broadcast use group_hash_axioms;

        let ghost state = self@;
        let allocated = self.allocated_in_order();
        let free = self.free_in_order();
        let mut lines: Vec<BlockDescriptor> = Vec::new();
        let mut i: usize = 0;
        while i < allocated.len()
            invariant
                self.wf(),
                state == self@,
                i <= allocated@.len(),
                lines@.len() == i,
                second_of(allocated@) == state.allocated_order(),
                forall|j: int|
                    0 <= j < allocated@.len() ==> self.allocated_blocks@.contains_key(
                        (#[trigger] allocated@[j]).1,
                    ),
                forall|j: int|
                    0 <= j < i ==> (#[trigger] lines@[j])@ == describe_allocated(
                        state,
                        allocated@[j].1,
                    ),
            decreases allocated@.len() - i,
        {
            let id = allocated[i].1;
            assert(self.allocated_blocks@.contains_key(allocated@[i as int].1));
            assert(state.blocks.contains_key(id));
            match self.allocated_blocks.get(&id) {
                Some(block) => {
                    proof {
                        lemma_block_not_empty(block.start, block.size);
                    }
                    let content = self.copy_bytes(block.get_start(), block.get_data_size());
                    lines.push(
                        BlockDescriptor {
                            start: block.get_start(),
                            end: block.get_start() + block.get_size() - 1,
                            kind: BlockKind::Allocated,
                            size: block.get_size(),
                            id: Some(id),
                            used_length: Some(block.get_data_size()),
                            content: Some(content),
                        },
                    );
                },
                None => {
                    assert(false);
                },
            }
            i += 1;
        }
        let mut k: usize = 0;
        while k < free.len()
            invariant
                k <= free@.len(),
                lines@.len() == allocated@.len() + k,
                forall|j: int|
                    0 <= j < free@.len() ==> 1 <= (#[trigger] free@[j]).0 && free@[j].1 + free@[j].0
                        <= CAPACITY,
                forall|j: int|
                    0 <= j < allocated@.len() ==> (#[trigger] lines@[j])@ == describe_allocated(
                        state,
                        allocated@[j].1,
                    ),
                forall|j: int|
                    0 <= j < k ==> (#[trigger] lines@[allocated@.len() + j])@ == describe_free(
                        free_blocks_of(free@)[j],
                    ),
            decreases free@.len() - k,
        {
            let (size, start) = free[k];
            let ghost before = lines@;
            lines.push(
                BlockDescriptor {
                    start,
                    end: start + size - 1,
                    kind: BlockKind::Free,
                    size,
                    id: None,
                    used_length: None,
                    content: None,
                },
            );
            proof {
                assert forall|j: int| 0 <= j < allocated@.len() implies (#[trigger] lines@[j])@
                    == describe_allocated(state, allocated@[j].1) by {
                    assert(lines@[j] == before[j]);
                }
                assert forall|j: int| 0 <= j < k implies (#[trigger] lines@[allocated@.len() + j])@
                    == describe_free(free_blocks_of(free@)[j]) by {
                    assert(lines@[allocated@.len() + j] == before[allocated@.len() + j]);
                }
            }
            k += 1;
        }
        proof {
            let ids = second_of(allocated@);
            let blocks = free_blocks_of(free@);
            let first = Seq::new(ids.len(), |i: int| describe_allocated(state, ids[i]));
            let second = Seq::new(blocks.len(), |i: int| describe_free(blocks[i]));
            assert(state.dump() == first + second);
            assert forall|j: int| 0 <= j < lines@.len() implies descriptor_views(lines@)[j] == (
            first + second)[j] by {
                if j < ids.len() {
                    assert(ids[j] == allocated@[j].1);
                } else {
                    assert(lines@[allocated@.len() + (j - allocated@.len())] == lines@[j]);
                }
            }
            assert(descriptor_views(lines@) =~= first + second);
        }
        lines
    }
}

} // verus!
