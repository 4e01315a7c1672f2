use crate::text::{decimal_text, push_decimal};
use vstd::prelude::*;
use vstd::string::StringExecFns;

verus! {

/// A handle to a block that the manager has allocated. `size` is the
/// capacity that the block reserves, `data_size` the number of bytes in use.
/// The handle that `read` hands out carries a copy of those bytes in `data`;
/// the records that the manager keeps carry none.
#[derive(Clone, Debug, PartialEq, Eq)]
pub struct AllocatedBlock {
    pub start: usize,
    pub size: usize,
    pub id: usize,
    pub data_size: usize,
    pub data: Vec<u8>,
}

/// What the manager records of an allocated block: where it lies, how much
/// it reserves, and how much of that is in use.
pub struct AllocatedRegion {
    pub start: usize,
    pub size: usize,
    pub used_length: usize,
}

impl AllocatedBlock {
    /// What the manager records of this block.
    pub open spec fn region(&self) -> AllocatedRegion {
        AllocatedRegion { start: self.start, size: self.size, used_length: self.data_size }
    }

    /// The record of a block, with no bytes attached.
    pub fn new(start: usize, size: usize, id: usize, data_size: usize) -> (block: Self)
        ensures
            block.start == start,
            block.size == size,
            block.id == id,
            block.data_size == data_size,
            block.data@ == Seq::<u8>::empty(),
    {
        AllocatedBlock { start, size, id, data_size, data: Vec::new() }
    }

    /// Drops the bytes that the handle carries.
    pub fn clear_data(&mut self)
        ensures
            final(self).data@ == Seq::<u8>::empty(),
            final(self).start == old(self).start,
            final(self).size == old(self).size,
            final(self).id == old(self).id,
            final(self).data_size == old(self).data_size,
    {
        self.data.clear();
    }

    /// The capacity that the block reserves.
    pub fn get_size(&self) -> (size: usize)
        ensures
            size == self.size,
    {
        self.size
    }

    /// The address of the first byte of the block.
    pub fn get_start(&self) -> (start: usize)
        ensures
            start == self.start,
    {
        self.start
    }

    /// The identifier that owns the block.
    pub fn get_id(&self) -> (id: usize)
        ensures
            id == self.id,
    {
        self.id
    }

    /// The number of bytes in use.
    pub fn get_data_size(&self) -> (data_size: usize)
        ensures
            data_size == self.data_size,
    {
        self.data_size
    }

    /// Records that `data_size` bytes are in use.
    pub fn set_data_size(&mut self, data_size: usize)
        ensures
            final(self).data_size == data_size,
            final(self).start == old(self).start,
            final(self).size == old(self).size,
            final(self).id == old(self).id,
            final(self).data == old(self).data,
    {
        self.data_size = data_size;
    }

    /// The bytes that the handle carries.
    pub fn get_data(&self) -> (data: &[u8])
        ensures
            data@ == self.data@,
    {
        self.data.as_slice()
    }

    /// The block in words.
    pub open spec fn description(&self) -> Seq<char> {
        "AllocatedBlock: start="@ + decimal_text(self.start as nat) + ", size="@ + decimal_text(
            self.size as nat,
        ) + ", id="@ + decimal_text(self.id as nat) + ", data_size="@ + decimal_text(
            self.data_size as nat,
        )
    }

    /// The block in words: where it begins, how much it reserves, who owns
    /// it, and how much of it is in use.
    pub fn describe(&self) -> (text: String)
        ensures
            text@ == self.description(),
    {
        let mut text = String::from_str("AllocatedBlock: start=");
        push_decimal(&mut text, self.start);
        text.append(", size=");
        push_decimal(&mut text, self.size);
        text.append(", id=");
        push_decimal(&mut text, self.id);
        text.append(", data_size=");
        push_decimal(&mut text, self.data_size);
        text
    }
}

/// What every allocated block can say of itself.
pub trait MemoryBlock {
    /// Where the block begins.
    spec fn block_start(&self) -> usize;

    /// How many bytes the block reserves.
    spec fn block_size(&self) -> usize;

    /// The identifier that owns the block.
    spec fn block_id(&self) -> usize;

    fn get_start(&self) -> (start: usize)
        ensures
            start == self.block_start(),
    ;

    fn get_size(&self) -> (size: usize)
        ensures
            size == self.block_size(),
    ;

    fn get_id(&self) -> (id: usize)
        ensures
            id == self.block_id(),
    ;
}

impl MemoryBlock for AllocatedBlock {
    open spec fn block_start(&self) -> usize {
        self.start
    }

    open spec fn block_size(&self) -> usize {
        self.size
    }

    open spec fn block_id(&self) -> usize {
        self.id
    }

    fn get_start(&self) -> (start: usize) {
        self.start
    }

    fn get_size(&self) -> (size: usize) {
        self.size
    }

    fn get_id(&self) -> (id: usize) {
        self.id
    }
}

/// What a block that holds data can say of it.
pub trait DataMemoryBlock: MemoryBlock {
    /// How many bytes of the block are in use.
    spec fn block_data_size(&self) -> usize;

    fn get_data_size(&self) -> (data_size: usize)
        ensures
            data_size == self.block_data_size(),
    ;

    /// The address of the last byte in use. A block with no byte in use at
    /// address 0 has none.
    fn get_end(&self) -> (end: usize)
        requires
            1 <= self.block_start() + self.block_data_size() <= usize::MAX,
        ensures
            end == self.block_start() + self.block_data_size() - 1,
    ;
}

impl DataMemoryBlock for AllocatedBlock {
    open spec fn block_data_size(&self) -> usize {
        self.data_size
    }

    fn get_data_size(&self) -> (data_size: usize) {
        self.data_size
    }

    fn get_end(&self) -> (end: usize) {
        self.start + self.data_size - 1
    }
}

} // verus!
