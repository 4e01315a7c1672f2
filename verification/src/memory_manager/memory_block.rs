use vstd::prelude::*;

verus! {

/// A block of memory that is either free or holds the bytes it was given.
#[derive(Clone, Debug, PartialEq, Eq)]
pub struct MemoryBlock {
    pub start: usize,
    pub size: usize,
    pub is_free: bool,
    pub data: Vec<u8>,
}

impl MemoryBlock {
    /// A free block of `size` bytes at `start`, with no data.
    pub fn new(start: usize, size: usize) -> (block: Self)
        ensures
            block.start == start,
            block.size == size,
            block.is_free,
            block.data@ == Seq::<u8>::empty(),
    {
        MemoryBlock { start, size, is_free: true, data: Vec::new() }
    }

    /// The address of the first byte of the block.
    pub fn get_start(&self) -> (start: usize)
        ensures
            start == self.start,
    {
        self.start
    }

    /// The number of bytes in the block.
    pub fn get_size(&self) -> (size: usize)
        ensures
            size == self.size,
    {
        self.size
    }

    /// The bytes that the block holds.
    pub fn get_data(&self) -> (data: &[u8])
        ensures
            data@ == self.data@,
    {
        self.data.as_slice()
    }

    /// Takes the block into use, with `data` as its content.
    pub fn allocate(&mut self, data: Vec<u8>)
        ensures
            !final(self).is_free,
            final(self).data == data,
            final(self).start == old(self).start,
            final(self).size == old(self).size,
    {
        self.is_free = false;
        self.data = data;
    }

    /// Frees the block and drops its content.
    pub fn deallocate(&mut self)
        ensures
            final(self).is_free,
            final(self).data@ == Seq::<u8>::empty(),
            final(self).start == old(self).start,
            final(self).size == old(self).size,
    {
        self.is_free = true;
        self.data.clear();
    }
}

} // verus!
