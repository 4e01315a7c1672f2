use crate::text::{decimal_text, push_decimal};
use vstd::prelude::*;
use vstd::string::StringExecFns;

verus! {

/// A span of the arena that no identifier owns.
#[derive(Clone, Copy, Debug, PartialEq, Eq, Structural)]
pub struct FreeBlock {
    pub start: usize,
    pub size: usize,
    pub is_free: bool,
}

impl FreeBlock {
    /// A free span of `size` bytes that begins at `start`.
    pub fn new(start: usize, size: usize) -> (block: Self)
        ensures
            block == (FreeBlock { start, size, is_free: true }),
    {
        FreeBlock { start, size, is_free: true }
    }

    /// The address of the first byte of the span.
    pub fn get_start(&self) -> (start: usize)
        ensures
            start == self.start,
    {
        self.start
    }

    /// The number of bytes in the span.
    pub fn get_size(&self) -> (size: usize)
        ensures
            size == self.size,
    {
        self.size
    }

    /// The block in words.
    pub open spec fn description(&self) -> Seq<char> {
        "FreeBlock: start="@ + decimal_text(self.start as nat) + ", size="@ + decimal_text(
            self.size as nat,
        )
    }

    /// The block in words: where it begins and how large it is.
    pub fn describe(&self) -> (text: String)
        ensures
            text@ == self.description(),
    {
        let mut text = String::from_str("FreeBlock: start=");
        push_decimal(&mut text, self.start);
        text.append(", size=");
        push_decimal(&mut text, self.size);
        text
    }
}

/// What every block of the arena can say of itself.
pub trait MemoryBlock {
    /// Where the block begins.
    spec fn block_start(&self) -> usize;

    /// How many bytes the block reserves.
    spec fn block_size(&self) -> usize;

    fn get_start(&self) -> (start: usize)
        ensures
            start == self.block_start(),
    ;

    fn get_size(&self) -> (size: usize)
        ensures
            size == self.block_size(),
    ;
}

impl MemoryBlock for FreeBlock {
    open spec fn block_start(&self) -> usize {
        self.start
    }

    open spec fn block_size(&self) -> usize {
        self.size
    }

    fn get_start(&self) -> (start: usize) {
        self.start
    }

    fn get_size(&self) -> (size: usize) {
        self.size
    }
}

} // verus!
