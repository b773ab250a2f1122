//! Block headers and the heap regions they describe.
use vstd::prelude::*;

verus! {

/// The header kept for each allocation, in allocation order.
#[derive(Clone, Copy)]
pub struct Block {
    /// Payload bytes the caller asked for.
    pub size: usize,
    /// Whether the caller has released the block.
    pub is_free: bool,
    /// Index of the block allocated right after this one, if any.
    pub next: Option<usize>,
}

impl Block {
    pub fn new(size: usize, is_free: bool, next: Option<usize>) -> (r: Block)
        ensures
            r == (Block { size, is_free, next }),
    {
        Block { size, is_free, next }
    }
}

/// Where a block lives in the heap: the region taken from the heap starts at
/// `start` and spans `reserved` bytes; the payload handed out starts at
/// `payload`, with the header right before it.
#[derive(Clone, Copy)]
pub struct Region {
    pub start: usize,
    pub payload: usize,
    pub reserved: usize,
}

} // verus!
