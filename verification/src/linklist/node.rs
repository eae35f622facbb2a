//! The record at the start of a free chunk: the address of the next free chunk.
use vstd::prelude::*;

verus! {

/// A free chunk: `next` is the address of the next free chunk, `0` at the end of a list.
#[derive(Debug, Clone)]
pub struct Node {
    pub next: usize,
}

impl Node {
    /// Links this chunk to the chunk at `next`.
    pub fn set_next(&mut self, next: usize)
        ensures
            final(self).next == next,
    {
        self.next = next;
    }
}

} // verus!
