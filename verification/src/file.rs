//! Page alignment of I/O buffers.

use vstd::prelude::*;

use crate::format::PAGE_SIZE;

verus! {

/// How many bytes of a buffer at `address` to leave out so that the rest begins a page.
pub fn aligned_start(address: usize) -> (start: usize)
    ensures
        start < PAGE_SIZE,
        (address + start) % 4096 == 0,
{
    (PAGE_SIZE - address % PAGE_SIZE) % PAGE_SIZE
}

} // verus!
