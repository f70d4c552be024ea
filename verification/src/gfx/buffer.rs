//! Writes into mapped buffers.

use vstd::prelude::*;

verus! {

/// Whether a write of `len` bytes at `offset` stays within a buffer.
pub fn write_fits(size: u64, offset: u64, len: u64) -> (fits: bool)
    ensures
        fits <==> offset + len <= size,
{
    offset <= size && len <= size - offset
}

} // verus!
