//! What all DMA transfers share.

use vstd::prelude::*;

verus! {

/// A DMA transfer that the engine cannot take.
#[derive(Clone, Copy, Debug, PartialEq, Eq, Structural)]
pub struct InvalidParameters;

/// The end of the chunk that begins at `from`.
pub open spec fn chunk_end_at(total: int, from: int, max_transfer: int) -> int {
    if total - from <= max_transfer {
        total
    } else {
        from + max_transfer
    }
}

/// The end of the DMA chunk that begins at `from`, and whether it is the last
/// one.
pub fn next_chunk(total: usize, from: usize, max_transfer: usize) -> (r: (usize, bool))
    requires
        from <= total,
    ensures
        r.0 == chunk_end_at(total as int, from as int, max_transfer as int),
        r.1 == (r.0 == total),
{
    if total - from <= max_transfer {
        (total, true)
    } else {
        (from + max_transfer, false)
    }
}

} // verus!
