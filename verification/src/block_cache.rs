//! The bound on a cache of recent blocks, as an indexer beside the
//! strategy keeps one.

use vstd::prelude::*;

verus! {

/// The number of blocks from which on one block leaves the cache for each
/// that comes in.
pub const CACHE_CAPACITY: usize = 10_000;

/// Whether a cache that holds `len` blocks is full, so that a block has to
/// leave before the next comes in.
pub fn cache_is_full(len: usize) -> (full: bool)
    ensures
        full == (len >= CACHE_CAPACITY),
{
    len >= CACHE_CAPACITY
}

} // verus!
