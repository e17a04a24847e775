//! The ways in which the eviction engine refuses a write.

use vstd::prelude::*;

verus! {

/// Why a write was refused.
#[derive(Debug, Clone, Copy, PartialEq, Eq)]
pub enum CreedmoorError {
    /// The value is larger than the whole disk budget: no eviction can make
    /// room for it. Holds the value's size in bytes.
    CacheObjectSizeTooLarge(usize),
    /// The recency index ran out of records before enough bytes were freed.
    EvictionShortfall,
}

} // verus!
