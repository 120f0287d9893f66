//! Core of a size-class-segregated, thread-caching memory allocator.
//!
//! Allocation requests are routed to fixed-size blocks carved out of
//! "pages", which in turn are carved out of large aligned "segments".
//! Raw pointers of a production allocator are modelled here as integer
//! addresses and arena indices, so that the bookkeeping invariants can
//! be stated and proved.

use vstd::prelude::*;

pub mod bits;
pub mod heap;
pub mod init;
pub mod malloc;
pub mod mimalloc_internal;
pub mod mimalloc_types;
pub mod options;
pub mod os;
pub mod page;
pub mod segment;
pub mod segment_cache;

verus! {

/// Wrapping-free addition; kept as the crate's smallest sanity entry point.
pub fn add(left: usize, right: usize) -> (sum: usize)
    requires
        left + right <= usize::MAX,
    ensures
        sum == left + right,
{
    left + right
}

} // verus!
