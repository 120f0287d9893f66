//! OS-facing sizing helpers.  The virtual-memory calls themselves
//! (reserve, commit, decommit) are outside this library; what is
//! verified here is the size arithmetic the allocator performs before
//! making them.

use vstd::prelude::*;
use crate::mimalloc_types::{MI_KIB, MI_MIB};

verus! {

/// The OS page size assumed by this model.
pub const MI_OS_PAGE_SIZE: usize = 4096;

/// OS (small) page size.  The production allocator queries the system
/// once at startup; this model fixes the common default.
pub fn _mi_os_page_size() -> (r: usize)
    ensures
        r == MI_OS_PAGE_SIZE,
{
    MI_OS_PAGE_SIZE
}

/// Align `sz` upwards to a multiple of `alignment`.
pub fn _mi_align_up(sz: usize, alignment: usize) -> (r: usize)
    requires
        alignment != 0,
        sz <= usize::MAX - alignment,
    ensures
        r == ((sz + alignment - 1) as int / alignment as int) * alignment,
        sz <= r < sz + alignment,
        r as int % alignment as int == 0,
{
    proof {
        vstd::arithmetic::div_mod::lemma_fundamental_div_mod(
            (sz + alignment - 1) as int,
            alignment as int,
        );
        vstd::arithmetic::div_mod::lemma_mod_bound((sz + alignment - 1) as int, alignment as int);
        let q = (sz + alignment - 1) as int / alignment as int;
        assert(q * alignment as int == alignment as int * q) by (nonlinear_arith);
        vstd::arithmetic::div_mod::lemma_mod_multiples_basic(q, alignment as int);
    }
    ((sz + alignment - 1) / alignment) * alignment
}

/// The alignment granule used for a requested size: coarser granules
/// for larger requests, bounding waste at about one eighth.
pub open spec fn good_alloc_align(size: usize) -> int {
    if size < 512 * MI_KIB {
        MI_OS_PAGE_SIZE as int
    } else if size < 2 * MI_MIB {
        64 * MI_KIB
    } else if size < 8 * MI_MIB {
        256 * MI_KIB
    } else if size < 32 * MI_MIB {
        MI_MIB as int
    } else {
        4 * MI_MIB
    }
}

/// Round a size up to a good OS allocation size; sizes too close to
/// `usize::MAX` are returned unchanged to avoid overflow.
pub fn _mi_os_good_alloc_size(size: usize) -> (r: usize)
    ensures
        size >= usize::MAX - good_alloc_align(size) ==> r == size,
        size < usize::MAX - good_alloc_align(size) ==> size <= r < size + good_alloc_align(size)
            && r as int % good_alloc_align(size) == 0,
{
    let align_size: usize;
    if size < 512 * MI_KIB {
        align_size = MI_OS_PAGE_SIZE;
    } else if size < 2 * MI_MIB {
        align_size = 64 * MI_KIB;
    } else if size < 8 * MI_MIB {
        align_size = 256 * MI_KIB;
    } else if size < 32 * MI_MIB {
        align_size = MI_MIB;
    } else {
        align_size = 4 * MI_MIB;
    }
    if size >= usize::MAX - align_size {
        return size;
    }
    _mi_align_up(size, align_size)
}

/// Whether a request could use large OS pages.  This model never
/// enables large-page support, so the answer is always no.
pub fn use_large_os_page(size: usize, alignment: usize) -> (r: bool)
    ensures
        !r,
{
    let large_page_size: usize = 0;
    large_page_size != 0 && size % MI_MIB == 0 && alignment % MI_MIB == 0
}

} // verus!
