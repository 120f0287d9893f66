//! Small shared helpers: word-size classes, alignment arithmetic, bit
//! scans, block sizing, and the basic commit-mask constructors and
//! queries.

use vstd::prelude::*;
use crate::bits::{u64_bit, u64_get_bit, u64_set_bit, lemma_u64_zero_bits, lemma_u64_ones_bits,
    lemma_u64_bits_determine};
use crate::mimalloc_types::{MiCommitMask, MiPage, MI_COMMIT_MASK_BITS, MI_HUGE_BLOCK_SIZE,
    MI_INTPTR_BITS, MI_INTPTR_SIZE, MI_PADDING_SIZE};

verus! {

/// In this model, thread identity is a plain integer handed in by the
/// caller; the main thread is thread `0`.
pub fn _mi_thread_id() -> (r: usize)
    ensures
        r == 0,
{
    0
}

/// Byte size rounded up to machine words: `r * 8` is the smallest word
/// multiple holding `size` bytes.
pub fn _mi_wsize_from_size(size: usize) -> (r: usize)
    requires
        size <= usize::MAX - MI_INTPTR_SIZE,
    ensures
        r == (size + MI_INTPTR_SIZE - 1) as int / MI_INTPTR_SIZE as int,
        size <= r * MI_INTPTR_SIZE < size + MI_INTPTR_SIZE,
    {
    let r = (size + MI_INTPTR_SIZE - 1) / MI_INTPTR_SIZE;
    proof {
        vstd::arithmetic::div_mod::lemma_fundamental_div_mod(
            (size + MI_INTPTR_SIZE - 1) as int,
            MI_INTPTR_SIZE as int,
        );
        vstd::arithmetic::div_mod::lemma_mod_bound(
            (size + MI_INTPTR_SIZE - 1) as int,
            MI_INTPTR_SIZE as int,
        );
    }
    r
}

/// Block size of a live, non-huge page.
pub fn mi_page_block_size(page: &MiPage) -> (r: usize)
    requires
        0 < page.xblock_size < MI_HUGE_BLOCK_SIZE,
    ensures
        r == page.xblock_size,
{
    page.xblock_size as usize
}

/// Usable bytes of a block: the block size without the fixed padding.
pub fn mi_page_usable_block_size(page: &MiPage) -> (r: usize)
    requires
        MI_PADDING_SIZE < page.xblock_size < MI_HUGE_BLOCK_SIZE,
    ensures
        r == page.xblock_size - MI_PADDING_SIZE,
{
    mi_page_block_size(page) - MI_PADDING_SIZE
}

/// Align `sz` downwards to a multiple of `alignment`.
pub fn _mi_align_down(sz: usize, alignment: usize) -> (r: usize)
    requires
        alignment != 0,
    ensures
        r == (sz as int / alignment as int) * alignment,
        r <= sz,
        r as int % alignment as int == 0,
        sz - r < alignment,
{
    proof {
        vstd::arithmetic::div_mod::lemma_fundamental_div_mod(sz as int, alignment as int);
        vstd::arithmetic::div_mod::lemma_mod_bound(sz as int, alignment as int);
        vstd::arithmetic::div_mod::lemma_mod_multiples_basic(
            sz as int / alignment as int,
            alignment as int,
        );
        let q = sz as int / alignment as int;
        assert(q * alignment as int == alignment as int * q) by (nonlinear_arith);
    }
    (sz / alignment) * alignment
}

/// Divide upwards: `size <= r * divider < size + divider`.
pub fn _mi_divide_up(size: usize, divider: usize) -> (r: usize)
    requires
        divider != 0,
        size <= usize::MAX - divider,
    ensures
        r == (size + divider - 1) as int / divider as int,
        size <= r * divider,
        size == 0 ==> r == 0,
        size > 0 ==> (r - 1) * divider < size,
{
    proof {
        vstd::arithmetic::div_mod::lemma_fundamental_div_mod(
            (size + divider - 1) as int,
            divider as int,
        );
        vstd::arithmetic::div_mod::lemma_mod_bound((size + divider - 1) as int, divider as int);
        let q = (size + divider - 1) as int / divider as int;
        assert(q * divider as int == divider as int * q) by (nonlinear_arith);
        assert((q - 1) * divider as int == divider as int * q - divider as int)
            by (nonlinear_arith);
        if size == 0 {
            vstd::arithmetic::div_mod::lemma_basic_div((divider - 1) as int, divider as int);
        }
    }
    (size + divider - 1) / divider
}

/// Number of leading zero bits of `x` (64 when `x` is zero).
pub fn mi_clz(x: usize) -> (r: usize)
    ensures
        x == 0 ==> r == MI_INTPTR_BITS,
        x != 0 ==> r < 64 && u64_bit(x as u64, 63 - r)
            && (forall|j: int| 63 - r < j < 64 ==> !(#[trigger] u64_bit(x as u64, j))),
{
    let w = x as u64;
    let mut i: usize = 64;
    while i > 0
        invariant
            i <= 64,
            w == x as u64,
            forall|j: int| i <= j < 64 ==> !u64_bit(w, j),
        decreases i,
    {
        i = i - 1;
        if u64_get_bit(w, i) {
            proof {
                lemma_u64_zero_bits();
            }
            return 63 - i;
        }
    }
    proof {
        lemma_u64_zero_bits();
        lemma_u64_bits_determine(w, 0);
    }
    64
}

/// Number of trailing zero bits of `x` (64 when `x` is zero).
pub fn mi_ctz(x: usize) -> (r: usize)
    ensures
        x == 0 ==> r == MI_INTPTR_BITS,
        x != 0 ==> r < 64 && u64_bit(x as u64, r as int)
            && (forall|j: int| 0 <= j < r ==> !(#[trigger] u64_bit(x as u64, j))),
{
    let w = x as u64;
    let mut i: usize = 0;
    while i < 64
        invariant
            i <= 64,
            w == x as u64,
            forall|j: int| 0 <= j < i ==> !u64_bit(w, j),
        decreases 64 - i,
    {
        if u64_get_bit(w, i) {
            proof {
                lemma_u64_zero_bits();
            }
            return i;
        }
        i = i + 1;
    }
    proof {
        lemma_u64_zero_bits();
        lemma_u64_bits_determine(w, 0);
    }
    64
}

/// "Bit scan reverse": index of the highest set bit of `x`, or
/// `MI_INTPTR_BITS` when `x` is zero.
pub fn mi_bsr(x: usize) -> (r: usize)
    ensures
        x == 0 ==> r == MI_INTPTR_BITS,
        x != 0 ==> r < 64 && u64_bit(x as u64, r as int)
            && (forall|j: int| r < j < 64 ==> !(#[trigger] u64_bit(x as u64, j))),
{
    if x == 0 {
        MI_INTPTR_BITS
    } else {
        MI_INTPTR_BITS - 1 - mi_clz(x)
    }
}

/// Size in bytes of a segment.
pub fn mi_segment_size(segment: &crate::mimalloc_types::MiSegment) -> (r: usize)
    requires
        segment.segment_slices <= 512,
    ensures
        r == segment.segment_slices * crate::mimalloc_types::MI_SEGMENT_SLICE_SIZE,
{
    proof {
        assert(segment.segment_slices * crate::mimalloc_types::MI_SEGMENT_SLICE_SIZE
            <= 512 * crate::mimalloc_types::MI_SEGMENT_SLICE_SIZE) by (nonlinear_arith)
            requires
                0 <= segment.segment_slices <= 512,
        ;
    }
    (segment.segment_slices as usize) * crate::mimalloc_types::MI_SEGMENT_SLICE_SIZE
}

/// Read one bit of a commit mask.
pub fn mi_commit_mask_bit_at(cm: &MiCommitMask, idx: usize) -> (r: bool)
    requires
        idx < MI_COMMIT_MASK_BITS,
    ensures
        r == cm.bit(idx as int),
{
    u64_get_bit(cm.mask[idx / 64], idx % 64)
}

/// Write one bit of a commit mask.
pub fn mi_commit_mask_write_bit(cm: &mut MiCommitMask, idx: usize, v: bool)
    requires
        idx < MI_COMMIT_MASK_BITS,
    ensures
        forall|j: int| 0 <= j < MI_COMMIT_MASK_BITS
            ==> #[trigger] final(cm).bit(j) == (if j == idx as int { v } else { old(cm).bit(j) }),
{
    let wi = idx / 64;
    let w = cm.mask[wi];
    cm.mask[wi] = u64_set_bit(w, idx % 64, v);
    proof {
        assert forall|j: int| 0 <= j < MI_COMMIT_MASK_BITS
            implies #[trigger] final(cm).bit(j)
                == (if j == idx as int { v } else { old(cm).bit(j) }) by {
            vstd::arithmetic::div_mod::lemma_fundamental_div_mod(j, 64);
            vstd::arithmetic::div_mod::lemma_mod_bound(j, 64);
            vstd::arithmetic::div_mod::lemma_fundamental_div_mod(idx as int, 64);
            vstd::arithmetic::div_mod::lemma_mod_bound(idx as int, 64);
        }
    }
}

/// Clear every bit of the mask.
pub fn mi_commit_mask_create_empty(cm: &mut MiCommitMask)
    ensures
        forall|j: int| !final(cm).bit(j),
{
    cm.mask = [0u64, 0, 0, 0, 0, 0, 0, 0];
    proof {
        lemma_u64_zero_bits();
    }
}

/// Set every bit of the mask.
pub fn mi_commit_mask_create_full(cm: &mut MiCommitMask)
    ensures
        forall|j: int| 0 <= j < MI_COMMIT_MASK_BITS ==> #[trigger] final(cm).bit(j),
{
    let ones: u64 = 0xffff_ffff_ffff_ffff;
    cm.mask = [ones, ones, ones, ones, ones, ones, ones, ones];
    proof {
        lemma_u64_ones_bits();
        assert forall|j: int| 0 <= j < MI_COMMIT_MASK_BITS implies #[trigger] final(cm).bit(j) by {
            vstd::arithmetic::div_mod::lemma_fundamental_div_mod(j, 64);
            vstd::arithmetic::div_mod::lemma_mod_bound(j, 64);
        }
    }
}

/// Whether no commit unit is marked.
pub fn mi_commit_mask_is_empty(cm: &MiCommitMask) -> (r: bool)
    ensures
        r == (forall|j: int| 0 <= j < MI_COMMIT_MASK_BITS ==> !(#[trigger] cm.bit(j))),
{
    let mut i: usize = 0;
    while i < MI_COMMIT_MASK_BITS
        invariant
            i <= MI_COMMIT_MASK_BITS,
            forall|j: int| 0 <= j < i ==> !(#[trigger] cm.bit(j)),
        decreases MI_COMMIT_MASK_BITS - i,
    {
        if mi_commit_mask_bit_at(cm, i) {
            return false;
        }
        i = i + 1;
    }
    true
}

/// Whether every commit unit is marked.
pub fn mi_commit_mask_is_full(cm: &MiCommitMask) -> (r: bool)
    ensures
        r == (forall|j: int| 0 <= j < MI_COMMIT_MASK_BITS ==> #[trigger] cm.bit(j)),
{
    let mut i: usize = 0;
    while i < MI_COMMIT_MASK_BITS
        invariant
            i <= MI_COMMIT_MASK_BITS,
            forall|j: int| 0 <= j < i ==> #[trigger] cm.bit(j),
        decreases MI_COMMIT_MASK_BITS - i,
    {
        if !mi_commit_mask_bit_at(cm, i) {
            return false;
        }
        i = i + 1;
    }
    true
}

} // verus!
