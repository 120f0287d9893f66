//! Core data types of the allocator: sizing constants, the one-byte
//! bitfield unit used for packed page flags, pages, blocks, page queues,
//! segments' commit masks and the segment kind.
//!
//! Pointer-linked structures of the production layout are modelled with
//! explicit vectors and integer handles, so every link is a plain value
//! that contracts can speak about.

use vstd::prelude::*;
use crate::bits::{u8_bit, u8_field, u8_get_bit, u8_set_bit, u64_get_bit, u64_bit};
use vstd::arithmetic::power2::pow2;

verus! {

pub const MI_INTPTR_SHIFT: usize = 3;

pub const MI_INTPTR_SIZE: usize = 8;

pub const MI_INTPTR_BITS: usize = 64;

pub const MI_SIZE_BITS: usize = 64;

pub const MI_SMALL_WSIZE_MAX: usize = 128;

pub const MI_SMALL_SIZE_MAX: usize = 1024;

/// Fixed per-block padding reserved after the usable bytes of a block.
pub const MI_PADDING_SIZE: usize = 8;

pub const MI_PADDING_WSIZE: usize = 1;

/// Entries of the word-size-class index of a heap.
pub const MI_PAGES_DIRECT: usize = 130;

pub const MI_SEGMENT_SLICE_SHIFT: usize = 16;

/// 64 KiB: the subdivision and commit granularity of a segment.
pub const MI_SEGMENT_SLICE_SIZE: usize = 65536;

pub const MI_SEGMENT_SHIFT: usize = 25;

/// 32 MiB: the size and the address alignment of a segment.
pub const MI_SEGMENT_SIZE: usize = 33554432;

pub const MI_SLICES_PER_SEGMENT: usize = 512;

pub const MI_SEGMENT_ALIGN: usize = 33554432;

pub const MI_SEGMENT_MASK: usize = 33554431;

pub const MI_KIB: usize = 1024;

pub const MI_MIB: usize = 1048576;

/// Special value used to encode huge block sizes in 32 bits.
pub const MI_HUGE_BLOCK_SIZE: u32 = 0x8000_0000;

pub const MI_COMMIT_SIZE: usize = 65536;

pub const MI_COMMIT_MASK_BITS: usize = 512;

pub const MI_COMMIT_MASK_FIELD_BITS: usize = 64;

pub const MI_COMMIT_MASK_FIELD_COUNT: usize = 8;

/// Retirement countdown given to a page whose last block was freed.
pub const MI_RETIRE_CYCLES: u8 = 8;

/// One byte of packed boolean or small-integer fields.
#[derive(Copy, Clone)]
pub struct BitfieldUnit {
    storage: [u8; 1],
}

impl BitfieldUnit {
    /// The raw byte.
    pub closed spec fn byte(self) -> u8 {
        self.storage@[0]
    }

    /// Bit `i` of the unit.
    pub open spec fn bit(self, i: int) -> bool {
        u8_bit(self.byte(), i)
    }

    /// Value of the `w`-bit field starting at bit `off`.
    pub open spec fn field(self, off: int, w: int) -> nat {
        u8_field(self.byte(), off, w)
    }

    pub fn new(storage: [u8; 1]) -> (r: Self)
        ensures
            r.byte() == storage@[0],
    {
        Self { storage }
    }

    pub fn get_bit(&self, index: usize) -> (r: bool)
        requires
            index < 8,
        ensures
            r == self.bit(index as int),
    {
        u8_get_bit(self.storage[0], index)
    }

    pub fn set_bit(&mut self, index: usize, val: bool)
        requires
            index < 8,
        ensures
            forall|j: int| #[trigger] final(self).bit(j)
                == (if j == index as int { val } else { old(self).bit(j) }),
    {
        self.storage[0] = u8_set_bit(self.storage[0], index, val);
    }

    /// Read a packed field as an integer, least significant bit first.
    pub fn get(&self, bit_offset: usize, bit_width: u8) -> (r: u64)
        requires
            bit_offset + bit_width <= 8,
        ensures
            r as nat == self.field(bit_offset as int, bit_width as int),
            r < 256,
    {
        let b = self.storage[0];
        let w = bit_width as usize;
        let mut acc: u64 = 0;
        let mut i: usize = 0;
        proof {
            vstd::arithmetic::power2::lemma2_to64();
        }
        while i < w
            invariant
                i <= w,
                w == bit_width,
                bit_offset + w <= 8,
                b == self.byte(),
                acc as nat == u8_field(b, bit_offset as int, i as int),
                acc < 256,
                (acc as nat) < pow2(i as nat),
            decreases w - i,
        {
            proof {
                crate::bits::lemma_u8_field_split_high(b, bit_offset as int, i + 1);
            }
            if u8_get_bit(b, bit_offset + i) {
                proof {
                    vstd::bits::lemma_u64_pow2_no_overflow(i as nat);
                    vstd::bits::lemma_u64_shl_is_mul(1u64, i as u64);
                    crate::bits::lemma_u64_or_pow2(acc, i as u64);
                    vstd::arithmetic::power2::lemma2_to64();
                    vstd::arithmetic::power2::lemma_pow2_strictly_increases((i + 1) as nat, 9);
                }
                acc = acc | (1u64 << (i as u64));
            }
            proof {
                vstd::arithmetic::power2::lemma_pow2_unfold((i + 1) as nat);
            }
            i = i + 1;
        }
        acc
    }

    /// Write the low `bit_width` bits of `val` into the packed field.
    pub fn set(&mut self, bit_offset: usize, bit_width: u8, val: u64)
        requires
            bit_offset + bit_width <= 8,
        ensures
            forall|i: int| 0 <= i < bit_width
                ==> #[trigger] final(self).bit(bit_offset + i) == u64_bit(val, i),
            forall|j: int| (j < bit_offset || bit_offset + bit_width <= j)
                ==> #[trigger] final(self).bit(j) == old(self).bit(j),
    {
        let w = bit_width as usize;
        let mut i: usize = 0;
        let mut b = self.storage[0];
        while i < w
            invariant
                i <= w,
                w == bit_width,
                bit_offset + w <= 8,
                forall|k: int| 0 <= k < i
                    ==> #[trigger] u8_bit(b, bit_offset + k) == u64_bit(val, k),
                forall|j: int| (j < bit_offset || bit_offset + i <= j)
                    ==> #[trigger] u8_bit(b, j) == old(self).bit(j),
            decreases w - i,
        {
            let v = u64_get_bit(val, i);
            b = u8_set_bit(b, bit_offset + i, v);
            i = i + 1;
        }
        self.storage[0] = b;
    }
}

/// Value of a packed field after writing a small value into it: the
/// field holds the value reduced modulo its width.
pub proof fn lemma_unit_set_get(u: BitfieldUnit, off: int, w: int, val: u64)
    requires
        0 <= off,
        0 < w <= 8,
        off + w <= 8,
        val < pow2(w as nat),
        forall|i: int| 0 <= i < w ==> #[trigger] u.bit(off + i) == u64_bit(val, i),
    ensures
        u.field(off, w) == val,
{
    assert forall|i: int| 0 <= i < w implies u8_bit(u.byte(), off + i) == u64_bit(val, i) by {
        assert(u.bit(off + i) == u64_bit(val, i));
    }
    crate::bits::lemma_u8_field_of_bits(u.byte(), off, w, val);
}

/// The `in_full` / `has_aligned` flag pair of a page.
#[derive(Copy, Clone)]
pub struct PageFlag {
    pub bitfield_1: BitfieldUnit,
}

impl PageFlag {
    pub open spec fn in_full_spec(self) -> bool {
        self.bitfield_1.bit(0)
    }

    pub open spec fn has_aligned_spec(self) -> bool {
        self.bitfield_1.bit(1)
    }

    pub fn in_full(&self) -> (r: u8)
        ensures
            r <= 1,
            (r == 1) == self.in_full_spec(),
    {
        let v = self.bitfield_1.get(0, 1);
        proof {
            vstd::arithmetic::power2::lemma2_to64();
            crate::bits::lemma_u8_field_split_high(self.bitfield_1.byte(), 0, 1);
        }
        v as u8
    }

    pub fn set_in_full(&mut self, val: u8)
        ensures
            final(self).in_full_spec() == (val & 1 == 1),
            final(self).has_aligned_spec() == old(self).has_aligned_spec(),
    {
        self.bitfield_1.set_bit(0, val & 1 == 1);
    }

    pub fn has_aligned(&self) -> (r: u8)
        ensures
            r <= 1,
            (r == 1) == self.has_aligned_spec(),
    {
        let v = self.bitfield_1.get(1, 1);
        proof {
            vstd::arithmetic::power2::lemma2_to64();
            crate::bits::lemma_u8_field_split_high(self.bitfield_1.byte(), 1, 1);
        }
        v as u8
    }

    pub fn set_has_aligned(&mut self, val: u8)
        ensures
            final(self).has_aligned_spec() == (val & 1 == 1),
            final(self).in_full_spec() == old(self).in_full_spec(),
    {
        self.bitfield_1.set_bit(1, val & 1 == 1);
    }

    pub fn new_bitfield_1(in_full: u8, has_aligned: u8) -> (r: BitfieldUnit)
        ensures
            r.bit(0) == (in_full & 1 == 1),
            r.bit(1) == (has_aligned & 1 == 1),
            forall|j: int| j >= 2 ==> !(#[trigger] r.bit(j)),
    {
        let mut unit = BitfieldUnit::new([0u8]);
        proof {
            crate::bits::lemma_u8_zero_bits();
        }
        unit.set_bit(0, in_full & 1 == 1);
        unit.set_bit(1, has_aligned & 1 == 1);
        unit
    }
}

/// A page: one size class's worth of fixed-size blocks inside a segment
/// span.  Blocks are identified by their index below `capacity`; the
/// three free lists hold block indices instead of intrusive pointers.
pub struct MiPage {
    /// Slices spanned by this page; `0` marks a dead (not a page) slot.
    pub slice_count: u32,
    /// First slice of the span, relative to the segment start.
    pub slice_offset: u32,
    /// Packed state bits: `is_reset`, `is_committed`, `is_zero_init`.
    pub bitfield_1: BitfieldUnit,
    /// Blocks committed and carved into the free lists so far.
    pub capacity: u16,
    /// Blocks reserved in the page's address span.
    pub reserved: u16,
    /// The `in_full` and `has_aligned` flags.
    pub flags: PageFlag,
    /// Packed state bits: `is_zero`, `retire_expire`.
    pub bitfield_2: BitfieldUnit,
    /// Available blocks; `malloc` pops from the back in O(1).
    pub free: Vec<u16>,
    /// Blocks freed by the owning thread, merged into `free` on collect.
    pub local_free: Vec<u16>,
    /// Blocks freed by other threads, drained on collect.
    pub thread_free: Vec<u16>,
    /// Blocks in use, including blocks still parked in `thread_free`.
    pub used: u32,
    /// Size of each block in bytes (always > 0 for a live page).
    pub xblock_size: u32,
    /// Whether owner-thread frees must go to `local_free` instead of
    /// `free` (set while a concurrent drain could race on `free`).
    pub delayed_free: bool,
    /// Committed bytes backing the blocks: `capacity * xblock_size`.
    pub data: Vec<u8>,
}

impl MiPage {
    pub open spec fn is_reset_spec(self) -> bool {
        self.bitfield_1.bit(0)
    }

    pub open spec fn is_committed_spec(self) -> bool {
        self.bitfield_1.bit(1)
    }

    pub open spec fn is_zero_init_spec(self) -> bool {
        self.bitfield_1.bit(2)
    }

    pub open spec fn is_zero_spec(self) -> bool {
        self.bitfield_2.bit(0)
    }

    pub open spec fn retire_expire_spec(self) -> nat {
        self.bitfield_2.field(1, 7)
    }

    /// A fresh, empty, dead page slot.
    pub fn new() -> (p: MiPage)
        ensures
            p.slice_count == 0,
            p.slice_offset == 0,
            p.capacity == 0,
            p.reserved == 0,
            p.used == 0,
            p.xblock_size == 0,
            !p.delayed_free,
            p.free@ == Seq::<u16>::empty(),
            p.local_free@ == Seq::<u16>::empty(),
            p.thread_free@ == Seq::<u16>::empty(),
            p.data@ == Seq::<u8>::empty(),
            !p.is_reset_spec(),
            !p.is_committed_spec(),
            !p.is_zero_init_spec(),
            !p.is_zero_spec(),
            p.retire_expire_spec() == 0,
            !p.flags.in_full_spec(),
            !p.flags.has_aligned_spec(),
    {
        let p = MiPage {
            slice_count: 0,
            slice_offset: 0,
            bitfield_1: BitfieldUnit::new([0u8]),
            capacity: 0,
            reserved: 0,
            flags: PageFlag { bitfield_1: BitfieldUnit::new([0u8]) },
            bitfield_2: BitfieldUnit::new([0u8]),
            free: Vec::new(),
            local_free: Vec::new(),
            thread_free: Vec::new(),
            used: 0,
            xblock_size: 0,
            delayed_free: false,
            data: Vec::new(),
        };
        proof {
            crate::bits::lemma_u8_zero_bits();
            lemma_zero_field(0, 1, 7);
        }
        p
    }

    pub fn is_reset(&self) -> (r: u8)
        ensures
            r <= 1,
            (r == 1) == self.is_reset_spec(),
    {
        if self.bitfield_1.get_bit(0) { 1 } else { 0 }
    }

    pub fn set_is_reset(&mut self, val: u8)
        ensures
            final(self).is_reset_spec() == (val & 1 == 1),
            *final(self) == (MiPage { bitfield_1: final(self).bitfield_1, ..*old(self) }),
            final(self).is_committed_spec() == old(self).is_committed_spec(),
            final(self).is_zero_init_spec() == old(self).is_zero_init_spec(),
    {
        self.bitfield_1.set_bit(0, val & 1 == 1);
    }

    pub fn is_committed(&self) -> (r: u8)
        ensures
            r <= 1,
            (r == 1) == self.is_committed_spec(),
    {
        if self.bitfield_1.get_bit(1) { 1 } else { 0 }
    }

    pub fn set_is_committed(&mut self, val: u8)
        ensures
            final(self).is_committed_spec() == (val & 1 == 1),
            *final(self) == (MiPage { bitfield_1: final(self).bitfield_1, ..*old(self) }),
            final(self).is_reset_spec() == old(self).is_reset_spec(),
            final(self).is_zero_init_spec() == old(self).is_zero_init_spec(),
    {
        self.bitfield_1.set_bit(1, val & 1 == 1);
    }

    pub fn is_zero_init(&self) -> (r: u8)
        ensures
            r <= 1,
            (r == 1) == self.is_zero_init_spec(),
    {
        if self.bitfield_1.get_bit(2) { 1 } else { 0 }
    }

    pub fn set_is_zero_init(&mut self, val: u8)
        ensures
            final(self).is_zero_init_spec() == (val & 1 == 1),
            *final(self) == (MiPage { bitfield_1: final(self).bitfield_1, ..*old(self) }),
            final(self).is_reset_spec() == old(self).is_reset_spec(),
            final(self).is_committed_spec() == old(self).is_committed_spec(),
    {
        self.bitfield_1.set_bit(2, val & 1 == 1);
    }

    /// A packed unit holding the three page state bits.
    pub fn new_bitfield_1(is_reset: u8, is_committed: u8, is_zero_init: u8) -> (r: BitfieldUnit)
        ensures
            r.bit(0) == (is_reset & 1 == 1),
            r.bit(1) == (is_committed & 1 == 1),
            r.bit(2) == (is_zero_init & 1 == 1),
            forall|j: int| j >= 3 ==> !(#[trigger] r.bit(j)),
    {
        let mut unit = BitfieldUnit::new([0u8]);
        proof {
            crate::bits::lemma_u8_zero_bits();
        }
        unit.set_bit(0, is_reset & 1 == 1);
        unit.set_bit(1, is_committed & 1 == 1);
        unit.set_bit(2, is_zero_init & 1 == 1);
        unit
    }

    pub fn is_zero(&self) -> (r: u8)
        ensures
            r <= 1,
            (r == 1) == self.is_zero_spec(),
    {
        if self.bitfield_2.get_bit(0) { 1 } else { 0 }
    }

    pub fn set_is_zero(&mut self, val: u8)
        ensures
            final(self).is_zero_spec() == (val & 1 == 1),
            *final(self) == (MiPage { bitfield_2: final(self).bitfield_2, ..*old(self) }),
            final(self).retire_expire_spec() == old(self).retire_expire_spec(),
    {
        self.bitfield_2.set_bit(0, val & 1 == 1);
        proof {
            assert forall|i: int| 1 <= i < 8
                implies u8_bit(final(self).bitfield_2.byte(), i)
                    == u8_bit(old(self).bitfield_2.byte(), i) by {
                assert(final(self).bitfield_2.bit(i) == old(self).bitfield_2.bit(i));
            }
            crate::bits::lemma_u8_field_congruence(
                final(self).bitfield_2.byte(),
                old(self).bitfield_2.byte(),
                1,
                7,
            );
        }
    }

    /// Remaining retirement countdown of a fully free page.
    pub fn retire_expire(&self) -> (r: u8)
        ensures
            r < 128,
            r as nat == self.retire_expire_spec(),
    {
        let v = self.bitfield_2.get(1, 7);
        proof {
            crate::bits::lemma_u8_field_bound(self.bitfield_2.byte(), 1, 7);
            vstd::arithmetic::power2::lemma2_to64();
        }
        v as u8
    }

    pub fn set_retire_expire(&mut self, val: u8)
        ensures
            final(self).retire_expire_spec() == val % 128,
            *final(self) == (MiPage { bitfield_2: final(self).bitfield_2, ..*old(self) }),
            final(self).is_zero_spec() == old(self).is_zero_spec(),
    {
        self.bitfield_2.set(1, 7, val as u64);
        proof {
            let vv = (val % 128) as u64;
            assert forall|i: int| 0 <= i < 7
                implies #[trigger] final(self).bitfield_2.bit(1 + i) == u64_bit(vv, i) by {
                assert(final(self).bitfield_2.bit(1 + i) == u64_bit(val as u64, i));
                let iv = i as u64;
                assert(iv < 7 ==> ((val as u64) >> iv) & 1 == (((val as u64) % 128) >> iv) & 1)
                    by (bit_vector);
                assert((val % 128) as u64 == (val as u64) % 128) by (bit_vector);
            }
            vstd::arithmetic::power2::lemma2_to64();
            lemma_unit_set_get(final(self).bitfield_2, 1, 7, vv);
        }
    }

    /// A packed unit holding `is_zero` and a retirement countdown.
    pub fn new_bitfield_2(is_zero: u8, retire_expire: u8) -> (r: BitfieldUnit)
        ensures
            r.bit(0) == (is_zero & 1 == 1),
            u8_field(r.byte(), 1, 7) == retire_expire % 128,
    {
        let mut unit = BitfieldUnit::new([0u8]);
        unit.set_bit(0, is_zero & 1 == 1);
        unit.set(1, 7, retire_expire as u64);
        proof {
            let vv = (retire_expire % 128) as u64;
            assert forall|i: int| 0 <= i < 7
                implies #[trigger] unit.bit(1 + i) == u64_bit(vv, i) by {
                assert(unit.bit(1 + i) == u64_bit(retire_expire as u64, i));
                let iv = i as u64;
                assert(iv < 7 ==> ((retire_expire as u64) >> iv) & 1
                    == (((retire_expire as u64) % 128) >> iv) & 1) by (bit_vector);
                assert((retire_expire % 128) as u64 == (retire_expire as u64) % 128)
                    by (bit_vector);
            }
            vstd::arithmetic::power2::lemma2_to64();
            lemma_unit_set_get(unit, 1, 7, vv);
        }
        unit
    }
}

/// An all-zero byte has every packed field at zero.
proof fn lemma_zero_field(b: u8, off: int, w: int)
    requires
        forall|i: int| !u8_bit(b, i),
    ensures
        u8_field(b, off, w) == 0,
    decreases w,
{
    if w > 0 {
        lemma_zero_field(b, off + 1, w - 1);
    }
}

/// A free-list node of the production in-memory layout: a block starts
/// with one encoded machine word linking to the next free block.  The
/// model keeps free lists as explicit index vectors, so this type only
/// documents the block header shape.
#[derive(Copy, Clone)]
pub struct MiBlock {
    pub next: usize,
}

/// A stable reference to a page: the segment's handle and the page's
/// slot inside that segment.
#[derive(Copy, Clone, PartialEq, Eq, Structural)]
pub struct PageRef {
    pub seg: usize,
    pub page: usize,
}

/// A queue of pages that share one block size ("bin").
pub struct MiPageQueue {
    /// Pages of this bin, in queue order.
    pub list: Vec<PageRef>,
    /// Block size served by this bin.
    pub block_size: usize,
}

/// Kind of a segment.
#[derive(Copy, Clone, PartialEq, Eq, Structural)]
pub enum MiSegmentKind {
    /// `MI_SEGMENT_SIZE` segment with pages inside.
    MiSegmentNormal,
    /// Oversized segment holding one huge page.
    MiSegmentHuge,
}

/// Bit-per-commit-unit mask over a segment: bit `i` says whether the
/// `i`-th `MI_COMMIT_SIZE` unit is OS-committed.
#[derive(Copy, Clone)]
pub struct MiCommitMask {
    pub mask: [u64; 8],
}

impl MiCommitMask {
    /// Bit `i` of the mask.
    pub open spec fn bit(self, i: int) -> bool {
        0 <= i < 512 && u64_bit(self.mask@[i / 64], i % 64)
    }
}

/// A large, `MI_SEGMENT_SIZE`-aligned extent of OS memory, subdivided
/// into slices that host pages.  The `slices` array of the production
/// layout is modelled by the `pages` vector plus a bump index and a
/// pool of freed spans.
pub struct MiSegment {
    /// Memory id handed out by the arena that provided the memory.
    pub memid: usize,
    /// Memory that must never be decommitted (large OS pages etc.).
    pub mem_is_pinned: bool,
    /// Memory in large or huge OS pages.
    pub mem_is_large: bool,
    /// Whole segment eagerly committed.
    pub mem_is_committed: bool,
    pub mem_alignment: usize,
    pub mem_align_offset: usize,
    /// Whether unused slices may be decommitted.
    pub allow_decommit: bool,
    /// Clock value after which a pending decommit may run.
    pub decommit_expire: i64,
    /// Sub-regions scheduled for decommit; always below `commit_mask`.
    pub decommit_mask: MiCommitMask,
    /// Sub-regions currently OS-committed.
    pub commit_mask: MiCommitMask,
    /// Pages whose owning thread has exited; at most `used`.
    pub abandoned: u64,
    /// Times this segment was visited on the abandoned list.
    pub abandoned_visits: u64,
    /// Pages in use.
    pub used: u64,
    /// Random cookie validating pointers claimed to be segments.
    pub cookie: usize,
    /// Slices of this segment.
    pub segment_slices: u64,
    /// Leading slices holding the segment info.
    pub segment_info_slices: u64,
    pub kind: MiSegmentKind,
    /// Owning thread, meaningful while the segment is not abandoned.
    pub thread_id: usize,
    /// Whether the segment sits on the abandoned stack, waiting to be
    /// reclaimed by another thread.
    pub is_abandoned: bool,
    /// Start address of the segment; a multiple of `MI_SEGMENT_SIZE`.
    pub base: usize,
    /// Whether this slot holds a live segment (a freed slot stays,
    /// keeping handles stable).
    pub live: bool,
    /// First slice never yet carved into a span.
    pub next_slice: usize,
    /// Freed spans `(first_slice, slice_count)` available for reuse.
    pub free_spans: Vec<(usize, usize)>,
    /// Page slots of this segment; a slot with `slice_count == 0` is dead.
    pub pages: Vec<MiPage>,
}

/// Per-thread segment bookkeeping: how many segments this thread holds
/// and their total size, with high-water marks.
pub struct MiSegmentsTLD {
    pub count: u64,
    pub peak_count: u64,
    pub current_size: u64,
    pub peak_size: u64,
}

/// A per-thread allocation context.  The production layout links pages
/// with intrusive pointers; here the direct index and the page queues
/// hold explicit page references.
pub struct MiHeap {
    /// Thread this heap belongs to.
    pub thread_id: usize,
    /// Arena this heap prefers, or 0.
    pub arena_id: i32,
    /// Random cookie of the production layout (fixed in this model).
    pub cookie: usize,
    /// Total pages in the queues.
    pub page_count: usize,
    /// Smallest queue index holding a retired page.
    pub page_retired_min: usize,
    /// Largest queue index holding a retired page.
    pub page_retired_max: usize,
    /// Whether this heap may reclaim abandoned segments.
    pub no_reclaim: bool,
    /// Whether this slot holds a live heap.
    pub live: bool,
    /// Whether this is the thread's backing heap.
    pub backing: bool,
    /// For each word-size class, a page with likely-free blocks.
    pub pages_free_direct: Vec<Option<PageRef>>,
    /// Page queues, one per block size in use.
    pub pages: Vec<MiPageQueue>,
    /// Segment bookkeeping of this thread.
    pub segments_tld: MiSegmentsTLD,
}

} // verus!
