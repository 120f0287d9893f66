//! The process-wide segment address map: one bit per possible
//! `MI_SEGMENT_SIZE`-aligned address, set while a live segment occupies
//! that address.  `free` uses it to decide in O(1) whether a pointer
//! belongs to this allocator at all, so a lookup must never trust an
//! unmarked address.

use vstd::prelude::*;
use crate::bits::{u64_bit, u64_get_bit, u64_set_bit};
use crate::mimalloc_types::MI_SEGMENT_SIZE;

verus! {

/// One bit per possible segment start; together the map covers the
/// lowest 20 TiB of the address space.
pub const MI_SEGMENT_MAP_BITS: usize = 655360;

/// 64-bit words backing the map.
pub const MI_SEGMENT_MAP_WSIZE: usize = 10240;

/// The sparse bitmap over segment-aligned addresses.
pub struct MiSegmentMap {
    pub words: Vec<u64>,
}

impl MiSegmentMap {
    pub open spec fn wf(self) -> bool {
        self.words@.len() == MI_SEGMENT_MAP_WSIZE
    }

    /// Whether the `i`-th possible segment start is marked live.
    pub open spec fn bit(self, i: int) -> bool {
        0 <= i < MI_SEGMENT_MAP_BITS && u64_bit(self.words@[i / 64], i % 64)
    }

    /// An empty map: no address is a segment.
    pub fn new() -> (r: MiSegmentMap)
        ensures
            r.wf(),
            forall|i: int| !r.bit(i),
    {
        let words: Vec<u64> = vec![0u64; MI_SEGMENT_MAP_WSIZE];
        proof {
            crate::bits::lemma_u64_zero_bits();
        }
        MiSegmentMap { words }
    }
}

/// The map slot of a segment-aligned address: the word index and the
/// bit index inside that word (the word index is `MI_SEGMENT_MAP_WSIZE`
/// for addresses beyond the mapped range).
pub fn mi_segment_map_index_of(base: usize, bitidx: &mut usize) -> (index: usize)
    requires
        base as int % MI_SEGMENT_SIZE as int == 0,
    ensures
        base as int / MI_SEGMENT_SIZE as int >= MI_SEGMENT_MAP_BITS
            ==> index == MI_SEGMENT_MAP_WSIZE && *final(bitidx) == 0,
        (base as int / MI_SEGMENT_SIZE as int) < MI_SEGMENT_MAP_BITS ==> {
            &&& index == (base as int / MI_SEGMENT_SIZE as int) / 64
            &&& *final(bitidx) == (base as int / MI_SEGMENT_SIZE as int) % 64
            &&& index < MI_SEGMENT_MAP_WSIZE
        },
{
    if base / MI_SEGMENT_SIZE >= MI_SEGMENT_MAP_BITS {
        *bitidx = 0;
        MI_SEGMENT_MAP_WSIZE
    } else {
        let segindex = base / MI_SEGMENT_SIZE;
        *bitidx = segindex % 64;
        proof {
            vstd::arithmetic::div_mod::lemma_fundamental_div_mod(
                base as int,
                MI_SEGMENT_SIZE as int,
            );
            vstd::arithmetic::div_mod::lemma_fundamental_div_mod(segindex as int, 64);
            vstd::arithmetic::div_mod::lemma_mod_bound(segindex as int, 64);
        }
        segindex / 64
    }
}

impl MiSegmentMap {
    /// Whether map index `i` is marked.
    pub fn map_has_bit(&self, i: usize) -> (r: bool)
        requires
            self.wf(),
            i < MI_SEGMENT_MAP_BITS,
        ensures
            r == self.bit(i as int),
    {
        u64_get_bit(self.words[i / 64], i % 64)
    }

    fn get_bit(&self, i: usize) -> (r: bool)
        requires
            self.wf(),
            i < MI_SEGMENT_MAP_BITS,
        ensures
            r == self.bit(i as int),
    {
        u64_get_bit(self.words[i / 64], i % 64)
    }

    /// Record that a live segment now starts at `base`.  Addresses
    /// beyond the mapped range are left untracked (lookups on them
    /// answer "not ours").
    pub fn _mi_segment_map_allocated_at(&mut self, base: usize)
        requires
            old(self).wf(),
            base as int % MI_SEGMENT_SIZE as int == 0,
        ensures
            final(self).wf(),
            (base as int / MI_SEGMENT_SIZE as int) < MI_SEGMENT_MAP_BITS
                ==> forall|j: int| #[trigger] final(self).bit(j)
                == (if j == base as int / MI_SEGMENT_SIZE as int {
                    true
                } else {
                    old(self).bit(j)
                }),
            base as int / MI_SEGMENT_SIZE as int >= MI_SEGMENT_MAP_BITS
                ==> *final(self) == *old(self),
    {
        let mut bitidx: usize = 0;
        let index = mi_segment_map_index_of(base, &mut bitidx);
        if index == MI_SEGMENT_MAP_WSIZE {
            return;
        }
        let w = self.words[index];
        self.words.set(index, u64_set_bit(w, bitidx, true));
        proof {
            let s = base as int / MI_SEGMENT_SIZE as int;
            assert forall|j: int| #[trigger] final(self).bit(j)
                == (if j == s { true } else { old(self).bit(j) }) by {
                if 0 <= j < MI_SEGMENT_MAP_BITS {
                    vstd::arithmetic::div_mod::lemma_fundamental_div_mod(j, 64);
                    vstd::arithmetic::div_mod::lemma_mod_bound(j, 64);
                    vstd::arithmetic::div_mod::lemma_fundamental_div_mod(s, 64);
                }
            }
        }
    }
}

/// Greatest marked map index at or below `i`, or -1 when there is none.
pub open spec fn map_prev_marked(m: MiSegmentMap, i: int) -> int
    decreases i + 1 when i >= -1
{
    if i < 0 {
        -1
    } else if m.bit(i) {
        i
    } else {
        map_prev_marked(m, i - 1)
    }
}

impl MiSegmentMap {
    /// Base address of the marked segment that would contain `p`: the
    /// nearest marked segment start at or below `p`.  `None` means no
    /// marked segment starts at or below `p`, so `p` cannot belong to
    /// the allocator.  The caller still validates the candidate's
    /// bounds and cookie before trusting an interior pointer.
    pub fn map_base_of(&self, p: usize) -> (r: Option<usize>)
        requires
            self.wf(),
        ensures
            p as int / MI_SEGMENT_SIZE as int >= MI_SEGMENT_MAP_BITS ==> r is None,
            (p as int / MI_SEGMENT_SIZE as int) < MI_SEGMENT_MAP_BITS ==> {
                let ix = p as int / MI_SEGMENT_SIZE as int;
                match r {
                    Some(b) => map_prev_marked(*self, ix) >= 0
                        && b == map_prev_marked(*self, ix) * MI_SEGMENT_SIZE
                        && self.bit(map_prev_marked(*self, ix))
                        && b <= p,
                    None => map_prev_marked(*self, ix) == -1,
                }
            },
    {
        let ix = p / MI_SEGMENT_SIZE;
        if ix >= MI_SEGMENT_MAP_BITS {
            return None;
        }
        let mut k = ix;
        loop
            invariant
                self.wf(),
                0 <= k <= ix < MI_SEGMENT_MAP_BITS,
                map_prev_marked(*self, ix as int) == map_prev_marked(*self, k as int),
            ensures
                map_prev_marked(*self, ix as int) == (if self.bit(k as int) {
                    k as int
                } else {
                    -1
                }),
            decreases k,
        {
            if self.get_bit(k) {
                break;
            }
            if k == 0 {
                proof {
                    assert(map_prev_marked(*self, -1) == -1);
                }
                break;
            }
            k = k - 1;
        }
        if self.get_bit(k) {
            proof {
                vstd::arithmetic::mul::lemma_mul_inequality(
                    k as int,
                    ix as int,
                    MI_SEGMENT_SIZE as int,
                );
                vstd::arithmetic::div_mod::lemma_fundamental_div_mod(
                    p as int,
                    MI_SEGMENT_SIZE as int,
                );
                assert(ix as int * MI_SEGMENT_SIZE as int <= p as int) by (nonlinear_arith)
                    requires
                        p as int == MI_SEGMENT_SIZE as int * (ix as int) + p as int
                            % MI_SEGMENT_SIZE as int,
                        p as int % MI_SEGMENT_SIZE as int >= 0,
                ;
            }
            Some(k * MI_SEGMENT_SIZE)
        } else {
            None
        }
    }
}

/// Round trip of the segment map: after a segment's start is marked,
/// looking up any address inside the segment's span finds exactly that
/// start.
pub proof fn lemma_segment_map_roundtrip(m: MiSegmentMap, base: int, p: int)
    requires
        m.wf(),
        base % MI_SEGMENT_SIZE as int == 0,
        0 <= base,
        (base / MI_SEGMENT_SIZE as int) < MI_SEGMENT_MAP_BITS,
        m.bit(base / MI_SEGMENT_SIZE as int),
        base <= p < base + MI_SEGMENT_SIZE,
    ensures
        p / MI_SEGMENT_SIZE as int == base / MI_SEGMENT_SIZE as int,
        map_prev_marked(m, p / MI_SEGMENT_SIZE as int) == base / MI_SEGMENT_SIZE as int,
        map_prev_marked(m, p / MI_SEGMENT_SIZE as int) * MI_SEGMENT_SIZE == base,
{
    let seg = MI_SEGMENT_SIZE as int;
    let q = base / seg;
    vstd::arithmetic::div_mod::lemma_fundamental_div_mod(base, seg);
    vstd::arithmetic::div_mod::lemma_fundamental_div_mod_converse(p, seg, q, p - base);
    assert(map_prev_marked(m, q) == q);
}

} // verus!
