//! The allocation API: the fast small-object path popping straight off
//! a page's free list, the generic path that collects, extends or
//! creates pages, and deallocation, which maps an address back to its
//! segment, page and block.

use vstd::prelude::*;
use crate::heap::{heap_ok, lemma_heap_ok_compat, page_in_seg_ok, page_ref_ok, seg_ok,
    seg_ref_compat, MiAllocator, _mi_ptr_cookie};
use crate::mimalloc_types::{MiHeap, MiPage, PageRef, MI_PADDING_SIZE, MI_PAGES_DIRECT,
    MI_RETIRE_CYCLES, MI_SEGMENT_SIZE, MI_SEGMENT_SLICE_SIZE, MI_SLICES_PER_SEGMENT,
    MI_SMALL_SIZE_MAX};
use crate::mimalloc_internal::_mi_wsize_from_size;
use crate::segment_cache::MI_SEGMENT_MAP_BITS;

verus! {

/// A block's bytes lie inside its page's slice span.
proof fn lemma_block_addr(so: int, sc: int, b: int, reserved: int, capacity: int, bs: int)
    requires
        0 <= so,
        0 < sc,
        so + sc <= MI_SLICES_PER_SEGMENT,
        reserved * bs <= sc * MI_SEGMENT_SLICE_SIZE,
        0 <= b < capacity,
        capacity <= reserved,
        bs >= 1,
    ensures
        so * MI_SEGMENT_SLICE_SIZE + b * bs + bs <= MI_SEGMENT_SIZE,
        0 <= so * MI_SEGMENT_SLICE_SIZE,
        0 <= b * bs,
{
    assert(b * bs + bs <= reserved * bs) by (nonlinear_arith)
        requires
            0 <= b,
            b < capacity,
            capacity <= reserved,
            bs >= 1,
    ;
    assert(so * MI_SEGMENT_SLICE_SIZE + sc * MI_SEGMENT_SLICE_SIZE
        <= MI_SLICES_PER_SEGMENT * MI_SEGMENT_SLICE_SIZE) by (nonlinear_arith)
        requires
            0 <= so,
            0 < sc,
            so + sc <= MI_SLICES_PER_SEGMENT,
    ;
    assert(0 <= b * bs) by (nonlinear_arith)
        requires
            0 <= b,
            bs >= 1,
    ;
    assert(0 <= so * MI_SEGMENT_SLICE_SIZE) by (nonlinear_arith)
        requires
            0 <= so,
    ;
}

/// Byte offsets inside a page's slice span translate to slice indices
/// inside the span.
proof fn lemma_byte_in_span(off: int, so: int, sc: int)
    requires
        0 <= so,
        0 < sc,
        so * MI_SEGMENT_SLICE_SIZE <= off,
        off < (so + sc) * MI_SEGMENT_SLICE_SIZE,
    ensures
        so <= (off / MI_SEGMENT_SLICE_SIZE as int),
        (off / MI_SEGMENT_SLICE_SIZE as int) < so + sc,
{
    let sz = MI_SEGMENT_SLICE_SIZE as int;
    vstd::arithmetic::div_mod::lemma_fundamental_div_mod(off, sz);
    vstd::arithmetic::div_mod::lemma_mod_bound(off, sz);
    let q = off / sz;
    assert(so <= q && q < so + sc) by (nonlinear_arith)
        requires
            off == sz * q + off % sz,
            0 <= off % sz < sz,
            so * sz <= off,
            off < (so + sc) * sz,
            sz > 0,
    ;
}

/// Whether a block index occurs in a free list.
fn vec_contains_u16(v: &Vec<u16>, x: u16) -> (r: bool)
    ensures
        r == v@.contains(x),
{
    let mut i: usize = 0;
    while i < v.len()
        invariant
            i <= v@.len(),
            forall|j: int| 0 <= j < i ==> v@[j] != x,
        decreases v@.len() - i,
    {
        if v[i] == x {
            return true;
        }
        i = i + 1;
    }
    false
}

impl MiAllocator {
    /// The live segment containing `p`, if any: align the address down
    /// to the segment granularity, consult the address map, and
    /// validate the candidate's cookie.  Garbage addresses yield
    /// `None`, never a crash.
    pub fn _mi_segment_of(&self, p: usize) -> (r: Option<usize>)
        requires
            self.wf(),
        ensures
            (r matches Some(k) ==> {
                &&& k < self.segments@.len()
                &&& self.segments@[k as int].live
                &&& self.segments@[k as int].base <= p
                &&& p < self.segments@[k as int].base + MI_SEGMENT_SIZE
            }),
            forall|k0: int| 0 <= k0 < self.segments@.len()
                && (#[trigger] self.segments@[k0]).live
                && self.segments@[k0].base <= p
                && p < self.segments@[k0].base + MI_SEGMENT_SIZE
                ==> r == Some(k0 as usize),
    {
        proof {
            assert forall|k0: int| 0 <= k0 < self.segments@.len()
                && (#[trigger] self.segments@[k0]).live
                && self.segments@[k0].base <= p
                && p < self.segments@[k0].base + MI_SEGMENT_SIZE
                implies p as int / MI_SEGMENT_SIZE as int
                    == self.segments@[k0].base as int / MI_SEGMENT_SIZE as int by {
                let b0 = self.segments@[k0].base as int;
                let sz = MI_SEGMENT_SIZE as int;
                vstd::arithmetic::div_mod::lemma_fundamental_div_mod(b0, sz);
                vstd::arithmetic::div_mod::lemma_fundamental_div_mod_converse(
                    p as int,
                    sz,
                    b0 / sz,
                    p - b0,
                );
            }
        }
        if p == 0 {
            return None;
        }
        let ix = p / MI_SEGMENT_SIZE;
        if ix >= MI_SEGMENT_MAP_BITS {
            return None;
        }
        proof {
            vstd::arithmetic::div_mod::lemma_fundamental_div_mod(p as int, MI_SEGMENT_SIZE as int);
            vstd::arithmetic::div_mod::lemma_mod_bound(p as int, MI_SEGMENT_SIZE as int);
            assert(ix as int * MI_SEGMENT_SIZE as int == MI_SEGMENT_SIZE as int * ix as int)
                by (nonlinear_arith);
        }
        let base = ix * MI_SEGMENT_SIZE;
        proof {
            assert forall|k0: int| 0 <= k0 < self.segments@.len()
                && (#[trigger] self.segments@[k0]).live
                && self.segments@[k0].base <= p
                && p < self.segments@[k0].base + MI_SEGMENT_SIZE
                implies self.segments@[k0].base == base by {
                let b0 = self.segments@[k0].base as int;
                let sz = MI_SEGMENT_SIZE as int;
                vstd::arithmetic::div_mod::lemma_fundamental_div_mod(b0, sz);
            }
        }
        // fast path: the address map rejects foreign pointers without
        // touching any segment
        if !self.segment_map.map_has_bit(ix) {
            return None;
        }
        let mut k: usize = 0;
        while k < self.segments.len()
            invariant
                self.wf(),
                k <= self.segments@.len(),
                base <= p < base + MI_SEGMENT_SIZE,
                forall|j: int| 0 <= j < k
                    ==> !((#[trigger] self.segments@[j]).live && self.segments@[j].base == base),
                forall|k0: int| 0 <= k0 < self.segments@.len()
                    && (#[trigger] self.segments@[k0]).live
                    && self.segments@[k0].base <= p
                    && p < self.segments@[k0].base + MI_SEGMENT_SIZE
                    ==> self.segments@[k0].base == base,
            decreases self.segments@.len() - k,
        {
            if self.segments[k].live && self.segments[k].base == base {
                if _mi_ptr_cookie(base) == self.segments[k].cookie {
                    proof {
                        assert forall|k0: int| 0 <= k0 < self.segments@.len()
                            && (#[trigger] self.segments@[k0]).live
                            && self.segments@[k0].base <= p
                            && p < self.segments@[k0].base + MI_SEGMENT_SIZE
                            implies k0 == k as int by {
                            assert(self.segments@[k0].base == self.segments@[k as int].base);
                        }
                    }
                    return Some(k);
                } else {
                    // a live segment's cookie always validates; the
                    // check guards against corrupted state
                    proof {
                        assert(false);
                    }
                    return None;
                }
            }
            k = k + 1;
        }
        None
    }

    /// Whether `p` falls inside live segment `k`, in the slice span of
    /// its live page `pi`: the unique way an address resolves to a
    /// block-carrying page.
    pub open spec fn resolves_to(self, p: usize, k: int, pi: int) -> bool {
        &&& 0 <= k < self.segments@.len()
        &&& self.segments@[k].live
        &&& self.segments@[k].base <= p
        &&& p < self.segments@[k].base + MI_SEGMENT_SIZE
        &&& self.page_spans(k, pi, p - self.segments@[k].base)
    }

    /// Byte offset of `p` inside the page data of the page it resolves
    /// to.
    pub open spec fn data_offset(self, p: usize, k: int, pi: int) -> int {
        p - self.segments@[k].base
            - self.segments@[k].pages@[pi].slice_offset * MI_SEGMENT_SLICE_SIZE
    }

    /// Whether page `pi` of segment `k` is live and its slice span
    /// contains the segment byte offset `off`.
    pub open spec fn page_spans(self, k: int, pi: int, off: int) -> bool {
        &&& 0 <= pi < self.segments@[k].pages@.len()
        &&& self.segments@[k].pages@[pi].slice_count > 0
        &&& self.segments@[k].pages@[pi].slice_offset * MI_SEGMENT_SLICE_SIZE <= off
        &&& off < (self.segments@[k].pages@[pi].slice_offset
            + self.segments@[k].pages@[pi].slice_count) * MI_SEGMENT_SLICE_SIZE
    }

    /// The live page of segment `k` whose slice span contains the
    /// segment offset `off`; spans are pairwise disjoint, so the page
    /// is unique.
    pub fn mi_page_of(&self, k: usize, off: usize) -> (r: Option<usize>)
        requires
            self.wf(),
            k < self.segments@.len(),
        ensures
            (r matches Some(pi) ==> self.page_spans(k as int, pi as int, off as int)),
            forall|pi2: int| #[trigger] self.page_spans(k as int, pi2, off as int)
                ==> r == Some(pi2 as usize),
    {
        proof {
            assert forall|pa: int, pb: int| self.page_spans(k as int, pa, off as int)
                && self.page_spans(k as int, pb, off as int) implies pa == pb by {
                let sg = self.segments@[k as int];
                lemma_byte_in_span(off as int, sg.pages@[pa].slice_offset as int,
                    sg.pages@[pa].slice_count as int);
                lemma_byte_in_span(off as int, sg.pages@[pb].slice_offset as int,
                    sg.pages@[pb].slice_count as int);
                if pa < pb {
                    assert(sg.pages@[pa].slice_count > 0 && sg.pages@[pb].slice_count > 0);
                } else if pb < pa {
                    assert(sg.pages@[pa].slice_count > 0 && sg.pages@[pb].slice_count > 0);
                }
            }
        }
        let mut pi: usize = 0;
        while pi < self.segments[k].pages.len()
            invariant
                self.wf(),
                k < self.segments@.len(),
                pi <= self.segments@[k as int].pages@.len(),
                forall|j: int| 0 <= j < pi ==> !self.page_spans(k as int, j, off as int),
                forall|pa: int, pb: int| self.page_spans(k as int, pa, off as int)
                    && self.page_spans(k as int, pb, off as int) ==> pa == pb,
            decreases self.segments@[k as int].pages@.len() - pi,
        {
            let pg = &self.segments[k].pages[pi];
            if pg.slice_count > 0 {
                proof {
                    assert(page_in_seg_ok(self.segments@[k as int].pages@[pi as int],
                        self.segments@[k as int]));
                    assert((pg.slice_offset + pg.slice_count) as int * MI_SEGMENT_SLICE_SIZE as int
                        <= MI_SLICES_PER_SEGMENT as int * MI_SEGMENT_SLICE_SIZE as int)
                        by (nonlinear_arith)
                        requires
                            0 <= (pg.slice_offset + pg.slice_count) as int
                                <= MI_SLICES_PER_SEGMENT as int,
                    ;
                }
                let start = (pg.slice_offset as usize) * MI_SEGMENT_SLICE_SIZE;
                let end = ((pg.slice_offset + pg.slice_count) as usize) * MI_SEGMENT_SLICE_SIZE;
                if start <= off && off < end {
                    proof {
                        assert(self.page_spans(k as int, pi as int, off as int));
                    }
                    return Some(pi);
                }
            }
            pi = pi + 1;
        }
        None
    }

    /// Fast allocation in a page: pop a block off the page's free list
    /// and return its address, or 0 when the page has nothing
    /// immediately available.
    pub fn _mi_page_malloc(&mut self, k: usize, pi: usize, zero: bool) -> (r: usize)
        requires
            old(self).wf(),
            k < old(self).segments@.len(),
            old(self).segments@[k as int].live,
            pi < old(self).segments@[k as int].pages@.len(),
            old(self).segments@[k as int].pages@[pi as int].slice_count > 0,
        ensures
            final(self).wf(),
            final(self).heaps == old(self).heaps,
            final(self).segments@.len() == old(self).segments@.len(),
            final(self).segment_map == old(self).segment_map,
            final(self).cache == old(self).cache,
            final(self).abandoned == old(self).abandoned,
            final(self).next_base == old(self).next_base,
            final(self).arena_alloc_count == old(self).arena_alloc_count,
            forall|j: int| 0 <= j < old(self).segments@.len() && j != k as int
                ==> final(self).segments@[j] == old(self).segments@[j],
            final(self).segments@[k as int] == (crate::mimalloc_types::MiSegment {
                pages: final(self).segments@[k as int].pages,
                ..old(self).segments@[k as int]
            }),
            final(self).segments@[k as int].pages@.len()
                == old(self).segments@[k as int].pages@.len(),
            forall|p: int| 0 <= p < old(self).segments@[k as int].pages@.len() && p != pi as int
                ==> final(self).segments@[k as int].pages@[p]
                    == old(self).segments@[k as int].pages@[p],
            final(self).segments@[k as int].pages@[pi as int].slice_count
                == old(self).segments@[k as int].pages@[pi as int].slice_count,
            final(self).segments@[k as int].pages@[pi as int].slice_offset
                == old(self).segments@[k as int].pages@[pi as int].slice_offset,
            final(self).segments@[k as int].pages@[pi as int].xblock_size
                == old(self).segments@[k as int].pages@[pi as int].xblock_size,
            final(self).segments@[k as int].pages@[pi as int].reserved
                == old(self).segments@[k as int].pages@[pi as int].reserved,
            final(self).segments@[k as int].pages@[pi as int].capacity
                == old(self).segments@[k as int].pages@[pi as int].capacity,
            final(self).segments@[k as int].pages@[pi as int] == (MiPage {
                free: final(self).segments@[k as int].pages@[pi as int].free,
                local_free: final(self).segments@[k as int].pages@[pi as int].local_free,
                thread_free: final(self).segments@[k as int].pages@[pi as int].thread_free,
                used: final(self).segments@[k as int].pages@[pi as int].used,
                capacity: final(self).segments@[k as int].pages@[pi as int].capacity,
                data: final(self).segments@[k as int].pages@[pi as int].data,
                ..old(self).segments@[k as int].pages@[pi as int]
            }),
            r == 0 ==> final(self).segments@[k as int].pages@[pi as int]@
                == old(self).segments@[k as int].pages@[pi as int]@,
            (r != 0) == (old(self).segments@[k as int].pages@[pi as int]@.free.len()
                + old(self).segments@[k as int].pages@[pi as int]@.local_free.len() > 0),
            r != 0 ==> r >= MI_SEGMENT_SIZE,
            r != 0 ==> block_at(*final(self), k as int, pi as int, r, zero),
    {
        let ghost pre = *self;
        let pg = &mut self.segments[k].pages[pi];
        let got = pg.allocate_block(zero);
        proof {
            lemma_wf_after_page_change(pre, *self, k as int, pi as int);
        }
        match got {
            Some(b) => {
                let seg_base = self.segments[k].base;
                let so = self.segments[k].pages[pi].slice_offset as usize;
                let bs = self.segments[k].pages[pi].xblock_size as usize;
                proof {
                    let pg1 = self.segments@[k as int].pages@[pi as int];
                    assert(page_in_seg_ok(pg1, self.segments@[k as int]));
                    assert(seg_ok(self.segments@[k as int], self.next_base as int));
                    lemma_block_addr(
                        so as int,
                        pg1.slice_count as int,
                        b as int,
                        pg1@.reserved,
                        pg1@.capacity,
                        bs as int,
                    );
                    let pre_pg = pre.segments@[k as int].pages@[pi as int];
                    let post_pg = self.segments@[k as int].pages@[pi as int];
                    assert(crate::page::page_alloc_step(pre_pg@, post_pg@, b));
                    assert(0 <= (b as int) * pre_pg@.block_size) by (nonlinear_arith)
                        requires
                            pre_pg@.block_size >= 0,
                    ;
                    assert(post_pg@.block_in_use(b));
                    assert(block_at(*self, k as int, pi as int,
                        (seg_base + (so * MI_SEGMENT_SLICE_SIZE + (b as usize) * bs)) as usize,
                        zero));
                }
                seg_base + (so * MI_SEGMENT_SLICE_SIZE + (b as usize) * bs)
            },
            None => {
                0
            },
        }
    }
}

/// After mutating one page through a contract that keeps its identity
/// fields (`slice_count`, `slice_offset`, `xblock_size`, `reserved`)
/// and leaves it well formed, the whole allocator is well formed again.
pub(crate) proof fn lemma_wf_after_page_change(pre: MiAllocator, post: MiAllocator, k: int, pi: int)
    requires
        pre.wf(),
        0 <= k < pre.segments@.len(),
        0 <= pi < pre.segments@[k].pages@.len(),
        post.segments@.len() == pre.segments@.len(),
        forall|j: int| 0 <= j < pre.segments@.len() && j != k
            ==> post.segments@[j] == pre.segments@[j],
        post.segments@[k] == (crate::mimalloc_types::MiSegment {
            pages: post.segments@[k].pages,
            ..pre.segments@[k]
        }),
        post.segments@[k].pages@.len() == pre.segments@[k].pages@.len(),
        forall|p: int| 0 <= p < pre.segments@[k].pages@.len() && p != pi
            ==> post.segments@[k].pages@[p] == pre.segments@[k].pages@[p],
        post.segments@[k].pages@[pi]@.wf(),
        post.segments@[k].pages@[pi] == (MiPage {
            free: post.segments@[k].pages@[pi].free,
            local_free: post.segments@[k].pages@[pi].local_free,
            thread_free: post.segments@[k].pages@[pi].thread_free,
            used: post.segments@[k].pages@[pi].used,
            capacity: post.segments@[k].pages@[pi].capacity,
            data: post.segments@[k].pages@[pi].data,
            bitfield_1: post.segments@[k].pages@[pi].bitfield_1,
            bitfield_2: post.segments@[k].pages@[pi].bitfield_2,
            flags: post.segments@[k].pages@[pi].flags,
            delayed_free: post.segments@[k].pages@[pi].delayed_free,
            ..pre.segments@[k].pages@[pi]
        }),
        post.segments@[k].pages@[pi]@.capacity <= post.segments@[k].pages@[pi]@.reserved,
        post.segments@[k].pages@[pi]@.reserved == pre.segments@[k].pages@[pi]@.reserved,
        post.heaps == pre.heaps,
        post.segment_map == pre.segment_map,
        post.cache == pre.cache,
        post.abandoned == pre.abandoned,
        post.next_base == pre.next_base,
    ensures
        post.wf(),
{
    assert(seg_ok(post.segments@[k], post.next_base as int)) by {
        let sg = post.segments@[k];
        assert forall|p: int| 0 <= p < sg.pages@.len()
            implies (#[trigger] sg.pages@[p])@.wf() && page_in_seg_ok(sg.pages@[p], sg) by {
            if p != pi {
                assert(sg.pages@[p] == pre.segments@[k].pages@[p]);
                assert(page_in_seg_ok(pre.segments@[k].pages@[p], pre.segments@[k]));
            } else {
                assert(page_in_seg_ok(pre.segments@[k].pages@[p], pre.segments@[k]));
            }
        }
    }
    assert forall|j: int| 0 <= j < post.segments@.len()
        implies seg_ok(#[trigger] post.segments@[j], post.next_base as int) by {
        if j != k {
            assert(post.segments@[j] == pre.segments@[j]);
        }
    }
    assert forall|j: int| 0 <= j < pre.segments@.len()
        implies seg_ref_compat(#[trigger] pre.segments@[j], post.segments@[j]) by {
        if j == k {
            assert forall|p: int| 0 <= p < pre.segments@[j].pages@.len()
                implies (#[trigger] post.segments@[j].pages@[p]).slice_count
                    == pre.segments@[j].pages@[p].slice_count
                    && post.segments@[j].pages@[p].xblock_size
                        == pre.segments@[j].pages@[p].xblock_size by {
                if p != pi {
                    assert(post.segments@[j].pages@[p] == pre.segments@[j].pages@[p]);
                }
            }
        }
    }
    lemma_heap_ok_compat(post.heaps@, pre.segments@, post.segments@);
    assert forall|c: int| 0 <= c < post.cache@.len()
        implies (#[trigger] post.cache@[c]) < post.segments@.len()
            && !post.segments@[post.cache@[c] as int].live by {
        if post.cache@[c] as int == k {
            assert(post.segments@[k].live == pre.segments@[k].live);
        }
    }
    assert forall|c: int| 0 <= c < post.abandoned@.len()
        implies (#[trigger] post.abandoned@[c]) < post.segments@.len()
            && post.segments@[post.abandoned@[c] as int].live
            && post.segments@[post.abandoned@[c] as int].is_abandoned by {
        if post.abandoned@[c] as int == k {
            assert(post.segments@[k].live == pre.segments@[k].live);
        }
    }
}


impl MiAllocator {
    /// Point the heap's word-size-class index at a page.
    fn heap_set_direct(&mut self, heap_h: usize, idx: usize, r: PageRef, block_size: usize)
        requires
            old(self).wf(),
            heap_h < old(self).heaps@.len(),
            old(self).heaps@[heap_h as int].live,
            idx < MI_PAGES_DIRECT,
            block_size as int == 8 * idx,
            page_ref_ok(r, old(self).segments@, block_size as int),
            old(self).segments@[r.seg as int].thread_id
                == old(self).heaps@[heap_h as int].thread_id,
            !old(self).segments@[r.seg as int].is_abandoned,
        ensures
            final(self).wf(),
            final(self).segments == old(self).segments,
            final(self).segment_map == old(self).segment_map,
            final(self).cache == old(self).cache,
            final(self).abandoned == old(self).abandoned,
            final(self).next_base == old(self).next_base,
            final(self).arena_alloc_count == old(self).arena_alloc_count,
            final(self).heaps@.len() == old(self).heaps@.len(),
            forall|h: int| 0 <= h < final(self).heaps@.len() && h != heap_h as int
                ==> final(self).heaps@[h] == old(self).heaps@[h],
            final(self).heaps@[heap_h as int].live == old(self).heaps@[heap_h as int].live,
            final(self).heaps@[heap_h as int].thread_id
                == old(self).heaps@[heap_h as int].thread_id,
            final(self).heaps@[heap_h as int].pages == old(self).heaps@[heap_h as int].pages,
    {
        let ghost pre = *self;
        let hp = &mut self.heaps[heap_h];
        hp.pages_free_direct.set(idx, Some(r));
        proof {
            assert forall|h: int| 0 <= h < self.heaps@.len()
                implies heap_ok(#[trigger] self.heaps@[h], self.segments@) by {
                if h != heap_h as int {
                    assert(self.heaps@[h] == pre.heaps@[h]);
                } else {
                    let hp0 = pre.heaps@[h];
                    let hp1 = self.heaps@[h];
                    assert forall|i: int| 0 <= i < MI_PAGES_DIRECT
                        implies ((#[trigger] hp1.pages_free_direct@[i]) matches Some(rr)
                            ==> page_ref_ok(rr, self.segments@, 8 * i)
                                && self.segments@[rr.seg as int].thread_id == hp1.thread_id
                                && !self.segments@[rr.seg as int].is_abandoned) by {
                        if i != idx as int {
                            assert(hp1.pages_free_direct@[i] == hp0.pages_free_direct@[i]);
                        }
                    }
                }
            }
        }
    }

    /// Serve a request from the pages the heap already has: first the
    /// direct page of the class (collecting deferred frees and
    /// extending its capacity if needed), then the first queued page of
    /// the bin with an immediately available block.  Returns 0 when
    /// none can serve.
    fn malloc_from_existing(&mut self, heap_h: usize, wsize: usize, block_size: usize, zero: bool)
        -> (r: usize)
        requires
            old(self).wf(),
            heap_h < old(self).heaps@.len(),
            old(self).heaps@[heap_h as int].live,
            8 <= block_size <= MI_SEGMENT_SLICE_SIZE,
            wsize < MI_PAGES_DIRECT ==> block_size as int == 8 * wsize,
        ensures
            final(self).wf(),
            final(self).segments@.len() == old(self).segments@.len(),
            final(self).segment_map == old(self).segment_map,
            final(self).cache == old(self).cache,
            final(self).abandoned == old(self).abandoned,
            final(self).next_base == old(self).next_base,
            final(self).arena_alloc_count == old(self).arena_alloc_count,
            final(self).heaps@.len() == old(self).heaps@.len(),
            forall|h: int| 0 <= h < final(self).heaps@.len() ==> {
                &&& (#[trigger] final(self).heaps@[h]).live == old(self).heaps@[h].live
                &&& final(self).heaps@[h].thread_id == old(self).heaps@[h].thread_id
            },
            r != 0 ==> r >= MI_SEGMENT_SIZE,
            r != 0 ==> allocated_block(*final(self),
                old(self).heaps@[heap_h as int].thread_id, block_size as int, r, zero),
            class_has_ready_page(*old(self), heap_h as int, wsize as int, block_size as int)
                ==> r != 0,
    {
        let ghost pre = *self;
        // 1) the direct page of this class
        if wsize < MI_PAGES_DIRECT {
            let direct = self.heaps[heap_h].pages_free_direct[wsize];
            match direct {
                Some(dr) => {
                    proof {
                        assert(heap_ok(pre.heaps@[heap_h as int], pre.segments@));
                        assert(pre.heaps@[heap_h as int].pages_free_direct@[wsize as int]
                            == Some(dr));
                        assert(page_ref_ok(dr, pre.segments@, 8 * wsize as int));
                    }
                    let a = self.try_page(dr.seg, dr.page, zero);
                    if a != 0 {
                        proof {
                            assert(block_at(*self, dr.seg as int, dr.page as int, a, zero));
                            assert(allocated_block(*self,
                                pre.heaps@[heap_h as int].thread_id, block_size as int, a,
                                zero));
                        }
                        return a;
                    }
                },
                None => {},
            }
        }
        // 2) any queued page of this bin with an immediately available
        // block; the direct page is settled: absent, or nothing
        // available (now, and already at entry)
        let ghost s1 = *self;
        proof {
            assert(!(wsize < MI_PAGES_DIRECT
                && (pre.heaps@[heap_h as int].pages_free_direct@[wsize as int]
                    matches Some(dr) && page_ready(pre, dr))));
            assert(s1.heaps == pre.heaps);
            assert forall|e: PageRef| page_ready(pre, e) implies page_ready(s1, e) by {
                assert(s1.segments@.len() == pre.segments@.len());
                if s1.segments@[e.seg as int].pages@[e.page as int]
                    != pre.segments@[e.seg as int].pages@[e.page as int] {
                    assert(page_ready(s1, e));
                } else {
                }
            }
        }
        let mut chosen: Option<PageRef> = None;
        let nq = self.heaps[heap_h].pages.len();
        let mut qi: usize = 0;
        while qi < nq && chosen.is_none()
            invariant
                *self == s1,
                pre == *old(self),
                pre.wf(),
                s1.wf(),
                s1.heaps == pre.heaps,
                forall|e: PageRef| page_ready(pre, e) ==> page_ready(s1, e),
                heap_h < self.heaps@.len(),
                self.heaps@[heap_h as int].live,
                qi <= nq,
                nq == self.heaps@[heap_h as int].pages@.len(),
                (chosen matches Some(cr) ==> page_ready(s1, cr)
                    && page_ref_ok(cr, s1.segments@, block_size as int)
                    && s1.segments@[cr.seg as int].thread_id
                        == pre.heaps@[heap_h as int].thread_id
                    && !s1.segments@[cr.seg as int].is_abandoned),
                chosen is None ==> forall|q2: int, j2: int| 0 <= q2 < qi
                    && pre.heaps@[heap_h as int].pages@[q2].block_size == block_size
                    && 0 <= j2 < pre.heaps@[heap_h as int].pages@[q2].list@.len()
                    ==> !page_ready(s1,
                        #[trigger] pre.heaps@[heap_h as int].pages@[q2].list@[j2]),
            decreases nq - qi,
        {
            if self.heaps[heap_h].pages[qi].block_size == block_size {
                let nl = self.heaps[heap_h].pages[qi].list.len();
                let mut j: usize = 0;
                while j < nl && chosen.is_none()
                    invariant
                        *self == s1,
                        pre == *old(self),
                        pre.wf(),
                        s1.wf(),
                        s1.heaps == pre.heaps,
                        forall|e: PageRef| page_ready(pre, e) ==> page_ready(s1, e),
                        heap_h < self.heaps@.len(),
                        self.heaps@[heap_h as int].live,
                        qi < nq,
                        nq == self.heaps@[heap_h as int].pages@.len(),
                        self.heaps@[heap_h as int].pages@[qi as int].block_size == block_size,
                        j <= nl,
                        nl == self.heaps@[heap_h as int].pages@[qi as int].list@.len(),
                        (chosen matches Some(cr) ==> page_ready(s1, cr)
                            && page_ref_ok(cr, s1.segments@, block_size as int)
                            && s1.segments@[cr.seg as int].thread_id
                                == pre.heaps@[heap_h as int].thread_id
                            && !s1.segments@[cr.seg as int].is_abandoned),
                        chosen is None ==> forall|q2: int, j2: int| 0 <= q2 < qi
                            && pre.heaps@[heap_h as int].pages@[q2].block_size == block_size
                            && 0 <= j2 < pre.heaps@[heap_h as int].pages@[q2].list@.len()
                            ==> !page_ready(s1,
                                #[trigger] pre.heaps@[heap_h as int].pages@[q2].list@[j2]),
                        chosen is None ==> forall|j2: int| 0 <= j2 < j
                            ==> !page_ready(s1,
                                #[trigger] pre.heaps@[heap_h as int].pages@[qi as int]
                                    .list@[j2]),
                    decreases nl - j,
                {
                    let r2 = self.heaps[heap_h].pages[qi].list[j];
                    proof {
                        assert(heap_ok(self.heaps@[heap_h as int], self.segments@));
                        assert(page_ref_ok(r2, self.segments@,
                            self.heaps@[heap_h as int].pages@[qi as int].block_size as int));
                    }
                    let pg = &self.segments[r2.seg].pages[r2.page];
                    if pg.free.len() + pg.local_free.len() > 0 {
                        chosen = Some(r2);
                    }
                    j = j + 1;
                }
            }
            qi = qi + 1;
        }
        match chosen {
            Some(cr) => {
                let a = self.try_page(cr.seg, cr.page, zero);
                proof {
                    assert(a != 0);
                    assert(block_at(*self, cr.seg as int, cr.page as int, a, zero));
                }
                if wsize < MI_PAGES_DIRECT {
                    self.heap_set_direct(heap_h, wsize, cr, block_size);
                }
                proof {
                    assert(block_at(*self, cr.seg as int, cr.page as int, a, zero));
                    assert(allocated_block(*self, pre.heaps@[heap_h as int].thread_id,
                        block_size as int, a, zero));
                }
                a
            },
            None => {
                proof {
                    assert(!class_has_ready_page(pre, heap_h as int, wsize as int,
                        block_size as int)) by {
                        if queue_has_ready_page(pre, heap_h as int, block_size as int) {
                            let (q0, j0) = choose|q0: int, j0: int| {
                                &&& 0 <= q0 < pre.heaps@[heap_h as int].pages@.len()
                                &&& pre.heaps@[heap_h as int].pages@[q0].block_size as int
                                    == block_size
                                &&& 0 <= j0 < pre.heaps@[heap_h as int].pages@[q0].list@.len()
                                &&& page_ready(pre,
                                    #[trigger] pre.heaps@[heap_h as int].pages@[q0].list@[j0])
                            };
                            assert(page_ready(s1,
                                pre.heaps@[heap_h as int].pages@[q0].list@[j0]));
                            assert(!page_ready(s1,
                                pre.heaps@[heap_h as int].pages@[q0].list@[j0]));
                        }
                    }
                }
                0
            },
        }
    }

    /// Collect a page's deferred frees, extend its capacity if it is
    /// exhausted but not fully carved, and pop a block.  0 when the
    /// page is genuinely full.
    fn try_page(&mut self, k: usize, pi: usize, zero: bool) -> (r: usize)
        requires
            old(self).wf(),
            k < old(self).segments@.len(),
            old(self).segments@[k as int].live,
            pi < old(self).segments@[k as int].pages@.len(),
            old(self).segments@[k as int].pages@[pi as int].slice_count > 0,
        ensures
            final(self).wf(),
            final(self).heaps == old(self).heaps,
            final(self).segments@.len() == old(self).segments@.len(),
            final(self).segment_map == old(self).segment_map,
            final(self).cache == old(self).cache,
            final(self).abandoned == old(self).abandoned,
            final(self).next_base == old(self).next_base,
            final(self).arena_alloc_count == old(self).arena_alloc_count,
            forall|j: int| 0 <= j < old(self).segments@.len() && j != k as int
                ==> final(self).segments@[j] == old(self).segments@[j],
            final(self).segments@[k as int].live == old(self).segments@[k as int].live,
            final(self).segments@[k as int].thread_id == old(self).segments@[k as int].thread_id,
            final(self).segments@[k as int].is_abandoned
                == old(self).segments@[k as int].is_abandoned,
            final(self).segments@[k as int].pages@.len()
                == old(self).segments@[k as int].pages@.len(),
            forall|p: int| 0 <= p < old(self).segments@[k as int].pages@.len() && p != pi as int
                ==> final(self).segments@[k as int].pages@[p]
                    == old(self).segments@[k as int].pages@[p],
            final(self).segments@[k as int].pages@[pi as int].slice_count
                == old(self).segments@[k as int].pages@[pi as int].slice_count,
            final(self).segments@[k as int].pages@[pi as int].xblock_size
                == old(self).segments@[k as int].pages@[pi as int].xblock_size,
            r != 0 ==> block_at(*final(self), k as int, pi as int, r, zero),
            r != 0 ==> r >= MI_SEGMENT_SIZE,
            old(self).segments@[k as int].pages@[pi as int]@.free.len()
                + old(self).segments@[k as int].pages@[pi as int]@.local_free.len() > 0
                ==> r != 0,
            r == 0 ==> final(self).segments@[k as int].pages@[pi as int]@.free.len()
                + final(self).segments@[k as int].pages@[pi as int]@.local_free.len() == 0,
    {
        let ghost pre = *self;
        {
            let pg = &mut self.segments[k].pages[pi];
            pg.collect();
        }
        proof {
            lemma_wf_after_page_change(pre, *self, k as int, pi as int);
        }
        let a = self._mi_page_malloc(k, pi, zero);
        if a != 0 {
            return a;
        }
        // the free list is empty; carve more blocks if reserved ones
        // remain
        let ghost mid = *self;
        let capacity = self.segments[k].pages[pi].capacity;
        let reserved = self.segments[k].pages[pi].reserved;
        if capacity < reserved {
            let bs = self.segments[k].pages[pi].xblock_size as usize;
            let count = crate::segment::mi_page_extend_count(bs, reserved, capacity);
            proof {
                let pg0 = mid.segments@[k as int].pages@[pi as int];
                assert(page_in_seg_ok(pg0, mid.segments@[k as int]));
                assert((capacity + count) * pg0@.block_size
                    <= pg0.slice_count * MI_SEGMENT_SLICE_SIZE) by (nonlinear_arith)
                    requires
                        capacity + count <= pg0@.reserved,
                        pg0@.reserved * pg0@.block_size
                            <= pg0.slice_count * MI_SEGMENT_SLICE_SIZE,
                        pg0@.block_size >= 8,
                        0 <= capacity + count,
                ;
                assert(pg0.slice_count * MI_SEGMENT_SLICE_SIZE
                    <= MI_SLICES_PER_SEGMENT * MI_SEGMENT_SLICE_SIZE) by (nonlinear_arith)
                    requires
                        0 <= pg0.slice_count <= MI_SLICES_PER_SEGMENT,
                ;
            }
            {
                let pg = &mut self.segments[k].pages[pi];
                pg.extend_free(count);
            }
            proof {
                lemma_wf_after_page_change(mid, *self, k as int, pi as int);
            }
            return self._mi_page_malloc(k, pi, zero);
        }
        0
    }
}


/// The heap already holds a page of the class with an immediately
/// available block: through the direct index or through the bin's
/// queue.  Serving such a request must not touch the arena.
pub open spec fn class_has_ready_page(
    a: MiAllocator,
    heap_h: int,
    wsize: int,
    block_size: int,
) -> bool {
    ||| (0 <= wsize < MI_PAGES_DIRECT && a.heaps@[heap_h].pages_free_direct@.len()
        == MI_PAGES_DIRECT && (a.heaps@[heap_h].pages_free_direct@[wsize] matches Some(dr)
        && a.segments@[dr.seg as int].pages@[dr.page as int]@.free.len()
            + a.segments@[dr.seg as int].pages@[dr.page as int]@.local_free.len() > 0))
    ||| queue_has_ready_page(a, heap_h, block_size)
}

/// Some queued page of the bin has an available block.
pub open spec fn queue_has_ready_page(a: MiAllocator, heap_h: int, block_size: int) -> bool {
    exists|q: int, j: int| {
        &&& 0 <= q < a.heaps@[heap_h].pages@.len()
        &&& a.heaps@[heap_h].pages@[q].block_size as int == block_size
        &&& 0 <= j < a.heaps@[heap_h].pages@[q].list@.len()
        &&& page_ready(a, #[trigger] a.heaps@[heap_h].pages@[q].list@[j])
    }
}

/// No page the heap's queues reference is pending retirement.
pub open spec fn heap_has_no_pending_retire(a: MiAllocator, heap_h: int) -> bool {
    forall|q: int, j: int| 0 <= q < a.heaps@[heap_h].pages@.len()
        && 0 <= j < a.heaps@[heap_h].pages@[q].list@.len()
        ==> !crate::heap::retired_candidate(a, heap_h,
            #[trigger] a.heaps@[heap_h].pages@[q].list@[j])
}

/// The page has a block on its free or local-free list.
pub open spec fn page_ready(a: MiAllocator, r: PageRef) -> bool {
    &&& r.seg < a.segments@.len()
    &&& r.page < a.segments@[r.seg as int].pages@.len()
    &&& a.segments@[r.seg as int].pages@[r.page as int]@.free.len()
        + a.segments@[r.seg as int].pages@[r.page as int]@.local_free.len() > 0
}

/// The address `r` names the handed-out block `b` of page `(k, pi)`:
/// `b` is carved and in use, `r` is its exact address, and with `zero`
/// its usable bytes all read zero.
pub open spec fn block_at(a: MiAllocator, k: int, pi: int, r: usize, zero: bool) -> bool {
    exists|b: u16| {
        &&& #[trigger] a.segments@[k].pages@[pi]@.block_in_use(b)
        &&& r == a.segments@[k].base
            + a.segments@[k].pages@[pi].slice_offset * MI_SEGMENT_SLICE_SIZE
            + b * a.segments@[k].pages@[pi]@.block_size
        &&& (zero ==> forall|o: int| b * a.segments@[k].pages@[pi]@.block_size <= o
            < b * a.segments@[k].pages@[pi]@.block_size
                + (a.segments@[k].pages@[pi]@.block_size - MI_PADDING_SIZE)
            ==> #[trigger] a.segments@[k].pages@[pi]@.data[o] == 0)
    }
}

/// A successful allocation for thread `tid`: some live page of exactly
/// this block size, on a non-abandoned segment the thread owns, holds
/// the block that `r` names.
pub open spec fn allocated_block(
    a: MiAllocator,
    tid: usize,
    block_size: int,
    r: usize,
    zero: bool,
) -> bool {
    exists|k: int, pi: int| {
        &&& 0 <= k < a.segments@.len()
        &&& a.segments@[k].live
        &&& !a.segments@[k].is_abandoned
        &&& a.segments@[k].thread_id == tid
        &&& 0 <= pi < a.segments@[k].pages@.len()
        &&& a.segments@[k].pages@[pi].slice_count > 0
        &&& a.segments@[k].pages@[pi].xblock_size as int == block_size
        &&& #[trigger] block_at(a, k, pi, r, zero)
    }
}

/// Words needed for a request of `size` bytes plus the block padding.
pub open spec fn wsize_of(size: int) -> int {
    (size + MI_PADDING_SIZE + 7) / 8
}

/// The block size class serving a request of `size` bytes.
pub open spec fn block_size_of(size: int) -> int {
    8 * wsize_of(size)
}

/// The class is large enough for the request and its padding.
pub proof fn lemma_block_size_of_fits(size: int)
    requires
        size >= 0,
    ensures
        block_size_of(size) >= size + MI_PADDING_SIZE,
{
    vstd::arithmetic::div_mod::lemma_fundamental_div_mod(size + MI_PADDING_SIZE + 7, 8);
    vstd::arithmetic::div_mod::lemma_mod_bound(size + MI_PADDING_SIZE + 7, 8);
}

/// `p` is exactly the address of the handed-out block `b` of the live
/// page `(k, pi)`: this is when `free` must act.
pub open spec fn block_decode(a: MiAllocator, p: usize, k: int, pi: int, b: u16) -> bool {
    &&& a.resolves_to(p, k, pi)
    &&& b < a.segments@[k].pages@[pi]@.capacity
    &&& p == a.segments@[k].base
        + a.segments@[k].pages@[pi].slice_offset * MI_SEGMENT_SLICE_SIZE
        + b * a.segments@[k].pages@[pi]@.block_size
    &&& a.segments@[k].pages@[pi]@.block_in_use(b)
}

/// Effect of an owner-thread free on the page: `b` returns to `free`
/// (or to `local_free` while a deferred drain could race) and `used`
/// drops by one; the page's identity and bytes stay.
pub open spec fn page_owner_freed(p0: MiPage, p1: MiPage, b: u16) -> bool {
    &&& p1.slice_count == p0.slice_count
    &&& p1.slice_offset == p0.slice_offset
    &&& p1.xblock_size == p0.xblock_size
    &&& p1.reserved == p0.reserved
    &&& p1.capacity == p0.capacity
    &&& p1@.data == p0@.data
    &&& p1@.used == p0@.used - 1
    &&& p1@.thread_free == p0@.thread_free
    &&& if p0.delayed_free {
        p1@.local_free == p0@.local_free.push(b) && p1@.free == p0@.free
    } else {
        p1@.free == p0@.free.push(b) && p1@.local_free == p0@.local_free
    }
}

/// Effect of a foreign-thread free: `b` is parked on the cross-thread
/// list, while `free`, `local_free` and `used` stay untouched until the
/// owner collects.
pub open spec fn page_foreign_freed(p0: MiPage, p1: MiPage, b: u16) -> bool {
    &&& p1.slice_count == p0.slice_count
    &&& p1.slice_offset == p0.slice_offset
    &&& p1.xblock_size == p0.xblock_size
    &&& p1.reserved == p0.reserved
    &&& p1.capacity == p0.capacity
    &&& p1@.data == p0@.data
    &&& p1@.used == p0@.used
    &&& p1@.thread_free == p0@.thread_free.push(b)
    &&& p1@.free == p0@.free
    &&& p1@.local_free == p0@.local_free
}

/// The page evolution a legitimate `free` performs: the identity of the
/// page is untouched and exactly one handed-out block moves onto one of
/// the three free lists (`used` drops only on the owner paths).
pub open spec fn page_freed_evolution(p0: MiPage, p1: MiPage) -> bool {
    exists|b: u16| #[trigger] p0@.block_in_use(b)
        && (page_owner_freed(p0, p1, b) || page_foreign_freed(p0, p1, b))
}

impl MiAllocator {
    /// Generic allocation path: try the heap's own pages, otherwise
    /// carve a new page out of an owned, reclaimed, cached or fresh
    /// segment.  Sizes beyond a slice are the huge-object collaborator's
    /// business and fail here with 0.
    #[verifier::rlimit(60)]
    pub fn _mi_malloc_generic(
        &mut self,
        heap_h: usize,
        size: usize,
        zero: bool,
        huge_alignment: usize,
    ) -> (r: usize)
        requires
            old(self).wf(),
            heap_h < old(self).heaps@.len(),
            old(self).heaps@[heap_h as int].live,
            huge_alignment == 0,
        ensures
            final(self).wf(),
            final(self).heaps@.len() == old(self).heaps@.len(),
            forall|h: int| 0 <= h < final(self).heaps@.len() ==> {
                &&& (#[trigger] final(self).heaps@[h]).live == old(self).heaps@[h].live
                &&& final(self).heaps@[h].thread_id == old(self).heaps@[h].thread_id
            },
            r != 0 ==> r >= MI_SEGMENT_SIZE,
            r != 0 ==> allocated_block(*final(self),
                old(self).heaps@[heap_h as int].thread_id, block_size_of(size as int), r, zero),
            final(self).arena_alloc_count <= old(self).arena_alloc_count + 1,
            // freed blocks are reused before any new arena request
            size <= MI_SEGMENT_SLICE_SIZE - 2 * MI_PADDING_SIZE
                && class_has_ready_page(*old(self), heap_h as int, wsize_of(size as int),
                    block_size_of(size as int))
                && heap_has_no_pending_retire(*old(self), heap_h as int)
                ==> final(self).arena_alloc_count == old(self).arena_alloc_count && r != 0,
            size <= MI_SEGMENT_SLICE_SIZE - 2 * MI_PADDING_SIZE
                && old(self).arena_alloc_count < usize::MAX
                && (old(self).cache@.len() > 0 || (old(self).next_base <= usize::MAX
                    - MI_SEGMENT_SIZE && (old(self).next_base as int
                    / MI_SEGMENT_SIZE as int) < MI_SEGMENT_MAP_BITS)) ==> r != 0,
    {
        if size > MI_SEGMENT_SLICE_SIZE - 2 * MI_PADDING_SIZE {
            // the dispatch point towards the large/huge allocator,
            // which is outside this core
            return 0;
        }
        // age retired pages on every slow-path entry
        self.mi_heap_collect_retired(heap_h);
        let wsize = _mi_wsize_from_size(size + MI_PADDING_SIZE);
        let block_size = wsize * 8;
        proof {
            vstd::arithmetic::div_mod::lemma_div_is_ordered(
                (size + MI_PADDING_SIZE + 7) as int,
                MI_SEGMENT_SLICE_SIZE as int,
                8,
            );
            assert(block_size as int == block_size_of(size as int));
        }
        let r1 = self.malloc_from_existing(heap_h, wsize, block_size, zero);
        if r1 != 0 {
            return r1;
        }
        proof {
            // with a ready page and nothing pending retirement, the
            // existing-page path cannot have failed
            if class_has_ready_page(*old(self), heap_h as int, wsize_of(size as int),
                block_size_of(size as int))
                && heap_has_no_pending_retire(*old(self), heap_h as int) {
                assert(false);
            }
        }
        let tid = self.heaps[heap_h].thread_id;
        let mut prw = self.mi_segments_page_find_and_allocate(tid, block_size, heap_h);
        if prw.is_none() {
            let _reclaimed = self.mi_segment_try_reclaim(tid, heap_h);
            let r2 = self.malloc_from_existing(heap_h, wsize, block_size, zero);
            if r2 != 0 {
                return r2;
            }
            prw = self.mi_segments_page_find_and_allocate(tid, block_size, heap_h);
            if prw.is_none() {
                let got = self.mi_segment_alloc(tid, heap_h);
                if got.is_none() {
                    return 0;
                }
                prw = self.mi_segments_page_find_and_allocate(tid, block_size, heap_h);
            }
        }
        match prw {
            Some(pr) => {
                self.heap_queue_push(heap_h, pr, block_size);
                if wsize < MI_PAGES_DIRECT {
                    self.heap_set_direct(heap_h, wsize, pr, block_size);
                }
                let a = self._mi_page_malloc(pr.seg, pr.page, zero);
                proof {
                    if a != 0 {
                        assert(block_at(*self, pr.seg as int, pr.page as int, a, zero));
                        assert(allocated_block(*self,
                            old(self).heaps@[heap_h as int].thread_id, block_size as int, a,
                            zero));
                    }
                }
                a
            },
            None => 0,
        }
    }

    /// Small-object allocation: consult the direct page index for the
    /// word-size class and pop a block, falling back to the generic
    /// path.
    pub fn mi_heap_malloc_small_zero(&mut self, heap_h: usize, size: usize, zero: bool)
        -> (r: usize)
        requires
            old(self).wf(),
            heap_h < old(self).heaps@.len(),
            old(self).heaps@[heap_h as int].live,
            size <= MI_SMALL_SIZE_MAX,
        ensures
            final(self).wf(),
            final(self).heaps@.len() == old(self).heaps@.len(),
            forall|h: int| 0 <= h < final(self).heaps@.len() ==> {
                &&& (#[trigger] final(self).heaps@[h]).live == old(self).heaps@[h].live
                &&& final(self).heaps@[h].thread_id == old(self).heaps@[h].thread_id
            },
            r != 0 ==> r >= MI_SEGMENT_SIZE,
            r != 0 ==> allocated_block(*final(self),
                old(self).heaps@[heap_h as int].thread_id, block_size_of(size as int), r, zero),
            final(self).arena_alloc_count <= old(self).arena_alloc_count + 1,
            class_has_ready_page(*old(self), heap_h as int, wsize_of(size as int),
                block_size_of(size as int))
                && heap_has_no_pending_retire(*old(self), heap_h as int)
                ==> final(self).arena_alloc_count == old(self).arena_alloc_count && r != 0,
            old(self).arena_alloc_count < usize::MAX && (old(self).cache@.len() > 0
                || (old(self).next_base <= usize::MAX - MI_SEGMENT_SIZE
                    && (old(self).next_base as int / MI_SEGMENT_SIZE as int)
                        < MI_SEGMENT_MAP_BITS)) ==> r != 0,
    {
        let ghost pre = *self;
        let wsize = _mi_wsize_from_size(size + MI_PADDING_SIZE);
        let direct = self.heaps[heap_h].pages_free_direct[wsize];
        match direct {
            Some(dr) => {
                proof {
                    assert(heap_ok(pre.heaps@[heap_h as int], pre.segments@));
                    assert(pre.heaps@[heap_h as int].pages_free_direct@[wsize as int]
                        == Some(dr));
                    assert(page_ref_ok(dr, pre.segments@, 8 * wsize as int));
                }
                let a = self._mi_page_malloc(dr.seg, dr.page, zero);
                if a != 0 {
                    proof {
                        assert(block_at(*self, dr.seg as int, dr.page as int, a, zero));
                        assert(allocated_block(*self, pre.heaps@[heap_h as int].thread_id,
                            block_size_of(size as int), a, zero));
                    }
                    return a;
                }
                proof {
                    // the failed pop left every page's lists, counters
                    // and flags as they were, so readiness carries over
                    assert forall|k2: int, pi2: int| 0 <= k2 < pre.segments@.len()
                        && 0 <= pi2 < pre.segments@[k2].pages@.len()
                        implies (#[trigger] self.segments@[k2].pages@[pi2])@
                            == pre.segments@[k2].pages@[pi2]@
                            && self.segments@[k2].pages@[pi2].slice_count
                                == pre.segments@[k2].pages@[pi2].slice_count
                            && self.segments@[k2].pages@[pi2].retire_expire_spec()
                                == pre.segments@[k2].pages@[pi2].retire_expire_spec()
                            && self.segments@[k2].pages@[pi2].xblock_size
                                == pre.segments@[k2].pages@[pi2].xblock_size by {
                        if !(k2 == dr.seg as int && pi2 == dr.page as int) {
                            assert(self.segments@[k2].pages@[pi2]
                                == pre.segments@[k2].pages@[pi2]);
                        }
                    }
                    if class_has_ready_page(pre, heap_h as int, wsize_of(size as int),
                        block_size_of(size as int))
                        && heap_has_no_pending_retire(pre, heap_h as int) {
                        assert(class_has_ready_page(*self, heap_h as int,
                            wsize_of(size as int), block_size_of(size as int))) by {
                            if !(pre.heaps@[heap_h as int].pages_free_direct@[wsize as int]
                                matches Some(d2) && page_ready(pre, d2)) {
                                let (q0, j0) = choose|q0: int, j0: int| {
                                    &&& 0 <= q0 < pre.heaps@[heap_h as int].pages@.len()
                                    &&& pre.heaps@[heap_h as int].pages@[q0].block_size
                                        as int == block_size_of(size as int)
                                    &&& 0 <= j0 < pre.heaps@[heap_h as int].pages@[q0]
                                        .list@.len()
                                    &&& page_ready(pre, #[trigger] pre.heaps@[heap_h as int]
                                        .pages@[q0].list@[j0])
                                };
                                assert(page_ready(*self,
                                    pre.heaps@[heap_h as int].pages@[q0].list@[j0]));
                            }
                        }
                        assert(heap_has_no_pending_retire(*self, heap_h as int)) by {
                            assert forall|q2: int, j2: int| 0 <= q2
                                < self.heaps@[heap_h as int].pages@.len()
                                && 0 <= j2 < self.heaps@[heap_h as int].pages@[q2].list@.len()
                                implies !crate::heap::retired_candidate(*self, heap_h as int,
                                    #[trigger] self.heaps@[heap_h as int].pages@[q2]
                                        .list@[j2]) by {
                                assert(!crate::heap::retired_candidate(pre, heap_h as int,
                                    pre.heaps@[heap_h as int].pages@[q2].list@[j2]));
                            }
                        }
                    }
                }
            },
            None => {},
        }
        self._mi_malloc_generic(heap_h, size, zero, 0)
    }

    /// Allocate `size` bytes from heap `heap_h`, zeroed on request.
    #[verifier::rlimit(60)]
    pub fn _mi_heap_malloc_zero_ex(
        &mut self,
        heap_h: usize,
        size: usize,
        zero: bool,
        huge_alignment: usize,
    ) -> (r: usize)
        requires
            old(self).wf(),
            heap_h < old(self).heaps@.len(),
            old(self).heaps@[heap_h as int].live,
            huge_alignment == 0,
        ensures
            final(self).wf(),
            final(self).heaps@.len() == old(self).heaps@.len(),
            forall|h: int| 0 <= h < final(self).heaps@.len() ==> {
                &&& (#[trigger] final(self).heaps@[h]).live == old(self).heaps@[h].live
                &&& final(self).heaps@[h].thread_id == old(self).heaps@[h].thread_id
            },
            r != 0 ==> r >= MI_SEGMENT_SIZE,
            r != 0 ==> allocated_block(*final(self),
                old(self).heaps@[heap_h as int].thread_id, block_size_of(size as int), r, zero)
                && block_size_of(size as int) >= size + MI_PADDING_SIZE,
            final(self).arena_alloc_count <= old(self).arena_alloc_count + 1,
            size <= MI_SEGMENT_SLICE_SIZE - 2 * MI_PADDING_SIZE
                && class_has_ready_page(*old(self), heap_h as int, wsize_of(size as int),
                    block_size_of(size as int))
                && heap_has_no_pending_retire(*old(self), heap_h as int)
                ==> final(self).arena_alloc_count == old(self).arena_alloc_count && r != 0,
            size <= MI_SMALL_SIZE_MAX && old(self).arena_alloc_count < usize::MAX
                && (old(self).cache@.len() > 0 || (old(self).next_base <= usize::MAX
                    - MI_SEGMENT_SIZE && (old(self).next_base as int
                    / MI_SEGMENT_SIZE as int) < MI_SEGMENT_MAP_BITS)) ==> r != 0,
    {
        proof {
            lemma_block_size_of_fits(size as int);
        }
        if size <= MI_SMALL_SIZE_MAX {
            self.mi_heap_malloc_small_zero(heap_h, size, zero)
        } else {
            self._mi_malloc_generic(heap_h, size, zero, huge_alignment)
        }
    }

    pub fn _mi_heap_malloc_zero(&mut self, heap_h: usize, size: usize, zero: bool) -> (r: usize)
        requires
            old(self).wf(),
            heap_h < old(self).heaps@.len(),
            old(self).heaps@[heap_h as int].live,
        ensures
            final(self).wf(),
            r != 0 ==> r >= MI_SEGMENT_SIZE,
            r != 0 ==> allocated_block(*final(self),
                old(self).heaps@[heap_h as int].thread_id, block_size_of(size as int), r, zero)
                && block_size_of(size as int) >= size + MI_PADDING_SIZE,
            final(self).arena_alloc_count <= old(self).arena_alloc_count + 1,
            size <= MI_SEGMENT_SLICE_SIZE - 2 * MI_PADDING_SIZE
                && class_has_ready_page(*old(self), heap_h as int, wsize_of(size as int),
                    block_size_of(size as int))
                && heap_has_no_pending_retire(*old(self), heap_h as int)
                ==> final(self).arena_alloc_count == old(self).arena_alloc_count && r != 0,
            size <= MI_SMALL_SIZE_MAX && old(self).arena_alloc_count < usize::MAX
                && (old(self).cache@.len() > 0 || (old(self).next_base <= usize::MAX
                    - MI_SEGMENT_SIZE && (old(self).next_base as int
                    / MI_SEGMENT_SIZE as int) < MI_SEGMENT_MAP_BITS)) ==> r != 0,
    {
        self._mi_heap_malloc_zero_ex(heap_h, size, zero, 0)
    }

    pub fn mi_heap_malloc(&mut self, heap_h: usize, size: usize) -> (r: usize)
        requires
            old(self).wf(),
            heap_h < old(self).heaps@.len(),
            old(self).heaps@[heap_h as int].live,
        ensures
            final(self).wf(),
            r != 0 ==> r >= MI_SEGMENT_SIZE,
            r != 0 ==> allocated_block(*final(self),
                old(self).heaps@[heap_h as int].thread_id, block_size_of(size as int), r, false)
                && block_size_of(size as int) >= size + MI_PADDING_SIZE,
            final(self).arena_alloc_count <= old(self).arena_alloc_count + 1,
            size <= MI_SEGMENT_SLICE_SIZE - 2 * MI_PADDING_SIZE
                && class_has_ready_page(*old(self), heap_h as int, wsize_of(size as int),
                    block_size_of(size as int))
                && heap_has_no_pending_retire(*old(self), heap_h as int)
                ==> final(self).arena_alloc_count == old(self).arena_alloc_count && r != 0,
            size <= MI_SMALL_SIZE_MAX && old(self).arena_alloc_count < usize::MAX
                && (old(self).cache@.len() > 0 || (old(self).next_base <= usize::MAX
                    - MI_SEGMENT_SIZE && (old(self).next_base as int
                    / MI_SEGMENT_SIZE as int) < MI_SEGMENT_MAP_BITS)) ==> r != 0,
    {
        self._mi_heap_malloc_zero(heap_h, size, false)
    }

    /// `allocate(size, zero)` of the core ABI for thread `tid`: returns
    /// the block's address, or 0 on out-of-memory; never panics.
    pub fn allocate(&mut self, tid: usize, size: usize, zero: bool) -> (r: usize)
        requires
            old(self).wf(),
        ensures
            final(self).wf(),
            r != 0 ==> r >= MI_SEGMENT_SIZE,
            r != 0 ==> allocated_block(*final(self), tid, block_size_of(size as int), r, zero)
                && block_size_of(size as int) >= size + MI_PADDING_SIZE,
            final(self).arena_alloc_count <= old(self).arena_alloc_count + 1,
            forall|h0: int| 0 <= h0 < old(self).heaps@.len()
                && (#[trigger] old(self).heaps@[h0]).live
                && old(self).heaps@[h0].thread_id == tid
                && old(self).thread_count < usize::MAX
                && size <= MI_SEGMENT_SLICE_SIZE - 2 * MI_PADDING_SIZE
                && class_has_ready_page(*old(self), h0, wsize_of(size as int),
                    block_size_of(size as int))
                && heap_has_no_pending_retire(*old(self), h0)
                ==> final(self).arena_alloc_count == old(self).arena_alloc_count && r != 0,
            size <= MI_SMALL_SIZE_MAX && old(self).thread_count < usize::MAX
                && old(self).arena_alloc_count < usize::MAX && (old(self).cache@.len() > 0
                || (old(self).next_base <= usize::MAX - MI_SEGMENT_SIZE
                    && (old(self).next_base as int / MI_SEGMENT_SIZE as int)
                        < MI_SEGMENT_MAP_BITS)) ==> r != 0,
    {
        if self.thread_count == usize::MAX {
            return 0;
        }
        let heap_h = crate::init::mi_thread_init(self, tid);
        self._mi_heap_malloc_zero(heap_h, size, zero)
    }

    /// `malloc` for thread `tid`.
    pub fn mi_malloc(&mut self, tid: usize, size: usize) -> (r: usize)
        requires
            old(self).wf(),
        ensures
            final(self).wf(),
            r != 0 ==> r >= MI_SEGMENT_SIZE,
            r != 0 ==> allocated_block(*final(self), tid, block_size_of(size as int), r, false)
                && block_size_of(size as int) >= size + MI_PADDING_SIZE,
            final(self).arena_alloc_count <= old(self).arena_alloc_count + 1,
            forall|h0: int| 0 <= h0 < old(self).heaps@.len()
                && (#[trigger] old(self).heaps@[h0]).live
                && old(self).heaps@[h0].thread_id == tid
                && old(self).thread_count < usize::MAX
                && size <= MI_SEGMENT_SLICE_SIZE - 2 * MI_PADDING_SIZE
                && class_has_ready_page(*old(self), h0, wsize_of(size as int),
                    block_size_of(size as int))
                && heap_has_no_pending_retire(*old(self), h0)
                ==> final(self).arena_alloc_count == old(self).arena_alloc_count && r != 0,
            size <= MI_SMALL_SIZE_MAX && old(self).thread_count < usize::MAX
                && old(self).arena_alloc_count < usize::MAX && (old(self).cache@.len() > 0
                || (old(self).next_base <= usize::MAX - MI_SEGMENT_SIZE
                    && (old(self).next_base as int / MI_SEGMENT_SIZE as int)
                        < MI_SEGMENT_MAP_BITS)) ==> r != 0,
    {
        self.allocate(tid, size, false)
    }

    /// `calloc`: `count * size` zeroed bytes, 0 on overflow or
    /// out-of-memory.
    pub fn mi_calloc(&mut self, tid: usize, count: usize, size: usize) -> (r: usize)
        requires
            old(self).wf(),
        ensures
            final(self).wf(),
            r != 0 ==> r >= MI_SEGMENT_SIZE,
            count * size > usize::MAX ==> r == 0,
            r != 0 ==> allocated_block(*final(self), tid,
                block_size_of((count * size) as int), r, true)
                && block_size_of((count * size) as int) >= count * size + MI_PADDING_SIZE,
            final(self).arena_alloc_count <= old(self).arena_alloc_count + 1,
    {
        if size != 0 && count > usize::MAX / size {
            return 0;
        }
        proof {
            if size == 0 {
                assert(count * size == 0) by (nonlinear_arith)
                    requires
                        size == 0,
                ;
            } else {
                vstd::arithmetic::div_mod::lemma_fundamental_div_mod(usize::MAX as int,
                    size as int);
                vstd::arithmetic::div_mod::lemma_mod_bound(usize::MAX as int, size as int);
                assert(count * size <= usize::MAX) by (nonlinear_arith)
                    requires
                        count <= usize::MAX as int / size as int,
                        usize::MAX as int == size as int * (usize::MAX as int / size as int)
                            + usize::MAX as int % size as int,
                        (usize::MAX as int % size as int) >= 0,
                        size > 0,
                        count >= 0,
                ;
            }
        }
        let total = count * size;
        self.allocate(tid, total, true)
    }

    /// `deallocate` / `free` of the core ABI for thread `tid`: a no-op
    /// on 0 and on addresses this allocator does not own; otherwise the
    /// block returns to its page's free list (or to the cross-thread
    /// list when `tid` does not own the page).
    #[verifier::rlimit(80)]
    pub fn mi_free(&mut self, tid: usize, p: usize)
        requires
            old(self).wf(),
        ensures
            final(self).wf(),
            final(self).heaps == old(self).heaps,
            final(self).segment_map == old(self).segment_map,
            final(self).cache == old(self).cache,
            final(self).abandoned == old(self).abandoned,
            final(self).next_base == old(self).next_base,
            final(self).arena_alloc_count == old(self).arena_alloc_count,
            final(self).segments@.len() == old(self).segments@.len(),
            forall|k: int| 0 <= k < final(self).segments@.len()
                ==> (#[trigger] final(self).segments@[k]) == (crate::mimalloc_types::MiSegment {
                    pages: final(self).segments@[k].pages,
                    ..old(self).segments@[k]
                }) && final(self).segments@[k].pages@.len()
                    == old(self).segments@[k].pages@.len(),
            forall|k: int, pi: int| 0 <= k < final(self).segments@.len()
                && 0 <= pi < final(self).segments@[k].pages@.len()
                ==> final(self).segments@[k].pages@[pi] == old(self).segments@[k].pages@[pi]
                    || page_freed_evolution(old(self).segments@[k].pages@[pi],
                        #[trigger] final(self).segments@[k].pages@[pi]),
            p == 0 ==> *final(self) == *old(self),
            forall|k: int, pi: int, b: u16| #[trigger] block_decode(*old(self), p, k, pi, b)
                ==> if old(self).segments@[k].thread_id == tid
                    && !old(self).segments@[k].is_abandoned {
                    page_owner_freed(old(self).segments@[k].pages@[pi],
                        final(self).segments@[k].pages@[pi], b)
                } else {
                    page_foreign_freed(old(self).segments@[k].pages@[pi],
                        final(self).segments@[k].pages@[pi], b)
                },
            (forall|k: int, pi: int, b: u16| !(#[trigger] block_decode(*old(self), p, k, pi,
                b))) ==> *final(self) == *old(self),
    {
        let ghost pre = *self;
        if p == 0 {
            proof {
                assert forall|k2: int, pi2: int, b2: u16| !(#[trigger] block_decode(pre, p, k2,
                    pi2, b2)) by {
                    if block_decode(pre, p, k2, pi2, b2) {
                        assert(pre.segments@[k2].base >= MI_SEGMENT_SIZE);
                    }
                }
            }
            return;
        }
        let ko = self._mi_segment_of(p);
        let k = match ko {
            Some(k) => k,
            None => {
                proof {
                    assert forall|k2: int, pi2: int, b2: u16| !(#[trigger] block_decode(pre, p,
                        k2, pi2, b2)) by {
                        if block_decode(pre, p, k2, pi2, b2) {
                            assert(pre.resolves_to(p, k2, pi2));
                        }
                    }
                }
                return;
            },
        };
        let off = p - self.segments[k].base;
        let pio = self.mi_page_of(k, off);
        let pi = match pio {
            Some(pi) => pi,
            None => {
                proof {
                    assert forall|k2: int, pi2: int, b2: u16| !(#[trigger] block_decode(pre, p,
                        k2, pi2, b2)) by {
                        if block_decode(pre, p, k2, pi2, b2) {
                            assert(pre.resolves_to(p, k2, pi2));
                            assert(k2 == k as int);
                            assert(pre.page_spans(k as int, pi2, off as int));
                        }
                    }
                }
                return;
            },
        };
        proof {
            assert(page_in_seg_ok(self.segments@[k as int].pages@[pi as int],
                self.segments@[k as int]));
            let pg0 = self.segments@[k as int].pages@[pi as int];
            assert(0 <= pg0.slice_offset * MI_SEGMENT_SLICE_SIZE) by (nonlinear_arith)
                requires
                    pg0.slice_offset >= 0,
            ;
        }
        let pstart = (self.segments[k].pages[pi].slice_offset as usize) * MI_SEGMENT_SLICE_SIZE;
        let rel = off - pstart;
        let bs = self.segments[k].pages[pi].xblock_size as usize;
        proof {
            // any decode lands on this very page, at block rel / bs
            assert forall|k2: int, pi2: int, b2: u16| #[trigger] block_decode(pre, p, k2, pi2,
                b2) implies k2 == k as int && pi2 == pi as int
                && rel as int == b2 * bs as int && b2 * bs as int >= 0 by {
                assert(pre.resolves_to(p, k2, pi2));
                assert(k2 == k as int);
                assert(pre.page_spans(k as int, pi2, off as int));
                assert(pi2 == pi as int);
                assert(0 <= b2 * bs as int) by (nonlinear_arith)
                    requires
                        bs >= 0,
                ;
            }
        }
        if rel % bs != 0 {
            // not a block start: a foreign or interior pointer, ignored
            proof {
                assert forall|k2: int, pi2: int, b2: u16| !(#[trigger] block_decode(pre, p, k2,
                    pi2, b2)) by {
                    if block_decode(pre, p, k2, pi2, b2) {
                        vstd::arithmetic::div_mod::lemma_fundamental_div_mod_converse(
                            rel as int,
                            bs as int,
                            b2 as int,
                            0,
                        );
                    }
                }
            }
            return;
        }
        let b = rel / bs;
        proof {
            assert forall|k2: int, pi2: int, b2: u16| #[trigger] block_decode(pre, p, k2, pi2,
                b2) implies b2 as int == b as int by {
                vstd::arithmetic::div_mod::lemma_fundamental_div_mod_converse(
                    rel as int,
                    bs as int,
                    b2 as int,
                    0,
                );
            }
        }
        let capacity = self.segments[k].pages[pi].capacity;
        if b >= capacity as usize {
            proof {
                assert forall|k2: int, pi2: int, b2: u16| !(#[trigger] block_decode(pre, p, k2,
                    pi2, b2)) by {
                    if block_decode(pre, p, k2, pi2, b2) {
                        assert(b2 < pre.segments@[k2].pages@[pi2]@.capacity);
                    }
                }
            }
            return;
        }
        // a block already on a free list is a double free: ignored
        if vec_contains_u16(&self.segments[k].pages[pi].free, b as u16) {
            proof {
                assert forall|k2: int, pi2: int, b2: u16| !(#[trigger] block_decode(pre, p, k2,
                    pi2, b2)) by {
                    if block_decode(pre, p, k2, pi2, b2) {
                        assert(pre.segments@[k2].pages@[pi2]@.block_in_use(b2));
                    }
                }
            }
            return;
        }
        if vec_contains_u16(&self.segments[k].pages[pi].local_free, b as u16) {
            proof {
                assert forall|k2: int, pi2: int, b2: u16| !(#[trigger] block_decode(pre, p, k2,
                    pi2, b2)) by {
                    if block_decode(pre, p, k2, pi2, b2) {
                        assert(pre.segments@[k2].pages@[pi2]@.block_in_use(b2));
                    }
                }
            }
            return;
        }
        if vec_contains_u16(&self.segments[k].pages[pi].thread_free, b as u16) {
            proof {
                assert forall|k2: int, pi2: int, b2: u16| !(#[trigger] block_decode(pre, p, k2,
                    pi2, b2)) by {
                    if block_decode(pre, p, k2, pi2, b2) {
                        assert(pre.segments@[k2].pages@[pi2]@.block_in_use(b2));
                    }
                }
            }
            return;
        }
        let same_thread = self.segments[k].thread_id == tid && !self.segments[k].is_abandoned;
        {
            let pg = &mut self.segments[k].pages[pi];
            pg.free_block(b as u16, same_thread);
            if same_thread && pg.used == 0 {
                // fully free: start the retirement countdown instead of
                // returning the page right away
                pg.set_retire_expire(MI_RETIRE_CYCLES);
            }
        }
        proof {
            lemma_wf_after_page_change(pre, *self, k as int, pi as int);
            let pg0 = pre.segments@[k as int].pages@[pi as int];
            let pg1 = self.segments@[k as int].pages@[pi as int];
            let bb = b as u16;
            assert(pg0@.block_in_use(bb));
            if same_thread {
                if pg0.delayed_free {
                    assert(pg1@.local_free == pg0@.local_free.push(bb)
                        && pg1@.free == pg0@.free && pg1@.thread_free == pg0@.thread_free
                        && pg1@.used == pg0@.used - 1);
                } else {
                    assert(pg1@.free == pg0@.free.push(bb)
                        && pg1@.local_free == pg0@.local_free
                        && pg1@.thread_free == pg0@.thread_free && pg1@.used == pg0@.used - 1);
                }
            } else {
                assert(pg1@.thread_free == pg0@.thread_free.push(bb)
                    && pg1@.free == pg0@.free && pg1@.local_free == pg0@.local_free
                    && pg1@.used == pg0@.used);
            }
            assert(page_freed_evolution(pg0, pg1));
            if same_thread {
                assert(page_owner_freed(pg0, pg1, bb));
            } else {
                assert(page_foreign_freed(pg0, pg1, bb));
            }
            assert(pre.resolves_to(p, k as int, pi as int));
            assert(bb < pg0@.capacity);
            assert(rel as int == bs as int * (b as int)) by {
                vstd::arithmetic::div_mod::lemma_fundamental_div_mod(rel as int, bs as int);
            }
            assert(bb as int * pg0@.block_size == rel as int) by (nonlinear_arith)
                requires
                    bb as int == b as int,
                    pg0@.block_size == bs as int,
                    rel as int == bs as int * (b as int),
            ;
            assert(p == pre.segments@[k as int].base
                + pg0.slice_offset * MI_SEGMENT_SLICE_SIZE + bb * pg0@.block_size);
            assert(block_decode(pre, p, k as int, pi as int, bb));
            assert forall|k2: int, pi2: int| 0 <= k2 < self.segments@.len()
                && 0 <= pi2 < self.segments@[k2].pages@.len()
                implies self.segments@[k2].pages@[pi2] == pre.segments@[k2].pages@[pi2]
                    || page_freed_evolution(pre.segments@[k2].pages@[pi2],
                        #[trigger] self.segments@[k2].pages@[pi2]) by {
                if k2 != k as int {
                    assert(self.segments@[k2] == pre.segments@[k2]);
                } else if pi2 != pi as int {
                    assert(self.segments@[k2].pages@[pi2] == pre.segments@[k2].pages@[pi2]);
                }
            }
        }
    }

    /// `usable_size` of the core ABI: the usable bytes of the block
    /// class at `p` (block size without the fixed padding), or 0 when
    /// `p` does not fall in any live page of this allocator.
    pub fn mi_usable_size(&self, p: usize) -> (r: usize)
        requires
            self.wf(),
        ensures
            r < MI_SEGMENT_SIZE,
            forall|k: int, pi: int| #[trigger] self.resolves_to(p, k, pi)
                ==> r == self.segments@[k].pages@[pi].xblock_size - MI_PADDING_SIZE,
            (forall|k: int, pi: int| !(#[trigger] self.resolves_to(p, k, pi))) ==> r == 0,
    {
        let ko = self._mi_segment_of(p);
        let k = match ko {
            Some(k) => k,
            None => {
                return 0;
            },
        };
        let off = p - self.segments[k].base;
        let pio = self.mi_page_of(k, off);
        match pio {
            Some(pi) => {
                proof {
                    assert(self.resolves_to(p, k as int, pi as int));
                    let pg0 = self.segments@[k as int].pages@[pi as int];
                    assert(pg0@.wf());
                    assert(page_in_seg_ok(pg0, self.segments@[k as int]));
                    assert(pg0@.block_size <= pg0.slice_count * MI_SEGMENT_SLICE_SIZE)
                        by (nonlinear_arith)
                        requires
                            pg0@.reserved >= 1,
                            pg0@.block_size >= 0,
                            pg0@.reserved * pg0@.block_size
                                <= pg0.slice_count * MI_SEGMENT_SLICE_SIZE,
                    ;
                    assert(pg0.slice_count * MI_SEGMENT_SLICE_SIZE
                        <= MI_SLICES_PER_SEGMENT * MI_SEGMENT_SLICE_SIZE) by (nonlinear_arith)
                        requires
                            0 <= pg0.slice_count <= MI_SLICES_PER_SEGMENT,
                    ;
                }
                let bs = self.segments[k].pages[pi].xblock_size as usize;
                bs - MI_PADDING_SIZE
            },
            None => 0,
        }
    }

    /// Write one byte at address `p` (a no-op outside carved blocks);
    /// stands in for the owner of an allocated block storing to it.
    pub fn mi_write_byte(&mut self, p: usize, v: u8)
        requires
            old(self).wf(),
        ensures
            final(self).wf(),
            final(self).heaps == old(self).heaps,
            final(self).segments@.len() == old(self).segments@.len(),
            final(self).arena_alloc_count == old(self).arena_alloc_count,
            forall|k: int, pi: int| #[trigger] old(self).resolves_to(p, k, pi)
                && old(self).data_offset(p, k, pi)
                    < old(self).segments@[k].pages@[pi].data@.len() ==> {
                &&& final(self).segments@[k].pages@[pi].data@
                    == old(self).segments@[k].pages@[pi].data@.update(
                        old(self).data_offset(p, k, pi), v)
                &&& final(self).segments@[k].pages@[pi] == (MiPage {
                    data: final(self).segments@[k].pages@[pi].data,
                    ..old(self).segments@[k].pages@[pi]
                })
            },
            forall|k2: int, pi2: int| 0 <= k2 < old(self).segments@.len()
                && 0 <= pi2 < old(self).segments@[k2].pages@.len()
                && !(#[trigger] old(self).resolves_to(p, k2, pi2))
                ==> final(self).segments@[k2].pages@[pi2] == old(self).segments@[k2].pages@[pi2],
            (forall|k: int, pi: int| !(#[trigger] old(self).resolves_to(p, k, pi)))
                ==> *final(self) == *old(self),
    {
        let ghost pre = *self;
        let ko = self._mi_segment_of(p);
        let k = match ko {
            Some(k) => k,
            None => {
                return;
            },
        };
        let off = p - self.segments[k].base;
        let pio = self.mi_page_of(k, off);
        let pi = match pio {
            Some(pi) => pi,
            None => {
                return;
            },
        };
        proof {
            let pg0 = self.segments@[k as int].pages@[pi as int];
            assert(page_in_seg_ok(pg0, self.segments@[k as int]));
            assert(0 <= pg0.slice_offset * MI_SEGMENT_SLICE_SIZE) by (nonlinear_arith)
                requires
                    pg0.slice_offset >= 0,
            ;
        }
        proof {
            assert(self.resolves_to(p, k as int, pi as int));
        }
        let pstart = (self.segments[k].pages[pi].slice_offset as usize) * MI_SEGMENT_SLICE_SIZE;
        let rel = off - pstart;
        if rel < self.segments[k].pages[pi].data.len() {
            let pg = &mut self.segments[k].pages[pi];
            pg.data.set(rel, v);
            proof {
                lemma_wf_after_page_change(pre, *self, k as int, pi as int);
            }
        }
    }

    /// Read the byte the allocator's store holds at address `p`
    /// (`None` when `p` is not backed by a carved block).
    pub fn mi_read_byte(&self, p: usize) -> (r: Option<u8>)
        requires
            self.wf(),
        ensures
            forall|k: int, pi: int| #[trigger] self.resolves_to(p, k, pi) ==> {
                if self.data_offset(p, k, pi) < self.segments@[k].pages@[pi].data@.len() {
                    r == Some(self.segments@[k].pages@[pi].data@[self.data_offset(p, k, pi)])
                } else {
                    r is None
                }
            },
            (forall|k: int, pi: int| !(#[trigger] self.resolves_to(p, k, pi))) ==> r is None,
    {
        let ko = self._mi_segment_of(p);
        let k = match ko {
            Some(k) => k,
            None => {
                return None;
            },
        };
        let off = p - self.segments[k].base;
        let pio = self.mi_page_of(k, off);
        let pi = match pio {
            Some(pi) => pi,
            None => {
                return None;
            },
        };
        proof {
            let pg0 = self.segments@[k as int].pages@[pi as int];
            assert(page_in_seg_ok(pg0, self.segments@[k as int]));
            assert(0 <= pg0.slice_offset * MI_SEGMENT_SLICE_SIZE) by (nonlinear_arith)
                requires
                    pg0.slice_offset >= 0,
            ;
        }
        proof {
            assert(self.resolves_to(p, k as int, pi as int));
        }
        let pstart = (self.segments[k].pages[pi].slice_offset as usize) * MI_SEGMENT_SLICE_SIZE;
        let rel = off - pstart;
        if rel < self.segments[k].pages[pi].data.len() {
            Some(self.segments[k].pages[pi].data[rel])
        } else {
            None
        }
    }
}

} // verus!
