//! The allocation front end: per-thread heaps with a direct page index
//! per word-size class, and the process-wide allocator state tying the
//! heaps, the segments, the segment address map, the segment cache and
//! the abandoned-segment stack together.

use vstd::prelude::*;
use crate::mimalloc_types::{MiHeap, MiPage, MiPageQueue, MiSegment, MiSegmentsTLD, PageRef,
    MI_PAGES_DIRECT, MI_SEGMENT_SIZE, MI_SEGMENT_SLICE_SIZE, MI_SLICES_PER_SEGMENT};
use crate::segment_cache::{MiSegmentMap, MI_SEGMENT_MAP_BITS};

verus! {

/// Fixed key mixed into segment cookies; the production allocator
/// draws it from a per-process random context.
pub const MI_COOKIE_KEY: usize = 0x1f2e3d4c;

/// The process-wide allocator state.
pub struct MiAllocator {
    /// All segment slots ever created; handles into this vector stay
    /// stable, a freed slot is reused through `cache`.
    pub segments: Vec<MiSegment>,
    /// All heap slots; one backing heap per live thread.
    pub heaps: Vec<MiHeap>,
    /// The process-wide segment address map.
    pub segment_map: MiSegmentMap,
    /// Handles of unused cached segments, ready for reuse.
    pub cache: Vec<usize>,
    /// Handles of abandoned segments (a stack; the production version
    /// is a lock-free tagged-pointer stack).
    pub abandoned: Vec<usize>,
    /// Next fresh segment-aligned address to hand out.
    pub next_base: usize,
    /// How often fresh memory was requested from the arena/OS.
    pub arena_alloc_count: usize,
    /// Live threads.
    pub thread_count: usize,
}

/// Two slice ranges do not overlap.
pub open spec fn spans_disjoint(off1: int, cnt1: int, off2: int, cnt2: int) -> bool {
    off1 + cnt1 <= off2 || off2 + cnt2 <= off1
}

/// Validity of one live page inside its segment: its span lies inside
/// the carved part of the segment and its blocks fit the span.
pub open spec fn page_in_seg_ok(p: MiPage, s: MiSegment) -> bool {
    p.slice_count > 0 ==> {
        &&& s.segment_info_slices <= p.slice_offset as int
        &&& p.slice_offset + p.slice_count <= s.next_slice as int
        &&& p@.reserved * p@.block_size <= p.slice_count * MI_SEGMENT_SLICE_SIZE
        &&& p@.reserved > 0
    }
}

/// Validity of one segment slot.
pub open spec fn seg_ok(s: MiSegment, next_base: int) -> bool {
    &&& s.base as int % MI_SEGMENT_SIZE as int == 0
    &&& s.base >= MI_SEGMENT_SIZE
    &&& s.base + MI_SEGMENT_SIZE <= next_base
    &&& (s.base as int / MI_SEGMENT_SIZE as int) < MI_SEGMENT_MAP_BITS
    &&& s.cookie == (s.base ^ MI_COOKIE_KEY)
    &&& !s.mem_is_pinned
    &&& !s.mem_is_large
    &&& s.allow_decommit
    &&& 1 <= s.segment_info_slices as int <= s.next_slice as int
    &&& (s.segment_info_slices as int) < MI_SLICES_PER_SEGMENT
    &&& s.next_slice <= MI_SLICES_PER_SEGMENT
    &&& s.abandoned <= s.used
    &&& (forall|j: int| 0 <= j < s.segment_info_slices ==> s.commit_mask.bit(j))
    &&& (forall|j: int| s.decommit_mask.bit(j) ==> s.commit_mask.bit(j))
    &&& (forall|i: int| 0 <= i < s.free_spans@.len() ==> {
        &&& s.segment_info_slices <= (#[trigger] s.free_spans@[i]).0 as int
        &&& s.free_spans@[i].0 + s.free_spans@[i].1 <= s.next_slice
        &&& s.free_spans@[i].1 > 0
    })
    &&& (forall|p: int| 0 <= p < s.pages@.len() ==> (#[trigger] s.pages@[p])@.wf())
    &&& (forall|p: int| 0 <= p < s.pages@.len() ==> page_in_seg_ok(#[trigger] s.pages@[p], s))
    &&& (forall|p1: int, p2: int| 0 <= p1 < p2 < s.pages@.len()
        && (#[trigger] s.pages@[p1]).slice_count > 0 && (#[trigger] s.pages@[p2]).slice_count > 0
        ==> spans_disjoint(s.pages@[p1].slice_offset as int, s.pages@[p1].slice_count as int,
            s.pages@[p2].slice_offset as int, s.pages@[p2].slice_count as int))
    &&& (forall|p: int, i: int| 0 <= p < s.pages@.len()
        && (#[trigger] s.pages@[p]).slice_count > 0 && 0 <= i < s.free_spans@.len()
        ==> spans_disjoint(s.pages@[p].slice_offset as int, s.pages@[p].slice_count as int,
            (#[trigger] s.free_spans@[i]).0 as int, s.free_spans@[i].1 as int))
    &&& (forall|i1: int, i2: int| 0 <= i1 < i2 < s.free_spans@.len()
        ==> spans_disjoint((#[trigger] s.free_spans@[i1]).0 as int, s.free_spans@[i1].1 as int,
            (#[trigger] s.free_spans@[i2]).0 as int, s.free_spans@[i2].1 as int))
}

/// Validity of a page reference coming from a heap index or queue.
pub open spec fn page_ref_ok(r: PageRef, segs: Seq<MiSegment>, block_size: int) -> bool {
    &&& r.seg < segs.len()
    &&& segs[r.seg as int].live
    &&& r.page < segs[r.seg as int].pages@.len()
    &&& segs[r.seg as int].pages@[r.page as int].slice_count > 0
    &&& segs[r.seg as int].pages@[r.page as int].xblock_size as int == block_size
}

/// Validity of one heap slot.
pub open spec fn heap_ok(h: MiHeap, segs: Seq<MiSegment>) -> bool {
    h.live ==> {
        &&& h.pages_free_direct@.len() == MI_PAGES_DIRECT
        &&& (forall|i: int| 0 <= i < MI_PAGES_DIRECT
            ==> ((#[trigger] h.pages_free_direct@[i]) matches Some(r)
                ==> page_ref_ok(r, segs, 8 * i)
                    && segs[r.seg as int].thread_id == h.thread_id
                    && !segs[r.seg as int].is_abandoned))
        &&& (forall|q: int| 0 <= q < h.pages@.len() ==> {
            let queue = #[trigger] h.pages@[q];
            forall|j: int| 0 <= j < queue.list@.len()
                ==> page_ref_ok(#[trigger] queue.list@[j], segs, queue.block_size as int)
                    && segs[queue.list@[j].seg as int].thread_id == h.thread_id
                    && !segs[queue.list@[j].seg as int].is_abandoned
        })
    }
}

impl MiAllocator {
    /// The structural invariant of the whole allocator.
    pub open spec fn wf(self) -> bool {
        &&& self.segment_map.wf()
        &&& self.next_base as int % MI_SEGMENT_SIZE as int == 0
        &&& self.next_base >= MI_SEGMENT_SIZE
        &&& (forall|k: int| 0 <= k < self.segments@.len()
            ==> seg_ok(#[trigger] self.segments@[k], self.next_base as int))
        &&& (forall|k1: int, k2: int| 0 <= k1 < k2 < self.segments@.len()
            ==> (#[trigger] self.segments@[k1]).base != (#[trigger] self.segments@[k2]).base)
        &&& (forall|k: int| 0 <= k < self.segments@.len()
            ==> self.segment_map.bit((#[trigger] self.segments@[k]).base as int
                / MI_SEGMENT_SIZE as int))
        &&& (forall|h: int| 0 <= h < self.heaps@.len()
            ==> heap_ok(#[trigger] self.heaps@[h], self.segments@))
        &&& (forall|h1: int, h2: int| 0 <= h1 < h2 < self.heaps@.len()
            && (#[trigger] self.heaps@[h1]).live && (#[trigger] self.heaps@[h2]).live
            ==> self.heaps@[h1].thread_id != self.heaps@[h2].thread_id)
        &&& (forall|c: int| 0 <= c < self.cache@.len()
            ==> (#[trigger] self.cache@[c]) < self.segments@.len()
                && !self.segments@[self.cache@[c] as int].live)
        &&& self.cache@.no_duplicates()
        &&& (forall|c: int| 0 <= c < self.abandoned@.len()
            ==> (#[trigger] self.abandoned@[c]) < self.segments@.len()
                && self.segments@[self.abandoned@[c] as int].live
                && self.segments@[self.abandoned@[c] as int].is_abandoned)
        &&& self.abandoned@.no_duplicates()
    }
}

/// Pushing a handle that is not yet on the stack keeps it duplicate
/// free.
pub proof fn lemma_push_distinct(s: Seq<usize>, x: usize)
    requires
        s.no_duplicates(),
        forall|i: int| 0 <= i < s.len() ==> s[i] != x,
    ensures
        s.push(x).no_duplicates(),
{
    let t = s.push(x);
    assert forall|i: int, j: int| 0 <= i < j < t.len() implies t[i] != t[j] by {
        if j < s.len() {
            assert(t[i] == s[i] && t[j] == s[j]);
        } else {
            assert(t[j] == x && t[i] == s[i]);
        }
    }
}

/// What a heap's page references depend on: replacing the segment
/// sequence by one that agrees on these points keeps every heap valid.
pub open spec fn seg_ref_compat(pre: MiSegment, post: MiSegment) -> bool {
    pre.live ==> {
        &&& post.live
        &&& post.thread_id == pre.thread_id
        &&& post.is_abandoned == pre.is_abandoned
        &&& post.pages@.len() >= pre.pages@.len()
        &&& (forall|p: int| 0 <= p < pre.pages@.len() ==> {
            &&& (#[trigger] post.pages@[p]).slice_count == pre.pages@[p].slice_count
            &&& post.pages@[p].xblock_size == pre.pages@[p].xblock_size
        })
    }
}

/// Heap validity is preserved when the segments change compatibly
/// (pages mutated in place, new pages or segments appended).
pub proof fn lemma_heap_ok_compat(heaps: Seq<MiHeap>, pre: Seq<MiSegment>, post: Seq<MiSegment>)
    requires
        post.len() >= pre.len(),
        forall|k: int| 0 <= k < pre.len() ==> seg_ref_compat(#[trigger] pre[k], post[k]),
        forall|h: int| 0 <= h < heaps.len() ==> heap_ok(#[trigger] heaps[h], pre),
    ensures
        forall|h: int| 0 <= h < heaps.len() ==> heap_ok(#[trigger] heaps[h], post),
{
    assert forall|h: int| 0 <= h < heaps.len() implies heap_ok(#[trigger] heaps[h], post) by {
        let hp = heaps[h];
        if hp.live {
            assert forall|i: int| 0 <= i < MI_PAGES_DIRECT
                implies ((#[trigger] hp.pages_free_direct@[i]) matches Some(r)
                    ==> page_ref_ok(r, post, 8 * i)
                        && post[r.seg as int].thread_id == hp.thread_id
                        && !post[r.seg as int].is_abandoned) by {
                if hp.pages_free_direct@[i] is Some {
                    let r = hp.pages_free_direct@[i]->Some_0;
                    assert(page_ref_ok(r, pre, 8 * i));
                    assert(seg_ref_compat(pre[r.seg as int], post[r.seg as int]));
                }
            }
            assert forall|q: int| 0 <= q < hp.pages@.len() implies {
                let queue = #[trigger] hp.pages@[q];
                forall|j: int| 0 <= j < queue.list@.len()
                    ==> page_ref_ok(#[trigger] queue.list@[j], post, queue.block_size as int)
                        && post[queue.list@[j].seg as int].thread_id == hp.thread_id
                        && !post[queue.list@[j].seg as int].is_abandoned
            } by {
                let queue = hp.pages@[q];
                assert forall|j: int| 0 <= j < queue.list@.len()
                    implies page_ref_ok(#[trigger] queue.list@[j], post, queue.block_size as int)
                        && post[queue.list@[j].seg as int].thread_id == hp.thread_id
                        && !post[queue.list@[j].seg as int].is_abandoned by {
                    let r = queue.list@[j];
                    assert(page_ref_ok(r, pre, queue.block_size as int));
                    assert(seg_ref_compat(pre[r.seg as int], post[r.seg as int]));
                }
            }
        }
    }
}

impl MiHeap {
    /// A fresh, live heap for `thread_id`, with an empty direct index
    /// and no page queues.
    pub fn new() -> (h: MiHeap)
        ensures
            h.live,
            h.backing,
            h.thread_id == 0,
            h.arena_id == 0,
            h.cookie == MI_COOKIE_KEY,
            h.page_count == 0,
            h.page_retired_min == 0,
            h.page_retired_max == 0,
            !h.no_reclaim,
            h.segments_tld.count == 0,
            h.segments_tld.peak_count == 0,
            h.segments_tld.current_size == 0,
            h.segments_tld.peak_size == 0,
            h.pages_free_direct@.len() == MI_PAGES_DIRECT,
            forall|i: int| 0 <= i < MI_PAGES_DIRECT ==> #[trigger] h.pages_free_direct@[i] is None,
            h.pages@.len() == 0,
            forall|segs: Seq<MiSegment>| heap_ok(h, segs),
    {
        let mut direct: Vec<Option<PageRef>> = Vec::new();
        let mut i: usize = 0;
        while i < MI_PAGES_DIRECT
            invariant
                i <= MI_PAGES_DIRECT,
                direct@.len() == i,
                forall|j: int| 0 <= j < i ==> #[trigger] direct@[j] is None,
            decreases MI_PAGES_DIRECT - i,
        {
            direct.push(None);
            i = i + 1;
        }
        MiHeap {
            thread_id: 0,
            arena_id: 0,
            cookie: MI_COOKIE_KEY,
            page_count: 0,
            page_retired_min: 0,
            page_retired_max: 0,
            no_reclaim: false,
            live: true,
            backing: true,
            pages_free_direct: direct,
            pages: Vec::new(),
            segments_tld: MiSegmentsTLD { count: 0, peak_count: 0, current_size: 0, peak_size: 0 },
        }
    }
}

/// Heap validity does not depend on the thread-local counters.
pub proof fn lemma_heap_ok_tld(h1: MiHeap, h2: MiHeap, segs: Seq<MiSegment>)
    requires
        h2.live == h1.live,
        h2.thread_id == h1.thread_id,
        h2.pages_free_direct == h1.pages_free_direct,
        h2.pages == h1.pages,
        heap_ok(h1, segs),
    ensures
        heap_ok(h2, segs),
{
}


/// Pushing keeps every element already on a stack.
pub proof fn lemma_contains_after_push<T>(s: Seq<T>, x: T, y: T)
    requires
        s.contains(y),
    ensures
        s.push(x).contains(y),
{
    let i = choose|i: int| 0 <= i < s.len() && s[i] == y;
    assert(s.push(x)[i] == y);
}

/// Changing only a segment that no heap may reference (dead, or on the
/// abandoned stack) keeps every heap valid.
pub proof fn lemma_heap_ok_change_hidden(
    heaps: Seq<MiHeap>,
    pre: Seq<MiSegment>,
    post: Seq<MiSegment>,
    k: int,
)
    requires
        0 <= k < pre.len(),
        post.len() == pre.len(),
        forall|j: int| 0 <= j < pre.len() && j != k ==> post[j] == pre[j],
        !pre[k].live || pre[k].is_abandoned,
        forall|h: int| 0 <= h < heaps.len() ==> heap_ok(#[trigger] heaps[h], pre),
    ensures
        forall|h: int| 0 <= h < heaps.len() ==> heap_ok(#[trigger] heaps[h], post),
{
    assert forall|h: int| 0 <= h < heaps.len() implies heap_ok(#[trigger] heaps[h], post) by {
        let hp = heaps[h];
        if hp.live {
            assert forall|i: int| 0 <= i < MI_PAGES_DIRECT
                implies ((#[trigger] hp.pages_free_direct@[i]) matches Some(r)
                    ==> page_ref_ok(r, post, 8 * i)
                        && post[r.seg as int].thread_id == hp.thread_id
                        && !post[r.seg as int].is_abandoned) by {
                if hp.pages_free_direct@[i] is Some {
                    let r = hp.pages_free_direct@[i]->Some_0;
                    assert(page_ref_ok(r, pre, 8 * i));
                    assert(r.seg as int != k);
                }
            }
            assert forall|q: int| 0 <= q < hp.pages@.len() implies {
                let queue = #[trigger] hp.pages@[q];
                forall|j: int| 0 <= j < queue.list@.len()
                    ==> page_ref_ok(#[trigger] queue.list@[j], post, queue.block_size as int)
                        && post[queue.list@[j].seg as int].thread_id == hp.thread_id
                        && !post[queue.list@[j].seg as int].is_abandoned
            } by {
                let queue = hp.pages@[q];
                assert forall|j: int| 0 <= j < queue.list@.len()
                    implies page_ref_ok(#[trigger] queue.list@[j], post, queue.block_size as int)
                        && post[queue.list@[j].seg as int].thread_id == hp.thread_id
                        && !post[queue.list@[j].seg as int].is_abandoned by {
                    let r = queue.list@[j];
                    assert(page_ref_ok(r, pre, queue.block_size as int));
                    assert(r.seg as int != k);
                }
            }
        }
    }
}

impl MiAllocator {
    /// Append a page to the queue of its block size in heap `heap_h`,
    /// creating the queue if the bin does not exist yet.
    pub fn heap_queue_push(&mut self, heap_h: usize, r: PageRef, block_size: usize)
        requires
            old(self).wf(),
            heap_h < old(self).heaps@.len(),
            old(self).heaps@[heap_h as int].live,
            page_ref_ok(r, old(self).segments@, block_size as int),
            old(self).segments@[r.seg as int].thread_id
                == old(self).heaps@[heap_h as int].thread_id,
            !old(self).segments@[r.seg as int].is_abandoned,
        ensures
            final(self).wf(),
            final(self).segments == old(self).segments,
            final(self).segment_map == old(self).segment_map,
            final(self).cache == old(self).cache,
            final(self).abandoned == old(self).abandoned,
            final(self).next_base == old(self).next_base,
            final(self).arena_alloc_count == old(self).arena_alloc_count,
            final(self).heaps@.len() == old(self).heaps@.len(),
            forall|h: int| 0 <= h < final(self).heaps@.len() && h != heap_h as int
                ==> final(self).heaps@[h] == old(self).heaps@[h],
            final(self).heaps@[heap_h as int].live == old(self).heaps@[heap_h as int].live,
            final(self).heaps@[heap_h as int].thread_id
                == old(self).heaps@[heap_h as int].thread_id,
            final(self).heaps@[heap_h as int].pages_free_direct
                == old(self).heaps@[heap_h as int].pages_free_direct,
            final(self).heaps@[heap_h as int].pages@.len()
                >= old(self).heaps@[heap_h as int].pages@.len(),
            forall|q: int| 0 <= q < old(self).heaps@[heap_h as int].pages@.len() ==> {
                &&& (#[trigger] final(self).heaps@[heap_h as int].pages@[q]).block_size
                    == old(self).heaps@[heap_h as int].pages@[q].block_size
                &&& final(self).heaps@[heap_h as int].pages@[q].list@.len()
                    >= old(self).heaps@[heap_h as int].pages@[q].list@.len()
            },
            forall|q: int, j: int| 0 <= q < old(self).heaps@[heap_h as int].pages@.len()
                && 0 <= j < old(self).heaps@[heap_h as int].pages@[q].list@.len()
                ==> #[trigger] final(self).heaps@[heap_h as int].pages@[q].list@[j]
                    == old(self).heaps@[heap_h as int].pages@[q].list@[j],
            exists|q: int| {
                &&& 0 <= q < final(self).heaps@[heap_h as int].pages@.len()
                &&& (#[trigger] final(self).heaps@[heap_h as int].pages@[q]).block_size
                    == block_size
                &&& final(self).heaps@[heap_h as int].pages@[q].list@.len() > 0
                &&& final(self).heaps@[heap_h as int].pages@[q].list@.last() == r
            },
    {
        let ghost pre = *self;
        let nq = self.heaps[heap_h].pages.len();
        let mut qi: usize = 0;
        let mut found = false;
        while qi < nq && !found
            invariant
                *self == pre,
                pre == *old(self),
                nq == pre.heaps@[heap_h as int].pages@.len(),
                heap_h < pre.heaps@.len(),
                qi <= nq,
                found ==> qi < nq
                    && pre.heaps@[heap_h as int].pages@[qi as int].block_size == block_size,
            decreases nq - qi + (if found { 0int } else { 1 }),
        {
            if self.heaps[heap_h].pages[qi].block_size == block_size {
                found = true;
            } else {
                qi = qi + 1;
            }
        }
        if found {
            let hp = &mut self.heaps[heap_h];
            hp.pages[qi].list.push(r);
        } else {
            let mut queue = MiPageQueue { list: Vec::new(), block_size };
            queue.list.push(r);
            let hp = &mut self.heaps[heap_h];
            hp.pages.push(queue);
        }
        proof {
            if found {
                assert(self.heaps@[heap_h as int].pages@[qi as int].block_size == block_size
                    && self.heaps@[heap_h as int].pages@[qi as int].list@.len() > 0
                    && self.heaps@[heap_h as int].pages@[qi as int].list@.last() == r);
            } else {
                assert(self.heaps@[heap_h as int].pages@[nq as int].block_size == block_size
                    && self.heaps@[heap_h as int].pages@[nq as int].list@.len() > 0
                    && self.heaps@[heap_h as int].pages@[nq as int].list@.last() == r);
            }
        }
        proof {
            assert forall|h: int| 0 <= h < self.heaps@.len()
                implies heap_ok(#[trigger] self.heaps@[h], self.segments@) by {
                if h != heap_h as int {
                    assert(self.heaps@[h] == pre.heaps@[h]);
                } else {
                    let hp0 = pre.heaps@[h];
                    let hp1 = self.heaps@[h];
                    assert forall|q: int| 0 <= q < hp1.pages@.len() implies {
                        let queue = #[trigger] hp1.pages@[q];
                        forall|j: int| 0 <= j < queue.list@.len()
                            ==> page_ref_ok(#[trigger] queue.list@[j], self.segments@,
                                queue.block_size as int)
                                && self.segments@[queue.list@[j].seg as int].thread_id
                                    == hp1.thread_id
                                && !self.segments@[queue.list@[j].seg as int].is_abandoned
                    } by {
                        let queue = hp1.pages@[q];
                        assert forall|j: int| 0 <= j < queue.list@.len()
                            implies page_ref_ok(#[trigger] queue.list@[j], self.segments@,
                                queue.block_size as int)
                                && self.segments@[queue.list@[j].seg as int].thread_id
                                    == hp1.thread_id
                                && !self.segments@[queue.list@[j].seg as int].is_abandoned by {
                            if q < hp0.pages@.len() {
                                if j < hp0.pages@[q].list@.len() {
                                    assert(queue.list@[j] == hp0.pages@[q].list@[j]);
                                } else {
                                    assert(queue.list@[j] == r);
                                }
                            } else {
                                assert(queue.list@[j] == r);
                            }
                        }
                    }
                }
            }
        }
    }
}

impl MiAllocator {
    /// Whether `h` is the handle of a live heap.
    pub fn mi_heap_is_initialized(&self, h: usize) -> (r: bool)
        ensures
            r == (h < self.heaps@.len() && self.heaps@[h as int].live),
    {
        h < self.heaps.len() && self.heaps[h].live
    }

    /// Whether `h` is its thread's backing heap.
    pub fn mi_heap_is_backing(&self, h: usize) -> (r: bool)
        requires
            h < self.heaps@.len(),
        ensures
            r == self.heaps@[h as int].backing,
    {
        self.heaps[h].backing
    }

    /// Whether the page lives in a huge segment.
    pub fn mi_page_is_huge(&self, r: PageRef) -> (b: bool)
        requires
            r.seg < self.segments@.len(),
        ensures
            b == (self.segments@[r.seg as int].kind
                == crate::mimalloc_types::MiSegmentKind::MiSegmentHuge),
    {
        self.segments[r.seg].kind == crate::mimalloc_types::MiSegmentKind::MiSegmentHuge
    }
}

/// Safely delete a heap without freeing any still-allocated block: the
/// thread's backing heap (and the main heap) persist, any other heap
/// slot simply dies; its pages stay live in their segments and every
/// outstanding block remains freeable through the segment map.
pub fn mi_heap_delete(a: &mut MiAllocator, h: usize)
    requires
        old(a).wf(),
    ensures
        final(a).wf(),
        final(a).segments == old(a).segments,
        final(a).heaps@.len() == old(a).heaps@.len(),
        forall|h2: int| 0 <= h2 < final(a).heaps@.len() && h2 != h as int
            ==> final(a).heaps@[h2] == old(a).heaps@[h2],
        h < old(a).heaps@.len() && old(a).heaps@[h as int].live
            && !old(a).heaps@[h as int].backing ==> !final(a).heaps@[h as int].live,
        h < old(a).heaps@.len() && !(old(a).heaps@[h as int].live
            && !old(a).heaps@[h as int].backing) ==> *final(a) == *old(a),
{
    if h >= a.heaps.len() {
        return;
    }
    if !a.heaps[h].live || a.heaps[h].backing {
        return;
    }
    let hp = &mut a.heaps[h];
    hp.live = false;
}


impl MiAllocator {
    /// Remove every index to page `r` from heap `heap_h` (queues and
    /// the direct index), in preparation for destroying the page.
    fn heap_drop_page_refs(&mut self, heap_h: usize, r: PageRef)
        requires
            old(self).wf(),
            heap_h < old(self).heaps@.len(),
            old(self).heaps@[heap_h as int].live,
        ensures
            final(self).wf(),
            final(self).segments == old(self).segments,
            final(self).segment_map == old(self).segment_map,
            final(self).cache == old(self).cache,
            final(self).abandoned == old(self).abandoned,
            final(self).next_base == old(self).next_base,
            final(self).arena_alloc_count == old(self).arena_alloc_count,
            final(self).heaps@.len() == old(self).heaps@.len(),
            forall|h: int| 0 <= h < final(self).heaps@.len() && h != heap_h as int
                ==> final(self).heaps@[h] == old(self).heaps@[h],
            final(self).heaps@[heap_h as int].live,
            final(self).heaps@[heap_h as int].thread_id
                == old(self).heaps@[heap_h as int].thread_id,
            forall|i: int| 0 <= i < final(self).heaps@[heap_h as int].pages_free_direct@.len()
                ==> ((#[trigger] final(self).heaps@[heap_h as int].pages_free_direct@[i])
                    matches Some(e) ==> e != r),
            forall|q: int, j: int| 0 <= q < final(self).heaps@[heap_h as int].pages@.len()
                && 0 <= j < final(self).heaps@[heap_h as int].pages@[q].list@.len()
                ==> (#[trigger] final(self).heaps@[heap_h as int].pages@[q].list@[j]) != r,
    {
        let ghost pre = *self;
        let nq = self.heaps[heap_h].pages.len();
        let mut qi: usize = 0;
        while qi < nq
            invariant
                self.wf(),
                pre == *old(self),
                heap_h < self.heaps@.len(),
                self.heaps@[heap_h as int].live,
                qi <= nq,
                nq == self.heaps@[heap_h as int].pages@.len(),
                self.segments == pre.segments,
                self.segment_map == pre.segment_map,
                self.cache == pre.cache,
                self.abandoned == pre.abandoned,
                self.next_base == pre.next_base,
                self.arena_alloc_count == pre.arena_alloc_count,
                self.heaps@.len() == pre.heaps@.len(),
                forall|h: int| 0 <= h < self.heaps@.len() && h != heap_h as int
                    ==> self.heaps@[h] == pre.heaps@[h],
                self.heaps@[heap_h as int].thread_id == pre.heaps@[heap_h as int].thread_id,
                self.heaps@[heap_h as int].pages_free_direct
                    == pre.heaps@[heap_h as int].pages_free_direct,
                forall|q: int, j: int| 0 <= q < qi
                    && 0 <= j < self.heaps@[heap_h as int].pages@[q].list@.len()
                    ==> (#[trigger] self.heaps@[heap_h as int].pages@[q].list@[j]) != r,
            decreases nq - qi,
        {
            let mut j: usize = 0;
            while j < self.heaps[heap_h].pages[qi].list.len()
                invariant
                    self.wf(),
                    pre == *old(self),
                    heap_h < self.heaps@.len(),
                    self.heaps@[heap_h as int].live,
                    qi < nq,
                    nq == self.heaps@[heap_h as int].pages@.len(),
                    j <= self.heaps@[heap_h as int].pages@[qi as int].list@.len(),
                    self.segments == pre.segments,
                    self.segment_map == pre.segment_map,
                    self.cache == pre.cache,
                    self.abandoned == pre.abandoned,
                    self.next_base == pre.next_base,
                    self.arena_alloc_count == pre.arena_alloc_count,
                    self.heaps@.len() == pre.heaps@.len(),
                    forall|h: int| 0 <= h < self.heaps@.len() && h != heap_h as int
                        ==> self.heaps@[h] == pre.heaps@[h],
                    self.heaps@[heap_h as int].thread_id
                        == pre.heaps@[heap_h as int].thread_id,
                    self.heaps@[heap_h as int].pages_free_direct
                        == pre.heaps@[heap_h as int].pages_free_direct,
                    forall|q: int, j2: int| 0 <= q < qi
                        && 0 <= j2 < self.heaps@[heap_h as int].pages@[q].list@.len()
                        ==> (#[trigger] self.heaps@[heap_h as int].pages@[q].list@[j2]) != r,
                    forall|j2: int| 0 <= j2 < j
                        ==> (#[trigger] self.heaps@[heap_h as int].pages@[qi as int].list@[j2])
                            != r,
                decreases self.heaps@[heap_h as int].pages@[qi as int].list@.len() - j,
            {
                let ghost mid = *self;
                let e = self.heaps[heap_h].pages[qi].list[j];
                if e.seg == r.seg && e.page == r.page {
                    let hp = &mut self.heaps[heap_h];
                    hp.pages[qi].list.remove(j);
                    proof {
                        lemma_heap_ok_after_queue_edit(mid, *self, heap_h as int, qi as int);
                    }
                } else {
                    j = j + 1;
                }
            }
            qi = qi + 1;
        }
        // the direct index may also hold the page
        let mut i: usize = 0;
        let nd = self.heaps[heap_h].pages_free_direct.len();
        while i < nd
            invariant
                self.wf(),
                pre == *old(self),
                heap_h < self.heaps@.len(),
                self.heaps@[heap_h as int].live,
                i <= nd,
                nd == self.heaps@[heap_h as int].pages_free_direct@.len(),
                self.segments == pre.segments,
                self.segment_map == pre.segment_map,
                self.cache == pre.cache,
                self.abandoned == pre.abandoned,
                self.next_base == pre.next_base,
                self.arena_alloc_count == pre.arena_alloc_count,
                self.heaps@.len() == pre.heaps@.len(),
                forall|h: int| 0 <= h < self.heaps@.len() && h != heap_h as int
                    ==> self.heaps@[h] == pre.heaps@[h],
                self.heaps@[heap_h as int].thread_id == pre.heaps@[heap_h as int].thread_id,
                forall|q: int, j2: int| 0 <= q < self.heaps@[heap_h as int].pages@.len()
                    && 0 <= j2 < self.heaps@[heap_h as int].pages@[q].list@.len()
                    ==> (#[trigger] self.heaps@[heap_h as int].pages@[q].list@[j2]) != r,
                forall|i2: int| 0 <= i2 < i
                    ==> ((#[trigger] self.heaps@[heap_h as int].pages_free_direct@[i2])
                        matches Some(e) ==> e != r),
            decreases nd - i,
        {
            let ghost mid = *self;
            let cur = self.heaps[heap_h].pages_free_direct[i];
            match cur {
                Some(e) => {
                    if e.seg == r.seg && e.page == r.page {
                        let hp = &mut self.heaps[heap_h];
                        hp.pages_free_direct.set(i, None);
                        proof {
                            lemma_heap_ok_after_direct_edit(mid, *self, heap_h as int, i as int);
                        }
                    }
                },
                None => {},
            }
            i = i + 1;
        }
    }
}

/// Removing an entry from one queue of one heap keeps the allocator
/// well formed.
proof fn lemma_heap_ok_after_queue_edit(pre: MiAllocator, post: MiAllocator, h: int, q: int)
    requires
        pre.wf(),
        0 <= h < pre.heaps@.len(),
        0 <= q < pre.heaps@[h].pages@.len(),
        post.segments == pre.segments,
        post.segment_map == pre.segment_map,
        post.cache == pre.cache,
        post.abandoned == pre.abandoned,
        post.next_base == pre.next_base,
        post.heaps@.len() == pre.heaps@.len(),
        forall|h2: int| 0 <= h2 < pre.heaps@.len() && h2 != h ==> post.heaps@[h2] == pre.heaps@[h2],
        post.heaps@[h] == (MiHeap { pages: post.heaps@[h].pages, ..pre.heaps@[h] }),
        post.heaps@[h].pages@.len() == pre.heaps@[h].pages@.len(),
        forall|q2: int| 0 <= q2 < pre.heaps@[h].pages@.len() && q2 != q
            ==> post.heaps@[h].pages@[q2] == pre.heaps@[h].pages@[q2],
        post.heaps@[h].pages@[q].block_size == pre.heaps@[h].pages@[q].block_size,
        forall|j: int| 0 <= j < post.heaps@[h].pages@[q].list@.len()
            ==> pre.heaps@[h].pages@[q].list@.contains(
                #[trigger] post.heaps@[h].pages@[q].list@[j]),
    ensures
        post.wf(),
{
    assert forall|h2: int| 0 <= h2 < post.heaps@.len()
        implies heap_ok(#[trigger] post.heaps@[h2], post.segments@) by {
        if h2 != h {
            assert(post.heaps@[h2] == pre.heaps@[h2]);
            assert(heap_ok(pre.heaps@[h2], pre.segments@));
        } else {
            let hp0 = pre.heaps@[h];
            let hp1 = post.heaps@[h];
            if hp1.live {
                assert forall|q2: int| 0 <= q2 < hp1.pages@.len() implies {
                    let queue = #[trigger] hp1.pages@[q2];
                    forall|j: int| 0 <= j < queue.list@.len()
                        ==> page_ref_ok(#[trigger] queue.list@[j], post.segments@,
                            queue.block_size as int)
                            && post.segments@[queue.list@[j].seg as int].thread_id
                                == hp1.thread_id
                            && !post.segments@[queue.list@[j].seg as int].is_abandoned
                } by {
                    let queue = hp1.pages@[q2];
                    assert forall|j: int| 0 <= j < queue.list@.len()
                        implies page_ref_ok(#[trigger] queue.list@[j], post.segments@,
                            queue.block_size as int)
                            && post.segments@[queue.list@[j].seg as int].thread_id
                                == hp1.thread_id
                            && !post.segments@[queue.list@[j].seg as int].is_abandoned by {
                        if q2 == q {
                            let e = queue.list@[j];
                            assert(pre.heaps@[h].pages@[q].list@.contains(e));
                            let j0 = choose|j0: int| 0 <= j0
                                < pre.heaps@[h].pages@[q].list@.len()
                                && pre.heaps@[h].pages@[q].list@[j0] == e;
                            assert(page_ref_ok(pre.heaps@[h].pages@[q].list@[j0],
                                pre.segments@, pre.heaps@[h].pages@[q].block_size as int));
                        } else {
                            assert(queue == pre.heaps@[h].pages@[q2]);
                        }
                    }
                }
            }
        }
    }
}

/// Blanking one entry of one heap's direct index keeps the allocator
/// well formed.
proof fn lemma_heap_ok_after_direct_edit(pre: MiAllocator, post: MiAllocator, h: int, i: int)
    requires
        pre.wf(),
        0 <= h < pre.heaps@.len(),
        post.segments == pre.segments,
        post.segment_map == pre.segment_map,
        post.cache == pre.cache,
        post.abandoned == pre.abandoned,
        post.next_base == pre.next_base,
        post.heaps@.len() == pre.heaps@.len(),
        forall|h2: int| 0 <= h2 < pre.heaps@.len() && h2 != h ==> post.heaps@[h2] == pre.heaps@[h2],
        post.heaps@[h] == (MiHeap {
            pages_free_direct: post.heaps@[h].pages_free_direct,
            ..pre.heaps@[h]
        }),
        post.heaps@[h].pages_free_direct@.len() == pre.heaps@[h].pages_free_direct@.len(),
        forall|i2: int| 0 <= i2 < pre.heaps@[h].pages_free_direct@.len() && i2 != i
            ==> post.heaps@[h].pages_free_direct@[i2] == pre.heaps@[h].pages_free_direct@[i2],
        post.heaps@[h].pages_free_direct@.len() > i ==> post.heaps@[h].pages_free_direct@[i]
            is None,
    ensures
        post.wf(),
{
    assert forall|h2: int| 0 <= h2 < post.heaps@.len()
        implies heap_ok(#[trigger] post.heaps@[h2], post.segments@) by {
        if h2 != h {
            assert(post.heaps@[h2] == pre.heaps@[h2]);
            assert(heap_ok(pre.heaps@[h2], pre.segments@));
        } else {
            let hp0 = pre.heaps@[h];
            let hp1 = post.heaps@[h];
            if hp1.live {
                assert forall|i2: int| 0 <= i2 < MI_PAGES_DIRECT
                    implies ((#[trigger] hp1.pages_free_direct@[i2]) matches Some(rr)
                        ==> page_ref_ok(rr, post.segments@, 8 * i2)
                            && post.segments@[rr.seg as int].thread_id == hp1.thread_id
                            && !post.segments@[rr.seg as int].is_abandoned) by {
                    if i2 != i {
                        assert(hp1.pages_free_direct@[i2] == hp0.pages_free_direct@[i2]);
                    }
                }
            }
        }
    }
}


/// After a page dies (its slot's `slice_count` drops to zero and the
/// segment's accounting is updated), every heap stays valid: the only
/// heap that could reference the page is its owner's, and that heap
/// dropped its references first.
proof fn lemma_heap_ok_after_page_death(
    pre: MiAllocator,
    post: MiAllocator,
    k: int,
    pi: int,
    heap_h: int,
)
    requires
        pre.wf(),
        0 <= k < pre.segments@.len(),
        0 <= pi < pre.segments@[k].pages@.len(),
        0 <= heap_h < pre.heaps@.len(),
        pre.heaps@[heap_h].live,
        pre.segments@[k].live,
        !pre.segments@[k].is_abandoned,
        pre.segments@[k].thread_id == pre.heaps@[heap_h].thread_id,
        post.heaps == pre.heaps,
        post.segments@.len() == pre.segments@.len(),
        forall|j: int| 0 <= j < pre.segments@.len() && j != k
            ==> post.segments@[j] == pre.segments@[j],
        post.segments@[k].live == pre.segments@[k].live,
        post.segments@[k].is_abandoned == pre.segments@[k].is_abandoned,
        post.segments@[k].thread_id == pre.segments@[k].thread_id,
        post.segments@[k].pages@.len() == pre.segments@[k].pages@.len(),
        forall|p: int| 0 <= p < pre.segments@[k].pages@.len() && p != pi
            ==> post.segments@[k].pages@[p] == pre.segments@[k].pages@[p],
        forall|i: int| 0 <= i < pre.heaps@[heap_h].pages_free_direct@.len()
            ==> ((#[trigger] pre.heaps@[heap_h].pages_free_direct@[i]) matches Some(e)
                ==> e != (PageRef { seg: k as usize, page: pi as usize })),
        forall|q: int, j: int| 0 <= q < pre.heaps@[heap_h].pages@.len()
            && 0 <= j < pre.heaps@[heap_h].pages@[q].list@.len()
            ==> (#[trigger] pre.heaps@[heap_h].pages@[q].list@[j])
                != (PageRef { seg: k as usize, page: pi as usize }),
    ensures
        forall|h: int| 0 <= h < post.heaps@.len()
            ==> heap_ok(#[trigger] post.heaps@[h], post.segments@),
{
    let dead = PageRef { seg: k as usize, page: pi as usize };
    assert forall|h: int| 0 <= h < post.heaps@.len()
        implies heap_ok(#[trigger] post.heaps@[h], post.segments@) by {
        let hp = post.heaps@[h];
        assert(heap_ok(hp, pre.segments@));
        if hp.live {
            assert forall|i: int| 0 <= i < MI_PAGES_DIRECT
                implies ((#[trigger] hp.pages_free_direct@[i]) matches Some(r)
                    ==> page_ref_ok(r, post.segments@, 8 * i)
                        && post.segments@[r.seg as int].thread_id == hp.thread_id
                        && !post.segments@[r.seg as int].is_abandoned) by {
                if hp.pages_free_direct@[i] is Some {
                    let r = hp.pages_free_direct@[i]->Some_0;
                    assert(page_ref_ok(r, pre.segments@, 8 * i));
                    if r.seg as int == k {
                        assert(pre.segments@[k].thread_id == hp.thread_id);
                        assert(h == heap_h);
                        assert(r != dead);
                        assert(r.page as int != pi);
                        assert(post.segments@[k].pages@[r.page as int]
                            == pre.segments@[k].pages@[r.page as int]);
                    }
                }
            }
            assert forall|q: int| 0 <= q < hp.pages@.len() implies {
                let queue = #[trigger] hp.pages@[q];
                forall|j: int| 0 <= j < queue.list@.len()
                    ==> page_ref_ok(#[trigger] queue.list@[j], post.segments@,
                        queue.block_size as int)
                        && post.segments@[queue.list@[j].seg as int].thread_id == hp.thread_id
                        && !post.segments@[queue.list@[j].seg as int].is_abandoned
            } by {
                let queue = hp.pages@[q];
                assert forall|j: int| 0 <= j < queue.list@.len()
                    implies page_ref_ok(#[trigger] queue.list@[j], post.segments@,
                        queue.block_size as int)
                        && post.segments@[queue.list@[j].seg as int].thread_id == hp.thread_id
                        && !post.segments@[queue.list@[j].seg as int].is_abandoned by {
                    let r = queue.list@[j];
                    assert(page_ref_ok(r, pre.segments@, queue.block_size as int));
                    if r.seg as int == k {
                        assert(pre.segments@[k].thread_id == hp.thread_id);
                        assert(h == heap_h);
                        assert(r != dead);
                        assert(r.page as int != pi);
                        assert(post.segments@[k].pages@[r.page as int]
                            == pre.segments@[k].pages@[r.page as int]);
                    }
                }
            }
        }
    }
}


/// A page the retirement pass must age: referenced by the heap's
/// queues, owned by the heap's thread, live, fully free, and carrying a
/// running countdown.
pub open spec fn retired_candidate(a: MiAllocator, heap_h: int, r: PageRef) -> bool {
    &&& r.seg < a.segments@.len()
    &&& r.page < a.segments@[r.seg as int].pages@.len()
    &&& a.segments@[r.seg as int].live
    &&& !a.segments@[r.seg as int].is_abandoned
    &&& a.segments@[r.seg as int].thread_id == a.heaps@[heap_h].thread_id
    &&& a.segments@[r.seg as int].pages@[r.page as int].slice_count > 0
    &&& a.segments@[r.seg as int].pages@[r.page as int]@.used == 0
    &&& a.segments@[r.seg as int].pages@[r.page as int].retire_expire_spec() > 0
}

/// What one retirement pass guarantees for a candidate page: it died,
/// it was meanwhile reused, or its countdown dropped — and a countdown
/// that stood at one ends in death (or reuse).
pub open spec fn page_aged(a0: MiAllocator, a1: MiAllocator, r: PageRef) -> bool {
    &&& {
        ||| a1.segments@[r.seg as int].pages@[r.page as int].slice_count == 0
        ||| a1.segments@[r.seg as int].pages@[r.page as int]@.used != 0
        ||| a1.segments@[r.seg as int].pages@[r.page as int].retire_expire_spec()
            < a0.segments@[r.seg as int].pages@[r.page as int].retire_expire_spec()
    }
    &&& (a0.segments@[r.seg as int].pages@[r.page as int].retire_expire_spec() == 1 ==> {
        ||| a1.segments@[r.seg as int].pages@[r.page as int].slice_count == 0
        ||| a1.segments@[r.seg as int].pages@[r.page as int]@.used != 0
    })
}

/// Whether a page reference occurs somewhere in the heap's queues.
pub open spec fn queue_referenced(a: MiAllocator, heap_h: int, e: PageRef) -> bool {
    exists|q: int, j: int| {
        &&& 0 <= q < a.heaps@[heap_h].pages@.len()
        &&& 0 <= j < a.heaps@[heap_h].pages@[q].list@.len()
        &&& (#[trigger] a.heaps@[heap_h].pages@[q].list@[j]) == e
    }
}

/// A page is in shape to be retired: live, fully free, counting down.
pub open spec fn retire_shaped(p: MiPage) -> bool {
    p.slice_count > 0 && p@.used == 0 && p.retire_expire_spec() > 0
}

impl MiAllocator {
    /// Age the heap's fully free retired pages: each collect pass
    /// counts their retirement down, and a page whose countdown expires
    /// is destroyed — its span returns to the segment's free-span pool
    /// and every index to it is dropped.
    #[verifier::rlimit(80)]
    pub fn mi_heap_collect_retired(&mut self, heap_h: usize)
        requires
            old(self).wf(),
            heap_h < old(self).heaps@.len(),
            old(self).heaps@[heap_h as int].live,
        ensures
            final(self).wf(),
            final(self).segments@.len() == old(self).segments@.len(),
            final(self).segment_map == old(self).segment_map,
            final(self).cache == old(self).cache,
            final(self).abandoned == old(self).abandoned,
            final(self).next_base == old(self).next_base,
            final(self).arena_alloc_count == old(self).arena_alloc_count,
            final(self).heaps@.len() == old(self).heaps@.len(),
            forall|h: int| 0 <= h < final(self).heaps@.len() ==> {
                &&& (#[trigger] final(self).heaps@[h]).live == old(self).heaps@[h].live
                &&& final(self).heaps@[h].thread_id == old(self).heaps@[h].thread_id
            },
            // only retirement-shaped pages change, and segments change
            // only in their pages, used count and span pool
            forall|k: int| 0 <= k < final(self).segments@.len()
                ==> (#[trigger] final(self).segments@[k]) == (MiSegment {
                    pages: final(self).segments@[k].pages,
                    used: final(self).segments@[k].used,
                    free_spans: final(self).segments@[k].free_spans,
                    ..old(self).segments@[k]
                }) && final(self).segments@[k].pages@.len()
                    == old(self).segments@[k].pages@.len(),
            forall|k: int, pi: int| 0 <= k < final(self).segments@.len()
                && 0 <= pi < final(self).segments@[k].pages@.len()
                && !retire_shaped(old(self).segments@[k].pages@[pi])
                ==> final(self).segments@[k].pages@[pi] == old(self).segments@[k].pages@[pi],
            // every candidate the heap's queues referenced at entry ages
            forall|q: int, j: int| 0 <= q < old(self).heaps@[heap_h as int].pages@.len()
                && 0 <= j < old(self).heaps@[heap_h as int].pages@[q].list@.len()
                && retired_candidate(*old(self), heap_h as int,
                    #[trigger] old(self).heaps@[heap_h as int].pages@[q].list@[j])
                ==> page_aged(*old(self), *final(self),
                    old(self).heaps@[heap_h as int].pages@[q].list@[j]),
            // with no retirement pending, the pass changes nothing
            (forall|q: int, j: int| 0 <= q < old(self).heaps@[heap_h as int].pages@.len()
                && 0 <= j < old(self).heaps@[heap_h as int].pages@[q].list@.len()
                ==> !retired_candidate(*old(self), heap_h as int,
                    #[trigger] old(self).heaps@[heap_h as int].pages@[q].list@[j]))
                ==> *final(self) == *old(self),
    {
        let ghost pre = *self;
        // gather the retired candidates first: destroying a page edits
        // the very queues being walked
        let mut retired: Vec<PageRef> = Vec::new();
        let nq = self.heaps[heap_h].pages.len();
        let mut qi: usize = 0;
        while qi < nq
            invariant
                self.wf(),
                *self == pre,
                pre == *old(self),
                heap_h < self.heaps@.len(),
                self.heaps@[heap_h as int].live,
                qi <= nq,
                nq == self.heaps@[heap_h as int].pages@.len(),
                forall|c: int| 0 <= c < retired@.len()
                    ==> (#[trigger] retired@[c]).seg < self.segments@.len(),
                forall|c: int| 0 <= c < retired@.len()
                    ==> retired_candidate(pre, heap_h as int, #[trigger] retired@[c]),
                forall|c: int| 0 <= c < retired@.len()
                    ==> queue_referenced(pre, heap_h as int, #[trigger] retired@[c]),
                forall|q: int, j: int| 0 <= q < qi
                    && 0 <= j < pre.heaps@[heap_h as int].pages@[q].list@.len()
                    && retired_candidate(pre, heap_h as int,
                        #[trigger] pre.heaps@[heap_h as int].pages@[q].list@[j])
                    ==> retired@.contains(pre.heaps@[heap_h as int].pages@[q].list@[j]),
            decreases nq - qi,
        {
            let nl = self.heaps[heap_h].pages[qi].list.len();
            let mut j: usize = 0;
            while j < nl
                invariant
                    self.wf(),
                    *self == pre,
                    pre == *old(self),
                    heap_h < self.heaps@.len(),
                    self.heaps@[heap_h as int].live,
                    qi < nq,
                    nq == self.heaps@[heap_h as int].pages@.len(),
                    j <= nl,
                    nl == self.heaps@[heap_h as int].pages@[qi as int].list@.len(),
                    forall|c: int| 0 <= c < retired@.len()
                        ==> (#[trigger] retired@[c]).seg < self.segments@.len(),
                    forall|c: int| 0 <= c < retired@.len()
                        ==> retired_candidate(pre, heap_h as int, #[trigger] retired@[c]),
                    forall|c: int| 0 <= c < retired@.len()
                        ==> queue_referenced(pre, heap_h as int, #[trigger] retired@[c]),
                    forall|q2: int, j2: int| 0 <= q2 < qi
                        && 0 <= j2 < pre.heaps@[heap_h as int].pages@[q2].list@.len()
                        && retired_candidate(pre, heap_h as int,
                            #[trigger] pre.heaps@[heap_h as int].pages@[q2].list@[j2])
                        ==> retired@.contains(pre.heaps@[heap_h as int].pages@[q2].list@[j2]),
                    forall|j2: int| 0 <= j2 < j
                        && retired_candidate(pre, heap_h as int,
                            #[trigger] pre.heaps@[heap_h as int].pages@[qi as int].list@[j2])
                        ==> retired@.contains(
                            pre.heaps@[heap_h as int].pages@[qi as int].list@[j2]),
                decreases nl - j,
            {
                let r = self.heaps[heap_h].pages[qi].list[j];
                proof {
                    assert(heap_ok(self.heaps@[heap_h as int], self.segments@));
                    assert(page_ref_ok(r, self.segments@,
                        self.heaps@[heap_h as int].pages@[qi as int].block_size as int));
                }
                let ghost retired0 = retired@;
                let pg = &self.segments[r.seg].pages[r.page];
                if pg.used == 0 && pg.retire_expire() > 0 {
                    retired.push(r);
                    proof {
                        assert(pre.heaps@[heap_h as int].pages@[qi as int].list@[j as int]
                            == retired@[retired@.len() - 1]);
                        assert(queue_referenced(pre, heap_h as int,
                            retired@[retired@.len() - 1]));
                    }
                }
                proof {
                    assert forall|j2: int| 0 <= j2 < j + 1
                        && retired_candidate(pre, heap_h as int,
                            #[trigger] pre.heaps@[heap_h as int].pages@[qi as int].list@[j2])
                        implies retired@.contains(
                            pre.heaps@[heap_h as int].pages@[qi as int].list@[j2]) by {
                        let e = pre.heaps@[heap_h as int].pages@[qi as int].list@[j2];
                        if j2 == j as int {
                            assert(retired@.last() == r);
                        } else {
                            assert(retired0.contains(e));
                            if retired@ != retired0 {
                                lemma_contains_after_push(retired0, r, e);
                            }
                        }
                    }
                    assert forall|q2: int, j2: int| 0 <= q2 < qi
                        && 0 <= j2 < pre.heaps@[heap_h as int].pages@[q2].list@.len()
                        && retired_candidate(pre, heap_h as int,
                            #[trigger] pre.heaps@[heap_h as int].pages@[q2].list@[j2])
                        implies retired@.contains(
                            pre.heaps@[heap_h as int].pages@[q2].list@[j2]) by {
                        let e = pre.heaps@[heap_h as int].pages@[q2].list@[j2];
                        assert(retired0.contains(e));
                        if retired@ != retired0 {
                            lemma_contains_after_push(retired0, r, e);
                        }
                    }
                }
                j = j + 1;
            }
            qi = qi + 1;
        }
        // age or destroy each candidate
        let mut c: usize = 0;
        while c < retired.len()
            invariant
                self.wf(),
                pre == *old(self),
                retired@.len() == 0 ==> *self == pre,
                heap_h < self.heaps@.len(),
                self.heaps@[heap_h as int].live,
                self.heaps@[heap_h as int].thread_id == pre.heaps@[heap_h as int].thread_id,
                c <= retired@.len(),
                forall|c2: int| 0 <= c2 < retired@.len()
                    ==> (#[trigger] retired@[c2]).seg < self.segments@.len(),
                self.segments@.len() == pre.segments@.len(),
                self.segment_map == pre.segment_map,
                self.cache == pre.cache,
                self.abandoned == pre.abandoned,
                self.next_base == pre.next_base,
                self.arena_alloc_count == pre.arena_alloc_count,
                self.heaps@.len() == pre.heaps@.len(),
                forall|h: int| 0 <= h < self.heaps@.len() ==> {
                    &&& (#[trigger] self.heaps@[h]).live == pre.heaps@[h].live
                    &&& self.heaps@[h].thread_id == pre.heaps@[h].thread_id
                },
                forall|k: int| 0 <= k < self.segments@.len()
                    ==> (#[trigger] self.segments@[k]) == (MiSegment {
                        pages: self.segments@[k].pages,
                        used: self.segments@[k].used,
                        free_spans: self.segments@[k].free_spans,
                        ..pre.segments@[k]
                    }) && self.segments@[k].pages@.len() == pre.segments@[k].pages@.len(),
                forall|k: int, pi: int| 0 <= k < self.segments@.len()
                    && 0 <= pi < self.segments@[k].pages@.len()
                    && !retire_shaped(pre.segments@[k].pages@[pi])
                    ==> self.segments@[k].pages@[pi] == pre.segments@[k].pages@[pi],
                // the countdown of a still-shaped page never rises, and
                // never reaches zero without the page dying
                forall|k: int, pi: int| 0 <= k < self.segments@.len()
                    && 0 <= pi < self.segments@[k].pages@.len()
                    && retire_shaped(pre.segments@[k].pages@[pi]) ==> {
                    ||| (#[trigger] self.segments@[k].pages@[pi]).slice_count == 0
                    ||| self.segments@[k].pages@[pi]@.used != 0
                    ||| (1 <= self.segments@[k].pages@[pi].retire_expire_spec()
                        <= pre.segments@[k].pages@[pi].retire_expire_spec())
                },
                forall|c2: int| 0 <= c2 < c
                    && retired_candidate(pre, heap_h as int, #[trigger] retired@[c2])
                    ==> page_aged(pre, *self, retired@[c2]),
            decreases retired@.len() - c,
        {
            let r = retired[c];
            let ghost lh = *self;
            if r.seg < self.segments.len() && r.page < self.segments[r.seg].pages.len()
                && self.segments[r.seg].live && !self.segments[r.seg].is_abandoned
                && self.segments[r.seg].thread_id == self.heaps[heap_h].thread_id {
                let slice_live = self.segments[r.seg].pages[r.page].slice_count > 0;
                let fully_free = self.segments[r.seg].pages[r.page].used == 0;
                if slice_live && fully_free {
                    let expire = self.segments[r.seg].pages[r.page].retire_expire();
                    if expire > 1 {
                        let ghost mid = *self;
                        {
                            let pg = &mut self.segments[r.seg].pages[r.page];
                            pg.set_retire_expire(expire - 1);
                        }
                        proof {
                            crate::malloc::lemma_wf_after_page_change(mid, *self, r.seg as int,
                                r.page as int);
                        }
                    } else if expire == 1 {
                        // the countdown expired: destroy the page
                        self.heap_drop_page_refs(heap_h, r);
                        let ghost mid2 = *self;
                        {
                            let seg = &mut self.segments[r.seg];
                            let so = seg.pages[r.page].slice_offset as usize;
                            let sc = seg.pages[r.page].slice_count as usize;
                            seg.free_spans.push((so, sc));
                            let pg = &mut seg.pages[r.page];
                            pg.slice_count = 0;
                        }
                        {
                            let seg = &mut self.segments[r.seg];
                            if seg.used > seg.abandoned {
                                seg.used = seg.used - 1;
                            }
                        }
                        proof {
                            assert(seg_ok(self.segments@[r.seg as int],
                                self.next_base as int)) by {
                                let sg = self.segments@[r.seg as int];
                                assert forall|p: int| 0 <= p < sg.pages@.len()
                                    implies (#[trigger] sg.pages@[p])@.wf()
                                        && page_in_seg_ok(sg.pages@[p], sg) by {
                                    if p != r.page as int {
                                        assert(sg.pages@[p]
                                            == mid2.segments@[r.seg as int].pages@[p]);
                                        assert(page_in_seg_ok(
                                            mid2.segments@[r.seg as int].pages@[p],
                                            mid2.segments@[r.seg as int],
                                        ));
                                    } else {
                                        assert(sg.pages@[p]@
                                            == mid2.segments@[r.seg as int].pages@[p]@);
                                    }
                                }
                            }
                            assert forall|j: int| 0 <= j < self.segments@.len()
                                implies seg_ok(#[trigger] self.segments@[j],
                                    self.next_base as int) by {
                                if j != r.seg as int {
                                    assert(self.segments@[j] == mid2.segments@[j]);
                                }
                            }
                            lemma_heap_ok_after_page_death(mid2, *self, r.seg as int,
                                r.page as int, heap_h as int);
                            assert forall|c2: int| 0 <= c2 < self.cache@.len()
                                implies (#[trigger] self.cache@[c2]) < self.segments@.len()
                                    && !self.segments@[self.cache@[c2] as int].live by {
                                assert(self.cache@[c2] != r.seg
                                    || self.segments@[r.seg as int].live
                                        == mid2.segments@[r.seg as int].live);
                            }
                            assert forall|c2: int| 0 <= c2 < self.abandoned@.len()
                                implies (#[trigger] self.abandoned@[c2])
                                    < self.segments@.len()
                                    && self.segments@[self.abandoned@[c2] as int].live
                                    && self.segments@[self.abandoned@[c2] as int].is_abandoned
                                by {
                                assert(self.abandoned@[c2] != r.seg
                                    || self.segments@[r.seg as int].is_abandoned
                                        == mid2.segments@[r.seg as int].is_abandoned);
                            }
                        }
                    } else {
                        // a still-shaped candidate cannot reach zero
                        // without dying first
                        proof {
                            if retired_candidate(pre, heap_h as int, r) {
                                assert(retire_shaped(pre.segments@[r.seg as int]
                                    .pages@[r.page as int]));
                                assert(false);
                            }
                        }
                    }
                }
            }
            proof {
                assert forall|c2: int| 0 <= c2 < c + 1
                    && retired_candidate(pre, heap_h as int, #[trigger] retired@[c2])
                    implies page_aged(pre, *self, retired@[c2]) by {
                    let e = retired@[c2];
                    if c2 < c {
                        assert(page_aged(pre, lh, e));
                        if !(e.seg == r.seg && e.page == r.page) {
                            assert(self.segments@[e.seg as int].pages@[e.page as int]
                                == lh.segments@[e.seg as int].pages@[e.page as int]);
                        }
                    }
                }
            }
            c = c + 1;
        }
        proof {
            assert forall|q: int, j: int| 0 <= q < pre.heaps@[heap_h as int].pages@.len()
                && 0 <= j < pre.heaps@[heap_h as int].pages@[q].list@.len()
                && retired_candidate(pre, heap_h as int,
                    #[trigger] pre.heaps@[heap_h as int].pages@[q].list@[j])
                implies page_aged(pre, *self,
                    pre.heaps@[heap_h as int].pages@[q].list@[j]) by {
                let e = pre.heaps@[heap_h as int].pages@[q].list@[j];
                assert(retired@.contains(e));
                let c0 = choose|c0: int| 0 <= c0 < retired@.len() && retired@[c0] == e;
                assert(page_aged(pre, *self, retired@[c0]));
            }
            if forall|q: int, j: int| 0 <= q < pre.heaps@[heap_h as int].pages@.len()
                && 0 <= j < pre.heaps@[heap_h as int].pages@[q].list@.len()
                ==> !retired_candidate(pre, heap_h as int,
                    #[trigger] pre.heaps@[heap_h as int].pages@[q].list@[j]) {
                assert(retired@.len() == 0) by {
                    if retired@.len() > 0 {
                        assert(retired_candidate(pre, heap_h as int, retired@[0]));
                        assert(queue_referenced(pre, heap_h as int, retired@[0]));
                        let (q0, j0) = choose|q0: int, j0: int| {
                            &&& 0 <= q0 < pre.heaps@[heap_h as int].pages@.len()
                            &&& 0 <= j0 < pre.heaps@[heap_h as int].pages@[q0].list@.len()
                            &&& (#[trigger] pre.heaps@[heap_h as int].pages@[q0].list@[j0])
                                == retired@[0]
                        };
                        assert(!retired_candidate(pre, heap_h as int,
                            pre.heaps@[heap_h as int].pages@[q0].list@[j0]));
                        assert(false);
                    }
                }
            }
        }
    }
}

/// Invariant, lifted to the whole allocator: every page of every
/// segment has `used <= reserved`.
pub proof fn lemma_allocator_used_le_reserved(a: MiAllocator, k: int, pi: int)
    requires
        a.wf(),
        0 <= k < a.segments@.len(),
        0 <= pi < a.segments@[k].pages@.len(),
    ensures
        0 <= a.segments@[k].pages@[pi]@.used <= a.segments@[k].pages@[pi]@.reserved,
{
    crate::page::lemma_page_used_le_reserved(a.segments@[k].pages@[pi]@);
}

/// Cookie that validates a claimed segment start address.
pub fn _mi_ptr_cookie(p: usize) -> (r: usize)
    ensures
        r == (p ^ MI_COOKIE_KEY),
{
    p ^ MI_COOKIE_KEY
}

} // verus!
