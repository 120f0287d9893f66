//! Process and thread lifecycle: creating the allocator with its main
//! heap, bringing threads up, and abandoning a terminating thread's
//! segments so that other threads can reclaim them.

use vstd::prelude::*;
use crate::heap::{heap_ok, MiAllocator};
use crate::mimalloc_types::{MiHeap, MI_SEGMENT_SIZE};
use crate::segment_cache::MiSegmentMap;

verus! {

impl MiAllocator {
    /// Handle of the main heap, once the process is initialized.
    pub open spec fn main_heap(self) -> int {
        0
    }

    /// Whether process initialization has run.
    pub open spec fn process_initialized(self) -> bool {
        &&& self.heaps@.len() >= 1
        &&& self.heaps@[0].live
        &&& self.heaps@[0].thread_id == 0
    }
}

/// Fresh process state: no heaps, no segments, an empty address map.
/// The production allocator builds this from a constructor hook at
/// process load; here the embedding program calls it explicitly.
pub fn mi_process_init() -> (r: MiAllocator)
    ensures
        r.wf(),
        r.process_initialized(),
        r.segments@.len() == 0,
        r.arena_alloc_count == 0,
        r.thread_count == 1,
{
    let mut a = MiAllocator {
        segments: Vec::new(),
        heaps: Vec::new(),
        segment_map: MiSegmentMap::new(),
        cache: Vec::new(),
        abandoned: Vec::new(),
        next_base: MI_SEGMENT_SIZE,
        arena_alloc_count: 0,
        thread_count: 1,
    };
    mi_heap_main_init(&mut a);
    a
}

/// Create the main heap (thread 0) if it does not exist yet.
pub fn mi_heap_main_init(a: &mut MiAllocator)
    requires
        old(a).wf(),
    ensures
        final(a).wf(),
        old(a).heaps@.len() == 0 || old(a).process_initialized()
            ==> final(a).process_initialized(),
        old(a).process_initialized() ==> *final(a) == *old(a),
        old(a).heaps@.len() > 0 ==> *final(a) == *old(a),
        final(a).segments == old(a).segments,
        final(a).arena_alloc_count == old(a).arena_alloc_count,
        final(a).thread_count == old(a).thread_count,
        final(a).cache == old(a).cache,
        final(a).abandoned == old(a).abandoned,
        final(a).next_base == old(a).next_base,
{
    if a.heaps.len() == 0 {
        let h = MiHeap::new();
        a.heaps.push(h);
    }
}

/// Called once by the process loader: set up the main heap and resolve
/// the options.
pub fn mi_process_load(a: &mut MiAllocator)
    requires
        old(a).wf(),
    ensures
        final(a).wf(),
        old(a).heaps@.len() == 0 || old(a).process_initialized()
            ==> final(a).process_initialized(),
{
    mi_heap_main_init(a);
    crate::options::mi_option_init();
}

/// Whether `tid` is the main thread.
pub fn mi_is_main_thread(tid: usize) -> (r: bool)
    ensures
        r == (tid == 0),
{
    tid == 0
}

impl MiAllocator {
    /// Handle of the live backing heap of `tid`, if any.
    pub fn heap_of_thread(&self, tid: usize) -> (r: Option<usize>)
        ensures
            (r matches Some(h) ==> h < self.heaps@.len() && self.heaps@[h as int].live
                && self.heaps@[h as int].thread_id == tid),
            r is None ==> forall|h: int| 0 <= h < self.heaps@.len()
                ==> !((#[trigger] self.heaps@[h]).live && self.heaps@[h].thread_id == tid),
    {
        let mut h: usize = 0;
        while h < self.heaps.len()
            invariant
                h <= self.heaps@.len(),
                forall|j: int| 0 <= j < h
                    ==> !((#[trigger] self.heaps@[j]).live && self.heaps@[j].thread_id == tid),
            decreases self.heaps@.len() - h,
        {
            if self.heaps[h].live && self.heaps[h].thread_id == tid {
                return Some(h);
            }
            h = h + 1;
        }
        None
    }
}

/// Initialize the thread-local heap of `tid`, creating it if the
/// thread has none yet; returns its handle.
pub fn mi_thread_init(a: &mut MiAllocator, tid: usize) -> (h: usize)
    requires
        old(a).wf(),
        old(a).thread_count < usize::MAX,
    ensures
        final(a).wf(),
        old(a).heaps@.len() == 0 || old(a).process_initialized()
            ==> final(a).process_initialized(),
        h < final(a).heaps@.len(),
        final(a).heaps@[h as int].live,
        final(a).heaps@[h as int].thread_id == tid,
        final(a).segments == old(a).segments,
        final(a).arena_alloc_count == old(a).arena_alloc_count,
        final(a).cache == old(a).cache,
        final(a).abandoned == old(a).abandoned,
        final(a).next_base == old(a).next_base,
        forall|h0: int| 0 <= h0 < old(a).heaps@.len() && (#[trigger] old(a).heaps@[h0]).live
            && old(a).heaps@[h0].thread_id == tid ==> *final(a) == *old(a) && h as int == h0,
{
    mi_heap_main_init(a);
    let existing = a.heap_of_thread(tid);
    match existing {
        Some(h) => {
            proof {
                assert forall|h0: int| 0 <= h0 < old(a).heaps@.len()
                    && (#[trigger] old(a).heaps@[h0]).live
                    && old(a).heaps@[h0].thread_id == tid implies h as int == h0 by {
                    assert(a.heaps@[h as int].live && a.heaps@[h as int].thread_id == tid);
                }
            }
            h
        },
        None => {
            let mut heap = MiHeap::new();
            heap.thread_id = tid;
            let h = a.heaps.len();
            proof {
                assert(heap_ok(heap, a.segments@));
            }
            a.heaps.push(heap);
            a.thread_count = a.thread_count + 1;
            h
        },
    }
}

/// The thread `tid` is done: its heaps die, and each of its segments
/// is either cached (no pages in use) or pushed onto the abandoned
/// stack for another thread to reclaim.
pub fn mi_thread_done(a: &mut MiAllocator, tid: usize)
    requires
        old(a).wf(),
    ensures
        final(a).wf(),
        final(a).segments@.len() == old(a).segments@.len(),
        tid != 0 ==> forall|h: int| 0 <= h < final(a).heaps@.len()
            ==> !((#[trigger] final(a).heaps@[h]).live && final(a).heaps@[h].thread_id == tid),
        tid != 0 ==> forall|k: int| 0 <= k < final(a).segments@.len()
            ==> ((#[trigger] final(a).segments@[k]).live
                && old(a).segments@[k].live
                && old(a).segments@[k].thread_id == tid
                && !old(a).segments@[k].is_abandoned
                && old(a).segments@[k].used > 0 ==> final(a).segments@[k].is_abandoned),
        tid != 0 ==> forall|k: int| 0 <= k < old(a).segments@.len()
            && (#[trigger] old(a).segments@[k]).live
            && old(a).segments@[k].thread_id == tid
            && !old(a).segments@[k].is_abandoned ==> {
            &&& old(a).segments@[k].used > 0 ==> {
                // pushed onto the abandoned stack, with the abandoned
                // count equal to its pages still in use
                &&& final(a).segments@[k].is_abandoned
                &&& final(a).segments@[k].live
                &&& final(a).segments@[k].abandoned == old(a).segments@[k].used
                &&& final(a).segments@[k].used == old(a).segments@[k].used
                &&& final(a).abandoned@.contains(k as usize)
            }
            &&& old(a).segments@[k].used == 0 ==> {
                // nothing in use: the segment goes to the cache
                &&& !final(a).segments@[k].live
                &&& final(a).cache@.contains(k as usize)
            }
        },
{
    if tid == 0 {
        // the main thread's heap persists until process end
        return;
    }
    // the heaps of this thread die first, so no live heap keeps an
    // index into the segments that are about to be abandoned
    let mut h: usize = 0;
    while h < a.heaps.len()
        invariant
            a.wf(),
            h <= a.heaps@.len(),
            a.heaps@.len() == old(a).heaps@.len(),
            a.segments == old(a).segments,
            forall|j: int| 0 <= j < h
                ==> !((#[trigger] a.heaps@[j]).live && a.heaps@[j].thread_id == tid),
        decreases a.heaps@.len() - h,
    {
        if a.heaps[h].live && a.heaps[h].thread_id == tid {
            let hp = &mut a.heaps[h];
            hp.live = false;
        }
        h = h + 1;
    }
    if a.thread_count > 1 {
        a.thread_count = a.thread_count - 1;
    }
    // abandon or cache this thread's segments
    let mut k: usize = 0;
    while k < a.segments.len()
        invariant
            a.wf(),
            k <= a.segments@.len(),
            a.segments@.len() == old(a).segments@.len(),
            forall|h2: int| 0 <= h2 < a.heaps@.len()
                ==> !((#[trigger] a.heaps@[h2]).live && a.heaps@[h2].thread_id == tid),
            forall|j: int| 0 <= j < k
                ==> ((#[trigger] a.segments@[j]).live
                    && old(a).segments@[j].live
                    && old(a).segments@[j].thread_id == tid
                    && !old(a).segments@[j].is_abandoned
                    && old(a).segments@[j].used > 0 ==> a.segments@[j].is_abandoned),
            forall|j: int| 0 <= j < k && (#[trigger] old(a).segments@[j]).live
                && old(a).segments@[j].thread_id == tid
                && !old(a).segments@[j].is_abandoned ==> {
                &&& old(a).segments@[j].used > 0 ==> {
                    &&& a.segments@[j].is_abandoned
                    &&& a.segments@[j].live
                    &&& a.segments@[j].abandoned == old(a).segments@[j].used
                    &&& a.segments@[j].used == old(a).segments@[j].used
                    &&& a.abandoned@.contains(j as usize)
                }
                &&& old(a).segments@[j].used == 0 ==> {
                    &&& !a.segments@[j].live
                    &&& a.cache@.contains(j as usize)
                }
            },
            forall|j: int| k <= j < a.segments@.len()
                ==> a.segments@[j] == old(a).segments@[j],
        decreases a.segments@.len() - k,
    {
        let ghost pre_segs = a.segments@;
        if a.segments[k].live && !a.segments[k].is_abandoned && a.segments[k].thread_id == tid {
            if a.segments[k].used > 0 {
                proof {
                    assert forall|c: int| 0 <= c < a.abandoned@.len()
                        implies a.abandoned@[c] != k by {
                        assert(a.segments@[a.abandoned@[c] as int].is_abandoned);
                    }
                    crate::heap::lemma_push_distinct(a.abandoned@, k);
                }
                let seg = &mut a.segments[k];
                seg.is_abandoned = true;
                seg.abandoned = seg.used;
                seg.abandoned_visits = 0;
                let ghost st0 = a.abandoned@;
                a.abandoned.push(k);
                proof {
                    assert(a.abandoned@[a.abandoned@.len() - 1] == k);
                    assert forall|j: int| 0 <= j < k && (#[trigger] old(a).segments@[j]).live
                        && old(a).segments@[j].thread_id == tid
                        && !old(a).segments@[j].is_abandoned
                        && old(a).segments@[j].used > 0
                        implies a.abandoned@.contains(j as usize) by {
                        crate::heap::lemma_contains_after_push(st0, k, j as usize);
                    }
                }
            } else {
                proof {
                    assert forall|c: int| 0 <= c < a.cache@.len() implies a.cache@[c] != k by {
                        assert(!a.segments@[a.cache@[c] as int].live);
                    }
                    crate::heap::lemma_push_distinct(a.cache@, k);
                }
                let seg = &mut a.segments[k];
                seg.live = false;
                let ghost st0 = a.cache@;
                a.cache.push(k);
                proof {
                    assert(a.cache@[a.cache@.len() - 1] == k);
                    assert forall|j: int| 0 <= j < k && (#[trigger] old(a).segments@[j]).live
                        && old(a).segments@[j].thread_id == tid
                        && !old(a).segments@[j].is_abandoned
                        && old(a).segments@[j].used == 0
                        implies a.cache@.contains(j as usize) by {
                        crate::heap::lemma_contains_after_push(st0, k, j as usize);
                    }
                }
            }
            proof {
                lemma_heaps_unref_thread(a.heaps@, pre_segs, a.segments@, k as int, tid);
            }
        }
        k = k + 1;
    }
}

/// If no live heap belongs to `tid`, changing only segment `k` (owned
/// by `tid`, not abandoned) leaves every heap valid, because a heap
/// only indexes pages of its own thread's non-abandoned segments.
proof fn lemma_heaps_unref_thread(
    heaps: Seq<MiHeap>,
    pre: Seq<crate::mimalloc_types::MiSegment>,
    post: Seq<crate::mimalloc_types::MiSegment>,
    k: int,
    tid: usize,
)
    requires
        0 <= k < pre.len(),
        post.len() == pre.len(),
        forall|j: int| 0 <= j < pre.len() && j != k ==> post[j] == pre[j],
        post[k].pages == pre[k].pages,
        pre[k].thread_id == tid,
        !pre[k].is_abandoned,
        forall|h: int| 0 <= h < heaps.len()
            ==> !((#[trigger] heaps[h]).live && heaps[h].thread_id == tid),
        forall|h: int| 0 <= h < heaps.len() ==> heap_ok(#[trigger] heaps[h], pre),
    ensures
        forall|h: int| 0 <= h < heaps.len() ==> heap_ok(#[trigger] heaps[h], post),
{
    assert forall|h: int| 0 <= h < heaps.len() implies heap_ok(#[trigger] heaps[h], post) by {
        let hp = heaps[h];
        if hp.live {
            assert forall|i: int| 0 <= i < crate::mimalloc_types::MI_PAGES_DIRECT
                implies ((#[trigger] hp.pages_free_direct@[i]) matches Some(r)
                    ==> crate::heap::page_ref_ok(r, post, 8 * i)
                        && post[r.seg as int].thread_id == hp.thread_id
                        && !post[r.seg as int].is_abandoned) by {
                if hp.pages_free_direct@[i] is Some {
                    let r = hp.pages_free_direct@[i]->Some_0;
                    assert(crate::heap::page_ref_ok(r, pre, 8 * i));
                    assert(r.seg as int != k);
                }
            }
            assert forall|q: int| 0 <= q < hp.pages@.len() implies {
                let queue = #[trigger] hp.pages@[q];
                forall|j: int| 0 <= j < queue.list@.len()
                    ==> crate::heap::page_ref_ok(#[trigger] queue.list@[j], post,
                        queue.block_size as int)
                        && post[queue.list@[j].seg as int].thread_id == hp.thread_id
                        && !post[queue.list@[j].seg as int].is_abandoned
            } by {
                let queue = hp.pages@[q];
                assert forall|j: int| 0 <= j < queue.list@.len()
                    implies crate::heap::page_ref_ok(#[trigger] queue.list@[j], post,
                        queue.block_size as int)
                        && post[queue.list@[j].seg as int].thread_id == hp.thread_id
                        && !post[queue.list@[j].seg as int].is_abandoned by {
                    let r = queue.list@[j];
                    assert(crate::heap::page_ref_ok(r, pre, queue.block_size as int));
                    assert(pre[r.seg as int].thread_id == hp.thread_id);
                    assert(r.seg as int != k);
                }
            }
        }
    }
}

/// Minimal end-to-end initialization used by the embedding test suite.
pub fn test_init() -> (a: MiAllocator)
    ensures
        a.wf(),
        a.process_initialized(),
{
    let mut a = mi_process_init();
    mi_process_load(&mut a);
    a
}

} // verus!
