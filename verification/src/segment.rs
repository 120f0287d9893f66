//! Commit-mask algebra and segment sizing.  A segment's commit mask has
//! one bit per `MI_COMMIT_SIZE` sub-region; runs of set bits are used to
//! batch OS commit and decommit calls.

use vstd::prelude::*;
use crate::mimalloc_types::{MiCommitMask, MiPage, MiSegment, MiSegmentKind, MiSegmentsTLD,
    PageRef, MI_COMMIT_MASK_BITS, MI_SEGMENT_ALIGN, MI_SEGMENT_SIZE, MI_SEGMENT_SLICE_SIZE,
    MI_SLICES_PER_SEGMENT};
use crate::mimalloc_internal::{mi_commit_mask_bit_at, mi_commit_mask_write_bit,
    mi_commit_mask_create_empty, mi_commit_mask_create_full, _mi_divide_up};
use crate::heap::{lemma_heap_ok_compat, seg_ok, seg_ref_compat, MiAllocator, _mi_ptr_cookie};
use crate::options::{mi_option_get, mi_option_get_clamp, mi_option_is_enabled, MiOption};
use crate::segment_cache::MI_SEGMENT_MAP_BITS;

verus! {

/// Index of the first set bit at or after `i` (512 when there is none).
pub open spec fn mask_next_set(cm: MiCommitMask, i: int) -> int
    decreases 512 - i when i <= 512
{
    if i >= 512 {
        512
    } else if cm.bit(i) {
        i
    } else {
        mask_next_set(cm, i + 1)
    }
}

/// Length of the run of set bits starting at `i`.
pub open spec fn mask_run_len(cm: MiCommitMask, i: int) -> int
    decreases 512 - i when i <= 512
{
    if i >= 512 || !cm.bit(i) {
        0
    } else {
        1 + mask_run_len(cm, i + 1)
    }
}

/// Number of set bits with index below `n`.
pub open spec fn mask_popcount_to(cm: MiCommitMask, n: int) -> nat
    decreases n,
{
    if n <= 0 {
        0
    } else {
        mask_popcount_to(cm, n - 1) + (if cm.bit(n - 1) {
            1nat
        } else {
            0nat
        })
    }
}

/// Are all of `cm`'s bits also set in `commit`?
pub fn mi_commit_mask_all_set(commit: &MiCommitMask, cm: &MiCommitMask) -> (r: bool)
    ensures
        r == (forall|j: int| 0 <= j < MI_COMMIT_MASK_BITS ==> (#[trigger] cm.bit(j)
            ==> commit.bit(j))),
{
    let mut i: usize = 0;
    while i < MI_COMMIT_MASK_BITS
        invariant
            i <= MI_COMMIT_MASK_BITS,
            forall|j: int| 0 <= j < i ==> (#[trigger] cm.bit(j) ==> commit.bit(j)),
        decreases MI_COMMIT_MASK_BITS - i,
    {
        if mi_commit_mask_bit_at(cm, i) && !mi_commit_mask_bit_at(commit, i) {
            return false;
        }
        i = i + 1;
    }
    true
}

/// Is any bit set in both masks?
pub fn mi_commit_mask_any_set(commit: &MiCommitMask, cm: &MiCommitMask) -> (r: bool)
    ensures
        r == (exists|j: int| 0 <= j < MI_COMMIT_MASK_BITS && #[trigger] cm.bit(j)
            && commit.bit(j)),
{
    let mut i: usize = 0;
    while i < MI_COMMIT_MASK_BITS
        invariant
            i <= MI_COMMIT_MASK_BITS,
            forall|j: int| 0 <= j < i ==> !(#[trigger] cm.bit(j) && commit.bit(j)),
        decreases MI_COMMIT_MASK_BITS - i,
    {
        if mi_commit_mask_bit_at(cm, i) && mi_commit_mask_bit_at(commit, i) {
            return true;
        }
        i = i + 1;
    }
    false
}

/// `res` becomes the intersection of `commit` and `cm`.
pub fn mi_commit_mask_create_intersect(
    commit: &MiCommitMask,
    cm: &MiCommitMask,
    res: &mut MiCommitMask,
)
    ensures
        forall|j: int| 0 <= j < MI_COMMIT_MASK_BITS
            ==> #[trigger] final(res).bit(j) == (commit.bit(j) && cm.bit(j)),
{
    let mut i: usize = 0;
    while i < MI_COMMIT_MASK_BITS
        invariant
            i <= MI_COMMIT_MASK_BITS,
            forall|j: int| 0 <= j < i
                ==> #[trigger] res.bit(j) == (commit.bit(j) && cm.bit(j)),
        decreases MI_COMMIT_MASK_BITS - i,
    {
        let v = mi_commit_mask_bit_at(commit, i) && mi_commit_mask_bit_at(cm, i);
        mi_commit_mask_write_bit(res, i, v);
        i = i + 1;
    }
}

/// Clear in `res` every bit set in `cm`.
pub fn mi_commit_mask_clear(res: &mut MiCommitMask, cm: &MiCommitMask)
    ensures
        forall|j: int| 0 <= j < MI_COMMIT_MASK_BITS
            ==> #[trigger] final(res).bit(j) == (old(res).bit(j) && !cm.bit(j)),
{
    let mut i: usize = 0;
    while i < MI_COMMIT_MASK_BITS
        invariant
            i <= MI_COMMIT_MASK_BITS,
            forall|j: int| 0 <= j < i
                ==> #[trigger] res.bit(j) == (old(res).bit(j) && !cm.bit(j)),
            forall|j: int| i <= j < MI_COMMIT_MASK_BITS
                ==> #[trigger] res.bit(j) == old(res).bit(j),
        decreases MI_COMMIT_MASK_BITS - i,
    {
        let v = mi_commit_mask_bit_at(res, i) && !mi_commit_mask_bit_at(cm, i);
        mi_commit_mask_write_bit(res, i, v);
        i = i + 1;
    }
}

/// Set in `res` every bit set in `cm`.
pub fn mi_commit_mask_set(res: &mut MiCommitMask, cm: &MiCommitMask)
    ensures
        forall|j: int| 0 <= j < MI_COMMIT_MASK_BITS
            ==> #[trigger] final(res).bit(j) == (old(res).bit(j) || cm.bit(j)),
{
    let mut i: usize = 0;
    while i < MI_COMMIT_MASK_BITS
        invariant
            i <= MI_COMMIT_MASK_BITS,
            forall|j: int| 0 <= j < i
                ==> #[trigger] res.bit(j) == (old(res).bit(j) || cm.bit(j)),
            forall|j: int| i <= j < MI_COMMIT_MASK_BITS
                ==> #[trigger] res.bit(j) == old(res).bit(j),
        decreases MI_COMMIT_MASK_BITS - i,
    {
        let v = mi_commit_mask_bit_at(res, i) || mi_commit_mask_bit_at(cm, i);
        mi_commit_mask_write_bit(res, i, v);
        i = i + 1;
    }
}

/// Build the mask of the contiguous run `[bitidx, bitidx + bitcount)`.
pub fn mi_commit_mask_create(bitidx: usize, bitcount: usize, cm: &mut MiCommitMask)
    requires
        bitidx + bitcount <= MI_COMMIT_MASK_BITS,
    ensures
        forall|j: int| 0 <= j < MI_COMMIT_MASK_BITS
            ==> #[trigger] final(cm).bit(j) == (bitidx <= j < bitidx + bitcount),
{
    mi_commit_mask_create_empty(cm);
    let mut k: usize = 0;
    while k < bitcount
        invariant
            k <= bitcount,
            bitidx + bitcount <= MI_COMMIT_MASK_BITS,
            forall|j: int| 0 <= j < MI_COMMIT_MASK_BITS
                ==> #[trigger] cm.bit(j) == (bitidx <= j < bitidx + k),
        decreases bitcount - k,
    {
        mi_commit_mask_write_bit(cm, bitidx + k, true);
        k = k + 1;
    }
}

/// Bytes committed according to the mask, where the whole mask stands
/// for `total` bytes.
pub fn _mi_commit_mask_committed_size(cm: &MiCommitMask, total: usize) -> (r: usize)
    requires
        total as int % MI_COMMIT_MASK_BITS as int == 0,
    ensures
        r == (total as int / MI_COMMIT_MASK_BITS as int) * mask_popcount_to(*cm, 512),
{
    let unit = total / MI_COMMIT_MASK_BITS;
    let mut count: usize = 0;
    let mut i: usize = 0;
    while i < MI_COMMIT_MASK_BITS
        invariant
            i <= MI_COMMIT_MASK_BITS,
            count == mask_popcount_to(*cm, i as int),
            count <= i,
        decreases MI_COMMIT_MASK_BITS - i,
    {
        if mi_commit_mask_bit_at(cm, i) {
            count = count + 1;
        }
        i = i + 1;
    }
    proof {
        vstd::arithmetic::div_mod::lemma_fundamental_div_mod(total as int,
            MI_COMMIT_MASK_BITS as int);
        let q = total as int / MI_COMMIT_MASK_BITS as int;
        assert(count <= 512);
        assert(q >= 0 && q * count <= q * 512) by (nonlinear_arith)
            requires
                q == total as int / MI_COMMIT_MASK_BITS as int,
                total as int == MI_COMMIT_MASK_BITS as int * q + total as int
                    % MI_COMMIT_MASK_BITS as int,
                total as int % MI_COMMIT_MASK_BITS as int == 0,
                total >= 0,
                0 <= count <= 512,
        ;
        assert(q * 512 == total) by (nonlinear_arith)
            requires
                q == total as int / MI_COMMIT_MASK_BITS as int,
                total as int == MI_COMMIT_MASK_BITS as int * q,
        ;
    }
    unit * count
}

/// Find the next run of set bits at or after `*idx`: advances `*idx` to
/// the run's start and returns its length (zero when no bit remains).
pub fn _mi_commit_mask_next_run(cm: &MiCommitMask, idx: &mut usize) -> (count: usize)
    requires
        *old(idx) <= MI_COMMIT_MASK_BITS,
    ensures
        *final(idx) == mask_next_set(*cm, *old(idx) as int),
        count == mask_run_len(*cm, *final(idx) as int),
        *old(idx) <= *final(idx),
        *final(idx) + count <= MI_COMMIT_MASK_BITS,
        count == 0 ==> *final(idx) == MI_COMMIT_MASK_BITS,
{
    let start = *idx;
    let mut i = start;
    while i < MI_COMMIT_MASK_BITS && !mi_commit_mask_bit_at(cm, i)
        invariant
            start <= i <= MI_COMMIT_MASK_BITS,
            mask_next_set(*cm, start as int) == mask_next_set(*cm, i as int),
        decreases MI_COMMIT_MASK_BITS - i,
    {
        i = i + 1;
    }
    *idx = i;
    let mut j = i;
    while j < MI_COMMIT_MASK_BITS && mi_commit_mask_bit_at(cm, j)
        invariant
            i <= j <= MI_COMMIT_MASK_BITS,
            mask_run_len(*cm, i as int) == j - i + mask_run_len(*cm, j as int),
        decreases MI_COMMIT_MASK_BITS - j,
    {
        j = j + 1;
    }
    j - i
}

/// No set bit lies in `[i, t)`, so the next set bit from `i` is the one
/// from `t`.
pub proof fn lemma_mask_next_set_skip(cm: MiCommitMask, i: int, t: int)
    requires
        0 <= i <= t <= 512,
        forall|j: int| i <= j < t ==> !(#[trigger] cm.bit(j)),
    ensures
        mask_next_set(cm, i) == mask_next_set(cm, t),
    decreases t - i,
{
    if i < t {
        lemma_mask_next_set_skip(cm, i + 1, t);
    }
}

/// Every bit of `[i, t)` is set and bit `t` (if any) is clear, so the
/// run starting at `i` is exactly `t - i` long.
pub proof fn lemma_mask_run_len_exact(cm: MiCommitMask, i: int, t: int)
    requires
        0 <= i <= t <= 512,
        forall|j: int| i <= j < t ==> #[trigger] cm.bit(j),
        t == 512 || !cm.bit(t),
    ensures
        mask_run_len(cm, i) == t - i,
    decreases t - i,
{
    if i < t {
        lemma_mask_run_len_exact(cm, i + 1, t);
    }
}

/// Round trip of the commit-mask algebra: on a mask holding exactly the
/// run `[offset, offset + count)`, searching from bit zero finds that
/// very run.
pub proof fn lemma_commit_mask_create_next_run(cm: MiCommitMask, offset: int, count: int)
    requires
        0 <= offset,
        0 < count,
        offset + count <= 512,
        forall|j: int| 0 <= j < 512 ==> (#[trigger] cm.bit(j) == (offset <= j < offset + count)),
    ensures
        mask_next_set(cm, 0) == offset,
        mask_run_len(cm, offset) == count,
{
    lemma_mask_next_set_skip(cm, 0, offset);
    lemma_mask_run_len_exact(cm, offset, offset + count);
}

/// Slices needed to host `required` bytes (a full default segment when
/// `required` is zero), and the leading info area.
pub fn mi_segment_calculate_slices(
    required: usize,
    pre_size: &mut usize,
    info_slices: &mut usize,
) -> (r: usize)
    requires
        required <= usize::MAX - 2 * MI_SEGMENT_SLICE_SIZE,
    ensures
        *final(pre_size) == MI_SEGMENT_SLICE_SIZE,
        *final(info_slices) == 1,
        required == 0 ==> r == MI_SLICES_PER_SEGMENT,
        required > 0 ==> r == 1 + (required + MI_SEGMENT_SLICE_SIZE - 1) as int
            / MI_SEGMENT_SLICE_SIZE as int,
{
    *pre_size = MI_SEGMENT_SLICE_SIZE;
    *info_slices = 1;
    if required == 0 {
        MI_SLICES_PER_SEGMENT
    } else {
        1 + _mi_divide_up(required, MI_SEGMENT_SLICE_SIZE)
    }
}

/// Account a segment acquisition (positive size) or release (negative
/// size) in the thread's totals, tracking the peaks.
pub fn mi_segments_track_size(segment_size: i64, tld: &mut MiSegmentsTLD)
    requires
        segment_size > i64::MIN,
        segment_size >= 0 ==> old(tld).count < u64::MAX
            && old(tld).current_size + segment_size <= u64::MAX,
        segment_size < 0 ==> old(tld).count >= 1
            && old(tld).current_size + segment_size >= 0,
    ensures
        segment_size >= 0 ==> final(tld).count == old(tld).count + 1,
        segment_size < 0 ==> final(tld).count == old(tld).count - 1,
        final(tld).current_size == old(tld).current_size + segment_size,
        final(tld).peak_count == (if final(tld).count > old(tld).peak_count {
            final(tld).count
        } else {
            old(tld).peak_count
        }),
        final(tld).peak_size == (if final(tld).current_size > old(tld).peak_size {
            final(tld).current_size
        } else {
            old(tld).peak_size
        }),
{
    if segment_size >= 0 {
        tld.count = tld.count + 1;
        tld.current_size = tld.current_size + (segment_size as u64);
    } else {
        tld.count = tld.count - 1;
        let dec = (-segment_size) as u64;
        tld.current_size = tld.current_size - dec;
    }
    if tld.count > tld.peak_count {
        tld.peak_count = tld.count;
    }
    if tld.current_size > tld.peak_size {
        tld.peak_size = tld.current_size;
    }
}


impl MiAllocator {
    /// Acquire a segment for `tid`: reuse a cached one when possible,
    /// otherwise reserve a fresh aligned extent from the arena/OS,
    /// commit at least the info slices per the eager-commit policy, and
    /// register the address in the segment map.  `None` means the
    /// modelled address space is exhausted.
    pub fn mi_segment_alloc(&mut self, tid: usize, heap_h: usize) -> (r: Option<usize>)
        requires
            old(self).wf(),
            heap_h < old(self).heaps@.len(),
        ensures
            final(self).wf(),
            final(self).heaps@.len() == old(self).heaps@.len(),
            forall|h: int| 0 <= h < final(self).heaps@.len() ==> {
                &&& (#[trigger] final(self).heaps@[h]).live == old(self).heaps@[h].live
                &&& final(self).heaps@[h].thread_id == old(self).heaps@[h].thread_id
                &&& final(self).heaps@[h].pages_free_direct
                    == old(self).heaps@[h].pages_free_direct
                &&& final(self).heaps@[h].pages == old(self).heaps@[h].pages
            },
            (r matches Some(k) ==> {
                &&& k < final(self).segments@.len()
                &&& final(self).segments@[k as int].live
                &&& !final(self).segments@[k as int].is_abandoned
                &&& final(self).segments@[k as int].thread_id == tid
                &&& final(self).segments@[k as int].used == 0
                &&& final(self).segments@[k as int].abandoned == 0
                &&& final(self).segments@[k as int].next_slice < MI_SLICES_PER_SEGMENT
                &&& final(self).segments@[k as int].pages@.len() == 0
                &&& final(self).segments@[k as int].base as int % MI_SEGMENT_SIZE as int == 0
                // pinned or large memory is never created by this model,
                // so decommit stays allowed
                &&& final(self).segments@[k as int].allow_decommit
                &&& !final(self).segments@[k as int].mem_is_pinned
                &&& !final(self).segments@[k as int].mem_is_large
                // the address range is registered in the segment map
                &&& final(self).segment_map.bit(final(self).segments@[k as int].base as int
                    / MI_SEGMENT_SIZE as int)
                // at least the info slices are committed, and nothing is
                // scheduled for decommit that is not committed
                &&& (forall|j: int| 0 <= j < final(self).segments@[k as int].segment_info_slices
                    ==> final(self).segments@[k as int].commit_mask.bit(j))
                &&& (forall|j: int| final(self).segments@[k as int].decommit_mask.bit(j)
                    ==> final(self).segments@[k as int].commit_mask.bit(j))
                &&& final(self).segments@[k as int].mem_is_committed
                    == (forall|j: int| 0 <= j < MI_COMMIT_MASK_BITS
                        ==> final(self).segments@[k as int].commit_mask.bit(j))
                &&& forall|j: int| 0 <= j < old(self).segments@.len() && j != k
                    ==> final(self).segments@[j] == old(self).segments@[j]
            }),
            (r is Some && old(self).heaps@[heap_h as int].segments_tld.count < u64::MAX
                && old(self).heaps@[heap_h as int].segments_tld.current_size
                    <= u64::MAX - (MI_SEGMENT_SIZE as u64)) ==> {
                &&& final(self).heaps@[heap_h as int].segments_tld.count
                    == old(self).heaps@[heap_h as int].segments_tld.count + 1
                &&& final(self).heaps@[heap_h as int].segments_tld.current_size
                    == old(self).heaps@[heap_h as int].segments_tld.current_size
                        + MI_SEGMENT_SIZE
            },
            old(self).cache@.len() > 0
                ==> final(self).arena_alloc_count == old(self).arena_alloc_count,
            final(self).arena_alloc_count <= old(self).arena_alloc_count + 1,
            r is None ==> *final(self) == *old(self),
            // with nothing cached, an exhausted address space (or a
            // saturated arena counter) is the one way to fail
            old(self).cache@.len() == 0 && (old(self).next_base > usize::MAX - MI_SEGMENT_SIZE
                || (old(self).next_base as int / MI_SEGMENT_SIZE as int)
                    >= MI_SEGMENT_MAP_BITS || old(self).arena_alloc_count == usize::MAX)
                ==> r is None,
            old(self).cache@.len() == 0 && old(self).next_base <= usize::MAX - MI_SEGMENT_SIZE
                && (old(self).next_base as int / MI_SEGMENT_SIZE as int) < MI_SEGMENT_MAP_BITS
                && old(self).arena_alloc_count < usize::MAX ==> r is Some,
            old(self).cache@.len() > 0 && old(self).arena_alloc_count < usize::MAX
                ==> r is Some,
    {
        let ghost pre = *self;
        if self.arena_alloc_count == usize::MAX {
            return None;
        }
        let cached = if self.cache.len() > 0 {
            self.cache.pop()
        } else {
            None
        };
        match cached {
            Some(k) => {
                let cm = self.segments[k].commit_mask;
                let fully = crate::mimalloc_internal::mi_commit_mask_is_full(&cm);
                {
                    let seg = &mut self.segments[k];
                    seg.live = true;
                    seg.is_abandoned = false;
                    seg.thread_id = tid;
                    seg.used = 0;
                    seg.abandoned = 0;
                    seg.abandoned_visits = 0;
                    let info = seg.segment_info_slices;
                    seg.next_slice = info as usize;
                    seg.pages = Vec::new();
                    seg.free_spans = Vec::new();
                    seg.mem_is_committed = fully;
                }
                proof {
                    assert(self.segments@[k as int].commit_mask == cm);
                    assert(self.segments@[k as int].mem_is_committed == (forall|j: int|
                        0 <= j < MI_COMMIT_MASK_BITS
                            ==> #[trigger] self.segments@[k as int].commit_mask.bit(j))) by {
                        if fully {
                            assert forall|j: int| 0 <= j < MI_COMMIT_MASK_BITS
                                implies #[trigger] self.segments@[k as int].commit_mask.bit(
                                j) by {
                                assert(cm.bit(j));
                            }
                        } else {
                            let j0 = choose|j: int| 0 <= j < MI_COMMIT_MASK_BITS
                                && !(#[trigger] cm.bit(j));
                            assert(!self.segments@[k as int].commit_mask.bit(j0));
                        }
                    }
                    assert(seg_ok(pre.segments@[k as int], pre.next_base as int));
                    assert forall|j: int| 0 <= j < self.segments@.len()
                        implies seg_ok(#[trigger] self.segments@[j], self.next_base as int) by {
                        if j != k as int {
                            assert(self.segments@[j] == pre.segments@[j]);
                        }
                    }
                    assert forall|j: int| 0 <= j < pre.segments@.len()
                        implies seg_ref_compat(#[trigger] pre.segments@[j],
                            self.segments@[j]) by {}
                    lemma_heap_ok_compat(self.heaps@, pre.segments@, self.segments@);
                }
                let tld = &mut self.heaps[heap_h].segments_tld;
                if tld.count < u64::MAX && tld.current_size <= u64::MAX - (MI_SEGMENT_SIZE as u64)
                {
                    mi_segments_track_size(MI_SEGMENT_SIZE as i64, tld);
                }
                proof {
                    assert forall|h: int| 0 <= h < self.heaps@.len()
                        implies crate::heap::heap_ok(#[trigger] self.heaps@[h],
                            self.segments@) by {
                        crate::heap::lemma_heap_ok_tld(
                            pre.heaps@[h],
                            self.heaps@[h],
                            self.segments@,
                        );
                    }
                }
                Some(k)
            },
            None => {
                if self.next_base > usize::MAX - MI_SEGMENT_SIZE {
                    return None;
                }
                if self.next_base / MI_SEGMENT_SIZE >= MI_SEGMENT_MAP_BITS {
                    return None;
                }
                let base = self.next_base;
                self.next_base = base + MI_SEGMENT_SIZE;
                self.arena_alloc_count = self.arena_alloc_count + 1;
                // eager-commit policy: the first segments of secondary
                // threads are delay-committed
                let eager_delay: bool = self.thread_count > 1
                    && self.heaps[heap_h].segments_tld.count
                        < (mi_option_get(MiOption::MiOptionEagerCommitDelay) as u64);
                let eager: bool = !eager_delay
                    && mi_option_is_enabled(MiOption::MiOptionEagerCommit);
                let mut pre_size: usize = 0;
                let mut info_slices: usize = 0;
                let segment_slices = mi_segment_calculate_slices(
                    0,
                    &mut pre_size,
                    &mut info_slices,
                );
                let mut commit_mask = MiCommitMask { mask: [0u64, 0, 0, 0, 0, 0, 0, 0] };
                if eager {
                    mi_commit_mask_create_full(&mut commit_mask);
                } else {
                    // commit at least the info slices
                    mi_commit_mask_create(0, info_slices, &mut commit_mask);
                }
                let mut decommit_mask = MiCommitMask { mask: [0u64, 0, 0, 0, 0, 0, 0, 0] };
                mi_commit_mask_create_empty(&mut decommit_mask);
                let fully_committed = crate::mimalloc_internal::mi_commit_mask_is_full(
                    &commit_mask,
                );
                let seg = MiSegment {
                    memid: self.arena_alloc_count,
                    mem_is_pinned: false,
                    mem_is_large: false,
                    mem_is_committed: fully_committed,
                    mem_alignment: MI_SEGMENT_ALIGN,
                    mem_align_offset: 0,
                    allow_decommit: mi_option_is_enabled(MiOption::MiOptionAllowDecommit),
                    decommit_expire: 0,
                    decommit_mask,
                    commit_mask,
                    abandoned: 0,
                    abandoned_visits: 0,
                    used: 0,
                    cookie: _mi_ptr_cookie(base),
                    segment_slices: segment_slices as u64,
                    segment_info_slices: info_slices as u64,
                    kind: MiSegmentKind::MiSegmentNormal,
                    thread_id: tid,
                    is_abandoned: false,
                    base,
                    live: true,
                    next_slice: info_slices,
                    free_spans: Vec::new(),
                    pages: Vec::new(),
                };
                let k = self.segments.len();
                self.segments.push(seg);
                self.segment_map._mi_segment_map_allocated_at(base);
                // account the acquisition; the counters saturate rather
                // than overflow
                let tld = &mut self.heaps[heap_h].segments_tld;
                if tld.count < u64::MAX && tld.current_size <= u64::MAX - (MI_SEGMENT_SIZE as u64)
                {
                    mi_segments_track_size(MI_SEGMENT_SIZE as i64, tld);
                }
                proof {
                    assert(self.segments@[k as int].commit_mask == commit_mask);
                    assert(self.segments@[k as int].mem_is_committed == (forall|j: int|
                        0 <= j < MI_COMMIT_MASK_BITS
                            ==> #[trigger] self.segments@[k as int].commit_mask.bit(j))) by {
                        if fully_committed {
                            assert forall|j: int| 0 <= j < MI_COMMIT_MASK_BITS
                                implies #[trigger] self.segments@[k as int].commit_mask.bit(
                                j) by {
                                assert(commit_mask.bit(j));
                            }
                        } else {
                            let j0 = choose|j: int| 0 <= j < MI_COMMIT_MASK_BITS
                                && !(#[trigger] commit_mask.bit(j));
                            assert(!self.segments@[k as int].commit_mask.bit(j0));
                        }
                    }
                    vstd::arithmetic::div_mod::lemma_mod_add_multiples_vanish(
                        pre.next_base as int,
                        MI_SEGMENT_SIZE as int,
                    );
                    assert forall|j: int| 0 <= j < self.segments@.len()
                        implies seg_ok(#[trigger] self.segments@[j], self.next_base as int) by {
                        if j < pre.segments@.len() {
                            assert(self.segments@[j] == pre.segments@[j]);
                            assert(seg_ok(pre.segments@[j], pre.next_base as int));
                        }
                    }
                    assert forall|j: int| 0 <= j < pre.segments@.len()
                        implies seg_ref_compat(#[trigger] pre.segments@[j],
                            self.segments@[j]) by {}
                    lemma_heap_ok_compat(pre.heaps@, pre.segments@, self.segments@);
                    assert forall|h: int| 0 <= h < self.heaps@.len()
                        implies crate::heap::heap_ok(#[trigger] self.heaps@[h],
                            self.segments@) by {
                        crate::heap::lemma_heap_ok_tld(
                            pre.heaps@[h],
                            self.heaps@[h],
                            self.segments@,
                        );
                    }
                }
                Some(k)
            },
        }
    }
}


/// Blocks to carve initially (and per extension) for a block size:
/// roughly a 4 KiB chunk's worth, at least one block.
pub fn mi_page_extend_count(block_size: usize, reserved: u16, capacity: u16) -> (r: u16)
    requires
        block_size >= 8,
        capacity <= reserved,
    ensures
        capacity < reserved ==> 1 <= r && capacity + r <= reserved,
        capacity == reserved ==> r == 0,
{
    let want = 4096 / block_size + 1;
    let remaining = (reserved - capacity) as usize;
    let take = if want < remaining {
        want
    } else {
        remaining
    };
    if take == 0 && remaining > 0 {
        1
    } else {
        take as u16
    }
}

impl MiAllocator {
    /// Carve a fresh page for `block_size` out of a segment owned by
    /// `tid` that still has a free slice, committing the slice and
    /// carving an initial batch of blocks.  `None` when no owned
    /// segment has room.
    pub fn mi_segments_page_find_and_allocate(
        &mut self,
        tid: usize,
        block_size: usize,
        heap_h: usize,
    ) -> (r: Option<PageRef>)
        requires
            old(self).wf(),
            8 <= block_size <= MI_SEGMENT_SLICE_SIZE,
        ensures
            final(self).wf(),
            final(self).heaps == old(self).heaps,
            final(self).segments@.len() == old(self).segments@.len(),
            final(self).next_base == old(self).next_base,
            final(self).arena_alloc_count == old(self).arena_alloc_count,
            final(self).cache == old(self).cache,
            final(self).abandoned == old(self).abandoned,
            r is None ==> *final(self) == *old(self),
            (r matches Some(pr) ==> {
                &&& crate::heap::page_ref_ok(pr, final(self).segments@, block_size as int)
                &&& final(self).segments@[pr.seg as int].thread_id == tid
                &&& !final(self).segments@[pr.seg as int].is_abandoned
                &&& final(self).segments@[pr.seg as int].pages@[pr.page as int]@.free.len() > 0
            }),
            (exists|k: int| 0 <= k < old(self).segments@.len()
                && (#[trigger] old(self).segments@[k]).live
                && !old(self).segments@[k].is_abandoned
                && old(self).segments@[k].thread_id == tid
                && old(self).segments@[k].next_slice < MI_SLICES_PER_SEGMENT
                && old(self).segments@[k].used < u64::MAX
                && old(self).segments@[k].pages@.len() < usize::MAX) ==> r is Some,
    {
        let ghost pre = *self;
        let mut k: usize = 0;
        while k < self.segments.len()
            invariant
                *self == pre,
                pre == *old(self),
                pre.wf(),
                k <= pre.segments@.len(),
                8 <= block_size <= MI_SEGMENT_SLICE_SIZE,
                forall|j: int| 0 <= j < k ==> !((#[trigger] pre.segments@[j]).live
                    && !pre.segments@[j].is_abandoned
                    && pre.segments@[j].thread_id == tid
                    && pre.segments@[j].next_slice < MI_SLICES_PER_SEGMENT
                    && pre.segments@[j].used < u64::MAX
                    && pre.segments@[j].pages@.len() < usize::MAX),
            decreases pre.segments@.len() - k,
        {
            // a one-slice span from the segment's pool is preferred over
            // carving a fresh slice
            let mut span_at: Option<usize> = None;
            if self.segments[k].live {
                let nsp = self.segments[k].free_spans.len();
                let mut si: usize = 0;
                while si < nsp
                    invariant
                        *self == pre,
                        k < pre.segments@.len(),
                        si <= nsp,
                        nsp == pre.segments@[k as int].free_spans@.len(),
                        (span_at matches Some(x) ==> x < nsp
                            && pre.segments@[k as int].free_spans@[x as int].1 == 1),
                    decreases nsp - si,
                {
                    if self.segments[k].free_spans[si].1 == 1 {
                        span_at = Some(si);
                        break;
                    }
                    si = si + 1;
                }
            }
            if self.segments[k].live && !self.segments[k].is_abandoned
                && self.segments[k].thread_id == tid
                && (self.segments[k].next_slice < MI_SLICES_PER_SEGMENT || span_at.is_some())
                && self.segments[k].used < u64::MAX
                && self.segments[k].pages.len() < usize::MAX {
                let reserved_us = MI_SEGMENT_SLICE_SIZE / block_size;
                proof {
                    vstd::arithmetic::div_mod::lemma_fundamental_div_mod(
                        MI_SEGMENT_SLICE_SIZE as int,
                        block_size as int,
                    );
                    vstd::arithmetic::div_mod::lemma_mod_bound(
                        MI_SEGMENT_SLICE_SIZE as int,
                        block_size as int,
                    );
                    let q = MI_SEGMENT_SLICE_SIZE as int / block_size as int;
                    assert(q * block_size as int == block_size as int * q) by (nonlinear_arith);
                    assert(q >= 1) by (nonlinear_arith)
                        requires
                            MI_SEGMENT_SLICE_SIZE as int == block_size as int * q
                                + MI_SEGMENT_SLICE_SIZE as int % block_size as int,
                            0 <= (MI_SEGMENT_SLICE_SIZE as int % block_size as int),
                            (MI_SEGMENT_SLICE_SIZE as int % block_size as int) < block_size as int,
                            8 <= block_size as int,
                            block_size as int <= MI_SEGMENT_SLICE_SIZE as int,
                    ;
                    vstd::arithmetic::div_mod::lemma_div_is_ordered_by_denominator(
                        MI_SEGMENT_SLICE_SIZE as int,
                        8,
                        block_size as int,
                    );
                    assert(MI_SEGMENT_SLICE_SIZE as int / 8 == 8192);
                    assert(q * block_size as int <= MI_SEGMENT_SLICE_SIZE as int);
                }
                let reserved = reserved_us as u16;
                let mut page = MiPage::new();
                let (off, reused_span) = match span_at {
                    Some(si) => {
                        let seg0 = &mut self.segments[k];
                        let span = seg0.free_spans.remove(si);
                        (span.0, true)
                    },
                    None => (self.segments[k].next_slice, false),
                };
                proof {
                    assert forall|j: int| 0 <= j < self.segments@.len()
                        implies seg_ok(#[trigger] self.segments@[j], self.next_base as int) by {
                        if j != k as int {
                            assert(self.segments@[j] == pre.segments@[j]);
                        } else {
                            let sg = self.segments@[j];
                            assert forall|i: int| 0 <= i < sg.free_spans@.len() implies {
                                &&& sg.segment_info_slices <= (#[trigger] sg.free_spans@[i]).0
                                    as int
                                &&& sg.free_spans@[i].0 + sg.free_spans@[i].1 <= sg.next_slice
                                &&& sg.free_spans@[i].1 > 0
                            } by {
                                assert(pre.segments@[j].free_spans@.contains(sg.free_spans@[i]));
                            }
                            assert forall|p: int| 0 <= p < sg.pages@.len()
                                implies (#[trigger] sg.pages@[p])@.wf()
                                    && crate::heap::page_in_seg_ok(sg.pages@[p], sg) by {}
                        }
                    }
                    assert forall|j: int| 0 <= j < pre.segments@.len()
                        implies seg_ref_compat(#[trigger] pre.segments@[j],
                            self.segments@[j]) by {}
                    lemma_heap_ok_compat(self.heaps@, pre.segments@, self.segments@);
                }
                let ghost mid0 = *self;
                page.slice_offset = off as u32;
                page.slice_count = 1;
                page.xblock_size = block_size as u32;
                page.reserved = reserved;
                page.set_is_committed(1);
                page.set_is_zero_init(1);
                page.set_is_zero(1);
                proof {
                    assert(page@.all_lists() =~= Seq::<u16>::empty());
                    assert(page@.wf()) by {
                        assert(page@.data.len() == 0 && page@.capacity * page@.block_size == 0)
                            by (nonlinear_arith)
                            requires
                                page@.capacity == 0,
                                page@.data.len() == 0,
                        ;
                    }
                }
                let count = mi_page_extend_count(block_size, reserved, 0);
                proof {
                    assert(page@.block_size == block_size as int);
                    assert(reserved as int * page@.block_size <= MI_SEGMENT_SLICE_SIZE as int);
                    assert((0 + count) * page@.block_size <= usize::MAX) by (nonlinear_arith)
                        requires
                            count <= reserved as int,
                            reserved as int * page@.block_size <= MI_SEGMENT_SLICE_SIZE as int,
                            page@.block_size >= 8,
                            0 <= count,
                            0 <= reserved as int,
                    ;
                }
                page.extend_free(count);
                let seg = &mut self.segments[k];
                let pi = seg.pages.len();
                seg.pages.push(page);
                if !reused_span {
                    seg.next_slice = off + 1;
                }
                seg.used = seg.used + 1;
                let mut cmask = seg.commit_mask;
                mi_commit_mask_write_bit(&mut cmask, off, true);
                seg.commit_mask = cmask;
                proof {
                    assert(seg_ok(self.segments@[k as int], self.next_base as int)) by {
                        let sg = self.segments@[k as int];
                        assert forall|p: int| 0 <= p < sg.pages@.len()
                            implies (#[trigger] sg.pages@[p])@.wf()
                                && crate::heap::page_in_seg_ok(sg.pages@[p], sg) by {
                            if p < pre.segments@[k as int].pages@.len() {
                                assert(sg.pages@[p] == pre.segments@[k as int].pages@[p]);
                                assert(crate::heap::page_in_seg_ok(
                                    pre.segments@[k as int].pages@[p],
                                    pre.segments@[k as int],
                                ));
                            }
                        }
                    }
                    assert forall|j: int| 0 <= j < self.segments@.len()
                        implies seg_ok(#[trigger] self.segments@[j], self.next_base as int) by {
                        if j != k as int {
                            assert(self.segments@[j] == pre.segments@[j]);
                        }
                    }
                    assert forall|j: int| 0 <= j < pre.segments@.len()
                        implies seg_ref_compat(#[trigger] pre.segments@[j],
                            self.segments@[j]) by {
                        if j == k as int {
                            assert(self.segments@[j].pages@.len()
                                == pre.segments@[j].pages@.len() + 1);
                            assert forall|p: int| 0 <= p < pre.segments@[j].pages@.len()
                                implies (#[trigger] self.segments@[j].pages@[p]).slice_count
                                    == pre.segments@[j].pages@[p].slice_count
                                    && self.segments@[j].pages@[p].xblock_size
                                        == pre.segments@[j].pages@[p].xblock_size by {
                                assert(self.segments@[j].pages@[p]
                                    == pre.segments@[j].pages@[p]);
                            }
                        }
                    }
                    lemma_heap_ok_compat(self.heaps@, pre.segments@, self.segments@);
                }
                return Some(PageRef { seg: k, page: pi });
            }
            k = k + 1;
        }
        None
    }
}


impl MiAllocator {
    /// Try to adopt an abandoned segment for `tid`: pop one from the
    /// abandoned stack, take ownership, drain every page's deferred
    /// frees, and queue the pages in the heap for reuse.
    pub fn mi_segment_try_reclaim(&mut self, tid: usize, heap_h: usize) -> (r: Option<usize>)
        requires
            old(self).wf(),
            heap_h < old(self).heaps@.len(),
            old(self).heaps@[heap_h as int].live,
            old(self).heaps@[heap_h as int].thread_id == tid,
        ensures
            final(self).wf(),
            final(self).segments@.len() == old(self).segments@.len(),
            final(self).next_base == old(self).next_base,
            final(self).arena_alloc_count == old(self).arena_alloc_count,
            final(self).cache == old(self).cache,
            final(self).heaps@.len() == old(self).heaps@.len(),
            forall|h: int| 0 <= h < final(self).heaps@.len() ==> {
                &&& (#[trigger] final(self).heaps@[h]).live == old(self).heaps@[h].live
                &&& final(self).heaps@[h].thread_id == old(self).heaps@[h].thread_id
                &&& final(self).heaps@[h].pages_free_direct
                    == old(self).heaps@[h].pages_free_direct
            },
            (r matches Some(k) ==> {
                &&& k < final(self).segments@.len()
                &&& final(self).segments@[k as int].live
                &&& !final(self).segments@[k as int].is_abandoned
                &&& final(self).segments@[k as int].thread_id == tid
                // the abandoned-page count is reset, and every live page
                // of the adopted segment is queued in the heap for reuse
                &&& final(self).segments@[k as int].abandoned == 0
                &&& forall|pi: int| 0 <= pi < final(self).segments@[k as int].pages@.len()
                    && (#[trigger] final(self).segments@[k as int].pages@[pi]).slice_count > 0
                    ==> exists|q: int, j: int| {
                        &&& 0 <= q < final(self).heaps@[heap_h as int].pages@.len()
                        &&& 0 <= j < final(self).heaps@[heap_h as int].pages@[q].list@.len()
                        &&& (#[trigger] final(self).heaps@[heap_h as int].pages@[q].list@[j])
                            == (PageRef { seg: k, page: pi as usize })
                    }
            }),
            old(self).abandoned@.len() > 0 ==> r is Some,
    {
        let ghost pre = *self;
        let max_tries = mi_option_get_clamp(MiOption::MiOptionMaxSegmentReclaim, 8, 1024);
        if max_tries <= 0 {
            return None;
        }
        if self.abandoned.len() == 0 {
            return None;
        }
        // in this sequential model the first pop always reclaims, so a
        // single try suffices
        let k = match self.abandoned.pop() {
            Some(k) => k,
            None => {
                return None;
            },
        };
        proof {
            assert(pre.segments@[k as int].live && pre.segments@[k as int].is_abandoned);
            assert forall|c: int| 0 <= c < self.abandoned@.len()
                implies (#[trigger] self.abandoned@[c]) < self.segments@.len()
                    && self.segments@[self.abandoned@[c] as int].live
                    && self.segments@[self.abandoned@[c] as int].is_abandoned by {
                assert(self.abandoned@[c] == pre.abandoned@[c]);
            }
        }
        {
            let seg = &mut self.segments[k];
            seg.thread_id = tid;
            seg.is_abandoned = false;
            seg.abandoned = 0;
            if seg.abandoned_visits < 0xffff_ffff_ffff_ffff {
                seg.abandoned_visits = seg.abandoned_visits + 1;
            }
        }
        proof {
            crate::heap::lemma_heap_ok_change_hidden(
                self.heaps@,
                pre.segments@,
                self.segments@,
                k as int,
            );
            assert forall|c: int| 0 <= c < self.abandoned@.len()
                implies (#[trigger] self.abandoned@[c]) < self.segments@.len()
                    && self.segments@[self.abandoned@[c] as int].live
                    && self.segments@[self.abandoned@[c] as int].is_abandoned by {
                assert(pre.abandoned@[c] == self.abandoned@[c]);
                assert(self.abandoned@[c] != k);
            }
            assert forall|c: int| 0 <= c < self.cache@.len()
                implies (#[trigger] self.cache@[c]) < self.segments@.len()
                    && !self.segments@[self.cache@[c] as int].live by {
                assert(self.cache@[c] != k);
            }
        }
        let npages = self.segments[k].pages.len();
        let mut pi: usize = 0;
        while pi < npages
            invariant
                self.wf(),
                pre == *old(self),
                k < self.segments@.len(),
                heap_h < self.heaps@.len(),
                pi <= npages,
                npages == self.segments@[k as int].pages@.len(),
                self.segments@[k as int].live,
                !self.segments@[k as int].is_abandoned,
                self.segments@[k as int].thread_id == tid,
                self.segments@[k as int].abandoned == 0,
                forall|pi2: int| 0 <= pi2 < pi
                    && (#[trigger] self.segments@[k as int].pages@[pi2]).slice_count > 0
                    ==> exists|q: int, j: int| {
                        &&& 0 <= q < self.heaps@[heap_h as int].pages@.len()
                        &&& 0 <= j < self.heaps@[heap_h as int].pages@[q].list@.len()
                        &&& (#[trigger] self.heaps@[heap_h as int].pages@[q].list@[j])
                            == (PageRef { seg: k, page: pi2 as usize })
                    },
                self.segments@.len() == pre.segments@.len(),
                self.next_base == pre.next_base,
                self.arena_alloc_count == pre.arena_alloc_count,
                self.cache == pre.cache,
                self.heaps@.len() == pre.heaps@.len(),
                self.heaps@[heap_h as int].live,
                self.heaps@[heap_h as int].thread_id == tid,
                forall|h: int| 0 <= h < self.heaps@.len() ==> {
                    &&& (#[trigger] self.heaps@[h]).live == pre.heaps@[h].live
                    &&& self.heaps@[h].thread_id == pre.heaps@[h].thread_id
                    &&& self.heaps@[h].pages_free_direct == pre.heaps@[h].pages_free_direct
                },
            decreases npages - pi,
        {
            let ghost lh = *self;
            let ghost mid = *self;
            if self.segments[k].pages[pi].slice_count > 0 {
                let pg = &mut self.segments[k].pages[pi];
                pg.collect();
                proof {
                    assert(seg_ok(self.segments@[k as int], self.next_base as int)) by {
                        let sg = self.segments@[k as int];
                        assert forall|p: int| 0 <= p < sg.pages@.len()
                            implies (#[trigger] sg.pages@[p])@.wf()
                                && crate::heap::page_in_seg_ok(sg.pages@[p], sg) by {
                            if p != pi as int {
                                assert(sg.pages@[p] == mid.segments@[k as int].pages@[p]);
                                assert(crate::heap::page_in_seg_ok(
                                    mid.segments@[k as int].pages@[p],
                                    mid.segments@[k as int],
                                ));
                            } else {
                                assert(crate::heap::page_in_seg_ok(
                                    mid.segments@[k as int].pages@[p],
                                    mid.segments@[k as int],
                                ));
                            }
                        }
                    }
                    assert forall|j: int| 0 <= j < self.segments@.len()
                        implies seg_ok(#[trigger] self.segments@[j], self.next_base as int) by {
                        if j != k as int {
                            assert(self.segments@[j] == mid.segments@[j]);
                        }
                    }
                    assert forall|j: int| 0 <= j < mid.segments@.len()
                        implies seg_ref_compat(#[trigger] mid.segments@[j],
                            self.segments@[j]) by {
                        if j == k as int {
                            assert forall|p: int| 0 <= p < mid.segments@[j].pages@.len()
                                implies (#[trigger] self.segments@[j].pages@[p]).slice_count
                                    == mid.segments@[j].pages@[p].slice_count
                                    && self.segments@[j].pages@[p].xblock_size
                                        == mid.segments@[j].pages@[p].xblock_size by {
                                if p != pi as int {
                                    assert(self.segments@[j].pages@[p]
                                        == mid.segments@[j].pages@[p]);
                                }
                            }
                        }
                    }
                    lemma_heap_ok_compat(self.heaps@, mid.segments@, self.segments@);
                    assert forall|c: int| 0 <= c < self.cache@.len()
                        implies (#[trigger] self.cache@[c]) < self.segments@.len()
                            && !self.segments@[self.cache@[c] as int].live by {
                        assert(mid.segments@[self.cache@[c] as int].live
                            == self.segments@[self.cache@[c] as int].live);
                    }
                    assert forall|c: int| 0 <= c < self.abandoned@.len()
                        implies (#[trigger] self.abandoned@[c]) < self.segments@.len()
                            && self.segments@[self.abandoned@[c] as int].live
                            && self.segments@[self.abandoned@[c] as int].is_abandoned by {
                        assert(self.abandoned@[c] != k);
                    }
                }
                let bs = self.segments[k].pages[pi].xblock_size as usize;
                let ghost before_push = *self;
                self.heap_queue_push(heap_h, PageRef { seg: k, page: pi }, bs);
                proof {
                    assert forall|pi2: int| 0 <= pi2 < pi + 1
                        && (#[trigger] self.segments@[k as int].pages@[pi2]).slice_count > 0
                        implies exists|q: int, j: int| {
                            &&& 0 <= q < self.heaps@[heap_h as int].pages@.len()
                            &&& 0 <= j < self.heaps@[heap_h as int].pages@[q].list@.len()
                            &&& (#[trigger] self.heaps@[heap_h as int].pages@[q].list@[j])
                                == (PageRef { seg: k, page: pi2 as usize })
                        } by {
                        if pi2 == pi as int {
                            let qn = choose|q: int|
                                0 <= q < self.heaps@[heap_h as int].pages@.len()
                                && (#[trigger] self.heaps@[heap_h as int].pages@[q]).block_size
                                    == bs
                                && self.heaps@[heap_h as int].pages@[q].list@.len() > 0
                                && self.heaps@[heap_h as int].pages@[q].list@.last()
                                    == (PageRef { seg: k, page: pi });
                            assert(self.heaps@[heap_h as int].pages@[qn].list@[
                                self.heaps@[heap_h as int].pages@[qn].list@.len() - 1]
                                == (PageRef { seg: k, page: pi }));
                        } else {
                            assert(lh.segments@[k as int].pages@[pi2].slice_count > 0);
                            let (q0, j0) = choose|q: int, j: int| {
                                &&& 0 <= q < lh.heaps@[heap_h as int].pages@.len()
                                &&& 0 <= j < lh.heaps@[heap_h as int].pages@[q].list@.len()
                                &&& (#[trigger] lh.heaps@[heap_h as int].pages@[q].list@[j])
                                    == (PageRef { seg: k, page: pi2 as usize })
                            };
                            assert(before_push.heaps@[heap_h as int].pages
                                == lh.heaps@[heap_h as int].pages);
                            assert(self.heaps@[heap_h as int].pages@[q0].list@[j0]
                                == (PageRef { seg: k, page: pi2 as usize }));
                        }
                    }
                }
            }
            pi = pi + 1;
        }
        Some(k)
    }

    /// Find memory for a new page: first try to reclaim an abandoned
    /// segment, otherwise acquire a fresh or cached one.
    pub fn mi_segment_reclaim_or_alloc(&mut self, tid: usize, heap_h: usize) -> (r: Option<
        usize,
    >)
        requires
            old(self).wf(),
            heap_h < old(self).heaps@.len(),
            old(self).heaps@[heap_h as int].live,
            old(self).heaps@[heap_h as int].thread_id == tid,
        ensures
            final(self).wf(),
            final(self).heaps@.len() == old(self).heaps@.len(),
            forall|h: int| 0 <= h < final(self).heaps@.len() ==> {
                &&& (#[trigger] final(self).heaps@[h]).live == old(self).heaps@[h].live
                &&& final(self).heaps@[h].thread_id == old(self).heaps@[h].thread_id
                &&& final(self).heaps@[h].pages_free_direct
                    == old(self).heaps@[h].pages_free_direct
            },
            (r matches Some(k) ==> {
                &&& k < final(self).segments@.len()
                &&& final(self).segments@[k as int].live
                &&& !final(self).segments@[k as int].is_abandoned
                &&& final(self).segments@[k as int].thread_id == tid
            }),
            old(self).abandoned@.len() == 0
                ==> final(self).arena_alloc_count <= old(self).arena_alloc_count + 1,
            old(self).abandoned@.len() == 0 && old(self).cache@.len() > 0
                ==> final(self).arena_alloc_count == old(self).arena_alloc_count,
            old(self).abandoned@.len() > 0
                ==> final(self).arena_alloc_count == old(self).arena_alloc_count,
            (old(self).abandoned@.len() > 0 || old(self).cache@.len() > 0
                || (old(self).next_base <= usize::MAX - MI_SEGMENT_SIZE
                    && (old(self).next_base as int / MI_SEGMENT_SIZE as int)
                        < MI_SEGMENT_MAP_BITS))
                && old(self).arena_alloc_count < usize::MAX ==> r is Some,
    {
        let reclaimed = self.mi_segment_try_reclaim(tid, heap_h);
        match reclaimed {
            Some(k) => Some(k),
            None => self.mi_segment_alloc(tid, heap_h),
        }
    }
}

} // verus!
