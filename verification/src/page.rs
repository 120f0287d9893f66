//! Page operations: popping a block for allocation, freeing a block on
//! the owner or the cross-thread path, and collecting deferred frees.
//!
//! The abstract state of a page is its `PageView`: the three free lists
//! as sequences of block indices, the counters, and the backing bytes.
//! The central invariant `PageView::wf` says that the lists hold
//! pairwise-distinct block indices below `capacity`, and that `used`
//! counts exactly the blocks outside `free` and `local_free`.

use vstd::prelude::*;
use vstd::seq_lib::*;
use vstd::set_lib::*;
use crate::mimalloc_types::{MiPage, MI_PADDING_SIZE};

verus! {

/// Abstract state of a page.
#[verifier::ext_equal]
pub struct PageView {
    pub free: Seq<u16>,
    pub local_free: Seq<u16>,
    pub thread_free: Seq<u16>,
    pub used: int,
    pub capacity: int,
    pub reserved: int,
    pub block_size: int,
    pub delayed: bool,
    pub data: Seq<u8>,
}

impl View for MiPage {
    type V = PageView;

    open spec fn view(&self) -> PageView {
        PageView {
            free: self.free@,
            local_free: self.local_free@,
            thread_free: self.thread_free@,
            used: self.used as int,
            capacity: self.capacity as int,
            reserved: self.reserved as int,
            block_size: self.xblock_size as int,
            delayed: self.delayed_free,
            data: self.data@,
        }
    }
}

impl PageView {
    /// All free-list entries, in one sequence.
    pub open spec fn all_lists(self) -> Seq<u16> {
        self.free + self.local_free + self.thread_free
    }

    /// Well-formedness: a block index appears on at most one free list,
    /// all indices are below `capacity`, no more blocks are carved out
    /// than reserved, the backing bytes cover every carved block, and
    /// `used` counts the blocks outside `free` and `local_free`
    /// (blocks parked in `thread_free` still count as used).
    pub open spec fn wf(self) -> bool {
        &&& 0 <= self.capacity <= self.reserved <= 0xffff
        &&& MI_PADDING_SIZE <= self.block_size
        &&& self.used == self.capacity - self.free.len() - self.local_free.len()
        &&& self.all_lists().no_duplicates()
        &&& (forall|i: int| 0 <= i < self.all_lists().len()
                ==> #[trigger] self.all_lists()[i] < self.capacity)
        &&& self.data.len() == self.capacity * self.block_size
    }

    /// The block is handed out: carved, and on no free list.
    pub open spec fn block_in_use(self, b: u16) -> bool {
        &&& b < self.capacity
        &&& !self.free.contains(b)
        &&& !self.local_free.contains(b)
        &&& !self.thread_free.contains(b)
    }

    /// State after a collect: both deferred lists merged into `free`,
    /// and the cross-thread frees reconciled into `used`.
    pub open spec fn collected(self) -> PageView {
        PageView {
            free: self.free + self.local_free + self.thread_free,
            local_free: Seq::<u16>::empty(),
            thread_free: Seq::<u16>::empty(),
            used: self.used - self.thread_free.len(),
            ..self
        }
    }
}

/// How one successful block allocation changes the page: the block
/// comes off the tail of `free`, or, when `free` is exhausted, the
/// local-free list is migrated into `free` first.
pub open spec fn page_alloc_step(pre: PageView, post: PageView, b: u16) -> bool {
    &&& post.capacity == pre.capacity
    &&& post.reserved == pre.reserved
    &&& post.block_size == pre.block_size
    &&& post.delayed == pre.delayed
    &&& post.thread_free == pre.thread_free
    &&& post.used == pre.used + 1
    &&& if pre.free.len() > 0 {
        b == pre.free.last() && post.free == pre.free.drop_last()
            && post.local_free == pre.local_free
    } else {
        pre.local_free.len() > 0 && b == pre.local_free.last()
            && post.free == pre.local_free.drop_last()
            && post.local_free == Seq::<u16>::empty()
    }
}

/// Pigeonhole: a duplicate-free sequence of indices below `cap` has at
/// most `cap` entries.
pub proof fn lemma_nodup_len_bounded(s: Seq<u16>, cap: int)
    requires
        s.no_duplicates(),
        forall|i: int| 0 <= i < s.len() ==> #[trigger] s[i] < cap,
        0 <= cap,
    ensures
        s.len() <= cap,
{
    let t = s.map_values(|x: u16| x as int);
    s.lemma_no_duplicates_injective(|x: u16| x as int);
    t.unique_seq_to_set();
    assert forall|x: int| t.to_set().contains(x) implies set_int_range(0, cap).contains(x) by {
        let i = choose|i: int| 0 <= i < t.len() && t[i] == x;
        assert(s[i] < cap);
    }
    lemma_int_range(0, cap);
    lemma_len_subset(t.to_set(), set_int_range(0, cap));
}

/// Invariant: a well-formed page never has more blocks in use than
/// reserved, and the cross-thread list never outgrows `used`.
pub proof fn lemma_page_used_le_reserved(v: PageView)
    requires
        v.wf(),
    ensures
        v.thread_free.len() <= v.used <= v.reserved,
{
    lemma_nodup_len_bounded(v.all_lists(), v.capacity);
}

/// Collecting is idempotent: a second collect with no intervening
/// frees changes nothing, in particular the free list keeps its length.
pub proof fn lemma_collect_idempotent(v: PageView)
    ensures
        v.collected().collected() == v.collected(),
{
    assert(v.collected().collected().free =~= v.collected().free);
    assert(v.collected().collected() =~= v.collected());
}

/// A block freed from a foreign thread is available to the owner after
/// the next collect: it lands on `free`, and `used` is reconciled to
/// count it no longer.
pub proof fn lemma_cross_thread_free_reusable(v: PageView, b: u16)
    requires
        v.wf(),
        v.block_in_use(b),
    ensures
        (PageView { thread_free: v.thread_free.push(b), ..v }).collected().free.contains(b),
        (PageView { thread_free: v.thread_free.push(b), ..v }).collected().used
            == v.used - v.thread_free.len() - 1,
{
    let w = PageView { thread_free: v.thread_free.push(b), ..v };
    let merged = w.collected().free;
    assert(merged[merged.len() - 1] == b);
}

/// No double hand-out: two successive allocations (with no intervening
/// free) return distinct blocks.
pub proof fn lemma_alloc_no_double_return(
    v0: PageView,
    v1: PageView,
    v2: PageView,
    b1: u16,
    b2: u16,
)
    requires
        v0.wf(),
        page_alloc_step(v0, v1, b1),
        page_alloc_step(v1, v2, b2),
    ensures
        b1 != b2,
{
    let all = v0.all_lists();
    let fl = v0.free.len() as int;
    let ll = v0.local_free.len() as int;
    if v0.free.len() > 0 {
        assert(b1 == all[fl - 1]);
        if v1.free.len() > 0 {
            assert(b2 == v0.free[fl - 2]);
            assert(b2 == all[fl - 2]);
        } else {
            assert(v1.local_free.len() > 0);
            assert(b2 == v0.local_free[ll - 1]);
            assert(b2 == all[fl + ll - 1]);
        }
    } else {
        assert(b1 == all[fl + ll - 1]);
        if v1.free.len() > 0 {
            assert(b2 == v0.local_free[ll - 2]);
            assert(b2 == all[fl + ll - 2]);
        } else {
            assert(v1.local_free.len() == 0);
            assert(false);
        }
    }
}

impl MiPage {
    /// Pop a block for allocation.  When `free` is empty the deferred
    /// local-free list is migrated first; `None` means the page has no
    /// immediately available block and the heap must take the generic
    /// path.  With `zero` the block's usable bytes are cleared.
    pub fn allocate_block(&mut self, zero: bool) -> (r: Option<u16>)
        requires
            old(self)@.wf(),
        ensures
            final(self)@.wf(),
            *final(self) == (MiPage {
                free: final(self).free,
                local_free: final(self).local_free,
                thread_free: final(self).thread_free,
                used: final(self).used,
                capacity: final(self).capacity,
                data: final(self).data,
                ..*old(self)
            }),
            (r is Some) == (old(self)@.free.len() + old(self)@.local_free.len() > 0),
            r is None ==> final(self)@ == old(self)@,
            (r matches Some(b) ==> page_alloc_step(old(self)@, final(self)@, b)
                && final(self)@.block_in_use(b)),
            (r matches Some(b) ==> {
                &&& final(self)@.data.len() == old(self)@.data.len()
                &&& (forall|k: int| 0 <= k < old(self)@.data.len()
                    && !(b * old(self)@.block_size <= k
                        < b * old(self)@.block_size + (old(self)@.block_size - MI_PADDING_SIZE))
                    ==> #[trigger] final(self)@.data[k] == old(self)@.data[k])
                &&& (zero ==> forall|k: int| b * old(self)@.block_size <= k
                    < b * old(self)@.block_size + (old(self)@.block_size - MI_PADDING_SIZE)
                    ==> #[trigger] final(self)@.data[k] == 0)
                &&& (!zero ==> final(self)@.data == old(self)@.data)
            }),
    {
        let ghost pre = self@;
        proof {
            lemma_page_used_le_reserved(pre);
        }
        if self.free.is_empty() {
            self.free.append(&mut self.local_free);
            proof {
                assert(self.free@ =~= pre.local_free);
            }
        }
        let ghost src = self.free@;
        let popped = self.free.pop();
        let b = match popped {
            Some(b) => b,
            None => {
                proof {
                    assert(self@ =~= pre);
                }
                return None;
            },
        };
        proof {
            lemma_alloc_lists(pre, src, b);
        }
        self.used = self.used + 1;
        if zero {
            let bs = self.xblock_size as usize;
            let dl = self.data.len();
            proof {
                assert((b as int) * (bs as int) + bs as int <= dl as int)
                    by (nonlinear_arith)
                    requires
                        (b as int) < pre.capacity,
                        bs as int == pre.block_size,
                        0 < pre.block_size,
                        dl as int == pre.capacity * pre.block_size,
                ;
            }
            let start = (b as usize) * bs;
            let usable = bs - MI_PADDING_SIZE;
            let mut d: Vec<u8> = Vec::new();
            core::mem::swap(&mut d, &mut self.data);
            let ghost d0 = d@;
            let mut k: usize = 0;
            while k < usable
                invariant
                    k <= usable,
                    start + usable <= dl,
                    dl == d0.len(),
                    d@.len() == d0.len(),
                    forall|j: int| 0 <= j < d@.len() && !(start <= j < start + k)
                        ==> #[trigger] d@[j] == d0[j],
                    forall|j: int| start <= j < start + k ==> #[trigger] d@[j] == 0,
                decreases usable - k,
            {
                d.set(start + k, 0);
                k = k + 1;
            }
            self.data = d;
        }
        proof {
            lemma_alloc_post(pre, self@, b);
        }
        Some(b)
    }

    /// Free a handed-out block.  On the owning thread the block goes
    /// back to `free` (or to `local_free` while a deferred drain could
    /// race) and `used` drops; from a foreign thread it is pushed onto
    /// the cross-thread list and `used` is reconciled later, at collect.
    pub fn free_block(&mut self, block: u16, same_thread: bool)
        requires
            old(self)@.wf(),
            old(self)@.block_in_use(block),
        ensures
            final(self)@.wf(),
            *final(self) == (MiPage {
                free: final(self).free,
                local_free: final(self).local_free,
                thread_free: final(self).thread_free,
                used: final(self).used,
                capacity: final(self).capacity,
                data: final(self).data,
                ..*old(self)
            }),
            (same_thread && old(self)@.delayed ==> final(self)@ == (PageView {
                local_free: old(self)@.local_free.push(block),
                used: old(self)@.used - 1,
                ..old(self)@
            })),
            (same_thread && !old(self)@.delayed ==> final(self)@ == (PageView {
                free: old(self)@.free.push(block),
                used: old(self)@.used - 1,
                ..old(self)@
            })),
            (!same_thread ==> final(self)@ == (PageView {
                thread_free: old(self)@.thread_free.push(block),
                ..old(self)@
            })),
    {
        proof {
            lemma_free_block(old(self)@, block);
        }
        if same_thread {
            if self.delayed_free {
                self.local_free.push(block);
            } else {
                self.free.push(block);
            }
            self.used = self.used - 1;
        } else {
            self.thread_free.push(block);
        }
        proof {
            let pre = old(self)@;
            if same_thread {
                if pre.delayed {
                    assert(self@ =~= (PageView {
                        local_free: pre.local_free.push(block),
                        used: pre.used - 1,
                        ..pre
                    }));
                    assert(self@.all_lists()
                        =~= pre.free + pre.local_free.push(block) + pre.thread_free);
                } else {
                    assert(self@ =~= (PageView {
                        free: pre.free.push(block),
                        used: pre.used - 1,
                        ..pre
                    }));
                    assert(self@.all_lists()
                        =~= pre.free.push(block) + pre.local_free + pre.thread_free);
                }
            } else {
                assert(self@ =~= (PageView {
                    thread_free: pre.thread_free.push(block),
                    ..pre
                }));
                assert(self@.all_lists()
                    =~= pre.free + pre.local_free + pre.thread_free.push(block));
            }
        }
    }

    /// Merge `local_free` and drain `thread_free` into `free`,
    /// reconciling `used`.
    pub fn collect(&mut self)
        requires
            old(self)@.wf(),
        ensures
            final(self)@ == old(self)@.collected(),
            final(self)@.wf(),
            *final(self) == (MiPage {
                free: final(self).free,
                local_free: final(self).local_free,
                thread_free: final(self).thread_free,
                used: final(self).used,
                capacity: final(self).capacity,
                data: final(self).data,
                ..*old(self)
            }),

    {
        proof {
            lemma_page_used_le_reserved(old(self)@);
        }
        let n = self.thread_free.len();
        self.free.append(&mut self.local_free);
        self.free.append(&mut self.thread_free);
        self.used = self.used - (n as u32);
        proof {
            assert(self@ =~= old(self)@.collected());
            assert(self@.all_lists() =~= old(self)@.all_lists());
        }
    }

    /// Carve `count` more reserved blocks into the free list, backed by
    /// freshly committed (zeroed) bytes.
    pub fn extend_free(&mut self, count: u16)
        requires
            old(self)@.wf(),
            old(self)@.capacity + count <= old(self)@.reserved,
            (old(self)@.capacity + count) * old(self)@.block_size <= usize::MAX,
        ensures
            final(self)@.wf(),
            *final(self) == (MiPage {
                free: final(self).free,
                local_free: final(self).local_free,
                thread_free: final(self).thread_free,
                used: final(self).used,
                capacity: final(self).capacity,
                data: final(self).data,
                ..*old(self)
            }),
            final(self)@ == (PageView {
                free: final(self)@.free,
                capacity: old(self)@.capacity + count,
                data: final(self)@.data,
                ..old(self)@
            }),
            final(self)@.free == old(self)@.free + Seq::new(count as nat,
                |i: int| (old(self)@.capacity + i) as u16),
            final(self)@.data.len() == (old(self)@.capacity + count) * old(self)@.block_size,
            forall|k: int| 0 <= k < old(self)@.data.len()
                ==> #[trigger] final(self)@.data[k] == old(self)@.data[k],
            forall|k: int| old(self)@.data.len() <= k < final(self)@.data.len()
                ==> #[trigger] final(self)@.data[k] == 0,
    {
        let ghost pre = self@;
        let bs = self.xblock_size as usize;
        let oldcap = self.capacity;
        proof {
            assert((pre.capacity + count) * pre.block_size
                == pre.capacity * pre.block_size + count * pre.block_size)
                by (nonlinear_arith);
            assert(count * pre.block_size >= 0) by (nonlinear_arith)
                requires
                    pre.block_size >= 0,
                    count >= 0,
            ;
        }
        let mut i: u16 = 0;
        while i < count
            invariant
                i <= count,
                oldcap == pre.capacity,
                pre.capacity + count <= 0xffff,
                self.free@ == pre.free + Seq::new(i as nat, |j: int| (pre.capacity + j) as u16),
                *self == (MiPage { free: self.free, ..*old(self) }),
            decreases count - i,
        {
            self.free.push(oldcap + i);
            proof {
                assert(self.free@ =~= pre.free + Seq::new((i + 1) as nat,
                    |j: int| (pre.capacity + j) as u16));
            }
            i = i + 1;
        }
        let grow = (count as usize) * bs;
        let mut d: Vec<u8> = Vec::new();
        core::mem::swap(&mut d, &mut self.data);
        let ghost d0 = d@;
        let mut k: usize = 0;
        while k < grow
            invariant
                k <= grow,
                d@.len() == d0.len() + k,
                forall|j: int| 0 <= j < d0.len() ==> #[trigger] d@[j] == d0[j],
                forall|j: int| d0.len() <= j < d@.len() ==> #[trigger] d@[j] == 0,
            decreases grow - k,
        {
            d.push(0u8);
            k = k + 1;
        }
        self.data = d;
        self.capacity = self.capacity + count;
        proof {
            lemma_extend_post(pre, self@, count);
            assert(self@ == (PageView {
                free: self@.free,
                capacity: pre.capacity + count,
                data: self@.data,
                ..pre
            }));
        }
    }
}

/// After the migration (if any), `src` is the list the block is popped
/// from; popping its last element leaves well-formed lists and a block
/// that is on no list.
proof fn lemma_alloc_lists(pre: PageView, src: Seq<u16>, b: u16)
    requires
        pre.wf(),
        pre.free.len() > 0 ==> src == pre.free,
        pre.free.len() == 0 ==> src == pre.local_free,
        src.len() > 0,
        b == src.last(),
    ensures
        !src.drop_last().contains(b),
        !pre.thread_free.contains(b),
        pre.free.len() > 0 ==> !pre.local_free.contains(b),
        b < pre.capacity,
{
    let all = pre.all_lists();
    let fl = pre.free.len() as int;
    let ll = pre.local_free.len() as int;
    let tl = pre.thread_free.len() as int;
    if pre.free.len() > 0 {
        assert(b == all[fl - 1]);
        assert forall|i: int| 0 <= i < src.drop_last().len()
            implies src.drop_last()[i] != b by {
            assert(all[i] == src[i]);
        }
        assert forall|i: int| 0 <= i < tl implies pre.thread_free[i] != b by {
            assert(all[fl + ll + i] == pre.thread_free[i]);
        }
        assert forall|i: int| 0 <= i < ll implies pre.local_free[i] != b by {
            assert(all[fl + i] == pre.local_free[i]);
        }
        assert(!src.drop_last().contains(b));
        assert(!pre.thread_free.contains(b));
        assert(!pre.local_free.contains(b));
    } else {
        assert(b == all[fl + ll - 1]);
        assert forall|i: int| 0 <= i < src.drop_last().len()
            implies src.drop_last()[i] != b by {
            assert(all[fl + i] == src[i]);
        }
        assert forall|i: int| 0 <= i < tl implies pre.thread_free[i] != b by {
            assert(all[fl + ll + i] == pre.thread_free[i]);
        }
        assert(!src.drop_last().contains(b));
        assert(!pre.thread_free.contains(b));
    }
}

/// The popped state is well formed again.
proof fn lemma_alloc_post(pre: PageView, post: PageView, b: u16)
    requires
        pre.wf(),
        page_alloc_step(pre, post, b),
    ensures
        post.wf() == (post.data.len() == post.capacity * post.block_size),
{
    let all0 = pre.all_lists();
    let all1 = post.all_lists();
    let fl = pre.free.len() as int;
    let ll = pre.local_free.len() as int;
    if pre.free.len() > 0 {
        assert forall|i: int| 0 <= i < all1.len() implies all1[i] == (if i < fl - 1 {
            all0[i]
        } else {
            all0[i + 1]
        }) by {}
    } else {
        assert forall|i: int| 0 <= i < all1.len() implies all1[i] == (if i < pre.local_free.len()
            - 1 {
            all0[fl + i]
        } else {
            all0[fl + i + 1]
        }) by {}
    }
    assert(all1.no_duplicates());
    assert(forall|i: int| 0 <= i < all1.len() ==> #[trigger] all1[i] < post.capacity);
}


/// A freed block joins one list; every list shape stays well formed and
/// the `used` counter can safely drop on the owner path.
proof fn lemma_free_block(pre: PageView, block: u16)
    requires
        pre.wf(),
        pre.block_in_use(block),
    ensures
        pre.used >= pre.thread_free.len() + 1,
        (pre.free.push(block) + pre.local_free + pre.thread_free).no_duplicates(),
        (pre.free + pre.local_free.push(block) + pre.thread_free).no_duplicates(),
        (pre.free + pre.local_free + pre.thread_free.push(block)).no_duplicates(),
        forall|i: int| 0 <= i < pre.all_lists().len() + 1
            ==> #[trigger] (pre.free.push(block) + pre.local_free + pre.thread_free)[i]
                < pre.capacity,
        forall|i: int| 0 <= i < pre.all_lists().len() + 1
            ==> #[trigger] (pre.free + pre.local_free.push(block) + pre.thread_free)[i]
                < pre.capacity,
        forall|i: int| 0 <= i < pre.all_lists().len() + 1
            ==> #[trigger] (pre.free + pre.local_free + pre.thread_free.push(block))[i]
                < pre.capacity,
{
    let all = pre.all_lists();
    let fl = pre.free.len() as int;
    let ll = pre.local_free.len() as int;
    let tl = pre.thread_free.len() as int;
    assert forall|i: int| 0 <= i < all.len() implies all[i] != block by {
        if i < fl {
            assert(pre.free[i] == all[i]);
            assert(pre.free.contains(pre.free[i]));
        } else if i < fl + ll {
            assert(pre.local_free[i - fl] == all[i]);
            assert(pre.local_free.contains(pre.local_free[i - fl]));
        } else {
            assert(pre.thread_free[i - fl - ll] == all[i]);
            assert(pre.thread_free.contains(pre.thread_free[i - fl - ll]));
        }
    }
    let pushed = all.push(block);
    assert(pushed.no_duplicates());
    assert forall|i: int| 0 <= i < pushed.len() implies #[trigger] pushed[i] < pre.capacity by {}
    lemma_nodup_len_bounded(pushed, pre.capacity);
    let a1 = pre.free.push(block) + pre.local_free + pre.thread_free;
    assert forall|i: int, j: int| 0 <= i < j < a1.len() implies a1[i] != a1[j] by {
        assert(a1[i] == (if i <= fl { pushed[if i == fl { fl + ll + tl } else { i }] } else {
            pushed[i - 1]
        }));
        assert(a1[j] == (if j <= fl { pushed[if j == fl { fl + ll + tl } else { j }] } else {
            pushed[j - 1]
        }));
    }
    assert forall|i: int| 0 <= i < a1.len() implies #[trigger] a1[i] < pre.capacity by {
        assert(a1[i] == (if i <= fl { pushed[if i == fl { fl + ll + tl } else { i }] } else {
            pushed[i - 1]
        }));
    }
    let a2 = pre.free + pre.local_free.push(block) + pre.thread_free;
    assert forall|i: int, j: int| 0 <= i < j < a2.len() implies a2[i] != a2[j] by {
        assert(a2[i] == (if i == fl + ll { pushed[fl + ll + tl] } else if i < fl + ll {
            pushed[i]
        } else {
            pushed[i - 1]
        }));
        assert(a2[j] == (if j == fl + ll { pushed[fl + ll + tl] } else if j < fl + ll {
            pushed[j]
        } else {
            pushed[j - 1]
        }));
    }
    assert forall|i: int| 0 <= i < a2.len() implies #[trigger] a2[i] < pre.capacity by {
        assert(a2[i] == (if i == fl + ll { pushed[fl + ll + tl] } else if i < fl + ll {
            pushed[i]
        } else {
            pushed[i - 1]
        }));
    }
    let a3 = pre.free + pre.local_free + pre.thread_free.push(block);
    assert(a3 =~= pushed);
}

/// After extending, the page is well formed again.
proof fn lemma_extend_post(pre: PageView, post: PageView, count: u16)
    requires
        pre.wf(),
        pre.capacity + count <= pre.reserved,
        post.capacity == pre.capacity + count,
        post.reserved == pre.reserved,
        post.block_size == pre.block_size,
        post.used == pre.used,
        post.delayed == pre.delayed,
        post.local_free == pre.local_free,
        post.thread_free == pre.thread_free,
        post.free == pre.free + Seq::new(count as nat, |i: int| (pre.capacity + i) as u16),
        post.data.len() == pre.data.len() + count * pre.block_size,
    ensures
        post.wf(),
{
    let all0 = pre.all_lists();
    let all1 = post.all_lists();
    let fl = pre.free.len() as int;
    let c = count as int;
    assert forall|i: int, j: int| 0 <= i < j < all1.len() implies all1[i] != all1[j] by {
        let m = |i: int| if i < fl { i } else if i < fl + c { i } else { i - c };
        if fl <= i < fl + c {
            assert(all1[i] == (pre.capacity + (i - fl)) as u16);
            if fl <= j < fl + c {
                assert(all1[j] == (pre.capacity + (j - fl)) as u16);
            } else {
                assert(all1[j] == all0[j - c]);
            }
        } else {
            if i < fl {
                assert(all1[i] == all0[i]);
            } else {
                assert(all1[i] == all0[i - c]);
            }
            if fl <= j < fl + c {
                assert(all1[j] == (pre.capacity + (j - fl)) as u16);
            } else if j < fl {
                assert(all1[j] == all0[j]);
            } else {
                assert(all1[j] == all0[j - c]);
            }
        }
    }
    assert forall|i: int| 0 <= i < all1.len() implies #[trigger] all1[i] < post.capacity by {
        let c2 = c;
        if fl <= i < fl + c2 {
            assert(all1[i] == (pre.capacity + (i - fl)) as u16);
        } else if i < fl {
            assert(all1[i] == all0[i]);
        } else {
            assert(all1[i] == all0[i - c2]);
        }
    }
    assert((pre.capacity + count) * pre.block_size
        == pre.capacity * pre.block_size + count * pre.block_size) by (nonlinear_arith);
}

} // verus!
