//! End-to-end behaviour of the allocator: zeroed allocation, block
//! reuse, cross-thread frees, abandonment and reclamation.

use mimalloc_core::add;
use mimalloc_core::heap::MiAllocator;
use mimalloc_core::init::{mi_thread_done, mi_thread_init, mi_process_init, test_init};
use mimalloc_core::mimalloc_types::{MiPage, MI_SEGMENT_SIZE, MI_SMALL_SIZE_MAX};

#[test]
fn it_works() {
    let result = add(2, 2);
    assert_eq!(result, 4);
}

#[test]
fn success() {
    test_init();
    assert_eq!(1, 1);
}

fn fresh() -> MiAllocator {
    mi_process_init()
}

#[test]
fn zero_allocation_reads_zero() {
    // allocate(n, zero) then reading n bytes yields all zero
    let sizes: [usize; 5] = [1, 8, 128, MI_SMALL_SIZE_MAX, MI_SMALL_SIZE_MAX + 1];
    let mut a = fresh();
    let mut i = 0;
    while i < sizes.len() {
        let n = sizes[i];
        let p = a.allocate(1, n, true);
        assert!(p != 0);
        let mut j = 0;
        while j < n {
            assert_eq!(a.mi_read_byte(p + j), Some(0));
            j += 1;
        }
        i += 1;
    }
}

#[test]
fn zeroing_clears_dirty_blocks() {
    let mut a = fresh();
    let p = a.allocate(1, 16, false);
    assert!(p != 0);
    for j in 0..16 {
        a.mi_write_byte(p + j, 0xab);
    }
    assert_eq!(a.mi_read_byte(p), Some(0xab));
    a.mi_free(1, p);
    // LIFO reuse hands the same block back
    let q = a.allocate(1, 16, true);
    assert_eq!(q, p);
    for j in 0..16 {
        assert_eq!(a.mi_read_byte(q + j), Some(0));
    }
}

#[test]
fn addresses_are_distinct() {
    let mut a = fresh();
    let mut ptrs: Vec<usize> = Vec::new();
    for _ in 0..100 {
        let p = a.allocate(1, 32, false);
        assert!(p != 0);
        ptrs.push(p);
    }
    for i in 0..ptrs.len() {
        for j in 0..i {
            assert_ne!(ptrs[i], ptrs[j]);
        }
    }
}

#[test]
fn collect_is_idempotent() {
    let mut p = MiPage::new();
    p.xblock_size = 16;
    p.reserved = 8;
    p.extend_free(4);
    let b1 = p.allocate_block(false).unwrap();
    let b2 = p.allocate_block(false).unwrap();
    p.free_block(b1, true);
    p.free_block(b2, false);
    p.collect();
    let len_after_first = p.free.len();
    let used_after_first = p.used;
    p.collect();
    assert_eq!(p.free.len(), len_after_first);
    assert_eq!(p.used, used_after_first);
    assert_eq!(p.local_free.len(), 0);
    assert_eq!(p.thread_free.len(), 0);
}

#[test]
fn used_never_exceeds_reserved() {
    let mut p = MiPage::new();
    p.xblock_size = 32;
    p.reserved = 4;
    p.extend_free(4);
    let mut taken = Vec::new();
    loop {
        match p.allocate_block(false) {
            Some(b) => {
                assert!(p.used <= p.reserved as u32);
                taken.push(b);
            },
            None => break,
        }
    }
    assert_eq!(taken.len(), 4);
    assert_eq!(p.used, 4);
    for b in taken {
        p.free_block(b, true);
        assert!(p.used <= p.reserved as u32);
    }
    assert_eq!(p.used, 0);
}

#[test]
fn cross_thread_free_is_collected() {
    let mut a = fresh();
    let p1 = a.allocate(1, 16, false);
    assert!(p1 != 0);
    // a foreign thread frees the block: it parks on the page's
    // cross-thread list and `used` stays until the owner collects
    a.mi_free(2, p1);
    let k = a._mi_segment_of(p1).expect("block must map to its segment");
    let off = p1 - a.segments[k].base;
    let pi = a.mi_page_of(k, off).expect("block must map to its page");
    assert_eq!(a.segments[k].pages[pi].thread_free.len(), 1);
    assert_eq!(a.segments[k].pages[pi].used, 1);
    a.segments[k].pages[pi].collect();
    assert_eq!(a.segments[k].pages[pi].thread_free.len(), 0);
    assert_eq!(a.segments[k].pages[pi].used, 0);
    // the block is available to the owner again
    let p2 = a.allocate(1, 16, false);
    assert_eq!(p2, p1);
}

#[test]
fn freed_blocks_are_reused_before_new_segments() {
    let mut a = fresh();
    let mut ptrs: Vec<usize> = Vec::new();
    for _ in 0..1000 {
        let p = a.allocate(1, 16, false);
        assert!(p != 0);
        ptrs.push(p);
    }
    assert_eq!(a.arena_alloc_count, 1);
    let mut freed: Vec<usize> = Vec::new();
    let mut i = 0;
    while i < ptrs.len() {
        a.mi_free(1, ptrs[i]);
        freed.push(ptrs[i]);
        i += 2;
    }
    let mut again: Vec<usize> = Vec::new();
    for _ in 0..500 {
        let p = a.allocate(1, 16, false);
        assert!(p != 0);
        again.push(p);
    }
    // the second batch reused freed blocks: no further arena request
    assert_eq!(a.arena_alloc_count, 1);
    for p in again {
        assert!(freed.contains(&p));
    }
}

#[test]
fn abandoned_segment_is_reclaimed() {
    let mut a = fresh();
    let tid_a = 7;
    let tid_b = 9;
    let mut ptrs: Vec<usize> = Vec::new();
    let mut sizes: Vec<usize> = Vec::new();
    // ten live pages: one allocation in each of ten size classes
    for i in 0..10 {
        let size = 16 + 8 * i;
        let p = a.allocate(tid_a, size, false);
        assert!(p != 0);
        ptrs.push(p);
        sizes.push(size);
    }
    let k = a._mi_segment_of(ptrs[0]).expect("segment of first block");
    assert_eq!(a.segments[k].used, 10);
    mi_thread_done(&mut a, tid_a);
    assert!(a.segments[k].is_abandoned);
    assert_eq!(a.abandoned.len(), 1);
    // a second thread's allocation of a matching class reclaims it
    let q = a.allocate(tid_b, 16, false);
    assert!(q != 0);
    assert!(!a.segments[k].is_abandoned);
    assert_eq!(a.segments[k].thread_id, tid_b);
    assert_eq!(a.abandoned.len(), 0);
    // no block was lost: each one still resolves and can be freed
    for (i, p) in ptrs.iter().enumerate() {
        assert_eq!(a.mi_usable_size(*p), sizes[i]);
        a.mi_free(tid_b, *p);
    }
    for p in &ptrs {
        // a second free of the same block is ignored
        a.mi_free(tid_b, *p);
    }
}

#[test]
fn free_tolerates_garbage() {
    let mut a = fresh();
    let p = a.allocate(1, 64, false);
    assert!(p != 0);
    a.mi_free(1, 0);
    a.mi_free(1, 12345);
    a.mi_free(1, p + 1);
    a.mi_free(1, usize::MAX);
    assert_eq!(a.mi_usable_size(p), 64);
    a.mi_free(1, p);
    a.mi_free(1, p);
}

#[test]
fn usable_size_of_foreign_pointers_is_zero() {
    let mut a = fresh();
    assert_eq!(a.mi_usable_size(0), 0);
    assert_eq!(a.mi_usable_size(123456), 0);
    let p = a.allocate(1, 100, false);
    assert!(p != 0);
    // 100 bytes round up to the 104-byte class
    assert_eq!(a.mi_usable_size(p), 104);
}

#[test]
fn calloc_checks_overflow() {
    let mut a = fresh();
    assert_eq!(a.mi_calloc(1, usize::MAX, 16), 0);
    let p = a.mi_calloc(1, 4, 8);
    assert!(p != 0);
    for j in 0..32 {
        assert_eq!(a.mi_read_byte(p + j), Some(0));
    }
}

#[test]
fn malloc_returns_aligned_nonnull() {
    let mut a = fresh();
    let p = a.mi_malloc(1, 48);
    assert!(p >= MI_SEGMENT_SIZE);
    let q = a.mi_malloc(1, 48);
    assert!(q != p && q != 0);
}

#[test]
fn retired_pages_are_destroyed_after_the_countdown() {
    let mut a = fresh();
    let p = a.allocate(1, 200, false);
    assert!(p != 0);
    let k = a._mi_segment_of(p).unwrap();
    let pi = a.mi_page_of(k, p - a.segments[k].base).unwrap();
    let slice = a.segments[k].pages[pi].slice_offset;
    a.mi_free(1, p);
    assert_eq!(a.segments[k].pages[pi].used, 0);
    assert!(a.segments[k].pages[pi].retire_expire() > 0);
    // every slow-path allocation ages the retired page; a fresh size
    // class forces the slow path each time
    for i in 0..12 {
        let q = a.allocate(1, 2048 + 512 * i, false);
        assert!(q != 0);
    }
    assert_eq!(a.segments[k].pages[pi].slice_count, 0);
    // the destroyed page is gone: its address no longer resolves to a
    // block of the old class
    assert_ne!(a.mi_usable_size(p), 200);
    // the span went back to the pool and a later page recycled it
    let mut recycled = false;
    for p2 in 0..a.segments[k].pages.len() {
        if p2 != pi && a.segments[k].pages[p2].slice_count > 0
            && a.segments[k].pages[p2].slice_offset == slice {
            recycled = true;
        }
    }
    assert!(recycled);
}

#[test]
fn thread_lifecycle() {
    let mut a = fresh();
    let h1 = mi_thread_init(&mut a, 3);
    assert!(a.mi_heap_is_initialized(h1));
    assert!(a.mi_heap_is_backing(h1));
    let h2 = mi_thread_init(&mut a, 3);
    assert_eq!(h1, h2);
    mi_thread_done(&mut a, 3);
    assert_eq!(a.heap_of_thread(3), None);
    // the main heap persists
    mi_thread_done(&mut a, 0);
    assert!(a.mi_heap_is_initialized(0));
}
