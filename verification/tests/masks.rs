//! Bitfield units, page flags, commit-mask algebra and the segment
//! address map.

use mimalloc_core::mimalloc_types::{BitfieldUnit, MiCommitMask, MiPage, PageFlag,
    MI_SEGMENT_SIZE};
use mimalloc_core::mimalloc_internal::{mi_commit_mask_create_empty, mi_commit_mask_create_full,
    mi_commit_mask_is_empty, mi_commit_mask_is_full};
use mimalloc_core::segment::{mi_commit_mask_all_set, mi_commit_mask_any_set,
    mi_commit_mask_clear, mi_commit_mask_create, mi_commit_mask_create_intersect,
    mi_commit_mask_set, mi_segment_calculate_slices, mi_segments_track_size,
    _mi_commit_mask_committed_size, _mi_commit_mask_next_run};
use mimalloc_core::mimalloc_types::MiSegmentsTLD;
use mimalloc_core::segment_cache::MiSegmentMap;

#[test]
fn bitfield_unit_bits() {
    let mut u = BitfieldUnit::new([0u8]);
    assert!(!u.get_bit(3));
    u.set_bit(3, true);
    assert!(u.get_bit(3));
    assert!(!u.get_bit(2));
    u.set_bit(3, false);
    assert!(!u.get_bit(3));
}

#[test]
fn bitfield_unit_fields() {
    let mut u = BitfieldUnit::new([0u8]);
    u.set(1, 7, 93);
    assert_eq!(u.get(1, 7), 93);
    assert_eq!(u.get(0, 1), 0);
    u.set(1, 7, 200);
    assert_eq!(u.get(1, 7), 200 % 128);
}

#[test]
fn page_flags_round_trip() {
    let mut f = PageFlag { bitfield_1: BitfieldUnit::new([0u8]) };
    assert_eq!(f.in_full(), 0);
    f.set_in_full(1);
    assert_eq!(f.in_full(), 1);
    assert_eq!(f.has_aligned(), 0);
    f.set_has_aligned(1);
    f.set_in_full(0);
    assert_eq!(f.has_aligned(), 1);
    assert_eq!(f.in_full(), 0);
}

#[test]
fn page_state_bits_round_trip() {
    let mut p = MiPage::new();
    assert_eq!(p.is_committed(), 0);
    p.set_is_committed(1);
    p.set_is_zero_init(1);
    assert_eq!(p.is_committed(), 1);
    assert_eq!(p.is_zero_init(), 1);
    assert_eq!(p.is_reset(), 0);
    p.set_is_zero(1);
    p.set_retire_expire(7);
    assert_eq!(p.is_zero(), 1);
    assert_eq!(p.retire_expire(), 7);
    p.set_retire_expire(0);
    assert_eq!(p.retire_expire(), 0);
    assert_eq!(p.is_zero(), 1);
}

#[test]
fn commit_mask_empty_and_full() {
    let mut cm = MiCommitMask { mask: [0u64; 8] };
    mi_commit_mask_create_empty(&mut cm);
    assert!(mi_commit_mask_is_empty(&cm));
    assert!(!mi_commit_mask_is_full(&cm));
    mi_commit_mask_create_full(&mut cm);
    assert!(mi_commit_mask_is_full(&cm));
    assert!(!mi_commit_mask_is_empty(&cm));
}

#[test]
fn commit_mask_algebra() {
    let mut a = MiCommitMask { mask: [0u64; 8] };
    let mut b = MiCommitMask { mask: [0u64; 8] };
    mi_commit_mask_create(0, 100, &mut a);
    mi_commit_mask_create(50, 100, &mut b);
    assert!(mi_commit_mask_any_set(&a, &b));
    assert!(!mi_commit_mask_all_set(&a, &b));
    let mut both = MiCommitMask { mask: [0u64; 8] };
    mi_commit_mask_create_intersect(&a, &b, &mut both);
    let mut expect = MiCommitMask { mask: [0u64; 8] };
    mi_commit_mask_create(50, 50, &mut expect);
    assert_eq!(both.mask, expect.mask);
    // a | b then cleared by b leaves a minus the overlap
    let mut acc = a;
    mi_commit_mask_set(&mut acc, &b);
    mi_commit_mask_clear(&mut acc, &b);
    let mut low = MiCommitMask { mask: [0u64; 8] };
    mi_commit_mask_create(0, 50, &mut low);
    assert_eq!(acc.mask, low.mask);
}

#[test]
fn commit_mask_committed_size_counts() {
    let mut cm = MiCommitMask { mask: [0u64; 8] };
    mi_commit_mask_create(0, 0, &mut cm);
    assert_eq!(_mi_commit_mask_committed_size(&cm, MI_SEGMENT_SIZE), 0);
    mi_commit_mask_create(3, 13, &mut cm);
    assert_eq!(_mi_commit_mask_committed_size(&cm, MI_SEGMENT_SIZE), 13 * 65536);
}

#[test]
fn commit_mask_run_round_trip() {
    // create(offset, len) then scanning from zero finds exactly that run
    let cases: [(usize, usize); 5] = [(0, 1), (5, 17), (64, 64), (500, 12), (0, 512)];
    let mut i = 0;
    while i < cases.len() {
        let (offset, len) = cases[i];
        let mut cm = MiCommitMask { mask: [0u64; 8] };
        mi_commit_mask_create(offset, len, &mut cm);
        let mut idx: usize = 0;
        let count = _mi_commit_mask_next_run(&cm, &mut idx);
        assert_eq!(idx, offset);
        assert_eq!(count, len);
        // and nothing follows the run
        let mut idx2: usize = offset + len;
        let count2 = _mi_commit_mask_next_run(&cm, &mut idx2);
        assert_eq!(count2, 0);
        assert_eq!(idx2, 512);
        i += 1;
    }
}

#[test]
fn segment_map_round_trip() {
    let mut m = MiSegmentMap::new();
    let base = 5 * MI_SEGMENT_SIZE;
    m._mi_segment_map_allocated_at(base);
    assert_eq!(m.map_base_of(base), Some(base));
    assert_eq!(m.map_base_of(base + 1), Some(base));
    assert_eq!(m.map_base_of(base + MI_SEGMENT_SIZE - 1), Some(base));
    // below the only marked segment nothing is found
    assert_eq!(m.map_base_of(base - 1), None);
    assert_eq!(m.map_base_of(0), None);
}

#[test]
fn segment_slices_and_tracking() {
    let mut pre_size: usize = 0;
    let mut info_slices: usize = 0;
    let n = mi_segment_calculate_slices(0, &mut pre_size, &mut info_slices);
    assert_eq!(n, 512);
    assert_eq!(info_slices, 1);
    let n2 = mi_segment_calculate_slices(65537, &mut pre_size, &mut info_slices);
    assert_eq!(n2, 3);
    let mut tld = MiSegmentsTLD { count: 0, peak_count: 0, current_size: 0, peak_size: 0 };
    mi_segments_track_size(1024, &mut tld);
    mi_segments_track_size(2048, &mut tld);
    mi_segments_track_size(-1024, &mut tld);
    assert_eq!(tld.count, 1);
    assert_eq!(tld.peak_count, 2);
    assert_eq!(tld.current_size, 2048);
    assert_eq!(tld.peak_size, 3072);
}
