//! Sizing helpers: alignment arithmetic, OS allocation rounding, word
//! classes, bit scans and option resolution.

use mimalloc_core::os::{_mi_align_up, _mi_os_good_alloc_size, _mi_os_page_size};
use mimalloc_core::mimalloc_internal::{_mi_align_down, _mi_divide_up, _mi_wsize_from_size,
    mi_bsr, mi_clz, mi_ctz};
use mimalloc_core::options::{mi_option_get, mi_option_get_clamp, mi_option_is_enabled, MiOption};

#[test]
fn test_mi_os_good_alloc_size() {
    let res = _mi_os_good_alloc_size(23);
    println!("res: {res}");
}

#[test]
fn test_mi_align_up() {
    assert_eq!(_mi_align_up(17, 7), 21);
    assert_eq!(_mi_align_up(17, 6), 18);
    assert_eq!(_mi_align_up(17, 4), 20);
}

#[test]
fn test_mi_os_page_size() {
    let page_size = _mi_os_page_size();
    println!("page size: {page_size}");
}

#[test]
fn good_alloc_size_is_page_rounded() {
    assert_eq!(_mi_os_good_alloc_size(23), 4096);
    assert_eq!(_mi_os_good_alloc_size(4096), 4096);
    assert_eq!(_mi_os_good_alloc_size(4097), 8192);
    // 1 MiB rounds to a 64 KiB granule
    assert_eq!(_mi_os_good_alloc_size(1048577), 1114112);
}

#[test]
fn align_down_floors() {
    assert_eq!(_mi_align_down(17, 4), 16);
    assert_eq!(_mi_align_down(17, 7), 14);
    assert_eq!(_mi_align_down(16, 16), 16);
    assert_eq!(_mi_align_down(3, 8), 0);
}

#[test]
fn divide_up_rounds_up() {
    assert_eq!(_mi_divide_up(0, 8), 0);
    assert_eq!(_mi_divide_up(1, 8), 1);
    assert_eq!(_mi_divide_up(8, 8), 1);
    assert_eq!(_mi_divide_up(9, 8), 2);
    assert_eq!(_mi_divide_up(65536, 65536), 1);
}

#[test]
fn wsize_from_size_counts_words() {
    assert_eq!(_mi_wsize_from_size(0), 0);
    assert_eq!(_mi_wsize_from_size(1), 1);
    assert_eq!(_mi_wsize_from_size(8), 1);
    assert_eq!(_mi_wsize_from_size(9), 2);
    assert_eq!(_mi_wsize_from_size(1024), 128);
}

#[test]
fn bit_scans() {
    assert_eq!(mi_bsr(0), 64);
    assert_eq!(mi_bsr(1), 0);
    assert_eq!(mi_bsr(0x80), 7);
    assert_eq!(mi_bsr(usize::MAX), 63);
    assert_eq!(mi_clz(0), 64);
    assert_eq!(mi_clz(1), 63);
    assert_eq!(mi_ctz(0), 64);
    assert_eq!(mi_ctz(8), 3);
}

#[test]
fn options_resolve_to_defaults() {
    assert_eq!(mi_option_get(MiOption::MiOptionEagerCommitDelay), 1);
    assert_eq!(mi_option_get(MiOption::MiOptionDecommitDelay), 25);
    assert!(mi_option_is_enabled(MiOption::MiOptionAllowDecommit));
    assert_eq!(mi_option_get_clamp(MiOption::MiOptionMaxSegmentReclaim, 1, 4), 4);
    assert_eq!(mi_option_get_clamp(MiOption::MiOptionMaxSegmentReclaim, 16, 1024), 16);
    assert_eq!(mi_option_get_clamp(MiOption::MiOptionMaxSegmentReclaim, 1, 1024), 8);
}
