use kernel::mem::address::{Addr, Page};

#[test]
fn addr_empty_is_zero() {
    assert_eq!(Addr::empty().bits, 0);
    assert_eq!(Addr::new(0x1234).bits, 0x1234);
}

#[test]
fn addr_to_pte_bits_moves_page_number() {
    assert_eq!(Addr::new(0x8020_0000).to_pte_bits(), (0x8020_0000u64 >> 12) << 10);
    assert_eq!(Addr::new(0x1fff).to_pte_bits(), 0x400);
    assert_eq!(Addr::new(0xfff).to_pte_bits(), 0);
}

#[test]
fn addr_page_offset_is_low_twelve_bits() {
    assert_eq!(Addr::new(0x8020_0abc).page_offset(), 0xabc);
    assert_eq!(Addr::new(0x1000).page_offset(), 0);
    assert_eq!(Addr::new(0x1fff).page_offset(), 0xfff);
}

#[test]
fn addr_aligned_tests_page_boundary() {
    assert!(Addr::new(0).aligned());
    assert!(Addr::new(0x2000).aligned());
    assert!(!Addr::new(0x2001).aligned());
    assert!(!Addr::new(0x1000 + 0x1000 - 1).aligned());
}

#[test]
fn addr_align_down_and_up() {
    assert_eq!(Addr::new(0x1234).align_down().bits, 0x1000);
    assert_eq!(Addr::new(0x1234).align_up().bits, 0x2000);
    assert_eq!(Addr::new(0x2000).align_down().bits, 0x2000);
    assert_eq!(Addr::new(0x2000).align_up().bits, 0x2000);
    assert_eq!(Addr::new(0).align_up().bits, 0);
    assert_eq!(Addr::new(1).align_up().bits, 0x1000);
}

#[test]
fn align_down_of_align_up_is_align_up() {
    for x in [0u64, 1, 5, 0xfff, 0x1000, 0x1001, 0x8020_0abc, 0x7f_ffff_f001] {
        let up = Addr::new(x).align_up();
        assert_eq!(up.align_down(), up);
    }
}

#[test]
fn align_up_of_align_down_stays_below_align_up_for_unaligned() {
    let x = 5u64;
    assert_eq!(Addr::new(x).align_down().align_up().bits, 0);
    assert_eq!(Addr::new(x).align_up().bits, 0x1000);
    let y = 0x3000u64;
    assert_eq!(Addr::new(y).align_down().align_up(), Addr::new(y).align_up());
}

#[test]
fn addr_add_offsets() {
    assert_eq!(Addr::new(0x1000).add(0x234).bits, 0x1234);
    assert_eq!(Addr::new(0).add(0).bits, 0);
}

#[test]
fn addr_get_indexes_splits_page_number() {
    // vpn = (2 << 18) | (3 << 9) | 5
    let va = (((2u64 << 18) | (3 << 9) | 5) << 12) | 0x123;
    assert_eq!(Addr::new(va).get_indexes(), [5, 3, 2]);
    assert_eq!(Addr::new(0x3f_ffff_f000).get_indexes(), [511, 511, 255]);
    assert_eq!(Addr::new(0).get_indexes(), [0, 0, 0]);
}

#[test]
fn page_new_aligns_down() {
    assert_eq!(Page::empty().addr, 0);
    assert_eq!(Page::new(0x8020_0abc).addr, 0x8020_0000);
    assert_eq!(Page::new(0x1000).addr, 0x1000);
}
