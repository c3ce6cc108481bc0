use kernel::mem::address::{Addr, Page};
use kernel::mem::page_allocator::{kalloc, PageAllocator};
use kernel::mem::page_table::{MapError, PTEFlags, PageTable, PageTableEntry, PteSlot};
use kernel::mem::phys_mem::PhysMemory;

const BASE: u64 = 0x8000_0000;

fn machine(frames: usize) -> (PhysMemory, PageAllocator) {
    let mem = PhysMemory::new(BASE, frames);
    let mut a = PageAllocator::empty();
    a.init(Addr::new(BASE), Addr::new(BASE + 4096 * frames as u64));
    (mem, a)
}

fn rw() -> PTEFlags {
    PTEFlags::R().union(PTEFlags::W())
}

#[test]
fn flags_have_their_bits() {
    assert_eq!(PTEFlags::V().bits(), 1);
    assert_eq!(PTEFlags::R().bits(), 2);
    assert_eq!(PTEFlags::W().bits(), 4);
    assert_eq!(PTEFlags::X().bits(), 8);
    assert_eq!(PTEFlags::U().bits(), 16);
    assert_eq!(PTEFlags::G().bits(), 32);
    assert_eq!(PTEFlags::A().bits(), 64);
    assert_eq!(PTEFlags::D().bits(), 128);
    assert_eq!(PTEFlags::empty().bits(), 0);
    assert_eq!(PTEFlags::R().union(PTEFlags::X()).bits(), 10);
    assert!(rw().contains(PTEFlags::R()));
    assert!(!rw().contains(PTEFlags::X()));
    assert_eq!(PTEFlags::from_bits(0xff).unwrap().bits(), 0xff);
}

#[test]
fn entry_packs_page_number_and_flags() {
    let e = PageTableEntry::new(Addr::new(0x8020_1abc), rw().union(PTEFlags::V()));
    assert_eq!(e.bits, ((0x8020_1abcu64 >> 12) << 10) | 7);
    assert_eq!(e.get_addr_bits(), 0x8020_1000);
    assert_eq!(e.flags().bits(), 7);
    assert!(e.valid());
    assert!(e.readable());
    assert!(e.writable());
    assert!(!e.executable());
    assert!(!e.user());
    assert_eq!(PageTableEntry::empty().bits, 0);
    assert!(!PageTableEntry::empty().valid());
    let u = PageTableEntry::new(Addr::new(0x1000), PTEFlags::U().union(PTEFlags::X()));
    assert!(u.user());
    assert!(u.executable());
    assert!(!u.valid());
}

#[test]
fn entry_address_ignores_bits_above_the_page_number() {
    let e = PageTableEntry { bits: (0x3ffu64 << 54) | (0x80201u64 << 10) | 1 };
    assert_eq!(e.get_addr_bits(), 0x8020_1000);
}

#[test]
fn new_table_takes_one_zeroed_frame_and_maps_nothing() {
    let (mut mem, mut a) = machine(8);
    mem.write(Page { addr: BASE }, 3, 0xdead);
    let pt = PageTable::new(&mut mem, &mut a).unwrap();
    assert_eq!(mem.read(Page { addr: BASE }, 3), 0);
    assert_eq!(pt.make_satp(), (8u64 << 60) | (BASE >> 12));
    assert!(pt.contain(Addr::new(BASE)));
    assert!(!pt.contain(Addr::new(BASE + 0x1000)));
    assert_eq!(pt.walk(&mem, Addr::new(0x1000)), None);
    assert_eq!(pt.translate(&mem, Addr::new(0x1000), false), None);
    assert_eq!(a.alloc_page(), Some(Page { addr: BASE + 0x1000 }));
}

#[test]
fn new_table_fails_without_frames() {
    let (mut mem, mut a) = machine(1);
    let _first = a.alloc_page().unwrap();
    assert!(PageTable::new(&mut mem, &mut a).is_none());
}

#[test]
fn map_then_translate_keeps_the_page_offset() {
    let (mut mem, mut a) = machine(16);
    let mut pt = PageTable::new(&mut mem, &mut a).unwrap();
    let va = 0x1234_5000u64;
    let pa = 0x8765_4000u64;
    assert_eq!(pt.map(&mut mem, &mut a, Addr::new(va), Addr::new(pa), rw()), Ok(()));
    for off in [0u64, 1, 0x7ff, 0xfff] {
        assert_eq!(
            pt.translate(&mem, Addr::new(va + off), false),
            Some(Addr::new(pa + off))
        );
    }
    // Not mapped for the user.
    assert_eq!(pt.translate(&mem, Addr::new(va), true), None);
    assert_eq!(pt.walk_addr(&mem, Addr::new(va)), None);
    // Neighbours are not mapped.
    assert_eq!(pt.translate(&mem, Addr::new(va + 0x1000), false), None);
    assert_eq!(pt.translate(&mem, Addr::new(va - 1), false), None);
    let e = pt.lookup(&mem, Addr::new(va)).unwrap();
    assert_eq!(e.flags().bits(), 7);
    assert_eq!(e.get_addr_bits(), pa);
}

#[test]
fn user_mapping_translates_for_the_user() {
    let (mut mem, mut a) = machine(16);
    let mut pt = PageTable::new(&mut mem, &mut a).unwrap();
    let flags = rw().union(PTEFlags::U());
    pt.map(&mut mem, &mut a, Addr::new(0x10_0000), Addr::new(0x8000_5000), flags).unwrap();
    assert_eq!(
        pt.walk_addr(&mem, Addr::new(0x10_0abc)),
        Some(Addr::new(0x8000_5abc))
    );
    assert_eq!(
        pt.translate(&mem, Addr::new(0x10_0abc), true),
        Some(Addr::new(0x8000_5abc))
    );
}

#[test]
fn map_allocates_two_tables_for_a_first_page_and_none_for_its_neighbour() {
    let (mut mem, mut a) = machine(16);
    let mut pt = PageTable::new(&mut mem, &mut a).unwrap();
    pt.map(&mut mem, &mut a, Addr::new(0x20_0000), Addr::new(0x9000_0000), rw()).unwrap();
    // root, then two tables: frames 0, 1, 2 are taken.
    assert!(pt.contain(Addr::new(BASE + 0x1000)));
    assert!(pt.contain(Addr::new(BASE + 0x2000)));
    pt.map(&mut mem, &mut a, Addr::new(0x20_1000), Addr::new(0x9000_1000), rw()).unwrap();
    assert_eq!(a.alloc_page(), Some(Page { addr: BASE + 0x3000 }));
    assert_eq!(
        pt.walk(&mem, Addr::new(0x20_1000)),
        Some(PteSlot { table: Page { addr: BASE + 0x2000 }, index: 1 })
    );
}

#[test]
fn mapped_page_is_seen_as_mapped_so_that_a_second_map_is_refused() {
    let (mut mem, mut a) = machine(16);
    let mut pt = PageTable::new(&mut mem, &mut a).unwrap();
    let va = Addr::new(0x4000_0000);
    assert!(!pt.is_mapped(&mem, va));
    pt.map(&mut mem, &mut a, va, Addr::new(0x8000_8000), rw()).unwrap();
    assert!(pt.is_mapped(&mem, va));
    assert!(pt.is_mapped(&mem, Addr::new(0x4000_0fff)));
    assert!(!pt.is_mapped(&mem, Addr::new(0x4000_1000)));
}

#[test]
fn map_fails_without_frames_and_changes_no_mapping() {
    let (mut mem, mut a) = machine(2);
    let mut pt = PageTable::new(&mut mem, &mut a).unwrap();
    assert_eq!(
        pt.map(&mut mem, &mut a, Addr::new(0x1000), Addr::new(0x8000_8000), rw()),
        Err(MapError::OutOfFrames)
    );
    assert!(!pt.is_mapped(&mem, Addr::new(0x1000)));
    assert_eq!(a.alloc_page(), None);
}

#[test]
fn walk_alloc_finds_the_leaf_slot() {
    let (mut mem, mut a) = machine(16);
    let mut pt = PageTable::new(&mut mem, &mut a).unwrap();
    let va = Addr::new((((1u64 << 18) | (2 << 9) | 3) << 12) | 0x10);
    let slot = pt.walk_alloc(&mut mem, &mut a, va).unwrap();
    assert_eq!(slot, PteSlot { table: Page { addr: BASE + 0x2000 }, index: 3 });
    assert!(!pt.is_mapped(&mem, va));
    assert_eq!(pt.walk(&mem, va), Some(slot));
    // The root entry refers to the first new table and is an interior entry.
    let e = PageTableEntry { bits: mem.read(Page { addr: BASE }, 1) };
    assert!(e.valid() && !e.readable() && !e.writable() && !e.executable());
    assert_eq!(e.get_addr_bits(), BASE + 0x1000);
}

#[test]
fn map_range_maps_every_page_of_the_range() {
    let (mut mem, mut a) = machine(32);
    let mut pt = PageTable::new(&mut mem, &mut a).unwrap();
    let va = 0x8020_0000u64;
    let pa = 0x8020_0000u64;
    let len = 3 * 4096 + 1;
    let rx = PTEFlags::R().union(PTEFlags::X());
    assert_eq!(pt.map_range(&mut mem, &mut a, Addr::new(va), Addr::new(pa), len, rx), Ok(()));
    for k in 0..4u64 {
        assert_eq!(
            pt.translate(&mem, Addr::new(va + k * 4096), false),
            Some(Addr::new(pa + k * 4096))
        );
        let e = pt.lookup(&mem, Addr::new(va + k * 4096)).unwrap();
        assert_eq!(e.flags().bits(), 2 | 8 | 1);
    }
    assert_eq!(pt.translate(&mem, Addr::new(va + 4 * 4096), false), None);
    assert_eq!(pt.translate(&mem, Addr::new(va - 4096), false), None);
}

#[test]
fn map_range_aligns_both_addresses_down() {
    let (mut mem, mut a) = machine(32);
    let mut pt = PageTable::new(&mut mem, &mut a).unwrap();
    pt.map_range(&mut mem, &mut a, Addr::new(0x5123), Addr::new(0x9000_0456), 4096, rw())
        .unwrap();
    assert_eq!(
        pt.translate(&mem, Addr::new(0x5000), false),
        Some(Addr::new(0x9000_0000))
    );
    assert_eq!(
        pt.translate(&mem, Addr::new(0x5fff), false),
        Some(Addr::new(0x9000_0fff))
    );
    assert_eq!(pt.translate(&mem, Addr::new(0x6000), false), None);
}

#[test]
fn map_range_of_nothing_maps_nothing() {
    let (mut mem, mut a) = machine(8);
    let mut pt = PageTable::new(&mut mem, &mut a).unwrap();
    assert_eq!(
        pt.map_range(&mut mem, &mut a, Addr::new(0x5000), Addr::new(0x9000_0000), 0, rw()),
        Ok(())
    );
    assert!(!pt.is_mapped(&mem, Addr::new(0x5000)));
    assert_eq!(a.alloc_page(), Some(Page { addr: BASE + 0x1000 }));
}

#[test]
fn map_range_across_a_table_boundary_takes_one_more_table() {
    let (mut mem, mut a) = machine(32);
    let mut pt = PageTable::new(&mut mem, &mut a).unwrap();
    // Pages 511 and 512: two leaf-level tables under one middle table.
    pt.map_range(&mut mem, &mut a, Addr::new(511 * 4096), Addr::new(0x9000_0000), 2 * 4096, rw())
        .unwrap();
    assert_eq!(a.alloc_page(), Some(Page { addr: BASE + 0x4000 }));
    assert_eq!(
        pt.translate(&mem, Addr::new(512 * 4096 + 5), false),
        Some(Addr::new(0x9000_1005))
    );
}

#[test]
fn map_range_stops_when_frames_run_out() {
    let (mut mem, mut a) = machine(3);
    let mut pt = PageTable::new(&mut mem, &mut a).unwrap();
    let r = pt.map_range(
        &mut mem,
        &mut a,
        Addr::new(511 * 4096),
        Addr::new(0x9000_0000),
        2 * 4096,
        rw(),
    );
    assert_eq!(r, Err(MapError::OutOfFrames));
    assert!(pt.is_mapped(&mem, Addr::new(511 * 4096)));
    assert!(!pt.is_mapped(&mem, Addr::new(512 * 4096)));
}

#[test]
fn pushed_pages_are_held_and_removed_pages_are_released() {
    let (mut mem, mut a) = machine(8);
    let mut pt = PageTable::new(&mut mem, &mut a).unwrap();
    let t = kalloc(&mut a).unwrap();
    let addr = t.page().addr;
    pt.push_page(&mem, t);
    assert!(pt.contain(Addr::new(addr)));
    pt.remove_page(&mem, &mut a, Addr::new(addr));
    assert!(!pt.contain(Addr::new(addr)));
    // The released frame is handed out again first.
    assert_eq!(a.alloc_page(), Some(Page { addr }));
    // Removing a page that is not held changes nothing.
    pt.remove_page(&mem, &mut a, Addr::new(0x9999_0000));
}

#[test]
fn memory_words_and_bytes() {
    let mut mem = PhysMemory::new(BASE, 2);
    assert!(mem.has_page(Page { addr: BASE }));
    assert!(mem.has_page(Page { addr: BASE + 0x1000 }));
    assert!(!mem.has_page(Page { addr: BASE + 0x2000 }));
    assert!(!mem.has_page(Page { addr: BASE - 0x1000 }));
    assert!(!mem.has_page(Page { addr: BASE + 8 }));
    mem.write(Page { addr: BASE + 0x1000 }, 511, 0x1122_3344_5566_7788);
    assert_eq!(mem.read(Page { addr: BASE + 0x1000 }, 511), 0x1122_3344_5566_7788);
    assert_eq!(mem.read(Page { addr: BASE + 0x1000 }, 510), 0);
    assert_eq!(mem.read(Page { addr: BASE }, 511), 0);
    // Little endian bytes.
    assert_eq!(mem.read_byte(Addr::new(BASE + 0x1ff8)), 0x88);
    assert_eq!(mem.read_byte(Addr::new(BASE + 0x1fff)), 0x11);
    mem.write_byte(Addr::new(BASE + 0x1ff9), 0xab);
    assert_eq!(mem.read(Page { addr: BASE + 0x1000 }, 511), 0x1122_3344_5566_ab88);
    mem.zero_frame(Page { addr: BASE + 0x1000 });
    assert_eq!(mem.read(Page { addr: BASE + 0x1000 }, 511), 0);
}

#[test]
fn map_range_takes_exactly_the_tables_it_costs() {
    // Pages 510 to 513: one middle page and two leaf pages.
    for (frames, ok) in [(4usize, true), (3, false)] {
        let (mut mem, mut a) = machine(frames);
        let mut pt = PageTable::new(&mut mem, &mut a).unwrap();
        let r = pt.map_range(
            &mut mem,
            &mut a,
            Addr::new(510 * 4096),
            Addr::new(0x9000_0000),
            4 * 4096,
            rw(),
        );
        assert_eq!(r.is_ok(), ok);
        assert_eq!(a.alloc_page(), None);
    }
}

#[test]
fn pages_taken_on_the_way_are_zeroed_and_entered_with_the_valid_flag_alone() {
    let (mut mem, mut a) = machine(8);
    // Frames that hold rubbish before they are taken.
    for frame in 1..4u64 {
        for i in 0..512 {
            mem.write(Page { addr: BASE + frame * 0x1000 }, i, 0xdead_beef_0000_00ff + i as u64);
        }
    }
    let mut pt = PageTable::new(&mut mem, &mut a).unwrap();
    let va = Addr::new((((1u64 << 18) | (2 << 9) | 3) << 12) | 0x10);
    let slot = pt.walk_alloc(&mut mem, &mut a, va).unwrap();
    assert_eq!(slot.table.addr, BASE + 0x2000);
    let middle = Page { addr: BASE + 0x1000 };
    assert_eq!(mem.read(Page { addr: BASE }, 1), ((BASE + 0x1000) >> 12 << 10) | 1);
    for i in 0..512 {
        let expect = if i == 2 { ((BASE + 0x2000) >> 12 << 10) | 1 } else { 0 };
        assert_eq!(mem.read(middle, i), expect);
        assert_eq!(mem.read(slot.table, i), 0);
        if i != 1 {
            assert_eq!(mem.read(Page { addr: BASE }, i), 0);
        }
    }
    // A second walk on the same way takes nothing and changes nothing.
    assert_eq!(pt.walk_alloc(&mut mem, &mut a, va), Some(slot));
    assert_eq!(mem.read(middle, 2), ((BASE + 0x2000) >> 12 << 10) | 1);
    // Mapping a neighbour takes one more leaf page and writes one entry there.
    let rw = rw();
    pt.map(&mut mem, &mut a, Addr::new(va.bits + (512 << 12)), Addr::new(0x9000_0000), rw)
        .unwrap();
    let leaf = Page { addr: BASE + 0x3000 };
    assert_eq!(mem.read(middle, 3), ((BASE + 0x3000) >> 12 << 10) | 1);
    for i in 0..512 {
        let expect = if i == 3 { (0x9000_0000u64 >> 12 << 10) | 7 } else { 0 };
        assert_eq!(mem.read(leaf, i), expect);
    }
}

#[test]
fn a_leaf_in_the_root_stops_every_walk_through_it() {
    let (mut mem, mut a) = machine(8);
    let mut pt = PageTable::new(&mut mem, &mut a).unwrap();
    // A valid entry with R, W and X in the root: it refers to no
    // page-table page, and here to no frame of memory at all.
    let large = PageTableEntry::new(Addr::new(0x9000_0000), rw().union(PTEFlags::X()).union(PTEFlags::V()));
    assert_eq!(large.bits, (0x9000_0000u64 >> 12 << 10) | 15);
    mem.write(Page { addr: BASE }, 0, large.bits);
    let va = Addr::new(0x1234);
    assert_eq!(pt.walk(&mem, va), None);
    assert_eq!(pt.lookup(&mem, va), None);
    assert_eq!(pt.translate(&mem, va, false), None);
    assert_eq!(pt.walk_addr(&mem, va), None);
    assert!(!pt.is_mapped(&mem, va));
    // A walk that may allocate stops there too and takes no frame.
    assert_eq!(pt.walk_alloc(&mut mem, &mut a, va), None);
    assert_eq!(mem.read(Page { addr: BASE }, 0), large.bits);
    for i in 1..512 {
        assert_eq!(mem.read(Page { addr: BASE }, i), 0);
    }
    // Other ways are open as before.
    let other = Addr::new(1u64 << 30);
    pt.map(&mut mem, &mut a, other, Addr::new(0x9000_0000), rw()).unwrap();
    assert_eq!(pt.translate(&mem, other, false), Some(Addr::new(0x9000_0000)));
    assert_eq!(mem.read(Page { addr: BASE }, 1), ((BASE + 0x1000) >> 12 << 10) | 1);
    assert_eq!(pt.walk(&mem, va), None);
}

#[test]
fn a_leaf_in_a_middle_page_stops_the_walk_and_spares_its_neighbours() {
    let (mut mem, mut a) = machine(8);
    let mut pt = PageTable::new(&mut mem, &mut a).unwrap();
    let mapped = Addr::new(((1u64 << 18) | (2 << 9) | 3) << 12);
    pt.map(&mut mem, &mut a, mapped, Addr::new(0x9000_0000), rw()).unwrap();
    let middle = Page { addr: BASE + 0x1000 };
    let large = PageTableEntry::new(Addr::new(0xa000_0000), PTEFlags::R().union(PTEFlags::V()));
    mem.write(middle, 5, large.bits);
    let behind = Addr::new((((1u64 << 18) | (5 << 9) | 7) << 12) | 0x20);
    assert_eq!(pt.walk(&mem, behind), None);
    assert_eq!(pt.translate(&mem, behind, false), None);
    assert_eq!(pt.translate(&mem, behind, true), None);
    assert_eq!(pt.walk_alloc(&mut mem, &mut a, behind), None);
    assert_eq!(mem.read(middle, 5), large.bits);
    // No frame was taken: the next one is the one after the two tables.
    assert_eq!(a.alloc_page(), Some(Page { addr: BASE + 0x3000 }));
    // The page mapped before is found as before.
    assert_eq!(
        pt.walk(&mem, mapped),
        Some(PteSlot { table: Page { addr: BASE + 0x2000 }, index: 3 })
    );
    assert_eq!(pt.translate(&mem, Addr::new(mapped.bits + 8), false), Some(Addr::new(0x9000_0008)));
}
