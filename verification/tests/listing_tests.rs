use kernel::mem::address::{Addr, Page};
use kernel::mem::kernel_space::kvminit;
use kernel::mem::page_allocator::PageAllocator;
use kernel::mem::page_table::{PTEFlags, PageTable, PageTableEntry, PageTableLine};
use kernel::mem::phys_mem::PhysMemory;
use kernel::mem::user_space::UserSpace;
use kernel::mem_layout::TRAMPOLINE;

fn machine(base: u64, frames: usize) -> (PhysMemory, PageAllocator) {
    let mem = PhysMemory::new(base, frames);
    let mut a = PageAllocator::empty();
    a.init(Addr::new(base), Addr::new(base + 4096 * frames as u64));
    (mem, a)
}

#[test]
fn page_table_is_listed_entry_by_entry() {
    let (mut mem, mut a) = machine(0x8000_0000, 16);
    let mut pt = PageTable::new(&mut mem, &mut a).unwrap();
    assert_eq!(pt.print_page_table(&mem), vec![]);
    let rw = PTEFlags::R().union(PTEFlags::W());
    let va = (((1u64 << 18) | (2 << 9) | 3) << 12) | 0x10;
    pt.map(&mut mem, &mut a, Addr::new(va), Addr::new(0x9000_0000), rw).unwrap();
    pt.map(&mut mem, &mut a, Addr::new(va + 0x1000), Addr::new(0x9000_5000), rw).unwrap();
    let interior = |pa: u64| PageTableEntry::new(Addr::new(pa), PTEFlags::V());
    let leaf = |pa: u64| PageTableEntry::new(Addr::new(pa), rw.union(PTEFlags::V()));
    assert_eq!(
        pt.print_page_table(&mem),
        vec![
            PageTableLine { level: 2, index: 1, entry: interior(0x8000_1000) },
            PageTableLine { level: 1, index: 2, entry: interior(0x8000_2000) },
            PageTableLine { level: 0, index: 3, entry: leaf(0x9000_0000) },
            PageTableLine { level: 0, index: 4, entry: leaf(0x9000_5000) },
        ]
    );
}

#[test]
fn pages_are_read_as_bytes_and_entries() {
    let (mut mem, _a) = machine(0x8000_0000, 2);
    let page = Page { addr: 0x8000_1000 };
    mem.write(page, 0, 0x0807_0605_0403_0201);
    mem.write(page, 511, 0xff00_0000_0000_0000);
    let bytes = page.get_bytes(&mem);
    assert_eq!(bytes.len(), 4096);
    assert_eq!(&bytes[..9], &[1, 2, 3, 4, 5, 6, 7, 8, 0]);
    assert_eq!(bytes[4095], 0xff);
    let ptes = page.get_ptes(&mem);
    assert_eq!(ptes.len(), 512);
    assert_eq!(ptes[0].bits, 0x0807_0605_0403_0201);
    assert_eq!(ptes[1].bits, 0);
    assert_eq!(ptes[511].bits, 0xff00_0000_0000_0000);
    page.clean_page(&mut mem);
    assert_eq!(page.get_bytes(&mem), vec![0u8; 4096]);
}

#[test]
fn released_tables_give_their_frames_back_root_first() {
    let (mut mem, mut a) = machine(0x8000_0000, 16);
    let mut pt = PageTable::new(&mut mem, &mut a).unwrap();
    let rw = PTEFlags::R().union(PTEFlags::W());
    pt.map(&mut mem, &mut a, Addr::new(0x1000), Addr::new(0x9000_0000), rw).unwrap();
    assert_eq!(a.alloc_page(), Some(Page { addr: 0x8000_3000 }));
    pt.release(&mem, &mut a);
    // Released in the order root, middle, leaf: handed out again in reverse.
    assert_eq!(a.alloc_page(), Some(Page { addr: 0x8000_2000 }));
    assert_eq!(a.alloc_page(), Some(Page { addr: 0x8000_1000 }));
    assert_eq!(a.alloc_page(), Some(Page { addr: 0x8000_0000 }));
    assert_eq!(a.alloc_page(), Some(Page { addr: 0x8000_4000 }));
}

#[test]
fn released_user_space_gives_all_its_frames_back() {
    let (mut mem, mut a) = machine(0x8000_0000, 16);
    let mut us = UserSpace::new(&mut mem, &mut a).unwrap();
    let rw = PTEFlags::R().union(PTEFlags::W()).union(PTEFlags::U());
    us.map_page(&mut mem, &mut a, Addr::new(0x1000), rw).unwrap();
    us.map_page(&mut mem, &mut a, Addr::new(0x2000), rw).unwrap();
    // Root, a data frame, two tables, a data frame.
    assert_eq!(a.alloc_page(), Some(Page { addr: 0x8000_5000 }));
    us.release(&mem, &mut a);
    let mut again: Vec<u64> = Vec::new();
    for _ in 0..5 {
        again.push(a.alloc_page().unwrap().addr);
    }
    again.sort();
    assert_eq!(
        again,
        vec![0x8000_0000, 0x8000_1000, 0x8000_2000, 0x8000_3000, 0x8000_4000]
    );
    assert_eq!(a.alloc_page(), Some(Page { addr: 0x8000_6000 }));
}

#[test]
fn kernel_space_is_built_in_one_step() {
    let (mut mem, mut a) = machine(0x8700_0000, 256);
    let ks = kvminit(&mut mem, &mut a, 0x8030_0000, 0x8020_4000).unwrap();
    assert_eq!(
        ks.page_table().translate(&mem, Addr::new(TRAMPOLINE), false),
        Some(Addr::new(0x8020_4000))
    );
    let lines = ks.print_kernel_pagetable(&mem);
    // 0x7e00 pages of memory, the trampoline, 32 stack pages, and the tables above them.
    let leaves = lines.iter().filter(|l| l.level == 0).count();
    assert_eq!(leaves, 0x7e00 + 1 + 32);
    assert_eq!(lines.iter().filter(|l| l.level == 2).count(), 2);
    assert_eq!(lines.iter().filter(|l| l.level == 1).count(), 63 + 1);
    // Kernel mappings are not for the user, so the self-test finds no translation.
    assert_eq!(ks.space_test(&mem), None);
    let (mut small, mut none) = machine(0x8700_0000, 4);
    assert!(kvminit(&mut small, &mut none, 0x8030_0000, 0x8020_4000).is_err());
}

#[test]
fn walk_test_translates_random_addresses_of_the_kernel_range() {
    let (mut mem, mut a) = machine(0x8700_0000, 64);
    let mut pt = PageTable::new(&mut mem, &mut a).unwrap();
    assert_eq!(pt.walk_test(&mem), None);
    let rxu = PTEFlags::R().union(PTEFlags::X()).union(PTEFlags::U());
    pt.map_range(
        &mut mem,
        &mut a,
        Addr::new(0x8020_0000),
        Addr::new(0x9020_0000),
        0x60_0000,
        rxu,
    )
    .unwrap();
    let pairs = pt.walk_test(&mem).unwrap();
    assert_eq!(pairs.len(), 10);
    for (va, pa) in &pairs {
        assert!(va.bits >= 0x8020_0000 && va.bits < 0x8080_0000);
        assert_eq!(pa.bits, va.bits + 0x1000_0000);
    }
    let mut distinct: Vec<u64> = pairs.iter().map(|p| p.0.bits).collect();
    distinct.sort();
    distinct.dedup();
    assert!(distinct.len() > 1);
    let us_lines = {
        let (mut m2, mut a2) = machine(0x8000_0000, 8);
        let us = UserSpace::new(&mut m2, &mut a2).unwrap();
        us.print_user_pagetable(&m2)
    };
    assert!(us_lines.is_empty());
}

#[test]
fn kernel_space_takes_exactly_the_frames_it_costs() {
    // The root; one middle and 63 leaf pages for memory; two pages for the
    // trampoline; and 32 frames for the stacks, which share its leaf page.
    let cost = 1 + (1 + 63) + 2 + 32;
    let (mut mem, mut a) = machine(0x8700_0000, cost);
    assert!(kvminit(&mut mem, &mut a, 0x8030_0000, 0x8020_4000).is_ok());
    assert_eq!(a.alloc_page(), None);
    let (mut mem, mut a) = machine(0x8700_0000, cost - 1);
    assert!(kvminit(&mut mem, &mut a, 0x8030_0000, 0x8020_4000).is_err());
    assert_eq!(a.alloc_page(), None);
    let (mut mem, mut a) = machine(0x8700_0000, cost + 1);
    assert!(kvminit(&mut mem, &mut a, 0x8030_0000, 0x8020_4000).is_ok());
    assert_eq!(a.alloc_page(), Some(Page { addr: 0x8700_0000 + 4096 * cost as u64 }));
}

#[test]
fn a_leaf_above_the_leaf_level_is_listed_and_not_followed() {
    let (mut mem, mut a) = machine(0x8000_0000, 16);
    let mut pt = PageTable::new(&mut mem, &mut a).unwrap();
    let rw = PTEFlags::R().union(PTEFlags::W());
    let va = ((1u64 << 18) | (2 << 9) | 3) << 12;
    pt.map(&mut mem, &mut a, Addr::new(va), Addr::new(0x9000_0000), rw).unwrap();
    let large = PageTableEntry::new(Addr::new(0xa000_0000), rw.union(PTEFlags::V()));
    mem.write(Page { addr: 0x8000_0000 }, 0, large.bits);
    mem.write(Page { addr: 0x8000_1000 }, 7, large.bits);
    let interior = |pa: u64| PageTableEntry::new(Addr::new(pa), PTEFlags::V());
    assert_eq!(
        pt.print_page_table(&mem),
        vec![
            PageTableLine { level: 2, index: 0, entry: large },
            PageTableLine { level: 2, index: 1, entry: interior(0x8000_1000) },
            PageTableLine { level: 1, index: 2, entry: interior(0x8000_2000) },
            PageTableLine { level: 0, index: 3, entry: large_leaf(0x9000_0000) },
            PageTableLine { level: 1, index: 7, entry: large },
        ]
    );
}

fn large_leaf(pa: u64) -> PageTableEntry {
    PageTableEntry::new(Addr::new(pa), PTEFlags::R().union(PTEFlags::W()).union(PTEFlags::V()))
}
