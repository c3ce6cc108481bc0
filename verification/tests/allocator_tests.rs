use kernel::mem::address::{Addr, Page};
use kernel::mem::page_allocator::{kalloc, kfree, kinit, FreeList, PageAllocator, PageTracker};

fn allocator(start: u64, end: u64) -> PageAllocator {
    let mut a = PageAllocator::empty();
    a.init(Addr::new(start), Addr::new(end));
    a
}

#[test]
fn empty_allocator_hands_out_nothing() {
    let mut a = PageAllocator::empty();
    assert!(a.alloc_page().is_none());
}

#[test]
fn bump_allocation_goes_up_by_pages() {
    let mut a = allocator(0x8000_0000, 0x8000_3000);
    assert_eq!(a.alloc_page(), Some(Page { addr: 0x8000_0000 }));
    assert_eq!(a.alloc_page(), Some(Page { addr: 0x8000_1000 }));
    assert_eq!(a.alloc_page(), Some(Page { addr: 0x8000_2000 }));
    assert_eq!(a.alloc_page(), None);
    assert_eq!(a.alloc_page(), None);
}

#[test]
fn last_released_frame_is_reused_first() {
    let mut a = allocator(0x8000_0000, 0x8001_0000);
    let first = a.alloc_page().unwrap();
    let second = a.alloc_page().unwrap();
    assert_ne!(first, second);
    a.dealloc(first);
    let third = a.alloc_page().unwrap();
    assert_eq!(third, first);
}

#[test]
fn free_list_is_lifo() {
    let mut a = allocator(0x8000_0000, 0x8001_0000);
    let first = a.alloc_page().unwrap();
    let second = a.alloc_page().unwrap();
    let third = a.alloc_page().unwrap();
    a.dealloc(first);
    a.dealloc(second);
    a.dealloc(third);
    assert_eq!(a.alloc_page(), Some(third));
    assert_eq!(a.alloc_page(), Some(second));
    assert_eq!(a.alloc_page(), Some(first));
    assert_eq!(a.alloc_page(), Some(Page { addr: 0x8000_3000 }));
}

#[test]
fn free_list_is_preferred_over_bump() {
    let mut a = allocator(0x8000_0000, 0x8000_2000);
    let first = a.alloc_page().unwrap();
    a.dealloc(first);
    assert_eq!(a.alloc_page(), Some(first));
    assert_eq!(a.alloc_page(), Some(Page { addr: 0x8000_1000 }));
    assert_eq!(a.alloc_page(), None);
}

#[test]
fn tickets_wrap_frames() {
    let mut a = allocator(0x8000_0000, 0x8000_2000);
    let t0 = kalloc(&mut a).unwrap();
    assert_eq!(t0.page(), Page { addr: 0x8000_0000 });
    let t1 = kalloc(&mut a).unwrap();
    assert_eq!(t1.page().addr, 0x8000_1000);
    assert!(kalloc(&mut a).is_none());
    kfree(&mut a, t0);
    let t2 = kalloc(&mut a).unwrap();
    assert_eq!(t2.page().addr, 0x8000_0000);
    assert_eq!(PageTracker::new(Page { addr: 0x5000 }).page().addr, 0x5000);
}

#[test]
fn kinit_rounds_the_kernel_end_up() {
    let mut a = PageAllocator::empty();
    kinit(&mut a, 0x8020_0123);
    assert_eq!(a.alloc_page(), Some(Page { addr: 0x8020_1000 }));
    let mut b = PageAllocator::empty();
    kinit(&mut b, 0x87ff_f001);
    assert_eq!(b.alloc_page(), None);
    let mut c = PageAllocator::empty();
    kinit(&mut c, 0x87ff_f000);
    assert_eq!(c.alloc_page(), Some(Page { addr: 0x87ff_f000 }));
    assert_eq!(c.alloc_page(), None);
}

#[test]
fn free_list_operations() {
    let mut l = FreeList::empty();
    assert!(l.is_empty());
    assert_eq!(l.pop_front(), None);
    l.push_front(Page { addr: 0x1000 });
    l.push_front(Page { addr: 0x2000 });
    l.push_back(Page { addr: 0x3000 });
    assert!(!l.is_empty());
    assert_eq!(l.pop_front(), Some(Page { addr: 0x2000 }));
    assert_eq!(l.pop_front(), Some(Page { addr: 0x1000 }));
    assert_eq!(l.pop_front(), Some(Page { addr: 0x3000 }));
    assert_eq!(l.pop_front(), None);
}
