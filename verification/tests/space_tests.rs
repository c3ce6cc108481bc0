use kernel::mem::address::{Addr, Page};
use kernel::mem::elf::{read_segments, ProgramSegment, SegmentPlace, SegmentType};
use kernel::mem::kernel_space::{kernel_sp_i, kernel_stack_i, KernelSpace};
use kernel::mem::page_allocator::PageAllocator;
use kernel::mem::page_table::MapError;
use kernel::mem::phys_mem::PhysMemory;
use kernel::mem::user_space::{check_image, LoadError, UserSpace};
use kernel::mem_layout::{TRAMPOLINE, TRAP_FRAME};

const KERNEL_BASE: u64 = 0x8020_0000;
const PHYS_TOP: u64 = 0x8800_0000;

fn put16(v: &mut Vec<u8>, x: u16) {
    v.extend_from_slice(&x.to_le_bytes());
}

fn put32(v: &mut Vec<u8>, x: u32) {
    v.extend_from_slice(&x.to_le_bytes());
}

fn put64(v: &mut Vec<u8>, x: u64) {
    v.extend_from_slice(&x.to_le_bytes());
}

struct Seg {
    kind: u32,
    flags: u32,
    vaddr: u64,
    data: Vec<u8>,
    memsz: u64,
}

fn load(flags: u32, vaddr: u64, data: &[u8], memsz: u64) -> Seg {
    Seg { kind: 1, flags, vaddr, data: data.to_vec(), memsz }
}

/// A 64-bit ELF image with the given program headers, the data of the
/// segments placed after the headers.
fn elf(segs: &[Seg]) -> Vec<u8> {
    let mut v: Vec<u8> = Vec::new();
    v.extend_from_slice(&[0x7f, 0x45, 0x4c, 0x46, 2, 1, 1, 0, 0, 0, 0, 0, 0, 0, 0, 0]);
    put16(&mut v, 2);
    put16(&mut v, 0xf3);
    put32(&mut v, 1);
    put64(&mut v, 0x1_0000);
    put64(&mut v, 64);
    put64(&mut v, 0);
    put32(&mut v, 0);
    put16(&mut v, 64);
    put16(&mut v, 56);
    put16(&mut v, segs.len() as u16);
    put16(&mut v, 64);
    put16(&mut v, 0);
    put16(&mut v, 0);
    assert_eq!(v.len(), 64);
    let mut offset = 64 + 56 * segs.len() as u64;
    for s in segs {
        put32(&mut v, s.kind);
        put32(&mut v, s.flags);
        put64(&mut v, offset);
        put64(&mut v, s.vaddr);
        put64(&mut v, s.vaddr);
        put64(&mut v, s.data.len() as u64);
        put64(&mut v, s.memsz);
        put64(&mut v, 0x1000);
        offset += s.data.len() as u64;
    }
    for s in segs {
        v.extend_from_slice(&s.data);
    }
    v
}

fn machine(base: u64, frames: usize) -> (PhysMemory, PageAllocator) {
    let mem = PhysMemory::new(base, frames);
    let mut a = PageAllocator::empty();
    a.init(Addr::new(base), Addr::new(base + 4096 * frames as u64));
    (mem, a)
}

#[test]
fn kernel_stacks_lie_below_the_trampoline_with_guard_pages() {
    assert_eq!(TRAMPOLINE, (1u64 << 38) - 4096);
    assert_eq!(TRAP_FRAME, TRAMPOLINE - 4096);
    assert_eq!(kernel_stack_i(0).bits, TRAMPOLINE - 0x3000);
    assert_eq!(kernel_sp_i(0), TRAMPOLINE - 0x1000);
    assert_eq!(kernel_stack_i(1).bits, TRAMPOLINE - 0x6000);
    assert_eq!(kernel_sp_i(1), TRAMPOLINE - 0x4000);
    assert_eq!(kernel_stack_i(15).bits, TRAMPOLINE - 16 * 0x3000);
}

#[test]
fn kernel_space_maps_image_trampoline_and_stacks() {
    // Memory for page tables and stacks only; the image is mapped, not held.
    let (mut mem, mut a) = machine(0x8700_0000, 256);
    let mut ks = KernelSpace::new(&mut mem, &mut a).unwrap();
    let etext = 0x8020_5000u64;
    let trampoline = 0x8020_4000u64;
    assert_eq!(ks.init(&mut mem, &mut a, etext, trampoline), Ok(()));
    let pt = ks.page_table();
    assert_eq!(ks.make_satp(), (8u64 << 60) | (0x8700_0000u64 >> 12));
    // Text: identity, read and execute.
    for va in [KERNEL_BASE, KERNEL_BASE + 0x123, etext - 1] {
        assert_eq!(pt.translate(&mem, Addr::new(va), false), Some(Addr::new(va)));
        assert_eq!(pt.lookup(&mem, Addr::new(va)).unwrap().flags().bits(), 2 | 8 | 1);
    }
    // The rest: identity, read and write.
    for va in [etext, 0x8700_0000, PHYS_TOP - 1] {
        assert_eq!(pt.translate(&mem, Addr::new(va), false), Some(Addr::new(va)));
        assert_eq!(pt.lookup(&mem, Addr::new(va)).unwrap().flags().bits(), 2 | 4 | 1);
    }
    assert_eq!(pt.translate(&mem, Addr::new(PHYS_TOP), false), None);
    assert_eq!(pt.translate(&mem, Addr::new(KERNEL_BASE - 1), false), None);
    // Trampoline: read and execute, not for the user.
    assert_eq!(
        pt.translate(&mem, Addr::new(TRAMPOLINE + 8), false),
        Some(Addr::new(trampoline + 8))
    );
    assert_eq!(pt.lookup(&mem, Addr::new(TRAMPOLINE)).unwrap().flags().bits(), 2 | 8 | 1);
    assert_eq!(pt.translate(&mem, Addr::new(TRAMPOLINE), true), None);
    // Stacks: two pages each, a guard page above.
    for id in 0..16usize {
        let lo = kernel_stack_i(id).bits;
        let first = pt.translate(&mem, Addr::new(lo), false).unwrap();
        let second = pt.translate(&mem, Addr::new(lo + 0x1000), false).unwrap();
        assert_ne!(first, second);
        assert!(mem.has_page(Page::new(first.bits)));
        assert_eq!(pt.lookup(&mem, Addr::new(lo)).unwrap().flags().bits(), 2 | 4 | 1);
        assert_eq!(pt.translate(&mem, Addr::new(lo + 0x2000), false), None);
    }
    assert_eq!(pt.translate(&mem, Addr::new(kernel_stack_i(15).bits - 1), false), None);
}

#[test]
fn kernel_space_init_fails_without_frames() {
    let (mut mem, mut a) = machine(0x8700_0000, 8);
    let mut ks = KernelSpace::new(&mut mem, &mut a).unwrap();
    assert_eq!(
        ks.init(&mut mem, &mut a, 0x8020_5000, 0x8020_4000),
        Err(MapError::OutOfFrames)
    );
    assert_eq!(a.alloc_page(), None);
}

#[test]
fn program_headers_are_read_from_the_image() {
    let image = elf(&[
        load(5, 0x1_0000, b"code", 0x10),
        Seg { kind: 6, flags: 4, vaddr: 0x40, data: vec![], memsz: 0 },
        load(6, 0x2_0800, b"data!", 0x2000),
    ]);
    let segs = read_segments(&image).unwrap();
    assert_eq!(segs.len(), 3);
    assert_eq!(
        segs[0],
        ProgramSegment {
            kind: SegmentType::Load,
            place: SegmentPlace {
                offset: 64 + 3 * 56,
                file_size: 4,
                virtual_addr: 0x1_0000,
                mem_size: 0x10,
                read: true,
                write: false,
                execute: true,
            },
        }
    );
    assert_eq!(segs[1].kind, SegmentType::Phdr);
    assert_eq!(segs[2].kind, SegmentType::Load);
    assert_eq!(segs[2].place.offset, 64 + 3 * 56 + 4);
    assert_eq!(segs[2].place.file_size, 5);
    assert_eq!(segs[2].place.virtual_addr, 0x2_0800);
    assert_eq!(segs[2].place.mem_size, 0x2000);
    assert!(segs[2].place.read && segs[2].place.write && !segs[2].place.execute);
}

#[test]
fn images_that_cannot_be_read_have_no_program_headers() {
    assert!(read_segments(&[]).is_none());
    assert!(read_segments(&[0u8; 64]).is_none());
    // Program header table beyond the end of the image.
    let mut image = elf(&[load(5, 0x1_0000, b"code", 0x10)]);
    image.truncate(100);
    assert!(read_segments(&image).is_none());
    // A program header of unknown type.
    let image = elf(&[Seg { kind: 0x1234, flags: 4, vaddr: 0, data: vec![], memsz: 0 }]);
    assert!(read_segments(&image).is_none());
    // No program headers at all.
    assert_eq!(read_segments(&elf(&[])).unwrap().len(), 0);
}

#[test]
fn program_is_loaded_with_trampoline_trap_frame_and_stack() {
    let (mut mem, mut a) = machine(0x8000_0000, 64);
    let mut us = UserSpace::new(&mut mem, &mut a).unwrap();
    let code: Vec<u8> = (0..100u8).collect();
    let image = elf(&[load(5, 0x1_0000, &code, 0x1800), load(6, 0x1_2008, b"hi\n", 0x10)]);
    let trampoline = 0x8020_4000u64;
    let (sp, tf) = us.init_from_elf(&mut mem, &mut a, &image, trampoline).unwrap();
    // The program ends at 0x12018: pages up to 0x13000, a guard page, two pages of stack.
    assert_eq!(sp.bits, 0x1_4000 + 0x2000);
    let pt = us.page_table();
    assert_eq!(
        pt.translate(&mem, Addr::new(TRAMPOLINE), false),
        Some(Addr::new(trampoline))
    );
    assert_eq!(pt.translate(&mem, Addr::new(TRAMPOLINE), true), None);
    assert_eq!(pt.translate(&mem, Addr::new(TRAP_FRAME), false), Some(tf));
    assert_eq!(pt.translate(&mem, Addr::new(TRAP_FRAME), true), None);
    assert_eq!(pt.lookup(&mem, Addr::new(TRAP_FRAME)).unwrap().flags().bits(), 2 | 4 | 1);
    // Segment flags: read, execute, user; and read, write, user.
    assert_eq!(pt.lookup(&mem, Addr::new(0x1_0000)).unwrap().flags().bits(), 2 | 8 | 16 | 1);
    assert_eq!(pt.lookup(&mem, Addr::new(0x1_1000)).unwrap().flags().bits(), 2 | 8 | 16 | 1);
    assert_eq!(pt.lookup(&mem, Addr::new(0x1_2000)).unwrap().flags().bits(), 2 | 4 | 16 | 1);
    // The guard page, and the pages around the program.
    assert!(!pt.is_mapped(&mem, Addr::new(0x1_3000)));
    assert!(!pt.is_mapped(&mem, Addr::new(0xf000)));
    // The stack.
    assert_eq!(pt.lookup(&mem, Addr::new(0x1_4000)).unwrap().flags().bits(), 2 | 4 | 16 | 1);
    assert_eq!(pt.lookup(&mem, Addr::new(0x1_5fff)).unwrap().flags().bits(), 2 | 4 | 16 | 1);
    assert!(!pt.is_mapped(&mem, Addr::new(0x1_6000)));
    // Contents: the file part, then zeros.
    assert_eq!(us.copy_from_user(&mem, Addr::new(0x1_0000), 100), Some(code.clone()));
    assert_eq!(us.copy_from_user(&mem, Addr::new(0x1_0064), 8), Some(vec![0u8; 8]));
    assert_eq!(us.copy_from_user(&mem, Addr::new(0x1_2008), 3), Some(b"hi\n".to_vec()));
    assert_eq!(us.copy_from_user(&mem, Addr::new(0x1_200b), 5), Some(vec![0u8; 5]));
    assert_eq!(us.copy_from_user(&mem, Addr::new(0x1_2000), 8), Some(vec![0u8; 8]));
    assert_eq!(us.copy_from_user(&mem, Addr::new(0x1_4000), 4), Some(vec![0u8; 4]));
    // Across a page boundary into the guard page: refused.
    assert_eq!(us.copy_from_user(&mem, Addr::new(0x1_2ffe), 4), None);
    assert_eq!(us.copy_from_user(&mem, Addr::new(TRAP_FRAME), 1), None);
    assert_eq!(us.copy_from_user(&mem, Addr::new(0), 1), None);
    assert_eq!(us.copy_from_user(&mem, Addr::new(0), 0), Some(vec![]));
}

#[test]
fn image_without_magic_is_refused_before_anything_is_mapped() {
    let (mut mem, mut a) = machine(0x8000_0000, 64);
    let mut us = UserSpace::new(&mut mem, &mut a).unwrap();
    let mut image = elf(&[load(5, 0x1_0000, b"code", 0x10)]);
    image[0] = 0;
    image[1] = 0;
    image[2] = 0;
    image[3] = 0;
    assert_eq!(
        us.init_from_elf(&mut mem, &mut a, &image, 0x8020_4000),
        Err(LoadError::BadImage)
    );
    assert!(!us.page_table().is_mapped(&mem, Addr::new(TRAMPOLINE)));
    assert!(!us.page_table().is_mapped(&mem, Addr::new(0x1_0000)));
    // Only the root of the page table has been taken.
    assert_eq!(a.alloc_page(), Some(Page { addr: 0x8000_1000 }));
    let (mut mem2, mut a2) = machine(0x8000_0000, 64);
    let mut us2 = UserSpace::new(&mut mem2, &mut a2).unwrap();
    assert_eq!(
        us2.init_from_elf(&mut mem2, &mut a2, &[0x7f, 0x45, 0x4c], 0x8020_4000),
        Err(LoadError::BadImage)
    );
}

#[test]
fn images_that_cannot_be_placed_are_refused() {
    let place = |segs: &[Seg]| {
        let (mut mem, mut a) = machine(0x8000_0000, 64);
        let mut us = UserSpace::new(&mut mem, &mut a).unwrap();
        let r = us.init_from_elf(&mut mem, &mut a, &elf(segs), 0x8020_4000);
        (r, a.alloc_page())
    };
    // Two segments in one page.
    let (r, next) = place(&[load(5, 0x1_0000, b"a", 0x10), load(6, 0x1_0800, b"b", 0x10)]);
    assert_eq!(r, Err(LoadError::BadImage));
    assert_eq!(next, Some(Page { addr: 0x8000_1000 }));
    // A file part larger than the memory of the segment.
    let (r, _) = place(&[load(5, 0x1_0000, b"abcdef", 2)]);
    assert_eq!(r, Err(LoadError::BadImage));
    // A segment that reaches up to the trap frame.
    let (r, _) = place(&[load(5, TRAP_FRAME - 0x1000, b"a", 0x1000)]);
    assert_eq!(r, Err(LoadError::BadImage));
    // A file part beyond the end of the image.
    let mut image = elf(&[load(5, 0x1_0000, b"abcdef", 0x10)]);
    image.truncate(64 + 56 + 2);
    let (mut mem, mut a) = machine(0x8000_0000, 64);
    let mut us = UserSpace::new(&mut mem, &mut a).unwrap();
    assert_eq!(
        us.init_from_elf(&mut mem, &mut a, &image, 0x8020_4000),
        Err(LoadError::BadImage)
    );
}

#[test]
fn check_image_tells_what_can_be_placed() {
    let seg = |vaddr: u64, memsz: u64| ProgramSegment {
        kind: SegmentType::Load,
        place: SegmentPlace {
            offset: 0,
            file_size: 0,
            virtual_addr: vaddr,
            mem_size: memsz,
            read: true,
            write: false,
            execute: false,
        },
    };
    let magic = [0x7fu8, 0x45, 0x4c, 0x46];
    assert!(check_image(&magic, &vec![]));
    assert!(!check_image(&[0x7f, 0x45, 0x4c, 0x47], &vec![]));
    assert!(check_image(&magic, &vec![seg(0x1000, 0x1000), seg(0x2000, 1)]));
    assert!(!check_image(&magic, &vec![seg(0x1000, 0x1001), seg(0x2000, 1)]));
    // Segments of no size take up no page.
    assert!(check_image(&magic, &vec![seg(0x1000, 0x1000), seg(0x1800, 0)]));
    // Room for the guard page and the stack below the trap frame.
    assert!(check_image(&magic, &vec![seg(TRAP_FRAME - 0x4000, 0x1000)]));
    assert!(!check_image(&magic, &vec![seg(TRAP_FRAME - 0x4000, 0x1001)]));
}

#[test]
fn loading_fails_when_frames_run_out() {
    let (mut mem, mut a) = machine(0x8000_0000, 6);
    let mut us = UserSpace::new(&mut mem, &mut a).unwrap();
    let image = elf(&[load(5, 0x1_0000, b"code", 0x3000)]);
    assert_eq!(
        us.init_from_elf(&mut mem, &mut a, &image, 0x8020_4000),
        Err(LoadError::OutOfFrames)
    );
    assert_eq!(a.alloc_page(), None);
}

#[test]
fn user_bytes_are_written_through_the_page_table() {
    let (mut mem, mut a) = machine(0x8000_0000, 64);
    let mut us = UserSpace::new(&mut mem, &mut a).unwrap();
    let image = elf(&[load(6, 0x1_0ffc, b"12345678", 0x100)]);
    us.init_from_elf(&mut mem, &mut a, &image, 0x8020_4000).unwrap();
    assert_eq!(
        us.copy_from_user(&mem, Addr::new(0x1_0ffc), 8),
        Some(b"12345678".to_vec())
    );
    us.write_user_byte(&mut mem, &a, Addr::new(0x1_1000), b'X');
    assert_eq!(
        us.copy_from_user(&mem, Addr::new(0x1_0ffc), 8),
        Some(b"1234X678".to_vec())
    );
    us.load_segment(&mut mem, &a, Addr::new(0x1_0ffe), b"ab");
    assert_eq!(
        us.copy_from_user(&mem, Addr::new(0x1_0ffc), 8),
        Some(b"12abX678".to_vec())
    );
}

#[test]
fn program_headers_are_read_wherever_the_image_lies() {
    let image = elf(&[load(5, 0x1_0000, b"code", 0x10), load(6, 0x2_0800, b"data!", 0x2000)]);
    let expect = read_segments(&image).unwrap();
    for shift in 0..16usize {
        let mut shifted = vec![0xaau8; shift];
        shifted.extend_from_slice(&image);
        assert_eq!(read_segments(&shifted[shift..]), Some(expect.clone()));
    }
}
