//! The address space of a user task and the loading of its program.

use vstd::prelude::*;
use crate::mem::address::{Addr, Page, lemma_vpn_indexes, vpn, vpn_index};
use crate::mem::elf::{ProgramSegment, SegmentPlace, SegmentType, elf_segments, read_segments};
use crate::mem::frame_map::FrameMap;
use crate::mem::mapper::{
    data_grown, flags_rw, flags_rx, lemma_space_grown_trans, lemma_table_growth, map_fresh,
    space_grown, space_inv, with_valid,
};
use crate::mem::page_allocator::PageAllocator;
use crate::mem::page_table::{
    MapError, PTEFlags, PTE_R, PTE_U, PTE_W, PTE_X, PageTable, PageTableEntry, PageTableLine,
    TableShape, min_int, table_lines,
};
use crate::mem::phys_mem::PhysMemory;
use crate::mem_layout::{
    MAX_PHYS_ADDR, MAX_VIRT_ADDR, PAGE_SIZE, TRAMPOLINE, TRAP_FRAME, USER_STACK_SIZE,
};

verus! {

/// Why a program could not be loaded.
#[derive(Clone, Copy, PartialEq, Eq, Structural, Debug)]
pub enum LoadError {
    /// The image is not an ELF image that this loader can place.
    BadImage,
    /// The frame allocator ran out of frames.
    OutOfFrames,
}

/// A plan of an address space: the flags asked for each mapped page, by
/// virtual page number.
pub type Plan = Map<int, PTEFlags>;

/// The plan `plan` with the pages `first` up to, not including, `end`
/// set to `flags`.
pub open spec fn plan_with_range(plan: Plan, first: int, end: int, flags: PTEFlags) -> Plan {
    Map::new(
        |v: int| plan.contains_key(v) || first <= v < end,
        |v: int|
            if first <= v < end {
                flags
            } else {
                plan[v]
            },
    )
}

/// The sum of two sizes, held at the largest value where it would pass it.
pub open spec fn saturating_sum(a: int, b: int) -> int {
    if a + b > u64::MAX {
        u64::MAX as int
    } else {
        a + b
    }
}

/// A user address space: a page table, the data frames mapped in it, and
/// the bytes allocated for program segments.
pub struct UserSpace {
    page_table: PageTable,
    data_pages: FrameMap,
    size: u64,
    // The flags asked for each mapped page.
    plan: Ghost<Plan>,
    // For each mapped data frame, the page that it is mapped at.
    owner: Ghost<Map<u64, int>>,
}

impl UserSpace {
    /// The page table of the space.
    pub closed spec fn table(&self) -> &PageTable {
        &self.page_table
    }

    /// The tickets of the data frames of the space.
    pub closed spec fn data(&self) -> &FrameMap {
        &self.data_pages
    }

    /// Bytes allocated for program segments.
    pub closed spec fn size(&self) -> u64 {
        self.size
    }

    /// The flags asked for each mapped page.
    pub closed spec fn layout(&self) -> Plan {
        self.plan@
    }

    /// The mappings are those of the layout; the trampoline page is not
    /// mapped for user access; every other mapped frame is a data frame
    /// of the space; and no data frame is mapped at two pages.
    pub closed spec fn wf(&self, mem: &PhysMemory) -> bool {
        forall|va: u64|
            match #[trigger] self.page_table.mapping(mem, va) {
                Some(e) => {
                    &&& self.plan@.contains_key(vpn(va))
                    &&& e.flag_bits() == with_valid(self.plan@[vpn(va)]).bits
                    &&& vpn(va) == TRAMPOLINE / 4096 ==> !e.is_user()
                    &&& vpn(va) != TRAMPOLINE / 4096 ==> {
                        &&& self.data_pages.dom().contains(e.addr())
                        &&& self.owner@.contains_key(e.addr())
                        &&& self.owner@[e.addr()] == vpn(va)
                    }
                },
                None => !self.plan@.contains_key(vpn(va)),
            }
    }

    pub open spec fn inv(&self, mem: &PhysMemory, allocator: &PageAllocator) -> bool {
        &&& space_inv(self.table(), self.data(), mem, allocator)
        &&& self.wf(mem)
    }

    /// The byte that user code finds at `va`: `None` where `va` is not
    /// mapped for user access or is mapped outside of memory.
    pub open spec fn user_byte(&self, mem: &PhysMemory, va: u64) -> Option<u8> {
        match self.table().translation(mem, va, true) {
            Some(pa) => if mem.contains_addr(pa) {
                Some(mem.byte(pa))
            } else {
                None
            },
            None => None,
        }
    }

    /// What the layout says of a mapping.
    pub proof fn lemma_layout(&self, mem: &PhysMemory, va: u64)
        requires
            self.wf(mem),
        ensures
            self.table().mapping(mem, va).is_some() <==> self.layout().contains_key(vpn(va)),
            self.table().mapping(mem, va).is_some() ==> {
                let e = self.table().mapping(mem, va).unwrap();
                &&& e.flag_bits() == with_valid(self.layout()[vpn(va)]).bits
                &&& vpn(va) != TRAMPOLINE / 4096 ==> self.data().dom().contains(e.addr())
            },
    {
    }

    /// Two pages mapped to the same frame are one page, unless one is
    /// the trampoline.
    pub proof fn lemma_no_alias(&self, mem: &PhysMemory, va1: u64, va2: u64)
        requires
            self.wf(mem),
            self.table().mapping(mem, va1).is_some(),
            self.table().mapping(mem, va2).is_some(),
            vpn(va1) != TRAMPOLINE / 4096,
            vpn(va2) != TRAMPOLINE / 4096,
            self.table().mapping(mem, va1).unwrap().addr() == self.table().mapping(
                mem,
                va2,
            ).unwrap().addr(),
        ensures
            vpn(va1) == vpn(va2),
    {
    }

    /// A space with an empty page table and nothing allocated; `None`
    /// when the allocator has no frame for the root.
    pub fn new(mem: &mut PhysMemory, allocator: &mut PageAllocator) -> (r: Option<Self>)
        requires
            old(mem).wf(),
            old(allocator)@.wf(),
            old(mem).base() <= old(allocator)@.start,
            old(allocator)@.end <= old(mem).top(),
        ensures
            final(mem).wf(),
            final(mem).same_range(old(mem)),
            final(allocator)@ == old(allocator)@.after_alloc(),
            r.is_some() <==> old(allocator)@.available() > 0,
            r.is_some() ==> {
                let s = r.unwrap();
                &&& s.inv(final(mem), final(allocator))
                &&& Some(s.table().root()) == old(allocator)@.next_frame()
                &&& s.table().tables() == set![s.table().root()]
                &&& s.data().dom() == Set::<u64>::empty()
                &&& s.size() == 0
                &&& s.layout() == Map::<int, PTEFlags>::empty()
                &&& s.table().shape(final(mem)) == TableShape::bare()
            },
            forall|p: u64, i: int|
                old(mem).contains_page(p) && old(allocator)@.issued.contains(p) && 0 <= i < 512
                    ==> #[trigger] final(mem).word(p, i) == old(mem).word(p, i),
    {
        proof {
            allocator@.lemma_alloc();
        }
        match PageTable::new(mem, allocator) {
            None => None,
            Some(page_table) => {
                proof {
                    page_table.lemma_wf_tables(mem);
                }
                Some(
                    UserSpace {
                        page_table,
                        data_pages: FrameMap::new(),
                        size: 0,
                        plan: Ghost(Map::empty()),
                        owner: Ghost(Map::empty()),
                    },
                )
            },
        }
    }

    /// The SATP value that selects the page table of the space.
    pub fn make_satp(&self) -> (r: u64)
        ensures
            r == 0x8000_0000_0000_0000 + self.table().root() / 4096,
    {
        self.page_table.make_satp()
    }

    /// The page table of the space.
    pub fn page_table(&self) -> (r: &PageTable)
        ensures
            r == self.table(),
    {
        &self.page_table
    }
}

/// Whether flags hold the user flag.
pub open spec fn has_user(flags: PTEFlags) -> bool {
    (flags.bits / 16) % 2 == 1
}

/// Every byte of a zero word is zero, and adding the valid flag keeps
/// the user flag.
proof fn lemma_zero_and_user(flags: PTEFlags, k: u64)
    requires
        k < 8,
    ensures
        crate::mem::phys_mem::byte_of_word(0, k) == 0,
        has_user(with_valid(flags)) == has_user(flags),
{
    assert(k < 8 ==> ((0u64 >> (8 * k)) & 0xff) as u8 == 0) by (bit_vector);
    let f: u8 = flags.bits;
    assert(((f | 1u8) / 16) % 2 == (f / 16) % 2) by (bit_vector);
}

impl UserSpace {
    /// Maps the page of `va`, which the layout must not hold yet, to a
    /// fresh zeroed data frame with `flags` and the valid flag, and
    /// enters it in the layout. Returns the frame's address.
    #[verifier::rlimit(60)]
    pub fn map_page(
        &mut self,
        mem: &mut PhysMemory,
        allocator: &mut PageAllocator,
        va: Addr,
        flags: PTEFlags,
    ) -> (r: Result<Addr, MapError>)
        requires
            old(self).inv(old(mem), old(allocator)),
            va.bits <= MAX_VIRT_ADDR,
            !old(self).layout().contains_key(vpn(va.bits)),
            vpn(va.bits) != TRAMPOLINE / 4096,
        ensures
            final(self).inv(final(mem), final(allocator)),
            space_grown(
                old(self).table(),
                old(mem),
                old(allocator),
                final(self).table(),
                final(mem),
                final(allocator),
            ),
            data_grown(old(self).data().dom(), final(self).data().dom(), old(allocator)@.issued),
            final(self).size() == old(self).size(),
            final(allocator)@.available() >= old(allocator)@.available() - 3,
            old(allocator)@.available() >= 3 ==> r.is_ok(),
            r.is_err() ==> final(allocator)@.available() == 0,
            r.is_ok() <==> 1 + old(self).table().shape(old(mem)).missing_at(va.bits) <= old(
                allocator,
            )@.available(),
            final(allocator)@ == old(allocator)@.after_allocs(
                min_int(
                    1 + old(self).table().shape(old(mem)).missing_at(va.bits),
                    old(allocator)@.available(),
                ) as nat,
            ),
            final(self).table().shape(final(mem)) == old(self).table().shape(old(mem)).grown(
                vpn_index(va.bits, 2) as int,
                vpn_index(va.bits, 1) as int,
                min_int(
                    old(self).table().shape(old(mem)).missing_at(va.bits),
                    old(allocator)@.available() - 1,
                ),
            ),
            final(self).layout() == if r.is_ok() {
                old(self).layout().insert(vpn(va.bits), flags)
            } else {
                old(self).layout()
            },
            forall|va2: u64| #[trigger]
                final(self).table().mapping(final(mem), va2) == if r.is_ok() && vpn(va2) == vpn(
                    va.bits,
                ) {
                    Some(PageTableEntry::spec_new(r.unwrap().bits, with_valid(flags)))
                } else {
                    old(self).table().mapping(old(mem), va2)
                },
            forall|va2: u64| #[trigger]
                final(self).user_byte(final(mem), va2) == if r.is_ok() && vpn(va2) == vpn(va.bits) {
                    if has_user(flags) {
                        Some(0u8)
                    } else {
                        None
                    }
                } else {
                    old(self).user_byte(old(mem), va2)
                },
            r.is_ok() ==> {
                let f = r.unwrap().bits;
                &&& f % 4096 == 0
                &&& !old(allocator)@.issued.contains(f)
                &&& final(self).data().dom() == old(self).data().dom().insert(f)
                &&& final(mem).contains_page(f)
            },
    {
        proof {
            old(self).lemma_layout(old(mem), va.bits);
            old(self).table().lemma_shape_missing(old(mem), va.bits);
        }
        let res = map_fresh(
            &mut self.page_table,
            &mut self.data_pages,
            mem,
            allocator,
            va,
            flags,
        );
        match res {
            Err(e) => {
                proof {
                    assert forall|va2: u64| #[trigger]
                        self.user_byte(mem, va2) == old(self).user_byte(old(mem), va2) by {
                        old(self).lemma_user_byte_kept(old(mem), old(allocator), mem, va2);
                    }
                }
                Err(e)
            },
            Ok(pa) => {
                self.plan = Ghost(self.plan@.insert(vpn(va.bits), flags));
                self.owner = Ghost(self.owner@.insert(pa.bits, vpn(va.bits)));
                proof {
                    self.table().lemma_wf_tables(mem);
                    PageTableEntry::lemma_new(pa.bits, with_valid(flags));
                    assert forall|va2: u64| #[trigger]
                        self.user_byte(mem, va2) == if vpn(va2) == vpn(va.bits) {
                            if has_user(flags) {
                                Some(0u8)
                            } else {
                                None
                            }
                        } else {
                            old(self).user_byte(old(mem), va2)
                        } by {
                        if vpn(va2) == vpn(va.bits) {
                            let e = PageTableEntry::spec_new(pa.bits, with_valid(flags));
                            let off = (va2 % 4096) as u64;
                            e.lemma_target(off);
                            let t = (pa.bits + off) as u64;
                            lemma_zero_and_user(flags, t % 8);
                            assert(mem.word(pa.bits, ((t % 4096) / 8) as int) == 0);
                        } else {
                            old(self).lemma_user_byte_kept(old(mem), old(allocator), mem, va2);
                        }
                    }
                }
                Ok(pa)
            },
        }
    }

    /// A user byte reads the same after memory changed only outside the
    /// frames in use, when its page is mapped as before.
    proof fn lemma_user_byte_kept(
        &self,
        mem: &PhysMemory,
        allocator: &PageAllocator,
        mem2: &PhysMemory,
        va: u64,
    )
        requires
            self.inv(mem, allocator),
            mem2.same_range(mem),
            forall|p: u64, i: int|
                mem.contains_page(p) && allocator@.issued.contains(p) && !self.table().tables().contains(
                    p,
                ) && 0 <= i < 512 ==> #[trigger] mem2.word(p, i) == mem.word(p, i),
        ensures
            self.user_byte(mem, va).is_some() ==> {
                let pa = self.table().translation(mem, va, true).unwrap();
                mem2.contains_addr(pa) && mem2.byte(pa) == mem.byte(pa)
            },
    {
        if self.user_byte(mem, va).is_some() {
            let e = self.table().mapping(mem, va).unwrap();
            let off = (va % 4096) as u64;
            e.lemma_target(off);
            let pa = (e.addr() + off) as u64;
            assert(self.table().translation(mem, va, true) == Some(pa));
            assert(vpn(va) != TRAMPOLINE / 4096);
            assert(self.data().dom().contains(e.addr()));
            let i = ((pa % 4096) / 8) as int;
            assert(mem2.word(e.addr(), i) == mem.word(e.addr(), i));
        }
    }
}

/// The flags with the user flag added.
pub open spec fn with_user(flags: PTEFlags) -> PTEFlags {
    flags.spec_union(PTEFlags { bits: PTE_U })
}

/// The number of the page that holds the last byte before `end`, plus
/// one: where a range of pages that covers bytes up to `end` stops.
pub open spec fn end_vpn(end: int) -> int {
    (end + 4095) / 4096
}

impl UserSpace {
    /// A user byte reads the same when its page is mapped as before and
    /// the frames in use kept their contents.
    proof fn lemma_user_byte_same(
        &self,
        mem: &PhysMemory,
        allocator: &PageAllocator,
        other: &UserSpace,
        mem2: &PhysMemory,
        va: u64,
    )
        requires
            self.inv(mem, allocator),
            mem2.same_range(mem),
            other.table().mapping(mem2, va) == self.table().mapping(mem, va),
            forall|p: u64, i: int|
                mem.contains_page(p) && allocator@.issued.contains(p) && !self.table().tables().contains(
                    p,
                ) && 0 <= i < 512 ==> #[trigger] mem2.word(p, i) == mem.word(p, i),
        ensures
            other.user_byte(mem2, va) == self.user_byte(mem, va),
    {
        self.lemma_user_byte_kept(mem, allocator, mem2, va);
        if self.table().mapping(mem, va).is_some() {
            let e = self.table().mapping(mem, va).unwrap();
            let off = (va % 4096) as u64;
            e.lemma_target(off);
            if e.is_user() {
                let pa = (e.addr() + off) as u64;
                assert(vpn(va) != TRAMPOLINE / 4096);
                assert(mem.contains_page(e.addr()));
                assert(mem.contains_addr(pa));
                assert(mem2.contains_addr(pa));
            }
        }
    }

    /// Maps the trampoline page to the frame at `trampoline` for read
    /// and execute, and the trap frame page to a fresh frame for read
    /// and write, neither for user access. Returns the address of the
    /// trap frame's frame.
    pub fn init_pagetable(
        &mut self,
        mem: &mut PhysMemory,
        allocator: &mut PageAllocator,
        trampoline: u64,
    ) -> (r: Result<Addr, MapError>)
        requires
            old(self).inv(old(mem), old(allocator)),
            trampoline <= MAX_PHYS_ADDR,
            !old(self).layout().contains_key(TRAMPOLINE as int / 4096),
            !old(self).layout().contains_key(TRAP_FRAME as int / 4096),
        ensures
            final(self).inv(final(mem), final(allocator)),
            space_grown(
                old(self).table(),
                old(mem),
                old(allocator),
                final(self).table(),
                final(mem),
                final(allocator),
            ),
            data_grown(old(self).data().dom(), final(self).data().dom(), old(allocator)@.issued),
            final(self).size() == old(self).size(),
            old(allocator)@.available() >= 5 ==> r.is_ok(),
            final(allocator)@.available() >= old(allocator)@.available() - 5,
            r.is_err() ==> final(allocator)@.available() == 0,
            r.is_ok() <==> old(self).table().shape(old(mem)).missing_at(TRAMPOLINE) + 1 <= old(
                allocator,
            )@.available(),
            final(allocator)@ == old(allocator)@.after_allocs(
                min_int(
                    old(self).table().shape(old(mem)).missing_at(TRAMPOLINE) + 1,
                    old(allocator)@.available(),
                ) as nat,
            ),
            r.is_ok() ==> final(self).table().shape(final(mem)) == old(self).table().shape(
                old(mem),
            ).with_page(TRAMPOLINE),
            r.is_ok() ==> {
                &&& final(self).layout() == old(self).layout().insert(
                    TRAMPOLINE as int / 4096,
                    flags_rx(),
                ).insert(TRAP_FRAME as int / 4096, flags_rw())
                &&& final(self).table().mapping(final(mem), TRAMPOLINE) == Some(
                    PageTableEntry::spec_new(trampoline, with_valid(flags_rx())),
                )
                &&& final(self).table().mapping(final(mem), TRAP_FRAME) == Some(
                    PageTableEntry::spec_new(r.unwrap().bits, with_valid(flags_rw())),
                )
                &&& final(self).data().dom().contains(r.unwrap().bits)
                &&& final(mem).contains_page(r.unwrap().bits)
            },
            r.is_err() ==> (final(self).layout() == old(self).layout() || final(self).layout()
                == old(self).layout().insert(TRAMPOLINE as int / 4096, flags_rx())),
            forall|va: u64| #[trigger]
                final(self).user_byte(final(mem), va) == old(self).user_byte(old(mem), va),
    {
        let ghost shape0 = self.table().shape(mem);
        let ghost m0 = shape0.missing_at(TRAMPOLINE);
        proof {
            lemma_vpn_indexes(TRAMPOLINE);
            lemma_vpn_indexes(TRAP_FRAME);
            old(self).lemma_layout(old(mem), TRAMPOLINE);
            old(self).table().lemma_shape_missing(old(mem), TRAMPOLINE);
            old(allocator)@.lemma_allocs(
                crate::mem::page_table::min_int(
                    self.table().missing_levels(mem, TRAMPOLINE),
                    allocator@.available(),
                ) as nat,
            );
            assert(vpn_index(TRAP_FRAME, 2) == vpn_index(TRAMPOLINE, 2));
            assert(vpn_index(TRAP_FRAME, 1) == vpn_index(TRAMPOLINE, 1));
        }
        let rx = PTEFlags::R().union(PTEFlags::X());
        let res = self.page_table.map(
            mem,
            allocator,
            Addr::new(TRAMPOLINE),
            Addr::new(trampoline),
            rx,
        );
        proof {
            lemma_table_growth(
                old(self).table(),
                old(mem),
                old(allocator),
                self.table(),
                mem,
                allocator,
                self.data(),
            );
        }
        if res.is_err() {
            proof {
                assert forall|va: u64| #[trigger]
                    self.user_byte(mem, va) == old(self).user_byte(old(mem), va) by {
                    old(self).lemma_user_byte_same(old(mem), old(allocator), &*self, mem, va);
                }
            }
            return Err(MapError::OutOfFrames);
        }
        self.plan = Ghost(self.plan@.insert(TRAMPOLINE as int / 4096, rx));
        proof {
            let e = PageTableEntry::spec_new(trampoline, with_valid(flags_rx()));
            PageTableEntry::lemma_new(trampoline, with_valid(flags_rx()));
            assert((((2u8 | 8u8) | 1u8) / 16) % 2 == 0) by (bit_vector);
            assert(!e.is_user());
            assert(self.wf(mem));
            assert forall|va: u64| #[trigger]
                self.user_byte(mem, va) == old(self).user_byte(old(mem), va) by {
                if vpn(va) == vpn(TRAMPOLINE) {
                    old(self).lemma_layout(old(mem), va);
                } else {
                    old(self).lemma_user_byte_same(old(mem), old(allocator), &*self, mem, va);
                }
            }
        }
        let ghost mid = *self;
        let ghost mid_mem = *mem;
        let ghost mid_allocator = *allocator;
        let rw = PTEFlags::R().union(PTEFlags::W());
        proof {
            let i2 = vpn_index(TRAMPOLINE, 2) as int;
            let i1 = vpn_index(TRAMPOLINE, 1) as int;
            assert(shape0.grown(i2, i1, m0).middle =~= shape0.with_page(TRAMPOLINE).middle);
            assert(shape0.grown(i2, i1, m0).leaf =~= shape0.with_page(TRAMPOLINE).leaf);
            let sh = shape0.with_page(TRAMPOLINE);
            assert(sh.missing_at(TRAP_FRAME) == 0);
            assert(sh.grown(i2, i1, 0).middle =~= sh.middle);
            assert(sh.grown(i2, i1, 0).leaf =~= sh.leaf);
            assert(sh.grown(i2, i1, -1).middle =~= sh.middle);
            assert(sh.grown(i2, i1, -1).leaf =~= sh.leaf);
            old(allocator)@.lemma_allocs_add(m0 as nat, 1);
            old(allocator)@.lemma_allocs_add(m0 as nat, 0);
        }
        let res2 = self.map_page(mem, allocator, Addr::new(TRAP_FRAME), rw);
        proof {
            lemma_space_grown_trans(
                old(self).table(),
                old(mem),
                old(allocator),
                mid.table(),
                &mid_mem,
                &mid_allocator,
                self.table(),
                mem,
                allocator,
            );
            assert((((2u8 | 4u8) / 16) % 2) == 0) by (bit_vector);
            assert(!has_user(flags_rw()));
        }
        res2
    }
}

impl UserSpace {
    /// The state of a space in which the pages `first` up to, not
    /// including, `k` have been added to the state `old_self` with
    /// `flags`, each on a zeroed frame of its own.
    pub open spec fn filled(
        &self,
        mem: &PhysMemory,
        old_self: &UserSpace,
        old_mem: &PhysMemory,
        first: int,
        k: int,
        flags: PTEFlags,
    ) -> bool {
        &&& self.layout() == plan_with_range(old_self.layout(), first, k, flags)
        &&& self.size() == old_self.size()
        &&& forall|va: u64|
            !(first <= vpn(va) < k) ==> #[trigger] self.table().mapping(mem, va)
                == old_self.table().mapping(old_mem, va)
        &&& forall|va: u64| #[trigger]
            self.user_byte(mem, va) == if first <= vpn(va) < k {
                if has_user(flags) {
                    Some(0u8)
                } else {
                    None
                }
            } else {
                old_self.user_byte(old_mem, va)
            }
    }

    /// Adding page `k` to a space filled up to `k` fills it up to `k + 1`.
    proof fn lemma_filled_step(
        &self,
        mem: &PhysMemory,
        mid: &UserSpace,
        mid_mem: &PhysMemory,
        old_self: &UserSpace,
        old_mem: &PhysMemory,
        first: int,
        k: int,
        flags: PTEFlags,
    )
        requires
            first <= k,
            mid.filled(mid_mem, old_self, old_mem, first, k, flags),
            self.layout() == mid.layout().insert(k, flags),
            self.size() == mid.size(),
            forall|va: u64|
                vpn(va) != k ==> #[trigger] self.table().mapping(mem, va) == mid.table().mapping(
                    mid_mem,
                    va,
                ),
            forall|va: u64| #[trigger]
                self.user_byte(mem, va) == if vpn(va) == k {
                    if has_user(flags) {
                        Some(0u8)
                    } else {
                        None
                    }
                } else {
                    mid.user_byte(mid_mem, va)
                },
        ensures
            self.filled(mem, old_self, old_mem, first, k + 1, flags),
    {
        assert(self.layout() =~= plan_with_range(old_self.layout(), first, k + 1, flags));
        assert forall|va: u64| !(first <= vpn(va) < k + 1) implies #[trigger] self.table().mapping(
            mem,
            va,
        ) == old_self.table().mapping(old_mem, va) by {
            assert(mid.table().mapping(mid_mem, va) == old_self.table().mapping(old_mem, va));
        }
        assert forall|va: u64| #[trigger]
            self.user_byte(mem, va) == if first <= vpn(va) < k + 1 {
                if has_user(flags) {
                    Some(0u8)
                } else {
                    None
                }
            } else {
                old_self.user_byte(old_mem, va)
            } by {
            assert(mid.user_byte(mid_mem, va) == if first <= vpn(va) < k {
                if has_user(flags) {
                    Some(0u8)
                } else {
                    None
                }
            } else {
                old_self.user_byte(old_mem, va)
            });
        }
    }

    /// Maps `count` pages from `first` on, none of them in the layout,
    /// each to a fresh zeroed frame with `flags`. Stops at the first page
    /// for which the allocator has no frame left.
    pub fn map_pages(
        &mut self,
        mem: &mut PhysMemory,
        allocator: &mut PageAllocator,
        first: Addr,
        count: u64,
        flags: PTEFlags,
    ) -> (r: Result<(), MapError>)
        requires
            old(self).inv(old(mem), old(allocator)),
            first.bits % 4096 == 0,
            first.bits + count * 4096 <= TRAP_FRAME,
            forall|v: int|
                first.bits / 4096 <= v < first.bits / 4096 + count ==> !old(
                    self,
                ).layout().contains_key(v),
        ensures
            final(self).inv(final(mem), final(allocator)),
            space_grown(
                old(self).table(),
                old(mem),
                old(allocator),
                final(self).table(),
                final(mem),
                final(allocator),
            ),
            data_grown(old(self).data().dom(), final(self).data().dom(), old(allocator)@.issued),
            old(allocator)@.available() >= 3 * count ==> r.is_ok(),
            final(allocator)@.available() >= old(allocator)@.available() - 3 * count,
            r.is_err() ==> final(allocator)@.available() == 0,
            r.is_ok() <==> old(self).table().shape(old(mem)).fresh_cost(first.bits, count as int)
                <= old(allocator)@.available(),
            0 <= old(self).table().shape(old(mem)).fresh_cost(first.bits, count as int),
            final(allocator)@ == old(allocator)@.after_allocs(
                min_int(
                    old(self).table().shape(old(mem)).fresh_cost(first.bits, count as int),
                    old(allocator)@.available(),
                ) as nat,
            ),
            r.is_ok() ==> final(self).table().shape(final(mem)) == old(self).table().shape(
                old(mem),
            ).after_pages(first.bits, count as int),
            r.is_ok() ==> final(self).filled(
                final(mem),
                old(self),
                old(mem),
                first.bits as int / 4096,
                first.bits as int / 4096 + count,
                flags,
            ),
            r.is_err() ==> exists|k: int|
                first.bits / 4096 <= k < first.bits / 4096 + count && #[trigger] final(self).filled(
                    final(mem),
                    old(self),
                    old(mem),
                    first.bits as int / 4096,
                    k,
                    flags,
                ),
    {
        let ghost v0 = first.bits as int / 4096;
        let ghost shape0 = self.table().shape(mem);
        let ghost available = allocator@.available();
        let mut k: u64 = 0;
        proof {
            assert(plan_with_range(self.layout(), v0, v0, flags) =~= self.layout());
            shape0.lemma_cost_grows(first.bits, 0, count as int);
            allocator@.lemma_allocs(0);
        }
        while k < count
            invariant
                k <= count,
                v0 == first.bits as int / 4096,
                first.bits % 4096 == 0,
                first.bits + count * 4096 <= TRAP_FRAME,
                self.inv(mem, allocator),
                space_grown(old(self).table(), old(mem), old(allocator), self.table(), mem, allocator),
                data_grown(old(self).data().dom(), self.data().dom(), old(allocator)@.issued),
                old(allocator)@.available() >= 3 * count ==> allocator@.available() >= 3 * (count
                    - k),
                allocator@.available() >= old(allocator)@.available() - 3 * k,
                self.filled(mem, old(self), old(mem), v0, v0 + k, flags),
                forall|v: int| v0 <= v < v0 + count ==> !old(self).layout().contains_key(v),
                shape0 == old(self).table().shape(old(mem)),
                available == old(allocator)@.available(),
                old(allocator)@.wf(),
                shape0.fresh_cost(first.bits, k as int) <= available,
                0 <= shape0.fresh_cost(first.bits, count as int),
                allocator@.available() == available - shape0.fresh_cost(first.bits, k as int),
                allocator@ == old(allocator)@.after_allocs(
                    shape0.fresh_cost(first.bits, k as int) as nat,
                ),
                self.table().shape(mem) == shape0.after_pages(first.bits, k as int),
            decreases count - k,
        {
            let ghost mid = *self;
            let ghost mid_mem = *mem;
            let ghost mid_allocator = *allocator;
            let va = Addr::new(first.bits + k * 4096);
            proof {
                lemma_vpn_indexes(va.bits);
                lemma_vpn_indexes(TRAMPOLINE);
                assert(vpn(va.bits) == v0 + k);
            }
            let res = self.map_page(mem, allocator, va, flags);
            proof {
                shape0.lemma_fresh_step(
                    first.bits,
                    k as int,
                    count as int,
                    available,
                    res.is_ok(),
                );
                let used = shape0.fresh_cost(first.bits, k as int) as nat;
                let step = min_int(
                    1 + mid.table().shape(&mid_mem).missing_at(va.bits),
                    mid_allocator@.available(),
                ) as nat;
                old(allocator)@.lemma_allocs_add(used, step);
                mid_allocator@.lemma_allocs(step);
                lemma_space_grown_trans(
                    old(self).table(),
                    old(mem),
                    old(allocator),
                    mid.table(),
                    &mid_mem,
                    &mid_allocator,
                    self.table(),
                    mem,
                    allocator,
                );
            }
            if res.is_err() {
                proof {
                    assert(self.filled(mem, old(self), old(mem), v0, v0 + k, flags)) by {
                        assert forall|va2: u64| #[trigger]
                            self.user_byte(mem, va2) == mid.user_byte(&mid_mem, va2) by {}
                    }
                }
                return Err(MapError::OutOfFrames);
            }
            proof {
                self.lemma_filled_step(mem, &mid, &mid_mem, old(self), old(mem), v0, v0 + k, flags);
            }
            k = k + 1;
        }
        Ok(())
    }
}

impl UserSpace {
    /// Writes one byte of user memory through the page table. Every
    /// other user byte, every mapping and every frame that is not a data
    /// frame of the space stay as they are.
    pub fn write_user_byte(
        &self,
        mem: &mut PhysMemory,
        allocator: &PageAllocator,
        va: Addr,
        value: u8,
    )
        requires
            self.inv(old(mem), allocator),
            va.bits <= MAX_VIRT_ADDR,
            self.user_byte(old(mem), va.bits).is_some(),
        ensures
            self.inv(final(mem), allocator),
            final(mem).same_range(old(mem)),
            self.table().shape(final(mem)) == self.table().shape(old(mem)),
            forall|va2: u64| #[trigger]
                self.table().mapping(final(mem), va2) == self.table().mapping(old(mem), va2),
            forall|va2: u64|
                va2 <= MAX_VIRT_ADDR ==> #[trigger] self.user_byte(final(mem), va2) == if va2
                    == va.bits {
                    Some(value)
                } else {
                    self.user_byte(old(mem), va2)
                },
            forall|p: u64, i: int|
                old(mem).contains_page(p) && !self.data().dom().contains(p) && 0 <= i < 512
                    ==> #[trigger] final(mem).word(p, i) == old(mem).word(p, i),
    {
        proof {
            self.table().lemma_wf_tables(mem);
            self.lemma_layout(mem, va.bits);
        }
        let pa = match self.page_table.walk_addr(mem, va) {
            Some(pa) => pa,
            None => {
                // Not reached: the byte is mapped for user access.
                return ;
            },
        };
        let ghost e = self.table().mapping(mem, va.bits).unwrap();
        proof {
            e.lemma_target((va.bits % 4096) as u64);
            e.lemma_flag_bits();
            lemma_vpn_indexes(va.bits);
        }
        mem.write_byte(pa, value);
        proof {
            self.table().lemma_same_tables(old(mem), mem);
            assert forall|va2: u64| va2 <= MAX_VIRT_ADDR implies #[trigger] self.user_byte(mem, va2)
                == if va2 == va.bits {
                Some(value)
            } else {
                self.user_byte(old(mem), va2)
            } by {
                self.lemma_poke_one(old(mem), mem, va.bits, pa.bits, value, va2);
            }
        }
    }

    /// What writing the user byte at `va` does to the user byte at `va2`.
    proof fn lemma_poke_one(
        &self,
        mem1: &PhysMemory,
        mem2: &PhysMemory,
        va: u64,
        pa: u64,
        value: u8,
        va2: u64,
    )
        requires
            self.wf(mem1),
            va <= MAX_VIRT_ADDR,
            va2 <= MAX_VIRT_ADDR,
            mem2.same_range(mem1),
            self.table().translation(mem1, va, true) == Some(pa),
            mem1.contains_addr(pa),
            forall|x: u64| #[trigger]
                self.table().mapping(mem2, x) == self.table().mapping(mem1, x),
            forall|a: u64| #[trigger]
                mem1.contains_addr(a) ==> mem2.byte(a) == if a == pa {
                    value
                } else {
                    mem1.byte(a)
                },
        ensures
            self.user_byte(mem2, va2) == if va2 == va {
                Some(value)
            } else {
                self.user_byte(mem1, va2)
            },
    {
        lemma_vpn_indexes(va);
        lemma_vpn_indexes(va2);
        assert(self.table().mapping(mem2, va2) == self.table().mapping(mem1, va2));
        assert(self.table().mapping(mem2, va) == self.table().mapping(mem1, va));
        let e = self.table().mapping(mem1, va).unwrap();
        e.lemma_target((va % 4096) as u64);
        e.lemma_flag_bits();
        if self.table().translation(mem1, va2, true).is_some() {
            let e2 = self.table().mapping(mem1, va2).unwrap();
            e2.lemma_target((va2 % 4096) as u64);
            e2.lemma_flag_bits();
            let pa2 = self.table().translation(mem1, va2, true).unwrap();
            if mem1.contains_addr(pa2) {
                assert(mem1.contains_addr(pa2) ==> mem2.byte(pa2) == if pa2 == pa {
                    value
                } else {
                    mem1.byte(pa2)
                });
                if pa2 == pa && va2 != va {
                    self.lemma_no_alias(mem1, va, va2);
                }
            }
        }
    }

    /// Copies `data` into user memory from `va` on, byte by byte through
    /// the page table. Every byte of the range must be mapped for user
    /// access.
    pub fn load_segment(
        &self,
        mem: &mut PhysMemory,
        allocator: &PageAllocator,
        va: Addr,
        data: &[u8],
    )
        requires
            self.inv(old(mem), allocator),
            va.bits + data@.len() <= MAX_VIRT_ADDR + 1,
            forall|k: int|
                0 <= k < data@.len() ==> (#[trigger] self.user_byte(
                    old(mem),
                    (va.bits + k) as u64,
                )).is_some(),
        ensures
            self.inv(final(mem), allocator),
            final(mem).same_range(old(mem)),
            self.table().shape(final(mem)) == self.table().shape(old(mem)),
            forall|va2: u64| #[trigger]
                self.table().mapping(final(mem), va2) == self.table().mapping(old(mem), va2),
            forall|va2: u64|
                va2 <= MAX_VIRT_ADDR ==> #[trigger] self.user_byte(final(mem), va2) == if va.bits
                    <= va2 < va.bits + data@.len() {
                    Some(data@[va2 - va.bits])
                } else {
                    self.user_byte(old(mem), va2)
                },
            forall|p: u64, i: int|
                old(mem).contains_page(p) && !self.data().dom().contains(p) && 0 <= i < 512
                    ==> #[trigger] final(mem).word(p, i) == old(mem).word(p, i),
    {
        let n: usize = data.len();
        let mut k: usize = 0;
        while k < n
            invariant
                k <= n,
                n == data@.len(),
                va.bits + n <= MAX_VIRT_ADDR + 1,
                self.inv(mem, allocator),
                mem.same_range(old(mem)),
                self.table().shape(mem) == self.table().shape(old(mem)),
                forall|va2: u64| #[trigger]
                    self.table().mapping(mem, va2) == self.table().mapping(old(mem), va2),
                forall|va2: u64|
                    va2 <= MAX_VIRT_ADDR ==> #[trigger] self.user_byte(mem, va2) == if va.bits
                        <= va2 < va.bits + k {
                        Some(data@[va2 - va.bits])
                    } else {
                        self.user_byte(old(mem), va2)
                    },
                forall|j: int|
                    0 <= j < n ==> (#[trigger] self.user_byte(
                        old(mem),
                        (va.bits + j) as u64,
                    )).is_some(),
                forall|p: u64, i: int|
                    old(mem).contains_page(p) && !self.data().dom().contains(p) && 0 <= i < 512
                        ==> #[trigger] mem.word(p, i) == old(mem).word(p, i),
            decreases n - k,
        {
            let a = Addr::new(va.bits + k as u64);
            let ghost mid_mem = *mem;
            proof {
                assert(self.user_byte(old(mem), (va.bits + k) as u64).is_some());
                assert(self.user_byte(mem, a.bits) == self.user_byte(old(mem), a.bits));
            }
            self.write_user_byte(mem, allocator, a, data[k]);
            proof {
                assert forall|va2: u64| va2 <= MAX_VIRT_ADDR implies #[trigger] self.user_byte(
                    mem,
                    va2,
                ) == if va.bits <= va2 < va.bits + (k + 1) {
                    Some(data@[va2 - va.bits])
                } else {
                    self.user_byte(old(mem), va2)
                } by {
                    assert(self.user_byte(&mid_mem, va2) == if va.bits <= va2 < va.bits + k {
                        Some(data@[va2 - va.bits])
                    } else {
                        self.user_byte(old(mem), va2)
                    });
                }
                assert forall|p: u64, i: int|
                    old(mem).contains_page(p) && !self.data().dom().contains(p) && 0 <= i
                        < 512 implies #[trigger] mem.word(p, i) == old(mem).word(p, i) by {
                    assert(mem.word(p, i) == mid_mem.word(p, i));
                }
            }
            k = k + 1;
        }
    }
}

/// Whether a program header asks for memory: a load segment of
/// non-zero size.
pub open spec fn seg_loaded(s: ProgramSegment) -> bool {
    s.kind == SegmentType::Load && s.place.mem_size > 0
}

/// The first page of a segment.
pub open spec fn seg_first(s: ProgramSegment) -> int {
    s.place.virtual_addr as int / 4096
}

/// The page after the last page of a segment.
pub open spec fn seg_end(s: ProgramSegment) -> int {
    end_vpn(s.place.virtual_addr + s.place.mem_size)
}

/// Whether page `v` holds a byte of the segment.
pub open spec fn seg_covers(s: ProgramSegment, v: int) -> bool {
    seg_loaded(s) && seg_first(s) <= v < seg_end(s)
}

/// The flags of the pages of a segment: what the segment asks for of
/// read, write and execute, and the user flag.
pub open spec fn seg_flags(p: SegmentPlace) -> PTEFlags {
    let f0 = PTEFlags { bits: 0 };
    let f1 = if p.read {
        f0.spec_union(PTEFlags { bits: PTE_R })
    } else {
        f0
    };
    let f2 = if p.write {
        f1.spec_union(PTEFlags { bits: PTE_W })
    } else {
        f1
    };
    let f3 = if p.execute {
        f2.spec_union(PTEFlags { bits: PTE_X })
    } else {
        f2
    };
    with_user(f3)
}

/// The byte that a segment puts at `va`, an address in one of its
/// pages: the byte of the image where the file part of the segment
/// reaches, zero elsewhere.
pub open spec fn seg_byte(image: Seq<u8>, s: ProgramSegment, va: u64) -> u8 {
    if s.place.virtual_addr <= va < s.place.virtual_addr + s.place.file_size {
        image[s.place.offset + (va - s.place.virtual_addr)]
    } else {
        0
    }
}

/// Whether a load segment can be placed: its file part lies in the
/// image and fits in its memory, and above its last page there is room
/// below the trap frame for a guard page and the user stack.
pub open spec fn seg_valid(image_len: int, s: ProgramSegment) -> bool {
    s.kind == SegmentType::Load ==> {
        &&& s.place.file_size <= s.place.mem_size
        &&& s.place.offset + s.place.file_size <= image_len
        &&& s.place.virtual_addr + s.place.mem_size <= TRAP_FRAME
        &&& seg_end(s) * 4096 + PAGE_SIZE + USER_STACK_SIZE <= TRAP_FRAME
    }
}

/// The address of the first page of a segment.
pub open spec fn seg_base(s: ProgramSegment) -> u64 {
    (seg_first(s) * 4096) as u64
}

/// How many frames it takes to place a segment on a table of the given
/// shape: nothing for a program header that asks for no memory, else a
/// frame for each page and the page-table pages on the way.
pub open spec fn segment_cost(shape: TableShape, s: ProgramSegment) -> int {
    if seg_loaded(s) {
        shape.fresh_cost(seg_base(s), seg_end(s) - seg_first(s))
    } else {
        0
    }
}

/// The shape of a table after a segment has been placed.
pub open spec fn segment_shape(shape: TableShape, s: ProgramSegment) -> TableShape {
    if seg_loaded(s) {
        shape.after_pages(seg_base(s), seg_end(s) - seg_first(s))
    } else {
        shape
    }
}

impl UserSpace {
    /// The state of a space in which a segment has been placed on top
    /// of the state `old_self`: its pages are in the layout with its
    /// flags and count in the size, and user memory reads as the segment
    /// says within its pages and as before elsewhere.
    pub open spec fn placed(
        &self,
        mem: &PhysMemory,
        old_self: &UserSpace,
        old_mem: &PhysMemory,
        image: Seq<u8>,
        s: ProgramSegment,
    ) -> bool {
        &&& self.layout() == plan_with_range(
            old_self.layout(),
            seg_first(s),
            seg_end(s),
            seg_flags(s.place),
        )
        &&& self.size() == saturating_sum(
            old_self.size() as int,
            4096 * (seg_end(s) - seg_first(s)),
        )
        &&& forall|va: u64|
            !seg_covers(s, vpn(va)) ==> #[trigger] self.table().mapping(mem, va)
                == old_self.table().mapping(old_mem, va)
        &&& forall|va: u64|
            va <= MAX_VIRT_ADDR ==> #[trigger] self.user_byte(mem, va) == if seg_covers(
                s,
                vpn(va),
            ) {
                Some(seg_byte(image, s, va))
            } else {
                old_self.user_byte(old_mem, va)
            }
    }

    /// How a space stands to an earlier state of itself after loading:
    /// as after growth, but that the frames said to keep their contents
    /// are those that belong to others: frames that were in use and are
    /// neither page-table pages nor data frames of this space.
    pub open spec fn user_grown(
        &self,
        mem: &PhysMemory,
        allocator: &PageAllocator,
        old_self: &UserSpace,
        old_mem: &PhysMemory,
        old_allocator: &PageAllocator,
    ) -> bool {
        &&& mem.same_range(old_mem)
        &&& self.table().root() == old_self.table().root()
        &&& old_self.table().tables().subset_of(self.table().tables())
        &&& data_grown(old_self.data().dom(), self.data().dom(), old_allocator@.issued)
        &&& allocator@.start == old_allocator@.start
        &&& allocator@.end == old_allocator@.end
        &&& old_allocator@.issued.subset_of(allocator@.issued)
        &&& forall|t: u64| #[trigger]
            self.table().tables().contains(t) && !old_self.table().tables().contains(t)
                ==> !old_allocator@.issued.contains(t)
        &&& forall|p: u64, i: int|
            old_mem.contains_page(p) && old_allocator@.issued.contains(p)
                && !old_self.table().tables().contains(p) && !self.data().dom().contains(p) && 0
                <= i < 512 ==> #[trigger] mem.word(p, i) == old_mem.word(p, i)
    }

    /// Growth of the space, with its data frames only added to, is
    /// growth in the sense of loading.
    pub proof fn lemma_grown_is_user_grown(
        &self,
        mem: &PhysMemory,
        allocator: &PageAllocator,
        old_self: &UserSpace,
        old_mem: &PhysMemory,
        old_allocator: &PageAllocator,
    )
        requires
            space_grown(
                old_self.table(),
                old_mem,
                old_allocator,
                self.table(),
                mem,
                allocator,
            ),
            data_grown(old_self.data().dom(), self.data().dom(), old_allocator@.issued),
        ensures
            self.user_grown(mem, allocator, old_self, old_mem, old_allocator),
    {
    }

    /// Growth in two steps is growth.
    pub proof fn lemma_user_grown_trans(
        &self,
        mem: &PhysMemory,
        allocator: &PageAllocator,
        mid: &UserSpace,
        mid_mem: &PhysMemory,
        mid_allocator: &PageAllocator,
        old_self: &UserSpace,
        old_mem: &PhysMemory,
        old_allocator: &PageAllocator,
    )
        requires
            self.user_grown(mem, allocator, mid, mid_mem, mid_allocator),
            mid.user_grown(mid_mem, mid_allocator, old_self, old_mem, old_allocator),
        ensures
            self.user_grown(mem, allocator, old_self, old_mem, old_allocator),
    {
        assert forall|p: u64, i: int|
            old_mem.contains_page(p) && old_allocator@.issued.contains(p)
                && !old_self.table().tables().contains(p) && !self.data().dom().contains(p) && 0
                <= i < 512 implies #[trigger] mem.word(p, i) == old_mem.word(p, i) by {
            assert(mid_mem.contains_page(p));
            assert(!mid.data().dom().contains(p));
            assert(!mid.table().tables().contains(p));
            assert(mid_mem.word(p, i) == old_mem.word(p, i));
            assert(mem.word(p, i) == mid_mem.word(p, i));
        }
    }

    /// A space filled with the pages of a segment, the segment's file
    /// part then copied in, holds the segment.
    proof fn lemma_placed(
        &self,
        mem: &PhysMemory,
        mid: &UserSpace,
        mid_mem: &PhysMemory,
        old_self: &UserSpace,
        old_mem: &PhysMemory,
        image: Seq<u8>,
        data: Seq<u8>,
        s: ProgramSegment,
    )
        requires
            seg_loaded(s),
            s.place.virtual_addr + s.place.mem_size <= TRAP_FRAME,
            s.place.file_size <= s.place.mem_size,
            s.place.offset + s.place.file_size <= image.len(),
            data == image.subrange(
                s.place.offset as int,
                s.place.offset + s.place.file_size,
            ),
            has_user(seg_flags(s.place)),
            mid.filled(mid_mem, old_self, old_mem, seg_first(s), seg_end(s), seg_flags(s.place)),
            self.layout() == mid.layout(),
            self.table() == mid.table(),
            self.data() == mid.data(),
            self.size() == saturating_sum(mid.size() as int, 4096 * (seg_end(s) - seg_first(s))),
            forall|va: u64| #[trigger]
                self.table().mapping(mem, va) == mid.table().mapping(mid_mem, va),
            forall|va: u64|
                va <= MAX_VIRT_ADDR ==> #[trigger] self.user_byte(mem, va) == if s.place.virtual_addr
                    <= va < s.place.virtual_addr + data.len() {
                    Some(data[va - s.place.virtual_addr])
                } else {
                    mid.user_byte(mid_mem, va)
                },
        ensures
            self.placed(mem, old_self, old_mem, image, s),
    {
        let p = s.place;
        let v0 = seg_first(s);
        let v1 = seg_end(s);
        assert forall|va: u64| va <= MAX_VIRT_ADDR implies #[trigger] self.user_byte(mem, va)
            == if seg_covers(s, vpn(va)) {
            Some(seg_byte(image, s, va))
        } else {
            old_self.user_byte(old_mem, va)
        } by {
            lemma_vpn_indexes(va);
            assert(mid.user_byte(mid_mem, va) == if v0 <= vpn(va) < v1 {
                Some(0u8)
            } else {
                old_self.user_byte(old_mem, va)
            });
            if p.virtual_addr <= va < p.virtual_addr + p.file_size {
                assert(v0 <= vpn(va) < v1);
                assert(data[va - p.virtual_addr] == image[p.offset + (va - p.virtual_addr)]);
            }
        }
        assert forall|va: u64| !seg_covers(s, vpn(va)) implies #[trigger] self.table().mapping(
            mem,
            va,
        ) == old_self.table().mapping(old_mem, va) by {
            assert(mid.table().mapping(mid_mem, va) == old_self.table().mapping(old_mem, va));
        }
    }

    /// Places one load segment: maps its pages to fresh zeroed frames
    /// with the segment's flags and copies its file part from the image.
    pub fn place_segment(
        &mut self,
        mem: &mut PhysMemory,
        allocator: &mut PageAllocator,
        image: &[u8],
        segment: &ProgramSegment,
    ) -> (r: Result<(), MapError>)
        requires
            old(self).inv(old(mem), old(allocator)),
            seg_loaded(*segment),
            seg_valid(image@.len() as int, *segment),
            forall|v: int| seg_covers(*segment, v) ==> !old(self).layout().contains_key(v),
        ensures
            final(self).inv(final(mem), final(allocator)),
            final(self).user_grown(
                final(mem),
                final(allocator),
                old(self),
                old(mem),
                old(allocator),
            ),
            old(allocator)@.available() >= 3 * (seg_end(*segment) - seg_first(*segment))
                ==> r.is_ok(),
            final(allocator)@.available() >= old(allocator)@.available() - 3 * (seg_end(*segment)
                - seg_first(*segment)),
            r.is_err() ==> final(allocator)@.available() == 0,
            r.is_ok() <==> segment_cost(old(self).table().shape(old(mem)), *segment) <= old(
                allocator,
            )@.available(),
            0 <= segment_cost(old(self).table().shape(old(mem)), *segment),
            final(allocator)@ == old(allocator)@.after_allocs(
                min_int(
                    segment_cost(old(self).table().shape(old(mem)), *segment),
                    old(allocator)@.available(),
                ) as nat,
            ),
            r.is_ok() ==> final(self).table().shape(final(mem)) == segment_shape(
                old(self).table().shape(old(mem)),
                *segment,
            ),
            r.is_ok() ==> final(self).placed(final(mem), old(self), old(mem), image@, *segment),
    {
        let p = segment.place;
        let first = Addr::new(p.virtual_addr).align_down();
        let end = Addr::new(p.virtual_addr + p.mem_size).align_up();
        let count: u64 = (end.bits - first.bits) / 4096;
        let ghost v0 = seg_first(*segment);
        let ghost v1 = seg_end(*segment);
        proof {
            assert(first.bits as int / 4096 == v0);
            assert(v0 + count == v1);
        }
        let mut perm = PTEFlags::empty();
        if p.read {
            perm = perm.union(PTEFlags::R());
        }
        if p.write {
            perm = perm.union(PTEFlags::W());
        }
        if p.execute {
            perm = perm.union(PTEFlags::X());
        }
        let flags = perm.union(PTEFlags::U());
        proof {
            assert(flags == seg_flags(p));
            let f: u8 = perm.bits;
            assert(((f | 16u8) / 16) % 2 == 1) by (bit_vector);
            assert(has_user(flags));
            assert forall|v: int| v0 <= v < v0 + count implies !self.layout().contains_key(v) by {
                assert(seg_covers(*segment, v));
            }
        }
        let res = self.map_pages(mem, allocator, first, count, flags);
        proof {
            self.lemma_grown_is_user_grown(mem, allocator, old(self), old(mem), old(allocator));
        }
        if res.is_err() {
            return res;
        }
        let ghost mid = *self;
        let ghost mid_mem = *mem;
        if self.size <= u64::MAX - count * PAGE_SIZE {
            self.size = self.size + count * PAGE_SIZE;
        } else {
            self.size = u64::MAX;
        }
        let image_len: usize = image.len();
        let data = vstd::slice::slice_subrange(
            image,
            p.offset as usize,
            (p.offset + p.file_size) as usize,
        );
        proof {
            assert(self.wf(mem));
            assert forall|k: int| 0 <= k < data@.len() implies (#[trigger] self.user_byte(
                mem,
                (p.virtual_addr + k) as u64,
            )).is_some() by {
                let a = (p.virtual_addr + k) as u64;
                lemma_vpn_indexes(a);
                assert(v0 <= vpn(a) < v1);
                assert(self.user_byte(mem, a) == mid.user_byte(&mid_mem, a));
            }
        }
        let ghost mid2 = *self;
        self.load_segment(mem, allocator, Addr::new(p.virtual_addr), data);
        proof {
            assert forall|va: u64|
                va <= MAX_VIRT_ADDR implies #[trigger] self.user_byte(mem, va) == if p.virtual_addr
                <= va < p.virtual_addr + data@.len() {
                Some(data@[va - p.virtual_addr])
            } else {
                mid.user_byte(&mid_mem, va)
            } by {
                assert(self.user_byte(&mid_mem, va) == mid.user_byte(&mid_mem, va));
            }
            self.lemma_placed(mem, &mid, &mid_mem, old(self), old(mem), image@, data@, *segment);
            assert(self.user_grown(mem, allocator, &mid, &mid_mem, allocator));
            self.lemma_user_grown_trans(
                mem,
                allocator,
                &mid,
                &mid_mem,
                allocator,
                old(self),
                old(mem),
                old(allocator),
            );
        }
        Ok(())
    }
}

/// Whether an image starts with the ELF magic number.
pub open spec fn has_magic(image: Seq<u8>) -> bool {
    &&& image.len() >= 4
    &&& image[0] == 0x7f
    &&& image[1] == 0x45
    &&& image[2] == 0x4c
    &&& image[3] == 0x46
}

/// No page holds bytes of two segments.
pub open spec fn segments_disjoint(segs: Seq<ProgramSegment>) -> bool {
    forall|i: int, j: int|
        0 <= i < j < segs.len() && seg_loaded(#[trigger] segs[i]) && seg_loaded(#[trigger] segs[j])
            ==> seg_end(segs[i]) <= seg_first(segs[j]) || seg_end(segs[j]) <= seg_first(segs[i])
}

/// Whether the loader can place an image with the given program
/// headers: it starts with the ELF magic number, every load segment can
/// be placed, and no two share a page.
pub open spec fn image_ok(image: Seq<u8>, segs: Seq<ProgramSegment>) -> bool {
    &&& has_magic(image)
    &&& forall|i: int| 0 <= i < segs.len() ==> seg_valid(image.len() as int, #[trigger] segs[i])
    &&& segments_disjoint(segs)
}

/// The highest address after a load segment among the first `n`
/// program headers; zero when there is none.
pub open spec fn prog_end(segs: Seq<ProgramSegment>, n: int) -> int
    decreases n,
{
    if n <= 0 {
        0
    } else {
        let e = prog_end(segs, n - 1);
        let s = segs[n - 1];
        if s.kind == SegmentType::Load && s.place.virtual_addr + s.place.mem_size > e {
            s.place.virtual_addr + s.place.mem_size
        } else {
            e
        }
    }
}

/// The layout before any segment: the trampoline page for read and
/// execute and the trap frame page for read and write.
pub open spec fn base_plan() -> Plan {
    Map::<int, PTEFlags>::empty().insert(TRAMPOLINE as int / 4096, flags_rx()).insert(
        TRAP_FRAME as int / 4096,
        flags_rw(),
    )
}

/// The layout after the first `n` program headers.
pub open spec fn user_plan(segs: Seq<ProgramSegment>, n: int) -> Plan
    decreases n,
{
    if n <= 0 {
        base_plan()
    } else {
        let s = segs[n - 1];
        if seg_loaded(s) {
            plan_with_range(user_plan(segs, n - 1), seg_first(s), seg_end(s), seg_flags(s.place))
        } else {
            user_plan(segs, n - 1)
        }
    }
}

/// The byte that the first `n` program headers put at `va`, if any.
pub open spec fn user_bytes(image: Seq<u8>, segs: Seq<ProgramSegment>, n: int, va: u64) -> Option<
    u8,
>
    decreases n,
{
    if n <= 0 {
        None
    } else {
        let s = segs[n - 1];
        if seg_covers(s, vpn(va)) {
            Some(seg_byte(image, s, va))
        } else {
            user_bytes(image, segs, n - 1, va)
        }
    }
}

/// The pages that the first `n` program headers take up.
pub open spec fn user_pages(segs: Seq<ProgramSegment>, n: int) -> int
    decreases n,
{
    if n <= 0 {
        0
    } else {
        let s = segs[n - 1];
        if seg_loaded(s) {
            user_pages(segs, n - 1) + (seg_end(s) - seg_first(s))
        } else {
            user_pages(segs, n - 1)
        }
    }
}

/// The size counted for the first `n` program headers: the bytes of
/// their pages, held at the largest value where the sum would pass it.
pub open spec fn user_size(segs: Seq<ProgramSegment>, n: int) -> int
    decreases n,
{
    if n <= 0 {
        0
    } else {
        let s = segs[n - 1];
        if seg_loaded(s) {
            saturating_sum(user_size(segs, n - 1), 4096 * (seg_end(s) - seg_first(s)))
        } else {
            user_size(segs, n - 1)
        }
    }
}

/// The shape of a table after the first `n` program headers have been
/// placed.
pub open spec fn program_shape(shape: TableShape, segs: Seq<ProgramSegment>, n: int) -> TableShape
    decreases n,
{
    if n <= 0 {
        shape
    } else {
        segment_shape(program_shape(shape, segs, n - 1), segs[n - 1])
    }
}

/// How many frames it takes to place the first `n` program headers, one
/// after the other.
pub open spec fn program_cost(shape: TableShape, segs: Seq<ProgramSegment>, n: int) -> int
    decreases n,
{
    if n <= 0 {
        0
    } else {
        program_cost(shape, segs, n - 1) + segment_cost(
            program_shape(shape, segs, n - 1),
            segs[n - 1],
        )
    }
}

/// The cost of placing program headers is not negative and grows with
/// their number.
pub proof fn lemma_program_cost_grows(shape: TableShape, segs: Seq<ProgramSegment>, a: int, b: int)
    requires
        0 <= a <= b <= segs.len(),
    ensures
        0 <= program_cost(shape, segs, a) <= program_cost(shape, segs, b),
    decreases b,
{
    if a < b {
        lemma_program_cost_grows(shape, segs, a, b - 1);
        let sh = program_shape(shape, segs, b - 1);
        let s = segs[b - 1];
        assert(seg_first(s) <= seg_end(s));
        sh.lemma_cost_grows(seg_base(s), 0, seg_end(s) - seg_first(s));
    } else if a > 0 {
        lemma_program_cost_grows(shape, segs, a - 1, a - 1);
        let sh = program_shape(shape, segs, a - 1);
        let s = segs[a - 1];
        assert(seg_first(s) <= seg_end(s));
        sh.lemma_cost_grows(seg_base(s), 0, seg_end(s) - seg_first(s));
    }
}

/// How many frames it takes to load a program into a space whose table
/// has the given shape: the page-table pages for the trampoline, the
/// frame of the trap frame, the segments, and the two pages of stack.
pub open spec fn load_cost(shape: TableShape, segs: Seq<ProgramSegment>) -> int {
    let n = segs.len() as int;
    let started = shape.with_page(TRAMPOLINE);
    shape.missing_at(TRAMPOLINE) + 1 + program_cost(started, segs, n) + program_shape(
        started,
        segs,
        n,
    ).fresh_cost((stack_first(segs) * 4096) as u64, 2)
}

/// The cost of loading a program is at least one frame.
pub proof fn lemma_load_cost(shape: TableShape, segs: Seq<ProgramSegment>)
    ensures
        1 <= load_cost(shape, segs),
{
    let n = segs.len() as int;
    let started = shape.with_page(TRAMPOLINE);
    lemma_program_cost_grows(started, segs, 0, n);
    program_shape(started, segs, n).lemma_cost_grows((stack_first(segs) * 4096) as u64, 0, 2);
}

/// The first page of the user stack: one guard page above the last
/// page of the program.
pub open spec fn stack_first(segs: Seq<ProgramSegment>) -> int {
    end_vpn(prog_end(segs, segs.len() as int)) + 1
}

/// A page is in the layout after `n` program headers exactly if it is
/// the trampoline page, the trap frame page, or a page of one of them.
pub proof fn lemma_plan_dom(segs: Seq<ProgramSegment>, n: int, v: int)
    requires
        0 <= n <= segs.len(),
    ensures
        user_plan(segs, n).contains_key(v) <==> (v == TRAMPOLINE as int / 4096 || v
            == TRAP_FRAME as int / 4096 || exists|j: int|
            0 <= j < n && seg_covers(#[trigger] segs[j], v)),
    decreases n,
{
    if n > 0 {
        lemma_plan_dom(segs, n - 1, v);
        if seg_covers(segs[n - 1], v) {
        }
    }
}

/// Every load segment among the first `n` ends at or below the end of
/// the program, and the end of the program is zero or the end of one of
/// them.
pub proof fn lemma_prog_end(segs: Seq<ProgramSegment>, n: int)
    requires
        0 <= n <= segs.len(),
    ensures
        prog_end(segs, n) >= 0,
        forall|j: int|
            0 <= j < n && (#[trigger] segs[j]).kind == SegmentType::Load
                ==> segs[j].place.virtual_addr + segs[j].place.mem_size <= prog_end(segs, n),
        prog_end(segs, n) == 0 || exists|j: int|
            0 <= j < n && (#[trigger] segs[j]).kind == SegmentType::Load && prog_end(segs, n)
                == segs[j].place.virtual_addr + segs[j].place.mem_size,
    decreases n,
{
    if n > 0 {
        lemma_prog_end(segs, n - 1);
    }
}

/// Tests whether the loader can place an image with the given program
/// headers.
pub fn check_image(image: &[u8], segments: &Vec<ProgramSegment>) -> (r: bool)
    ensures
        r == image_ok(image@, segments@),
{
    if image.len() < 4 || image[0] != 0x7f || image[1] != 0x45 || image[2] != 0x4c || image[3]
        != 0x46 {
        return false;
    }
    let n: usize = segments.len();
    let len: usize = image.len();
    let mut i: usize = 0;
    while i < n
        invariant
            i <= n,
            n == segments@.len(),
            len == image@.len(),
            forall|k: int| 0 <= k < i ==> seg_valid(image@.len() as int, #[trigger] segments@[k]),
            forall|a: int, b: int|
                0 <= a < b < i && seg_loaded(#[trigger] segments@[a]) && seg_loaded(
                    #[trigger] segments@[b],
                ) ==> seg_end(segments@[a]) <= seg_first(segments@[b]) || seg_end(segments@[b])
                    <= seg_first(segments@[a]),
        decreases n - i,
    {
        let s = segments[i];
        if !segment_fits(len, &s) {
            assert(!seg_valid(image@.len() as int, segments@[i as int]));
            return false;
        }
        if is_loaded(&s) {
            let mut j: usize = 0;
            while j < i
                invariant
                    j <= i,
                    i < n,
                    n == segments@.len(),
                    s == segments@[i as int],
                    seg_loaded(s),
                    seg_valid(image@.len() as int, s),
                    forall|k: int|
                        0 <= k < i ==> seg_valid(image@.len() as int, #[trigger] segments@[k]),
                    forall|a: int|
                        0 <= a < j && seg_loaded(#[trigger] segments@[a]) ==> seg_end(segments@[a])
                            <= seg_first(s) || seg_end(s) <= seg_first(segments@[a]),
                decreases i - j,
            {
                let t = segments[j];
                if is_loaded(&t) {
                    let apart = last_page(&t) <= first_page(&s) || last_page(&s) <= first_page(&t);
                    if !apart {
                        assert(!segments_disjoint(segments@)) by {
                            let a = segments@[j as int];
                            let b = segments@[i as int];
                        }
                        return false;
                    }
                }
                j = j + 1;
            }
        }
        i = i + 1;
    }
    true
}

/// Whether a program header asks for memory.
pub fn is_loaded(s: &ProgramSegment) -> (r: bool)
    ensures
        r == seg_loaded(*s),
{
    match s.kind {
        SegmentType::Load => s.place.mem_size > 0,
        _ => false,
    }
}

/// Tests whether a program header can be placed in an image of `len`
/// bytes.
pub fn segment_fits(len: usize, s: &ProgramSegment) -> (r: bool)
    ensures
        r == seg_valid(len as int, *s),
{
    match s.kind {
        SegmentType::Load => {
            let p = s.place;
            if p.file_size > p.mem_size || p.offset > len as u64 || p.file_size > len as u64
                - p.offset {
                return false;
            }
            if p.virtual_addr > TRAP_FRAME || p.mem_size > TRAP_FRAME - p.virtual_addr {
                return false;
            }
            let end: u64 = (p.virtual_addr + p.mem_size + 4095) / 4096;
            end * 4096 + PAGE_SIZE + USER_STACK_SIZE <= TRAP_FRAME
        },
        _ => true,
    }
}

/// The first page of a segment.
pub fn first_page(s: &ProgramSegment) -> (r: u64)
    ensures
        r == seg_first(*s),
{
    s.place.virtual_addr / 4096
}

/// The page after the last page of a segment that lies below the trap
/// frame.
pub fn last_page(s: &ProgramSegment) -> (r: u64)
    requires
        s.place.virtual_addr + s.place.mem_size <= TRAP_FRAME,
    ensures
        r == seg_end(*s),
{
    (s.place.virtual_addr + s.place.mem_size + 4095) / 4096
}

/// Read and write for the user.
pub open spec fn stack_flags() -> PTEFlags {
    with_user(flags_rw())
}

impl UserSpace {
    /// The space holds the trampoline, the trap frame on the frame at
    /// `trap_frame`, and the first `n` program headers of an image.
    pub open spec fn holds_program(
        &self,
        mem: &PhysMemory,
        image: Seq<u8>,
        segs: Seq<ProgramSegment>,
        n: int,
        trampoline: u64,
        trap_frame: u64,
    ) -> bool {
        &&& self.layout() == user_plan(segs, n)
        &&& self.size() == user_size(segs, n)
        &&& self.table().mapping(mem, TRAMPOLINE) == Some(
            PageTableEntry::spec_new(trampoline, with_valid(flags_rx())),
        )
        &&& self.table().mapping(mem, TRAP_FRAME) == Some(
            PageTableEntry::spec_new(trap_frame, with_valid(flags_rw())),
        )
        &&& self.data().dom().contains(trap_frame)
        &&& mem.contains_page(trap_frame)
        &&& forall|va: u64|
            va <= MAX_VIRT_ADDR ==> #[trigger] self.user_byte(mem, va) == user_bytes(
                image,
                segs,
                n,
                va,
            )
    }

    /// The space holds a whole program and its stack: the trampoline,
    /// the trap frame on the frame at `trap_frame`, every load segment
    /// of the image, and two zeroed pages of user stack above one guard
    /// page, with `user_sp` the address just above the stack.
    pub open spec fn loaded(
        &self,
        mem: &PhysMemory,
        image: Seq<u8>,
        segs: Seq<ProgramSegment>,
        trampoline: u64,
        user_sp: u64,
        trap_frame: u64,
    ) -> bool {
        let n = segs.len() as int;
        let stack = stack_first(segs);
        &&& user_sp == stack * 4096 + USER_STACK_SIZE
        &&& self.layout() == plan_with_range(user_plan(segs, n), stack, stack + 2, stack_flags())
        &&& self.size() == user_size(segs, n)
        &&& self.table().mapping(mem, TRAMPOLINE) == Some(
            PageTableEntry::spec_new(trampoline, with_valid(flags_rx())),
        )
        &&& self.table().mapping(mem, TRAP_FRAME) == Some(
            PageTableEntry::spec_new(trap_frame, with_valid(flags_rw())),
        )
        &&& self.data().dom().contains(trap_frame)
        &&& mem.contains_page(trap_frame)
        &&& forall|va: u64|
            va <= MAX_VIRT_ADDR ==> #[trigger] self.user_byte(mem, va) == if stack <= vpn(va)
                < stack + 2 {
                Some(0u8)
            } else {
                user_bytes(image, segs, n, va)
            }
    }

    /// Placing program header `n` on a space that holds the first `n`
    /// gives one that holds the first `n + 1`.
    proof fn lemma_load_step(
        &self,
        mem: &PhysMemory,
        mid: &UserSpace,
        mid_mem: &PhysMemory,
        image: Seq<u8>,
        segs: Seq<ProgramSegment>,
        n: int,
        trampoline: u64,
        trap_frame: u64,
    )
        requires
            0 <= n < segs.len(),
            seg_loaded(segs[n]),
            seg_valid(image.len() as int, segs[n]),
            mid.holds_program(mid_mem, image, segs, n, trampoline, trap_frame),
            self.placed(mem, mid, mid_mem, image, segs[n]),
            mid.data().dom().subset_of(self.data().dom()),
            mem.same_range(mid_mem),
        ensures
            self.holds_program(mem, image, segs, n + 1, trampoline, trap_frame),
    {
        lemma_vpn_indexes(TRAMPOLINE);
        lemma_vpn_indexes(TRAP_FRAME);
        assert(!seg_covers(segs[n], vpn(TRAMPOLINE)));
        assert(!seg_covers(segs[n], vpn(TRAP_FRAME)));
        assert forall|va: u64| va <= MAX_VIRT_ADDR implies #[trigger] self.user_byte(mem, va)
            == user_bytes(image, segs, n + 1, va) by {
            assert(mid.user_byte(mid_mem, va) == user_bytes(image, segs, n, va));
        }
    }

    /// Maps the user stack, two pages from `va` on, for the user to read
    /// and write. Returns the address just above the stack.
    pub fn init_stack(
        &mut self,
        mem: &mut PhysMemory,
        allocator: &mut PageAllocator,
        va: Addr,
    ) -> (r: Result<Addr, MapError>)
        requires
            old(self).inv(old(mem), old(allocator)),
            va.bits % 4096 == 0,
            va.bits + USER_STACK_SIZE <= TRAP_FRAME,
            forall|v: int|
                va.bits / 4096 <= v < va.bits / 4096 + 2 ==> !old(self).layout().contains_key(v),
        ensures
            final(self).inv(final(mem), final(allocator)),
            space_grown(
                old(self).table(),
                old(mem),
                old(allocator),
                final(self).table(),
                final(mem),
                final(allocator),
            ),
            data_grown(old(self).data().dom(), final(self).data().dom(), old(allocator)@.issued),
            old(allocator)@.available() >= 6 ==> r.is_ok(),
            final(allocator)@.available() >= old(allocator)@.available() - 6,
            r.is_err() ==> final(allocator)@.available() == 0,
            r.is_ok() <==> old(self).table().shape(old(mem)).fresh_cost(va.bits, 2) <= old(
                allocator,
            )@.available(),
            0 <= old(self).table().shape(old(mem)).fresh_cost(va.bits, 2),
            final(allocator)@ == old(allocator)@.after_allocs(
                min_int(
                    old(self).table().shape(old(mem)).fresh_cost(va.bits, 2),
                    old(allocator)@.available(),
                ) as nat,
            ),
            r.is_ok() ==> final(self).table().shape(final(mem)) == old(self).table().shape(
                old(mem),
            ).after_pages(va.bits, 2),
            r.is_ok() ==> r.unwrap().bits == va.bits + USER_STACK_SIZE && final(self).filled(
                final(mem),
                old(self),
                old(mem),
                va.bits as int / 4096,
                va.bits as int / 4096 + 2,
                stack_flags(),
            ),
    {
        let flags = PTEFlags::R().union(PTEFlags::W()).union(PTEFlags::U());
        match self.map_pages(mem, allocator, va, USER_STACK_SIZE / PAGE_SIZE, flags) {
            Ok(()) => Ok(Addr::new(va.bits + USER_STACK_SIZE)),
            Err(e) => Err(e),
        }
    }

    /// Places every load segment of a checked image, in order, on a
    /// space that holds the trampoline and the trap frame. Returns the
    /// end of the program.
    fn place_segments(
        &mut self,
        mem: &mut PhysMemory,
        allocator: &mut PageAllocator,
        image: &[u8],
        segments: &Vec<ProgramSegment>,
        Ghost(trampoline): Ghost<u64>,
        Ghost(tf): Ghost<u64>,
    ) -> (r: Result<u64, MapError>)
        requires
            old(self).inv(old(mem), old(allocator)),
            image_ok(image@, segments@),
            old(self).holds_program(old(mem), image@, segments@, 0, trampoline, tf),
        ensures
            final(self).inv(final(mem), final(allocator)),
            final(self).user_grown(
                final(mem),
                final(allocator),
                old(self),
                old(mem),
                old(allocator),
            ),
            r.is_err() ==> final(allocator)@.available() == 0,
            r.is_ok() <==> program_cost(
                old(self).table().shape(old(mem)),
                segments@,
                segments@.len() as int,
            ) <= old(allocator)@.available(),
            final(allocator)@ == old(allocator)@.after_allocs(
                old(allocator)@.capped(
                    program_cost(
                        old(self).table().shape(old(mem)),
                        segments@,
                        segments@.len() as int,
                    ),
                ),
            ),
            r.is_ok() ==> final(self).table().shape(final(mem)) == program_shape(
                old(self).table().shape(old(mem)),
                segments@,
                segments@.len() as int,
            ),
            old(allocator)@.available() >= 3 * user_pages(segments@, segments@.len() as int)
                ==> r.is_ok(),
            final(allocator)@.available() >= old(allocator)@.available() - 3 * user_pages(
                segments@,
                segments@.len() as int,
            ),
            r.is_ok() ==> {
                &&& r.unwrap() == prog_end(segments@, segments@.len() as int)
                &&& end_vpn(r.unwrap() as int) * 4096 + PAGE_SIZE + USER_STACK_SIZE <= TRAP_FRAME
                &&& final(self).holds_program(
                    final(mem),
                    image@,
                    segments@,
                    segments@.len() as int,
                    trampoline,
                    tf,
                )
            },
    {
        let n: usize = segments.len();
        let ghost segs = segments@;
        let ghost a0 = allocator@.available();
        let ghost shape0 = self.table().shape(mem);
        let mut end: u64 = 0;
        let mut i: usize = 0;
        proof {
            self.lemma_grown_is_user_grown(mem, allocator, old(self), old(mem), old(allocator));
            lemma_pages_grow(segs, 0, n as int);
            lemma_program_cost_grows(shape0, segs, 0, n as int);
            allocator@.lemma_allocs(0);
        }
        while i < n
            invariant
                i <= n,
                n == segs.len(),
                segs == segments@,
                image_ok(image@, segs),
                end == prog_end(segs, i as int),
                end <= TRAP_FRAME,
                end_vpn(end as int) * 4096 + PAGE_SIZE + USER_STACK_SIZE <= TRAP_FRAME,
                self.inv(mem, allocator),
                self.user_grown(mem, allocator, old(self), old(mem), old(allocator)),
                self.holds_program(mem, image@, segs, i as int, trampoline, tf),
                a0 == old(allocator)@.available(),
                a0 >= 3 * user_pages(segs, n as int) ==> allocator@.available() >= 3 * (user_pages(
                    segs,
                    n as int,
                ) - user_pages(segs, i as int)),
                allocator@.available() >= a0 - 3 * user_pages(segs, i as int),
                0 <= user_pages(segs, i as int) <= user_pages(segs, n as int),
                shape0 == old(self).table().shape(old(mem)),
                old(allocator)@.wf(),
                0 <= program_cost(shape0, segs, i as int) <= a0,
                allocator@.available() == a0 - program_cost(shape0, segs, i as int),
                allocator@ == old(allocator)@.after_allocs(
                    program_cost(shape0, segs, i as int) as nat,
                ),
                self.table().shape(mem) == program_shape(shape0, segs, i as int),
            decreases n - i,
        {
            let s = segments[i];
            proof {
                assert(seg_valid(image@.len() as int, segs[i as int]));
                lemma_pages_grow(segs, i as int + 1, n as int);
                lemma_pages_grow(segs, i as int, i as int + 1);
                lemma_program_cost_grows(shape0, segs, i as int + 1, n as int);
                lemma_program_cost_grows(shape0, segs, i as int, i as int + 1);
            }
            match s.kind {
                SegmentType::Load => {
                    let e: u64 = s.place.virtual_addr + s.place.mem_size;
                    if e > end {
                        end = e;
                    }
                },
                _ => {},
            }
            if is_loaded(&s) {
                let ghost mid = *self;
                let ghost mid_mem = *mem;
                let ghost mid_allocator = *allocator;
                proof {
                    assert forall|v: int| seg_covers(s, v) implies !self.layout().contains_key(
                        v,
                    ) by {
                        lemma_segment_free(segs, i as int, v);
                    }
                }
                let res = self.place_segment(mem, allocator, image, &s);
                proof {
                    let used = program_cost(shape0, segs, i as int) as nat;
                    let step = mid_allocator@.capped(
                        segment_cost(mid.table().shape(&mid_mem), s),
                    );
                    old(allocator)@.lemma_allocs_add(used, step);
                    mid_allocator@.lemma_allocs(step);
                    self.lemma_user_grown_trans(
                        mem,
                        allocator,
                        &mid,
                        &mid_mem,
                        &mid_allocator,
                        old(self),
                        old(mem),
                        old(allocator),
                    );
                }
                if res.is_err() {
                    return Err(MapError::OutOfFrames);
                }
                proof {
                    self.lemma_load_step(
                        mem,
                        &mid,
                        &mid_mem,
                        image@,
                        segs,
                        i as int,
                        trampoline,
                        tf,
                    );
                }
            }
            i = i + 1;
        }
        Ok(end)
    }

    /// A space that holds a program, filled with the two pages of the
    /// stack, holds the program and its stack.
    proof fn lemma_loaded(
        &self,
        mem: &PhysMemory,
        mid: &UserSpace,
        mid_mem: &PhysMemory,
        image: Seq<u8>,
        segs: Seq<ProgramSegment>,
        trampoline: u64,
        tf: u64,
    )
        requires
            stack_first(segs) + 2 <= TRAP_FRAME as int / 4096,
            mid.holds_program(mid_mem, image, segs, segs.len() as int, trampoline, tf),
            self.filled(
                mem,
                mid,
                mid_mem,
                stack_first(segs),
                stack_first(segs) + 2,
                stack_flags(),
            ),
            mid.data().dom().subset_of(self.data().dom()),
            mem.same_range(mid_mem),
        ensures
            self.loaded(
                mem,
                image,
                segs,
                trampoline,
                (stack_first(segs) * 4096 + USER_STACK_SIZE) as u64,
                tf,
            ),
    {
        lemma_vpn_indexes(TRAMPOLINE);
        lemma_vpn_indexes(TRAP_FRAME);
        let f: u8 = flags_rw().bits;
        assert(((f | 16u8) / 16) % 2 == 1) by (bit_vector);
        assert(has_user(stack_flags()));
        let n = segs.len() as int;
        lemma_prog_end(segs, n);
        assert(0 < stack_first(segs));
        assert(self.table().mapping(mem, TRAMPOLINE) == mid.table().mapping(mid_mem, TRAMPOLINE));
        assert(self.table().mapping(mem, TRAP_FRAME) == mid.table().mapping(mid_mem, TRAP_FRAME));
        assert forall|va: u64| va <= MAX_VIRT_ADDR implies #[trigger] self.user_byte(mem, va)
            == if stack_first(segs) <= vpn(va) < stack_first(segs) + 2 {
            Some(0u8)
        } else {
            user_bytes(image, segs, n, va)
        } by {
            assert(mid.user_byte(mid_mem, va) == user_bytes(image, segs, n, va));
        }
    }

    /// Loads a program whose headers have been read: checks the image
    /// and its headers, then maps the trampoline and the trap frame,
    /// places every load segment in order, and maps the user stack above
    /// one guard page. Returns the initial user stack pointer and the
    /// physical address of the trap frame. An image that cannot be
    /// placed is refused before anything is mapped.
    pub fn load_segments(
        &mut self,
        mem: &mut PhysMemory,
        allocator: &mut PageAllocator,
        image: &[u8],
        segments: &Vec<ProgramSegment>,
        trampoline: u64,
    ) -> (r: Result<(Addr, Addr), LoadError>)
        requires
            old(self).inv(old(mem), old(allocator)),
            old(self).layout() == Map::<int, PTEFlags>::empty(),
            old(self).size() == 0,
            trampoline <= MAX_PHYS_ADDR,
        ensures
            final(self).inv(final(mem), final(allocator)),
            final(self).user_grown(
                final(mem),
                final(allocator),
                old(self),
                old(mem),
                old(allocator),
            ),
            r == Err::<(Addr, Addr), LoadError>(LoadError::BadImage) <==> !image_ok(
                image@,
                segments@,
            ),
            !image_ok(image@, segments@) ==> {
                &&& final(self).layout() == old(self).layout()
                &&& final(self).size() == old(self).size()
                &&& final(self).data().dom() == old(self).data().dom()
                &&& final(self).table().tables() == old(self).table().tables()
                &&& final(allocator)@ == old(allocator)@
                &&& forall|p: u64, i: int|
                    old(mem).contains_page(p) && 0 <= i < 512 ==> #[trigger] final(mem).word(p, i)
                        == old(mem).word(p, i)
            },
            r == Err::<(Addr, Addr), LoadError>(LoadError::OutOfFrames)
                ==> final(allocator)@.available() == 0,
            image_ok(image@, segments@) && old(allocator)@.available() >= 11 + 3 * user_pages(
                segments@,
                segments@.len() as int,
            ) ==> r.is_ok(),
            r.is_ok() <==> image_ok(image@, segments@) && load_cost(
                old(self).table().shape(old(mem)),
                segments@,
            ) <= old(allocator)@.available(),
            image_ok(image@, segments@) ==> final(allocator)@ == old(allocator)@.after_allocs(
                old(allocator)@.capped(load_cost(old(self).table().shape(old(mem)), segments@)),
            ),
            r.is_ok() ==> final(self).loaded(
                final(mem),
                image@,
                segments@,
                trampoline,
                r.unwrap().0.bits,
                r.unwrap().1.bits,
            ),
    {
        let ghost shape0 = self.table().shape(mem);
        let ghost c1 = shape0.missing_at(TRAMPOLINE) + 1;
        let ghost c2 = program_cost(
            shape0.with_page(TRAMPOLINE),
            segments@,
            segments@.len() as int,
        );
        let ghost c3 = program_shape(
            shape0.with_page(TRAMPOLINE),
            segments@,
            segments@.len() as int,
        ).fresh_cost((stack_first(segments@) * 4096) as u64, 2);
        proof {
            self.lemma_grown_is_user_grown(mem, allocator, old(self), old(mem), old(allocator));
        }
        if !check_image(image, segments) {
            return Err(LoadError::BadImage);
        }
        proof {
            lemma_pages_grow(segments@, 0, segments@.len() as int);
            lemma_program_cost_grows(
                shape0.with_page(TRAMPOLINE),
                segments@,
                0,
                segments@.len() as int,
            );
            program_shape(
                shape0.with_page(TRAMPOLINE),
                segments@,
                segments@.len() as int,
            ).lemma_cost_grows((stack_first(segments@) * 4096) as u64, 0, 2);
            self.table().lemma_wf_tables(mem);
            old(allocator)@.lemma_allocs_seq(c1, c2);
            old(allocator)@.lemma_allocs_seq(c1 + c2, c3);
            old(allocator)@.lemma_allocs_seq(c1, c2 + c3);
        }
        let tf = match self.begin_load(mem, allocator, Ghost(image@), Ghost(segments@), trampoline) {
            Ok(a) => a,
            Err(_) => {
                return Err(LoadError::OutOfFrames);
            },
        };
        let ghost s1 = *self;
        let ghost m1 = *mem;
        let ghost al1 = *allocator;
        let res = self.place_segments(
            mem,
            allocator,
            image,
            segments,
            Ghost(trampoline),
            Ghost(tf.bits),
        );
        let ghost s2 = *self;
        let ghost m2 = *mem;
        let ghost al2 = *allocator;
        proof {
            self.lemma_user_grown_trans(
                mem,
                allocator,
                &s1,
                &m1,
                &al1,
                old(self),
                old(mem),
                old(allocator),
            );
        }
        let end = match res {
            Ok(end) => end,
            Err(_) => {
                return Err(LoadError::OutOfFrames);
            },
        };
        let res2 = self.end_load(
            mem,
            allocator,
            end,
            Ghost(image@),
            Ghost(segments@),
            Ghost(trampoline),
            Ghost(tf.bits),
        );
        proof {
            self.lemma_user_grown_trans(
                mem,
                allocator,
                &s2,
                &m2,
                &al2,
                old(self),
                old(mem),
                old(allocator),
            );
        }
        match res2 {
            Ok(sp) => Ok((sp, tf)),
            Err(_) => Err(LoadError::OutOfFrames),
        }
    }

    /// Maps the trampoline and the trap frame on a fresh space.
    fn begin_load(
        &mut self,
        mem: &mut PhysMemory,
        allocator: &mut PageAllocator,
        Ghost(image): Ghost<Seq<u8>>,
        Ghost(segs): Ghost<Seq<ProgramSegment>>,
        trampoline: u64,
    ) -> (r: Result<Addr, MapError>)
        requires
            old(self).inv(old(mem), old(allocator)),
            old(self).layout() == Map::<int, PTEFlags>::empty(),
            old(self).size() == 0,
            trampoline <= MAX_PHYS_ADDR,
        ensures
            final(self).inv(final(mem), final(allocator)),
            final(self).user_grown(
                final(mem),
                final(allocator),
                old(self),
                old(mem),
                old(allocator),
            ),
            old(allocator)@.available() >= 5 ==> r.is_ok(),
            final(allocator)@.available() >= old(allocator)@.available() - 5,
            r.is_err() ==> final(allocator)@.available() == 0,
            r.is_ok() <==> old(self).table().shape(old(mem)).missing_at(TRAMPOLINE) + 1 <= old(
                allocator,
            )@.available(),
            final(allocator)@ == old(allocator)@.after_allocs(
                old(allocator)@.capped(
                    old(self).table().shape(old(mem)).missing_at(TRAMPOLINE) + 1,
                ),
            ),
            r.is_ok() ==> final(self).table().shape(final(mem)) == old(self).table().shape(
                old(mem),
            ).with_page(TRAMPOLINE),
            r.is_ok() ==> final(self).holds_program(
                final(mem),
                image,
                segs,
                0,
                trampoline,
                r.unwrap().bits,
            ),
    {
        let res = self.init_pagetable(mem, allocator, trampoline);
        proof {
            self.lemma_grown_is_user_grown(mem, allocator, old(self), old(mem), old(allocator));
            if res.is_ok() {
                assert(self.layout() =~= base_plan());
                assert forall|va: u64|
                    va <= MAX_VIRT_ADDR implies #[trigger] self.user_byte(mem, va) == user_bytes(
                    image,
                    segs,
                    0,
                    va,
                ) by {
                    old(self).lemma_layout(old(mem), va);
                }
            }
        }
        res
    }

    /// Maps the user stack above a loaded program that ends at `end`.
    fn end_load(
        &mut self,
        mem: &mut PhysMemory,
        allocator: &mut PageAllocator,
        end: u64,
        Ghost(image): Ghost<Seq<u8>>,
        Ghost(segs): Ghost<Seq<ProgramSegment>>,
        Ghost(trampoline): Ghost<u64>,
        Ghost(tf): Ghost<u64>,
    ) -> (r: Result<Addr, MapError>)
        requires
            old(self).inv(old(mem), old(allocator)),
            end == prog_end(segs, segs.len() as int),
            end_vpn(end as int) * 4096 + PAGE_SIZE + USER_STACK_SIZE <= TRAP_FRAME,
            old(self).holds_program(old(mem), image, segs, segs.len() as int, trampoline, tf),
        ensures
            final(self).inv(final(mem), final(allocator)),
            final(self).user_grown(
                final(mem),
                final(allocator),
                old(self),
                old(mem),
                old(allocator),
            ),
            old(allocator)@.available() >= 6 ==> r.is_ok(),
            r.is_err() ==> final(allocator)@.available() == 0,
            r.is_ok() <==> old(self).table().shape(old(mem)).fresh_cost(
                (stack_first(segs) * 4096) as u64,
                2,
            ) <= old(allocator)@.available(),
            0 <= old(self).table().shape(old(mem)).fresh_cost(
                (stack_first(segs) * 4096) as u64,
                2,
            ),
            final(allocator)@ == old(allocator)@.after_allocs(
                old(allocator)@.capped(
                    old(self).table().shape(old(mem)).fresh_cost(
                        (stack_first(segs) * 4096) as u64,
                        2,
                    ),
                ),
            ),
            r.is_ok() ==> final(self).loaded(
                final(mem),
                image,
                segs,
                trampoline,
                r.unwrap().bits,
                tf,
            ),
    {
        proof {
            lemma_stack_base(end, segs);
        }
        let top = Addr::new(end).align_up();
        let base = Addr::new(top.bits + PAGE_SIZE);
        let ghost first = stack_first(segs);
        proof {
            assert forall|v: int| first <= v < first + 2 implies !self.layout().contains_key(v) by {
                lemma_stack_free(segs, v);
            }
        }
        let res = self.init_stack(mem, allocator, base);
        proof {
            self.lemma_grown_is_user_grown(mem, allocator, old(self), old(mem), old(allocator));
            if res.is_ok() {
                self.lemma_loaded(mem, old(self), old(mem), image, segs, trampoline, tf);
            }
        }
        res
    }
}

/// The stack of a program that ends at `end` starts one page above the
/// page boundary at or above `end`, and fits below the trap frame.
pub proof fn lemma_stack_base(end: u64, segs: Seq<ProgramSegment>)
    requires
        end == prog_end(segs, segs.len() as int),
        end_vpn(end as int) * 4096 + PAGE_SIZE + USER_STACK_SIZE <= TRAP_FRAME,
    ensures
        end + 4095 <= u64::MAX,
        crate::mem::address::page_ceil(end) + PAGE_SIZE == stack_first(segs) * 4096,
        stack_first(segs) * 4096 + USER_STACK_SIZE <= TRAP_FRAME,
        stack_first(segs) + 2 <= TRAP_FRAME as int / 4096,
        (stack_first(segs) * 4096) / 4096 == stack_first(segs),
        (stack_first(segs) * 4096) % 4096 == 0,
{
}

/// A page of program header `i` of a checked image is not in the
/// layout after the headers before it.
pub proof fn lemma_segment_free(segs: Seq<ProgramSegment>, i: int, v: int)
    requires
        0 <= i < segs.len(),
        segments_disjoint(segs),
        seg_covers(segs[i], v),
        segs[i].place.virtual_addr + segs[i].place.mem_size <= TRAP_FRAME,
        seg_end(segs[i]) * 4096 + PAGE_SIZE + USER_STACK_SIZE <= TRAP_FRAME,
    ensures
        !user_plan(segs, i).contains_key(v),
{
    lemma_plan_dom(segs, i, v);
    if exists|j: int| 0 <= j < i && seg_covers(#[trigger] segs[j], v) {
        let j = choose|j: int| 0 <= j < i && seg_covers(#[trigger] segs[j], v);
        assert(seg_loaded(segs[j]) && seg_loaded(segs[i]));
    }
}

/// The two pages of the stack are not in the layout of the program.
pub proof fn lemma_stack_free(segs: Seq<ProgramSegment>, v: int)
    requires
        stack_first(segs) <= v < stack_first(segs) + 2,
        stack_first(segs) + 2 <= TRAP_FRAME as int / 4096,
    ensures
        !user_plan(segs, segs.len() as int).contains_key(v),
{
    let n = segs.len() as int;
    lemma_plan_dom(segs, n, v);
    lemma_prog_end(segs, n);
    if exists|j: int| 0 <= j < n && seg_covers(#[trigger] segs[j], v) {
        let j = choose|j: int| 0 <= j < n && seg_covers(#[trigger] segs[j], v);
        assert(segs[j].place.virtual_addr + segs[j].place.mem_size <= prog_end(segs, n));
    }
}

/// The pages taken up grow with the number of program headers.
pub proof fn lemma_pages_grow(segs: Seq<ProgramSegment>, i: int, n: int)
    requires
        0 <= i <= n <= segs.len(),
    ensures
        0 <= user_pages(segs, i) <= user_pages(segs, n),
    decreases n, n - i,
{
    if i < n {
        lemma_pages_grow(segs, i, n - 1);
        assert(seg_first(segs[n - 1]) <= seg_end(segs[n - 1]));
    } else if n > 0 {
        lemma_pages_grow(segs, i - 1, n - 1);
        assert(seg_first(segs[n - 1]) <= seg_end(segs[n - 1]));
    }
}

impl UserSpace {
    /// What loading a program with the given headers comes to: a bad
    /// image is refused, exactly when it is bad, with nothing touched;
    /// a good image is loaded exactly when the frames last for it, as
    /// they do when eleven frames and three for every page of the
    /// program are available; failure for want of frames leaves the
    /// allocator exhausted; the allocator hands out as many frames as the
    /// program costs or as it has; and on success the space holds the
    /// program and its stack.
    pub open spec fn load_result(
        &self,
        mem: &PhysMemory,
        allocator: &PageAllocator,
        old_self: &UserSpace,
        old_mem: &PhysMemory,
        old_allocator: &PageAllocator,
        image: Seq<u8>,
        segs: Seq<ProgramSegment>,
        trampoline: u64,
        r: Result<(Addr, Addr), LoadError>,
    ) -> bool {
        &&& r == Err::<(Addr, Addr), LoadError>(LoadError::BadImage) <==> !image_ok(image, segs)
        &&& !image_ok(image, segs) ==> self.untouched(
            mem,
            allocator,
            old_self,
            old_mem,
            old_allocator,
        )
        &&& r == Err::<(Addr, Addr), LoadError>(LoadError::OutOfFrames)
            ==> allocator@.available() == 0
        &&& image_ok(image, segs) && old_allocator@.available() >= 11 + 3 * user_pages(
            segs,
            segs.len() as int,
        ) ==> r.is_ok()
        &&& r.is_ok() <==> image_ok(image, segs) && load_cost(
            old_self.table().shape(old_mem),
            segs,
        ) <= old_allocator@.available()
        &&& image_ok(image, segs) ==> allocator@ == old_allocator@.after_allocs(
            old_allocator@.capped(load_cost(old_self.table().shape(old_mem), segs)),
        )
        &&& r.is_ok() ==> self.loaded(
            mem,
            image,
            segs,
            trampoline,
            r.unwrap().0.bits,
            r.unwrap().1.bits,
        )
    }

    /// The space, memory and the allocator are as they were.
    pub open spec fn untouched(
        &self,
        mem: &PhysMemory,
        allocator: &PageAllocator,
        old_self: &UserSpace,
        old_mem: &PhysMemory,
        old_allocator: &PageAllocator,
    ) -> bool {
        &&& self.layout() == old_self.layout()
        &&& self.size() == old_self.size()
        &&& self.data().dom() == old_self.data().dom()
        &&& self.table().tables() == old_self.table().tables()
        &&& allocator@ == old_allocator@
        &&& forall|p: u64, i: int|
            old_mem.contains_page(p) && 0 <= i < 512 ==> #[trigger] mem.word(p, i) == old_mem.word(
                p,
                i,
            )
    }

    /// Loads the program of an ELF image into a fresh space. The magic
    /// number is checked before anything else; an image without it, one
    /// whose headers cannot be read, or one that cannot be placed is
    /// refused with nothing mapped. Returns the initial user stack
    /// pointer and the physical address of the trap frame.
    pub fn init_from_elf(
        &mut self,
        mem: &mut PhysMemory,
        allocator: &mut PageAllocator,
        elf_data: &[u8],
        trampoline: u64,
    ) -> (r: Result<(Addr, Addr), LoadError>)
        requires
            old(self).inv(old(mem), old(allocator)),
            old(self).layout() == Map::<int, PTEFlags>::empty(),
            old(self).size() == 0,
            trampoline <= MAX_PHYS_ADDR,
        ensures
            final(self).inv(final(mem), final(allocator)),
            final(self).user_grown(
                final(mem),
                final(allocator),
                old(self),
                old(mem),
                old(allocator),
            ),
            !has_magic(elf_data@) || elf_segments(elf_data@).is_none() ==> {
                &&& r == Err::<(Addr, Addr), LoadError>(LoadError::BadImage)
                &&& final(self).untouched(
                    final(mem),
                    final(allocator),
                    old(self),
                    old(mem),
                    old(allocator),
                )
            },
            has_magic(elf_data@) && elf_segments(elf_data@).is_some() ==> final(self).load_result(
                final(mem),
                final(allocator),
                old(self),
                old(mem),
                old(allocator),
                elf_data@,
                elf_segments(elf_data@).unwrap(),
                trampoline,
                r,
            ),
    {
        proof {
            self.lemma_grown_is_user_grown(mem, allocator, old(self), old(mem), old(allocator));
        }
        if elf_data.len() < 4 || elf_data[0] != 0x7f || elf_data[1] != 0x45 || elf_data[2] != 0x4c
            || elf_data[3] != 0x46 {
            return Err(LoadError::BadImage);
        }
        let segments = match read_segments(elf_data) {
            Some(s) => s,
            None => {
                return Err(LoadError::BadImage);
            },
        };
        self.load_segments(mem, allocator, elf_data, &segments, trampoline)
    }
}

impl UserSpace {
    /// The space stays in order, and maps and reads as before, when its
    /// own frames keep their contents while other frames change and the
    /// allocator hands out more frames.
    pub proof fn lemma_kept(
        &self,
        mem: &PhysMemory,
        allocator: &PageAllocator,
        mem2: &PhysMemory,
        allocator2: &PageAllocator,
    )
        requires
            self.inv(mem, allocator),
            mem2.wf(),
            mem2.same_range(mem),
            allocator2@.wf(),
            allocator2@.start == allocator@.start,
            allocator2@.end == allocator@.end,
            allocator@.issued.subset_of(allocator2@.issued),
            forall|p: u64, i: int|
                (self.table().tables().contains(p) || self.data().dom().contains(p)) && 0 <= i
                    < 512 ==> #[trigger] mem2.word(p, i) == mem.word(p, i),
        ensures
            self.inv(mem2, allocator2),
            forall|va: u64| #[trigger]
                self.table().mapping(mem2, va) == self.table().mapping(mem, va),
            forall|va: u64| #[trigger] self.user_byte(mem2, va) == self.user_byte(mem, va),
    {
        self.table().lemma_same_tables(mem, mem2);
        self.table().lemma_wf_tables(mem);
        assert forall|va: u64| #[trigger] self.user_byte(mem2, va) == self.user_byte(mem, va) by {
            self.lemma_user_byte_frame(mem, mem2, va);
        }
    }

    /// A user byte reads the same when its page is mapped as before and
    /// the frame it lies in kept its contents.
    proof fn lemma_user_byte_frame(&self, mem: &PhysMemory, mem2: &PhysMemory, va: u64)
        requires
            self.wf(mem),
            mem2.same_range(mem),
            self.table().mapping(mem2, va) == self.table().mapping(mem, va),
            self.table().mapping(mem, va).is_some() && self.table().mapping(
                mem,
                va,
            ).unwrap().is_user() ==> forall|i: int|
                0 <= i < 512 ==> #[trigger] mem2.word(
                    self.table().mapping(mem, va).unwrap().addr(),
                    i,
                ) == mem.word(self.table().mapping(mem, va).unwrap().addr(), i),
        ensures
            self.user_byte(mem2, va) == self.user_byte(mem, va),
    {
        if self.table().mapping(mem, va).is_some() {
            let e = self.table().mapping(mem, va).unwrap();
            let off = (va % 4096) as u64;
            e.lemma_target(off);
            if e.is_user() {
                let pa = (e.addr() + off) as u64;
                let i = ((pa % 4096) / 8) as int;
                assert(mem2.word(e.addr(), i) == mem.word(e.addr(), i));
            }
        }
    }

    /// A space that holds a program holds it still after the trap frame
    /// has been written to, and the address of the trap frame is a page
    /// boundary within the physical address range.
    pub proof fn lemma_first_trap_frame(
        &self,
        mem: &PhysMemory,
        allocator: &PageAllocator,
        mem2: &PhysMemory,
        image: Seq<u8>,
        trampoline: u64,
        user_sp: u64,
        trap_frame: u64,
    )
        requires
            self.inv(mem, allocator),
            self.loaded(mem, image, elf_segments(image).unwrap(), trampoline, user_sp, trap_frame),
            mem2.wf(),
            mem2.same_range(mem),
            forall|p: u64, i: int|
                mem.contains_page(p) && p != trap_frame && 0 <= i < 512 ==> #[trigger] mem2.word(
                    p,
                    i,
                ) == mem.word(p, i),
        ensures
            self.inv(mem2, allocator),
            self.loaded(mem2, image, elf_segments(image).unwrap(), trampoline, user_sp, trap_frame),
            trap_frame % 4096 == 0,
            trap_frame <= MAX_PHYS_ADDR,
    {
        self.table().lemma_wf_tables(mem);
        self.lemma_trap_frame_write(mem, allocator, mem2, trap_frame);
        assert(self.table().mapping(mem2, TRAMPOLINE) == self.table().mapping(mem, TRAMPOLINE));
        assert(self.table().mapping(mem2, TRAP_FRAME) == self.table().mapping(mem, TRAP_FRAME));
        assert forall|va: u64| #[trigger] self.user_byte(mem2, va) == self.user_byte(mem, va) by {}
    }

    /// Writing to the frame of the trap frame, which is not mapped for
    /// user access, keeps the space in order and changes no mapping and
    /// no user byte.
    pub proof fn lemma_trap_frame_write(
        &self,
        mem: &PhysMemory,
        allocator: &PageAllocator,
        mem2: &PhysMemory,
        trap_frame: u64,
    )
        requires
            self.inv(mem, allocator),
            mem2.wf(),
            mem2.same_range(mem),
            self.table().mapping(mem, TRAP_FRAME) == Some(
                PageTableEntry::spec_new(trap_frame, with_valid(flags_rw())),
            ),
            trap_frame % 4096 == 0,
            trap_frame <= MAX_PHYS_ADDR,
            forall|p: u64, i: int|
                mem.contains_page(p) && p != trap_frame && 0 <= i < 512 ==> #[trigger] mem2.word(
                    p,
                    i,
                ) == mem.word(p, i),
        ensures
            self.inv(mem2, allocator),
            forall|va: u64| #[trigger]
                self.table().mapping(mem2, va) == self.table().mapping(mem, va),
            forall|va: u64| #[trigger] self.user_byte(mem2, va) == self.user_byte(mem, va),
    {
        let e0 = PageTableEntry::spec_new(trap_frame, with_valid(flags_rw()));
        PageTableEntry::lemma_new(trap_frame, with_valid(flags_rw()));
        assert((((2u8 | 4u8) | 1u8) / 16) % 2 == 0) by (bit_vector);
        assert(!e0.is_user());
        lemma_vpn_indexes(TRAP_FRAME);
        lemma_vpn_indexes(TRAMPOLINE);
        assert(self.data().dom().contains(trap_frame));
        self.table().lemma_wf_tables(mem);
        self.table().lemma_same_tables(mem, mem2);
        assert forall|va: u64| #[trigger] self.user_byte(mem2, va) == self.user_byte(mem, va) by {
            if self.table().mapping(mem, va).is_some() {
                let e = self.table().mapping(mem, va).unwrap();
                if e.is_user() {
                    if e.addr() == trap_frame {
                        self.lemma_no_alias(mem, va, TRAP_FRAME);
                        self.table().lemma_mapping_by_vpn(mem, va, TRAP_FRAME);
                    }
                }
            }
            self.lemma_user_byte_frame(mem, mem2, va);
        }
    }
}

impl UserSpace {
    /// Whether user code can read every byte of `[va, va + len)`.
    pub open spec fn user_readable(&self, mem: &PhysMemory, va: u64, len: int) -> bool {
        &&& va + len <= MAX_VIRT_ADDR + 1
        &&& forall|k: int| 0 <= k < len ==> (#[trigger] self.user_byte(mem, (va + k) as u64)).is_some()
    }

    /// Copies `len` bytes of user memory from `va` on, translating each
    /// address through the page table of the space. `None` where a byte
    /// of the range is not mapped for user access, or is mapped outside
    /// of memory.
    pub fn copy_from_user(&self, mem: &PhysMemory, va: Addr, len: usize) -> (r: Option<Vec<u8>>)
        requires
            self.table().wf(mem),
        ensures
            r.is_some() <==> self.user_readable(mem, va.bits, len as int),
            r.is_some() ==> {
                &&& r.unwrap()@.len() == len
                &&& forall|k: int|
                    0 <= k < len ==> Some(#[trigger] r.unwrap()@[k]) == self.user_byte(
                        mem,
                        (va.bits + k) as u64,
                    )
            },
    {
        proof {
            self.table().lemma_wf_tables(mem);
        }
        if va.bits > MAX_VIRT_ADDR + 1 {
            return None;
        }
        let mut out: Vec<u8> = Vec::new();
        let mut k: usize = 0;
        while k < len
            invariant
                k <= len,
                mem.wf(),
                self.table().wf(mem),
                out@.len() == k,
                va.bits + k <= MAX_VIRT_ADDR + 1,
                forall|j: int|
                    0 <= j < k ==> Some(#[trigger] out@[j]) == self.user_byte(
                        mem,
                        (va.bits + j) as u64,
                    ),
            decreases len - k,
        {
            if va.bits > MAX_VIRT_ADDR || k as u64 > MAX_VIRT_ADDR - va.bits {
                return None;
            }
            let a = Addr::new(va.bits + k as u64);
            let pa = match self.page_table.walk_addr(mem, a) {
                Some(pa) => pa,
                None => {
                    assert(self.user_byte(mem, (va.bits + k) as u64).is_none());
                    return None;
                },
            };
            if !mem.has_page(Page::new(pa.bits)) {
                assert(self.user_byte(mem, (va.bits + k) as u64).is_none());
                return None;
            }
            out.push(mem.read_byte(pa));
            k = k + 1;
        }
        proof {
            assert forall|j: int| 0 <= j < len implies (#[trigger] self.user_byte(
                mem,
                (va.bits + j) as u64,
            )).is_some() by {
                assert(Some(out@[j]) == self.user_byte(mem, (va.bits + j) as u64));
            }
        }
        Some(out)
    }
}

impl UserSpace {
    /// The lines of the page table of the space, for printing.
    pub fn print_user_pagetable(&self, mem: &PhysMemory) -> (r: Vec<PageTableLine>)
        requires
            self.table().wf(mem),
        ensures
            r@ == table_lines(mem, self.table().root(), 2, 0, 512),
    {
        self.page_table.print_page_table(mem)
    }
}

impl UserSpace {
    /// Gives up the space: the frames of its page table go back to the
    /// allocator, the root first, and then its data frames. The free
    /// frames of the allocator are then those that were free and those of
    /// the space, and as many more frames are available as the space
    /// held.
    pub fn release(self, mem: &PhysMemory, allocator: &mut PageAllocator)
        requires
            self.inv(mem, old(allocator)),
        ensures
            final(allocator)@.wf(),
            final(allocator)@.start == old(allocator)@.start,
            final(allocator)@.end == old(allocator)@.end,
            final(allocator)@.next == old(allocator)@.next,
            final(allocator)@.issued == old(allocator)@.issued.difference(
                self.table().frames().union(self.data().dom()),
            ),
            self.table().frames().finite(),
            self.data().dom().finite(),
            final(allocator)@.available() == old(allocator)@.available()
                + self.table().frames().len() + self.data().dom().len(),
            forall|p: u64| #[trigger]
                final(allocator)@.free.contains(p) <==> old(allocator)@.free.contains(p)
                    || self.table().frames().contains(p) || self.data().dom().contains(p),
    {
        let mut data = self.data_pages;
        self.page_table.release(mem, allocator);
        data.release_all(allocator);
        proof {
            assert(allocator@.issued =~= old(allocator)@.issued.difference(
                self.table().frames().union(self.data().dom()),
            ));
        }
    }
}

} // verus!
