//! The kernel address space.

use vstd::prelude::*;
use crate::mem::address::{Addr, lemma_vpn_indexes, vpn, vpn_index};
use crate::mem::frame_map::FrameMap;
use crate::mem::mapper::{
    data_grown, flags_rw, flags_rx, lemma_space_grown_trans, lemma_table_growth, map_fresh,
    space_grown, space_inv, with_valid,
};
use crate::mem::page_allocator::{AllocatorState, PageAllocator};
use crate::mem::page_table::{
    MapError, PTEFlags, PageTable, PageTableEntry, PageTableLine, TableShape, pages_for,
    table_lines, tables_bound,
};
use crate::mem::self_test::{WALK_TEST_HIGH, WALK_TEST_LOW, WALK_TEST_ROUNDS};
use crate::mem::phys_mem::PhysMemory;
use crate::mem_layout::{
    KERNEL_BASE, KERNEL_STACK_SIZE, MAX_PHYS_ADDR, PAGE_SIZE, PHYS_TOP, TRAMPOLINE,
};
use crate::task::param::MAX_APP_NUM;

verus! {

/// Lowest virtual address of the kernel stack of task `id`. Stacks lie
/// below the trampoline, one unmapped guard page above each.
pub fn kernel_stack_i(id: usize) -> (r: Addr)
    requires
        id < MAX_APP_NUM,
    ensures
        r.bits == TRAMPOLINE - (id + 1) * (KERNEL_STACK_SIZE + PAGE_SIZE),
{
    Addr::new(TRAMPOLINE - (id as u64 + 1) * (KERNEL_STACK_SIZE + PAGE_SIZE))
}

/// Initial stack pointer of the kernel stack of task `id`: the address
/// just above the stack.
pub fn kernel_sp_i(id: usize) -> (r: u64)
    requires
        id < MAX_APP_NUM,
    ensures
        r == TRAMPOLINE - (id + 1) * (KERNEL_STACK_SIZE + PAGE_SIZE) + KERNEL_STACK_SIZE,
{
    kernel_stack_i(id).bits + KERNEL_STACK_SIZE
}

/// Whether the page with virtual page number `v` belongs to one of the
/// first `stacks` kernel stacks, or is one of the first `pages` pages of
/// the stack after them. Counted in pages down from the trampoline, a
/// stack takes the second and third of every three pages; the first is
/// the guard.
pub open spec fn in_kernel_stacks(v: int, stacks: int, pages: int) -> bool {
    let d = TRAMPOLINE / 4096 - v;
    ||| (2 <= d <= 3 * stacks && d % 3 != 1)
    ||| (0 <= 3 * (stacks + 1) - d < pages)
}

/// Lowest virtual address of the kernel stack of task `id`.
pub open spec fn stack_base(id: int) -> u64 {
    (TRAMPOLINE - (id + 1) * (KERNEL_STACK_SIZE + PAGE_SIZE)) as u64
}

/// The shape of a table after the first `i` kernel stacks have been
/// mapped.
pub open spec fn stacks_shape(shape: TableShape, i: int) -> TableShape
    decreases i,
{
    if i <= 0 {
        shape
    } else {
        stacks_shape(shape, i - 1).after_pages(stack_base(i - 1), 2)
    }
}

/// How many frames it takes to map the first `i` kernel stacks, each
/// page to a frame of its own.
pub open spec fn stacks_cost(shape: TableShape, i: int) -> int
    decreases i,
{
    if i <= 0 {
        0
    } else {
        stacks_cost(shape, i - 1) + stacks_shape(shape, i - 1).fresh_cost(stack_base(i - 1), 2)
    }
}

/// The cost of the kernel stacks is not negative and grows with their
/// number.
pub proof fn lemma_stacks_cost_grows(shape: TableShape, a: int, b: int)
    requires
        0 <= a <= b,
    ensures
        0 <= stacks_cost(shape, a) <= stacks_cost(shape, b),
    decreases b,
{
    if a < b {
        lemma_stacks_cost_grows(shape, a, b - 1);
        stacks_shape(shape, b - 1).lemma_cost_grows(stack_base(b - 1), 0, 2);
    } else if a > 0 {
        lemma_stacks_cost_grows(shape, a - 1, a - 1);
        stacks_shape(shape, a - 1).lemma_cost_grows(stack_base(a - 1), 0, 2);
    }
}

/// How many frames it takes to build the kernel mappings on a table of
/// the given shape: the page-table pages for the kernel text, for the
/// rest of memory and for the trampoline, and the kernel stacks.
pub open spec fn kernel_cost(shape: TableShape, etext: u64) -> int {
    let n1 = (etext - KERNEL_BASE) / 4096;
    let n2 = (PHYS_TOP - etext) / 4096;
    let s1 = shape.after_pages(KERNEL_BASE, n1);
    let s2 = s1.after_pages(etext, n2);
    let s3 = s2.with_page(TRAMPOLINE);
    shape.cost(KERNEL_BASE, n1) + s1.cost(etext, n2) + s2.missing_at(TRAMPOLINE) + stacks_cost(
        s3,
        MAX_APP_NUM as int,
    )
}

/// The cost of the kernel mappings is not negative.
pub proof fn lemma_kernel_cost(shape: TableShape, etext: u64)
    requires
        KERNEL_BASE <= etext <= PHYS_TOP,
    ensures
        0 <= kernel_cost(shape, etext),
{
    let n1 = (etext - KERNEL_BASE) / 4096;
    let n2 = (PHYS_TOP - etext) / 4096;
    let s1 = shape.after_pages(KERNEL_BASE, n1);
    let s2 = s1.after_pages(etext, n2);
    shape.lemma_cost_grows(KERNEL_BASE, 0, n1);
    s1.lemma_cost_grows(etext, 0, n2);
    lemma_stacks_cost_grows(s2.with_page(TRAMPOLINE), 0, MAX_APP_NUM as int);
}

/// The kernel's page table and the frames of its stacks.
pub struct KernelSpace {
    page_table: PageTable,
    data_pages: FrameMap,
    // For each frame of a kernel stack, the page that it is mapped at.
    owner: Ghost<Map<u64, int>>,
}

impl KernelSpace {
    /// The page table of the space.
    pub closed spec fn table(&self) -> &PageTable {
        &self.page_table
    }

    /// The tickets of the data frames of the space.
    pub closed spec fn data(&self) -> &FrameMap {
        &self.data_pages
    }

    /// For each frame of a kernel stack, the number of the page that it
    /// is mapped at.
    pub closed spec fn stack_page(&self) -> Map<u64, int> {
        self.owner@
    }

    pub open spec fn inv(&self, mem: &PhysMemory, allocator: &PageAllocator) -> bool {
        space_inv(self.table(), self.data(), mem, allocator)
    }

    /// The kernel image is mapped onto itself, text up to `etext` for
    /// read and execute, the rest of physical memory for read and write;
    /// the trampoline page is mapped to the frame at `trampoline`; the
    /// first `stacks` kernel stacks and the first `pages` pages of the
    /// next are mapped for read and write, each page to a data frame of
    /// the space that serves this page alone; nothing else is mapped.
    pub open spec fn maps_kernel(
        &self,
        mem: &PhysMemory,
        etext: u64,
        trampoline: u64,
        stacks: int,
        pages: int,
    ) -> bool {
        forall|va: u64|
            {
                let v = vpn(va);
                let e = #[trigger] self.table().mapping(mem, va);
                if KERNEL_BASE / 4096 <= v < etext / 4096 {
                    e == Some(PageTableEntry::spec_new((v * 4096) as u64, with_valid(flags_rx())))
                } else if etext / 4096 <= v < PHYS_TOP / 4096 {
                    e == Some(PageTableEntry::spec_new((v * 4096) as u64, with_valid(flags_rw())))
                } else if v == TRAMPOLINE / 4096 {
                    e == Some(PageTableEntry::spec_new(trampoline, with_valid(flags_rx())))
                } else if in_kernel_stacks(v, stacks, pages) {
                    &&& e.is_some()
                    &&& e.unwrap().flag_bits() == with_valid(flags_rw()).bits
                    &&& self.data().dom().contains(e.unwrap().addr())
                    &&& self.stack_page().contains_key(e.unwrap().addr())
                    &&& self.stack_page()[e.unwrap().addr()] == v
                } else {
                    e.is_none()
                }
            }
    }

    /// Two pages of kernel stack are mapped to two frames.
    pub proof fn lemma_stacks_apart(
        &self,
        mem: &PhysMemory,
        etext: u64,
        trampoline: u64,
        va1: u64,
        va2: u64,
    )
        requires
            KERNEL_BASE <= etext <= PHYS_TOP,
            self.maps_kernel(mem, etext, trampoline, MAX_APP_NUM as int, 0),
            in_kernel_stacks(vpn(va1), MAX_APP_NUM as int, 0),
            in_kernel_stacks(vpn(va2), MAX_APP_NUM as int, 0),
            vpn(va1) != vpn(va2),
        ensures
            self.table().mapping(mem, va1).is_some(),
            self.table().mapping(mem, va2).is_some(),
            self.table().mapping(mem, va1).unwrap().addr() != self.table().mapping(
                mem,
                va2,
            ).unwrap().addr(),
    {
        assert(self.table().mapping(mem, va1).is_some());
        assert(self.table().mapping(mem, va2).is_some());
    }

    /// A space with an empty page table; `None` when the allocator has
    /// no frame for the root.
    pub fn new(mem: &mut PhysMemory, allocator: &mut PageAllocator) -> (r: Option<Self>)
        requires
            old(mem).wf(),
            old(allocator)@.wf(),
            old(mem).base() <= old(allocator)@.start,
            old(allocator)@.end <= old(mem).top(),
        ensures
            final(mem).wf(),
            final(mem).same_range(old(mem)),
            final(allocator)@ == old(allocator)@.after_alloc(),
            r.is_some() <==> old(allocator)@.available() > 0,
            r.is_some() ==> {
                let s = r.unwrap();
                &&& s.inv(final(mem), final(allocator))
                &&& Some(s.table().root()) == old(allocator)@.next_frame()
                &&& s.table().tables() == set![s.table().root()]
                &&& s.data().dom() == Set::<u64>::empty()
                &&& s.table().shape(final(mem)) == TableShape::bare()
                &&& forall|va: u64| (#[trigger] s.table().mapping(final(mem), va)).is_none()
            },
            forall|p: u64, i: int|
                old(mem).contains_page(p) && old(allocator)@.issued.contains(p) && 0 <= i < 512
                    ==> #[trigger] final(mem).word(p, i) == old(mem).word(p, i),
    {
        proof {
            allocator@.lemma_alloc();
        }
        match PageTable::new(mem, allocator) {
            None => None,
            Some(page_table) => {
                proof {
                    page_table.lemma_wf_tables(mem);
                }
                Some(KernelSpace { page_table, data_pages: FrameMap::new(), owner: Ghost(Map::empty()) })
            },
        }
    }

    /// Gives each task a kernel stack of fresh frames.
    fn alloc_kernel_stack(
        &mut self,
        mem: &mut PhysMemory,
        allocator: &mut PageAllocator,
        Ghost(etext): Ghost<u64>,
        Ghost(trampoline): Ghost<u64>,
    ) -> (r: Result<(), MapError>)
        requires
            old(self).inv(old(mem), old(allocator)),
            KERNEL_BASE <= etext <= PHYS_TOP,
            old(self).maps_kernel(old(mem), etext, trampoline, 0, 0),
        ensures
            final(self).inv(final(mem), final(allocator)),
            space_grown(
                old(self).table(),
                old(mem),
                old(allocator),
                final(self).table(),
                final(mem),
                final(allocator),
            ),
            data_grown(old(self).data().dom(), final(self).data().dom(), old(allocator)@.issued),
            r.is_err() ==> final(allocator)@.available() == 0,
            old(allocator)@.available() >= 6 * MAX_APP_NUM ==> r.is_ok(),
            r.is_ok() <==> stacks_cost(old(self).table().shape(old(mem)), MAX_APP_NUM as int)
                <= old(allocator)@.available(),
            final(allocator)@ == old(allocator)@.after_allocs(
                old(allocator)@.capped(
                    stacks_cost(old(self).table().shape(old(mem)), MAX_APP_NUM as int),
                ),
            ),
            r.is_ok() ==> final(self).table().shape(final(mem)) == stacks_shape(
                old(self).table().shape(old(mem)),
                MAX_APP_NUM as int,
            ),
            r.is_ok() ==> final(self).maps_kernel(
                final(mem),
                etext,
                trampoline,
                MAX_APP_NUM as int,
                0,
            ),
    {
        let ghost shape0 = self.table().shape(mem);
        let ghost a0 = allocator@.available();
        proof {
            lemma_stacks_cost_grows(shape0, 0, MAX_APP_NUM as int);
            allocator@.lemma_allocs(0);
        }
        let mut i: usize = 0;
        while i < MAX_APP_NUM
            invariant
                i <= MAX_APP_NUM,
                KERNEL_BASE <= etext <= PHYS_TOP,
                self.inv(mem, allocator),
                space_grown(
                    old(self).table(),
                    old(mem),
                    old(allocator),
                    self.table(),
                    mem,
                    allocator,
                ),
                data_grown(old(self).data().dom(), self.data().dom(), old(allocator)@.issued),
                old(allocator)@.available() >= 6 * MAX_APP_NUM ==> allocator@.available() >= 6 * (
                MAX_APP_NUM - i),
                self.maps_kernel(mem, etext, trampoline, i as int, 0),
                shape0 == old(self).table().shape(old(mem)),
                a0 == old(allocator)@.available(),
                old(allocator)@.wf(),
                0 <= stacks_cost(shape0, i as int) <= a0,
                allocator@.available() == a0 - stacks_cost(shape0, i as int),
                allocator@ == old(allocator)@.after_allocs(stacks_cost(shape0, i as int) as nat),
                self.table().shape(mem) == stacks_shape(shape0, i as int),
            decreases MAX_APP_NUM - i,
        {
            let ghost shape_i = self.table().shape(mem);
            let ghost avail_i = allocator@.available();
            let ghost allocator_i = allocator@;
            proof {
                lemma_stacks_cost_grows(shape0, i as int + 1, MAX_APP_NUM as int);
                shape_i.lemma_cost_grows(stack_base(i as int), 0, 2);
                allocator_i.lemma_allocs(0);
            }
            let mut a: u64 = 0;
            while a < KERNEL_STACK_SIZE
                invariant
                    i < MAX_APP_NUM,
                    a <= KERNEL_STACK_SIZE,
                    a % 4096 == 0,
                    KERNEL_BASE <= etext <= PHYS_TOP,
                    self.inv(mem, allocator),
                    space_grown(
                        old(self).table(),
                        old(mem),
                        old(allocator),
                        self.table(),
                        mem,
                        allocator,
                    ),
                    data_grown(old(self).data().dom(), self.data().dom(), old(allocator)@.issued),
                    old(allocator)@.available() >= 6 * MAX_APP_NUM ==> allocator@.available() >= 6
                        * (MAX_APP_NUM - i) - 3 * (a / 4096),
                    self.maps_kernel(mem, etext, trampoline, i as int, a as int / 4096),
                    shape0 == old(self).table().shape(old(mem)),
                    a0 == old(allocator)@.available(),
                    old(allocator)@.wf(),
                    allocator_i.wf(),
                    shape_i == stacks_shape(shape0, i as int),
                    avail_i == allocator_i.available(),
                    avail_i == a0 - stacks_cost(shape0, i as int),
                    0 <= stacks_cost(shape0, i as int) <= a0,
                    allocator_i == old(allocator)@.after_allocs(
                        stacks_cost(shape0, i as int) as nat,
                    ),
                    stacks_cost(shape0, i as int + 1) <= stacks_cost(shape0, MAX_APP_NUM as int),
                    0 <= shape_i.fresh_cost(stack_base(i as int), a as int / 4096) <= avail_i,
                    allocator@.available() == avail_i - shape_i.fresh_cost(
                        stack_base(i as int),
                        a as int / 4096,
                    ),
                    allocator@ == allocator_i.after_allocs(
                        shape_i.fresh_cost(stack_base(i as int), a as int / 4096) as nat,
                    ),
                    self.table().shape(mem) == shape_i.after_pages(
                        stack_base(i as int),
                        a as int / 4096,
                    ),
                decreases KERNEL_STACK_SIZE - a,
            {
                let va = kernel_stack_i(i).add(a);
                let ghost mid = *self;
                let ghost mid_mem = *mem;
                let ghost mid_allocator = *allocator;
                proof {
                    lemma_vpn_indexes(va.bits);
                    assert(vpn(va.bits) == TRAMPOLINE / 4096 - 3 * (i + 1) + a / 4096);
                    assert(!in_kernel_stacks(vpn(va.bits), i as int, a as int / 4096));
                    assert(self.table().mapping(mem, va.bits).is_none());
                }
                let res = map_fresh(
                    &mut self.page_table,
                    &mut self.data_pages,
                    mem,
                    allocator,
                    va,
                    PTEFlags::R().union(PTEFlags::W()),
                );
                proof {
                    lemma_space_grown_trans(
                        old(self).table(),
                        old(mem),
                        old(allocator),
                        mid.table(),
                        &mid_mem,
                        &mid_allocator,
                        self.table(),
                        mem,
                        allocator,
                    );
                    let base = stack_base(i as int);
                    let k = a as int / 4096;
                    assert(va.bits == base + k * 4096);
                    mid.table().lemma_shape_missing(&mid_mem, va.bits);
                    shape_i.lemma_fresh_step(base, k, 2, avail_i, res.is_ok());
                    let used = shape_i.fresh_cost(base, k) as nat;
                    let step = mid_allocator@.capped(1 + mid.table().shape(&mid_mem).missing_at(va.bits));
                    allocator_i.lemma_allocs_add(used, step);
                    mid_allocator@.lemma_allocs(step);
                    old(allocator)@.lemma_allocs_add(
                        stacks_cost(shape0, i as int) as nat,
                        (used + step) as nat,
                    );
                }
                let pa = match res {
                    Ok(pa) => pa,
                    Err(e) => {
                        return Err(e);
                    },
                };
                self.owner = Ghost(self.owner@.insert(pa.bits, vpn(va.bits)));
                proof {
                    self.table().lemma_wf_tables(mem);
                    PageTableEntry::lemma_new(pa.bits, with_valid(flags_rw()));
                    assert forall|va2: u64|
                        {
                            let v = vpn(va2);
                            let e = #[trigger] self.table().mapping(mem, va2);
                            if KERNEL_BASE / 4096 <= v < etext / 4096 {
                                e == Some(
                                    PageTableEntry::spec_new(
                                        (v * 4096) as u64,
                                        with_valid(flags_rx()),
                                    ),
                                )
                            } else if etext / 4096 <= v < PHYS_TOP / 4096 {
                                e == Some(
                                    PageTableEntry::spec_new(
                                        (v * 4096) as u64,
                                        with_valid(flags_rw()),
                                    ),
                                )
                            } else if v == TRAMPOLINE / 4096 {
                                e == Some(
                                    PageTableEntry::spec_new(trampoline, with_valid(flags_rx())),
                                )
                            } else if in_kernel_stacks(v, i as int, a as int / 4096 + 1) {
                                &&& e.is_some()
                                &&& e.unwrap().flag_bits() == with_valid(flags_rw()).bits
                                &&& self.data().dom().contains(e.unwrap().addr())
                                &&& self.stack_page().contains_key(e.unwrap().addr())
                                &&& self.stack_page()[e.unwrap().addr()] == v
                            } else {
                                e.is_none()
                            }
                        } by {
                        let e0 = mid.table().mapping(&mid_mem, va2);
                        assert(self.table().mapping(mem, va2) == if vpn(va2) == vpn(va.bits) {
                            Some(PageTableEntry::spec_new(pa.bits, with_valid(flags_rw())))
                        } else {
                            e0
                        });
                    }
                }
                a = a + PAGE_SIZE;
            }
            proof {
                assert forall|v: int|
                    in_kernel_stacks(v, i as int, 2) <==> #[trigger] in_kernel_stacks(
                        v,
                        i as int + 1,
                        0,
                    ) by {}
                old(allocator)@.lemma_allocs_add(
                    stacks_cost(shape0, i as int) as nat,
                    shape_i.fresh_cost(stack_base(i as int), 2) as nat,
                );
            }
            i = i + 1;
        }
        Ok(())
    }
}

impl KernelSpace {
    /// Builds the kernel mappings, in this order: the kernel text onto
    /// itself for read and execute; the rest of physical memory onto
    /// itself for read and write; the trampoline page; and a kernel stack
    /// of fresh frames for every task, a guard page above each. Stops at
    /// the first mapping for which the allocator has no frame left.
    pub fn init(
        &mut self,
        mem: &mut PhysMemory,
        allocator: &mut PageAllocator,
        etext: u64,
        trampoline: u64,
    ) -> (r: Result<(), MapError>)
        requires
            old(self).inv(old(mem), old(allocator)),
            KERNEL_BASE <= etext <= PHYS_TOP,
            etext % 4096 == 0,
            trampoline <= MAX_PHYS_ADDR,
            forall|va: u64| (#[trigger] old(self).table().mapping(old(mem), va)).is_none(),
        ensures
            final(self).inv(final(mem), final(allocator)),
            space_grown(
                old(self).table(),
                old(mem),
                old(allocator),
                final(self).table(),
                final(mem),
                final(allocator),
            ),
            data_grown(old(self).data().dom(), final(self).data().dom(), old(allocator)@.issued),
            r.is_err() ==> final(allocator)@.available() == 0,
            old(allocator)@.available() >= tables_bound(
                KERNEL_BASE,
                (etext - KERNEL_BASE) / 4096,
            ) + tables_bound(etext, (PHYS_TOP - etext) / 4096) + 2 + 6 * MAX_APP_NUM ==> r.is_ok(),
            r.is_ok() <==> kernel_cost(old(self).table().shape(old(mem)), etext) <= old(
                allocator,
            )@.available(),
            final(allocator)@ == old(allocator)@.after_allocs(
                old(allocator)@.capped(kernel_cost(old(self).table().shape(old(mem)), etext)),
            ),
            r.is_ok() ==> final(self).maps_kernel(
                final(mem),
                etext,
                trampoline,
                MAX_APP_NUM as int,
                0,
            ),
    {
        let ghost a0 = old(allocator)@.available();
        let ghost n1 = (etext - KERNEL_BASE) / 4096;
        let ghost n2 = (PHYS_TOP - etext) / 4096;
        let ghost shape0 = self.table().shape(mem);
        let ghost shape1 = shape0.after_pages(KERNEL_BASE, n1);
        let ghost shape2 = shape1.after_pages(etext, n2);
        let ghost shape3 = shape2.with_page(TRAMPOLINE);
        let ghost c1 = shape0.cost(KERNEL_BASE, n1);
        let ghost c2 = shape1.cost(etext, n2);
        let ghost c3 = shape2.missing_at(TRAMPOLINE);
        let ghost c4 = stacks_cost(shape3, MAX_APP_NUM as int);
        proof {
            lemma_vpn_indexes(KERNEL_BASE);
            lemma_vpn_indexes(etext);
            lemma_vpn_indexes(TRAMPOLINE);
            assert(pages_for((etext - KERNEL_BASE) as u64) == n1);
            assert(pages_for((PHYS_TOP - etext) as u64) == n2);
            shape0.lemma_cost_grows(KERNEL_BASE, 0, n1);
            shape1.lemma_cost_grows(etext, 0, n2);
            lemma_stacks_cost_grows(shape3, 0, MAX_APP_NUM as int);
            old(allocator)@.lemma_allocs_seq(c1, c2);
            old(allocator)@.lemma_allocs_seq(c1 + c2, c3);
            old(allocator)@.lemma_allocs_seq(c1 + c2 + c3, c4);
            old(allocator)@.lemma_allocs_seq(c1, c2 + c3 + c4);
            old(allocator)@.lemma_allocs_seq(c1 + c2, c3 + c4);
        }
        let rx = PTEFlags::R().union(PTEFlags::X());
        let rw = PTEFlags::R().union(PTEFlags::W());
        let r1 = self.page_table.map_range(
            mem,
            allocator,
            Addr::new(KERNEL_BASE),
            Addr::new(KERNEL_BASE),
            etext - KERNEL_BASE,
            rx,
        );
        let ghost s1 = *self;
        let ghost m1 = *mem;
        let ghost al1 = *allocator;
        proof {
            lemma_table_growth(
                old(self).table(),
                old(mem),
                old(allocator),
                self.table(),
                mem,
                allocator,
                self.data(),
            );
            let c = crate::mem::page_table::min_int(
                old(self).table().shape(old(mem)).cost(KERNEL_BASE, n1),
                old(allocator)@.available(),
            ) as nat;
            old(allocator)@.lemma_allocs(c);
        }
        if r1.is_err() {
            return r1;
        }
        let r2 = self.page_table.map_range(
            mem,
            allocator,
            Addr::new(etext),
            Addr::new(etext),
            PHYS_TOP - etext,
            rw,
        );
        let ghost s2 = *self;
        let ghost m2 = *mem;
        let ghost al2 = *allocator;
        proof {
            lemma_table_growth(s1.table(), &m1, &al1, self.table(), mem, allocator, self.data());
            lemma_space_grown_trans(
                old(self).table(),
                old(mem),
                old(allocator),
                s1.table(),
                &m1,
                &al1,
                self.table(),
                mem,
                allocator,
            );
            let c = crate::mem::page_table::min_int(
                s1.table().shape(&m1).cost(etext, n2),
                al1@.available(),
            ) as nat;
            al1@.lemma_allocs(c);
        }
        if r2.is_err() {
            return r2;
        }
        proof {
            assert(self.table().mapping(mem, TRAMPOLINE).is_none());
            self.table().lemma_shape_missing(mem, TRAMPOLINE);
            assert(shape2.grown(
                vpn_index(TRAMPOLINE, 2) as int,
                vpn_index(TRAMPOLINE, 1) as int,
                c3,
            ).middle =~= shape3.middle);
            assert(shape2.grown(
                vpn_index(TRAMPOLINE, 2) as int,
                vpn_index(TRAMPOLINE, 1) as int,
                c3,
            ).leaf =~= shape3.leaf);
            al2@.lemma_allocs(
                crate::mem::page_table::min_int(
                    self.table().missing_levels(mem, TRAMPOLINE),
                    al2@.available(),
                ) as nat,
            );
        }
        let r3 = self.page_table.map(
            mem,
            allocator,
            Addr::new(TRAMPOLINE),
            Addr::new(trampoline),
            rx,
        );
        let ghost s3 = *self;
        let ghost m3 = *mem;
        let ghost al3 = *allocator;
        proof {
            lemma_table_growth(s2.table(), &m2, &al2, self.table(), mem, allocator, self.data());
            lemma_space_grown_trans(
                old(self).table(),
                old(mem),
                old(allocator),
                s2.table(),
                &m2,
                &al2,
                self.table(),
                mem,
                allocator,
            );
        }
        if r3.is_err() {
            return r3;
        }
        proof {
            assert forall|va: u64|
                {
                    let v = vpn(va);
                    let e = #[trigger] self.table().mapping(mem, va);
                    if KERNEL_BASE / 4096 <= v < etext / 4096 {
                        e == Some(
                            PageTableEntry::spec_new((v * 4096) as u64, with_valid(flags_rx())),
                        )
                    } else if etext / 4096 <= v < PHYS_TOP / 4096 {
                        e == Some(
                            PageTableEntry::spec_new((v * 4096) as u64, with_valid(flags_rw())),
                        )
                    } else if v == TRAMPOLINE / 4096 {
                        e == Some(PageTableEntry::spec_new(trampoline, with_valid(flags_rx())))
                    } else if in_kernel_stacks(v, 0, 0) {
                        &&& e.is_some()
                        &&& e.unwrap().flag_bits() == with_valid(flags_rw()).bits
                        &&& self.data().dom().contains(e.unwrap().addr())
                        &&& self.stack_page().contains_key(e.unwrap().addr())
                        &&& self.stack_page()[e.unwrap().addr()] == v
                    } else {
                        e.is_none()
                    }
                } by {
                let e1 = s1.table().mapping(&m1, va);
                let e2 = s2.table().mapping(&m2, va);
                assert(old(self).table().mapping(old(mem), va).is_none());
            }
        }
        let r4 = self.alloc_kernel_stack(mem, allocator, Ghost(etext), Ghost(trampoline));
        proof {
            lemma_space_grown_trans(
                old(self).table(),
                old(mem),
                old(allocator),
                s3.table(),
                &m3,
                &al3,
                self.table(),
                mem,
                allocator,
            );
        }
        r4
    }

    /// The SATP value that selects the kernel page table.
    pub fn make_satp(&self) -> (r: u64)
        ensures
            r == 0x8000_0000_0000_0000 + self.table().root() / 4096,
    {
        self.page_table.make_satp()
    }

    /// The kernel page table.
    pub fn page_table(&self) -> (r: &PageTable)
        ensures
            r == self.table(),
    {
        &self.page_table
    }
}

impl KernelSpace {
    /// The lines of the kernel page table, for printing.
    pub fn print_kernel_pagetable(&self, mem: &PhysMemory) -> (r: Vec<PageTableLine>)
        requires
            self.table().wf(mem),
        ensures
            r@ == table_lines(mem, self.table().root(), 2, 0, 512),
    {
        self.page_table.print_page_table(mem)
    }

    /// Runs the self-test of address translation on the kernel page
    /// table.
    pub fn space_test(&self, mem: &PhysMemory) -> (r: Option<Vec<(Addr, Addr)>>)
        requires
            self.table().wf(mem),
        ensures
            r.is_some() ==> {
                &&& r.unwrap()@.len() == WALK_TEST_ROUNDS
                &&& forall|k: int|
                    0 <= k < WALK_TEST_ROUNDS ==> {
                        let pair = #[trigger] r.unwrap()@[k];
                        &&& WALK_TEST_LOW <= pair.0.bits < WALK_TEST_HIGH
                        &&& self.table().translation(mem, pair.0.bits, true) == Some(pair.1.bits)
                    }
            },
            r.is_none() ==> exists|va: u64|
                WALK_TEST_LOW <= va < WALK_TEST_HIGH && (#[trigger] self.table().translation(
                    mem,
                    va,
                    true,
                )).is_none(),
    {
        self.page_table.walk_test(mem)
    }
}

/// Builds the kernel address space: a fresh page table with the kernel
/// mappings. What is left is to switch to it.
pub fn kvminit(mem: &mut PhysMemory, allocator: &mut PageAllocator, etext: u64, trampoline: u64) -> (r:
    Result<KernelSpace, MapError>)
    requires
        old(mem).wf(),
        old(allocator)@.wf(),
        old(mem).base() <= old(allocator)@.start,
        old(allocator)@.end <= old(mem).top(),
        KERNEL_BASE <= etext <= PHYS_TOP,
        etext % 4096 == 0,
        trampoline <= MAX_PHYS_ADDR,
    ensures
        final(mem).wf(),
        final(mem).same_range(old(mem)),
        final(allocator)@.wf(),
        final(allocator)@.start == old(allocator)@.start,
        final(allocator)@.end == old(allocator)@.end,
        old(allocator)@.issued.subset_of(final(allocator)@.issued),
        forall|p: u64, i: int|
            old(mem).contains_page(p) && old(allocator)@.issued.contains(p) && 0 <= i < 512
                ==> #[trigger] final(mem).word(p, i) == old(mem).word(p, i),
        r.is_err() ==> final(allocator)@.available() == 0,
        old(allocator)@.available() >= 1 + tables_bound(KERNEL_BASE, (etext - KERNEL_BASE) / 4096)
            + tables_bound(etext, (PHYS_TOP - etext) / 4096) + 2 + 6 * MAX_APP_NUM ==> r.is_ok(),
        r.is_ok() <==> 1 + kernel_cost(TableShape::bare(), etext) <= old(allocator)@.available(),
        final(allocator)@ == old(allocator)@.after_allocs(
            old(allocator)@.capped(1 + kernel_cost(TableShape::bare(), etext)),
        ),
        r.is_ok() ==> {
            &&& r.unwrap().inv(final(mem), final(allocator))
            &&& r.unwrap().maps_kernel(final(mem), etext, trampoline, MAX_APP_NUM as int, 0)
        },
{
    proof {
        allocator@.lemma_alloc();
        reveal_with_fuel(AllocatorState::after_allocs, 2);
        allocator@.lemma_allocs(0);
        lemma_kernel_cost(TableShape::bare(), etext);
        allocator@.lemma_allocs_seq(1, kernel_cost(TableShape::bare(), etext));
    }
    let mut space = match KernelSpace::new(mem, allocator) {
        Some(s) => s,
        None => {
            return Err(MapError::OutOfFrames);
        },
    };
    let ghost m1 = *mem;
    let ghost al1 = *allocator;
    let ghost s1 = space;
    let res = space.init(mem, allocator, etext, trampoline);
    proof {
        space.table().lemma_wf_tables(mem);
        assert forall|p: u64, i: int|
            old(mem).contains_page(p) && old(allocator)@.issued.contains(p) && 0 <= i
                < 512 implies #[trigger] mem.word(p, i) == old(mem).word(p, i) by {
            assert(m1.word(p, i) == old(mem).word(p, i));
            assert(al1@.issued.contains(p));
        }
    }
    match res {
        Ok(()) => Ok(space),
        Err(e) => Err(e),
    }
}

} // verus!
