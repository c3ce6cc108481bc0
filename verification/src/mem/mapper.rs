//! Mapping of freshly allocated data frames, shared by the kernel and
//! the user address spaces.

use vstd::prelude::*;
use crate::mem::address::{Addr, lemma_vpn_indexes, vpn, vpn_index};
use crate::mem::frame_map::FrameMap;
use crate::mem::page_allocator::{AllocatorState, PageAllocator, kalloc};
use crate::mem::page_table::{
    MapError, PTEFlags, PTE_R, PTE_V, PTE_W, PTE_X, PageTable, PageTableEntry, min_int,
};
use crate::mem::phys_mem::PhysMemory;
use crate::mem_layout::MAX_VIRT_ADDR;

verus! {

/// Read and execute.
pub open spec fn flags_rx() -> PTEFlags {
    (PTEFlags { bits: PTE_R }).spec_union(PTEFlags { bits: PTE_X })
}

/// Read and write.
pub open spec fn flags_rw() -> PTEFlags {
    (PTEFlags { bits: PTE_R }).spec_union(PTEFlags { bits: PTE_W })
}

/// The flags with the valid flag added.
pub open spec fn with_valid(flags: PTEFlags) -> PTEFlags {
    flags.spec_union(PTEFlags { bits: PTE_V })
}

/// What an address space keeps true of its page table `pt` and its data
/// frames `data`: the table is well formed, has no leaf above the leaf
/// level and holds the tickets of its page-table pages only, all frames
/// of the space lie in memory and count as in use, and no data frame
/// serves as a page-table page.
pub open spec fn space_inv(
    pt: &PageTable,
    data: &FrameMap,
    mem: &PhysMemory,
    allocator: &PageAllocator,
) -> bool {
    &&& pt.inv(mem, allocator)
    &&& pt.no_leaf_above(mem)
    &&& pt.frames() == pt.tables()
    &&& data.wf()
    &&& data.dom().subset_of(allocator@.issued)
    &&& data.dom().disjoint(pt.tables())
    &&& forall|p: u64| #[trigger] data.dom().contains(p) ==> mem.contains_page(p)
}

/// How a space stands to an earlier state of itself after operations
/// that only add to it: memory covers the same range and the root stays;
/// the allocator manages the same range and frames in use stay in use;
/// page-table pages are only added, each from a frame that was not in
/// use; and frames that were in use and did not serve the space as
/// page-table pages keep their contents.
pub open spec fn space_grown(
    old_pt: &PageTable,
    old_mem: &PhysMemory,
    old_allocator: &PageAllocator,
    pt: &PageTable,
    mem: &PhysMemory,
    allocator: &PageAllocator,
) -> bool {
    &&& mem.same_range(old_mem)
    &&& pt.root() == old_pt.root()
    &&& old_pt.tables().subset_of(pt.tables())
    &&& allocator@.start == old_allocator@.start
    &&& allocator@.end == old_allocator@.end
    &&& old_allocator@.issued.subset_of(allocator@.issued)
    &&& forall|t: u64| #[trigger]
        pt.tables().contains(t) && !old_pt.tables().contains(t) ==> !old_allocator@.issued.contains(
            t,
        )
    &&& forall|p: u64, i: int|
        old_mem.contains_page(p) && old_allocator@.issued.contains(p) && !old_pt.tables().contains(
            p,
        ) && 0 <= i < 512 ==> #[trigger] mem.word(p, i) == old_mem.word(p, i)
}

/// Data frames are only added, each from a frame that was not in use.
pub open spec fn data_grown(old_data: Set<u64>, data: Set<u64>, old_issued: Set<u64>) -> bool {
    &&& old_data.subset_of(data)
    &&& forall|p: u64| #[trigger] data.contains(p) && !old_data.contains(p) ==> !old_issued.contains(p)
}

/// Growth in two steps is growth.
pub proof fn lemma_space_grown_trans(
    pt0: &PageTable,
    mem0: &PhysMemory,
    allocator0: &PageAllocator,
    pt1: &PageTable,
    mem1: &PhysMemory,
    allocator1: &PageAllocator,
    pt2: &PageTable,
    mem2: &PhysMemory,
    allocator2: &PageAllocator,
)
    requires
        space_grown(pt0, mem0, allocator0, pt1, mem1, allocator1),
        space_grown(pt1, mem1, allocator1, pt2, mem2, allocator2),
    ensures
        space_grown(pt0, mem0, allocator0, pt2, mem2, allocator2),
{
    assert forall|p: u64, i: int|
        mem0.contains_page(p) && allocator0@.issued.contains(p) && !pt0.tables().contains(p) && 0
            <= i < 512 implies #[trigger] mem2.word(p, i) == mem0.word(p, i) by {
        assert(mem1.contains_page(p));
        assert(!pt1.tables().contains(p));
        assert(mem1.word(p, i) == mem0.word(p, i));
        assert(mem2.word(p, i) == mem1.word(p, i));
    }
}

/// Growth of the page table of a space, the data frames untouched,
/// keeps the space in order and is growth of the space.
pub proof fn lemma_table_growth(
    old_pt: &PageTable,
    old_mem: &PhysMemory,
    old_allocator: &PageAllocator,
    pt: &PageTable,
    mem: &PhysMemory,
    allocator: &PageAllocator,
    data: &FrameMap,
)
    requires
        space_inv(old_pt, data, old_mem, old_allocator),
        pt.inv(mem, allocator),
        pt.grown_from(mem, allocator, old_pt, old_mem, old_allocator),
    ensures
        space_inv(pt, data, mem, allocator),
        space_grown(old_pt, old_mem, old_allocator, pt, mem, allocator),
{
    assert(pt.frames() =~= pt.tables());
    assert forall|p: u64| #[trigger] data.dom().contains(p) implies !pt.tables().contains(p) by {
        if pt.tables().contains(p) {
            assert(!old_pt.tables().contains(p));
            assert(old_allocator@.issued.contains(p));
        }
    }
    assert forall|p: u64, i: int|
        old_mem.contains_page(p) && old_allocator@.issued.contains(p) && !old_pt.tables().contains(
            p,
        ) && 0 <= i < 512 implies #[trigger] mem.word(p, i) == old_mem.word(p, i) by {
        if pt.tables().contains(p) {
            assert(!old_allocator@.issued.contains(p));
        }
    }
}

/// Allocates a zeroed data frame, files its ticket under `data` and maps
/// the page of `va` to it with `flags` and the valid flag. Returns the
/// frame's address. Fails when the allocator runs out of frames.
pub fn map_fresh(
    pt: &mut PageTable,
    data: &mut FrameMap,
    mem: &mut PhysMemory,
    allocator: &mut PageAllocator,
    va: Addr,
    flags: PTEFlags,
) -> (r: Result<Addr, MapError>)
    requires
        space_inv(old(pt), old(data), old(mem), old(allocator)),
        va.bits <= MAX_VIRT_ADDR,
        old(pt).mapping(old(mem), va.bits).is_none(),
    ensures
        space_inv(final(pt), final(data), final(mem), final(allocator)),
        space_grown(old(pt), old(mem), old(allocator), final(pt), final(mem), final(allocator)),
        data_grown(old(data).dom(), final(data).dom(), old(allocator)@.issued),
        final(allocator)@.available() >= old(allocator)@.available() - 3,
        old(allocator)@.available() >= 3 ==> r.is_ok(),
        r.is_err() ==> final(allocator)@.available() == 0,
        r.is_ok() <==> 1 + old(pt).missing_levels(old(mem), va.bits) <= old(
            allocator,
        )@.available(),
        final(allocator)@ == old(allocator)@.after_allocs(
            min_int(
                1 + old(pt).missing_levels(old(mem), va.bits),
                old(allocator)@.available(),
            ) as nat,
        ),
        final(pt).shape(final(mem)) == old(pt).shape(old(mem)).grown(
            vpn_index(va.bits, 2) as int,
            vpn_index(va.bits, 1) as int,
            min_int(
                old(pt).missing_levels(old(mem), va.bits),
                old(allocator)@.available() - 1,
            ),
        ),
        forall|va2: u64| #[trigger]
            final(pt).mapping(final(mem), va2) == if r.is_ok() && vpn(va2) == vpn(va.bits) {
                Some(
                    PageTableEntry::spec_new(
                        r.unwrap().bits,
                        flags.spec_union(PTEFlags { bits: PTE_V }),
                    ),
                )
            } else {
                old(pt).mapping(old(mem), va2)
            },
        r.is_ok() ==> {
            let f = r.unwrap().bits;
            &&& f % 4096 == 0
            &&& !old(allocator)@.issued.contains(f)
            &&& final(data).dom() == old(data).dom().insert(f)
            &&& final(mem).contains_page(f)
            &&& forall|i: int| 0 <= i < 512 ==> #[trigger] final(mem).word(f, i) == 0
        },
{
    proof {
        allocator@.lemma_alloc();
        pt.lemma_wf_tables(mem);
        pt.lemma_shape_missing(mem, va.bits);
        lemma_vpn_indexes(va.bits);
        reveal_with_fuel(AllocatorState::after_allocs, 2);
    }
    let tracker = match kalloc(allocator) {
        Some(t) => t,
        None => {
            proof {
                let sh = pt.shape(mem);
                let i2 = vpn_index(va.bits, 2) as int;
                let i1 = vpn_index(va.bits, 1) as int;
                assert(sh.grown(i2, i1, -1).middle =~= sh.middle);
                assert(sh.grown(i2, i1, -1).leaf =~= sh.leaf);
            }
            return Err(MapError::OutOfFrames);
        },
    };
    let page = tracker.page();
    let ghost alloc1 = *allocator;
    mem.zero_frame(page);
    let ghost mem1 = *mem;
    proof {
        pt.lemma_same_tables(old(mem), mem);
        assert(pt.mapping(mem, va.bits) == old(pt).mapping(old(mem), va.bits));
    }
    data.insert(tracker);
    let ghost m = pt.missing_levels(mem, va.bits);
    let res = pt.map(mem, allocator, va, Addr::new(page.addr), flags);
    proof {
        assert(pt.frames() =~= pt.tables());
        alloc1@.lemma_allocs(min_int(m, alloc1@.available()) as nat);
        old(allocator)@.after_alloc().lemma_allocs_add(0, min_int(m, alloc1@.available()) as nat);
        old(allocator)@.lemma_allocs_add(1, min_int(m, alloc1@.available()) as nat);
        assert forall|va2: u64| #[trigger]
            pt.mapping(mem, va2) == if res.is_ok() && vpn(va2) == vpn(va.bits) {
                Some(
                    PageTableEntry::spec_new(page.addr, flags.spec_union(PTEFlags { bits: PTE_V })),
                )
            } else {
                old(pt).mapping(old(mem), va2)
            } by {
            assert(old(pt).mapping(&mem1, va2) == old(pt).mapping(old(mem), va2));
        }
        assert forall|i: int| 0 <= i < 512 implies #[trigger] mem.word(page.addr, i) == 0 by {
            assert(mem1.word(page.addr, i) == 0);
        }
    }
    match res {
        Ok(()) => Ok(Addr::new(page.addr)),
        Err(e) => Err(e),
    }
}

} // verus!
