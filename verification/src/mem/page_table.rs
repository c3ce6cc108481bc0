//! Sv39 page-table entries and the three-level page table.

use vstd::prelude::*;
use crate::mem::address::{
    Addr, Page, lemma_same_vpn, lemma_vpn_indexes, page_base, vpn, vpn_index,
};
use crate::mem::frame_map::FrameMap;
use crate::mem::page_allocator::{AllocatorState, PageAllocator, PageTracker, kalloc, kfree};
use crate::mem::phys_mem::PhysMemory;
use crate::mem_layout::{MAX_PHYS_ADDR, MAX_VIRT_ADDR};

verus! {

/// Bit of the flag V in the flag byte.
pub const PTE_V: u8 = 1;

/// Bit of the flag R in the flag byte.
pub const PTE_R: u8 = 2;

/// Bit of the flag W in the flag byte.
pub const PTE_W: u8 = 4;

/// Bit of the flag X in the flag byte.
pub const PTE_X: u8 = 8;

/// Bit of the flag U in the flag byte.
pub const PTE_U: u8 = 16;

/// Bit of the flag G in the flag byte.
pub const PTE_G: u8 = 32;

/// Bit of the flag A in the flag byte.
pub const PTE_A: u8 = 64;

/// Bit of the flag D in the flag byte.
pub const PTE_D: u8 = 128;

/// The flag byte of a page-table entry.
#[derive(Clone, Copy, PartialEq, Eq, Structural, Debug)]
pub struct PTEFlags {
    pub bits: u8,
}

impl PTEFlags {
    /// Valid.
    #[allow(non_snake_case)]
    pub fn V() -> (r: Self)
        ensures
            r.bits == PTE_V,
    {
        PTEFlags { bits: PTE_V }
    }

    /// Readable.
    #[allow(non_snake_case)]
    pub fn R() -> (r: Self)
        ensures
            r.bits == PTE_R,
    {
        PTEFlags { bits: PTE_R }
    }

    /// Writable.
    #[allow(non_snake_case)]
    pub fn W() -> (r: Self)
        ensures
            r.bits == PTE_W,
    {
        PTEFlags { bits: PTE_W }
    }

    /// Executable.
    #[allow(non_snake_case)]
    pub fn X() -> (r: Self)
        ensures
            r.bits == PTE_X,
    {
        PTEFlags { bits: PTE_X }
    }

    /// Accessible from user mode.
    #[allow(non_snake_case)]
    pub fn U() -> (r: Self)
        ensures
            r.bits == PTE_U,
    {
        PTEFlags { bits: PTE_U }
    }

    /// Global.
    #[allow(non_snake_case)]
    pub fn G() -> (r: Self)
        ensures
            r.bits == PTE_G,
    {
        PTEFlags { bits: PTE_G }
    }

    /// Accessed.
    #[allow(non_snake_case)]
    pub fn A() -> (r: Self)
        ensures
            r.bits == PTE_A,
    {
        PTEFlags { bits: PTE_A }
    }

    /// Dirty.
    #[allow(non_snake_case)]
    pub fn D() -> (r: Self)
        ensures
            r.bits == PTE_D,
    {
        PTEFlags { bits: PTE_D }
    }

    /// The flags set in `self` or in `other`.
    pub open spec fn spec_union(self, other: PTEFlags) -> PTEFlags {
        PTEFlags { bits: self.bits | other.bits }
    }

    pub fn empty() -> (r: Self)
        ensures
            r.bits == 0,
    {
        PTEFlags { bits: 0 }
    }

    pub fn bits(&self) -> (r: u8)
        ensures
            r == self.bits,
    {
        self.bits
    }

    /// Every byte is a set of flags, since all eight bits are named.
    pub fn from_bits(bits: u8) -> (r: Option<Self>)
        ensures
            r == Some(PTEFlags { bits }),
    {
        Some(PTEFlags { bits })
    }

    #[verifier::when_used_as_spec(spec_union)]
    pub fn union(self, other: PTEFlags) -> (r: Self)
        ensures
            r == self.spec_union(other),
    {
        PTEFlags { bits: self.bits | other.bits }
    }

    /// Whether every flag of `other` is set in `self`.
    pub fn contains(&self, other: PTEFlags) -> (r: bool)
        ensures
            r <==> self.bits & other.bits == other.bits,
    {
        self.bits & other.bits == other.bits
    }
}

/// A 64-bit page-table entry: flags in bits 0 to 7, the physical page
/// number in bits 10 to 53.
#[derive(Clone, Copy, PartialEq, Eq, Structural, Debug)]
pub struct PageTableEntry {
    pub bits: u64,
}

impl PageTableEntry {
    pub open spec fn is_valid(self) -> bool {
        self.bits % 2 == 1
    }

    pub open spec fn is_readable(self) -> bool {
        (self.bits / 2) % 2 == 1
    }

    pub open spec fn is_writable(self) -> bool {
        (self.bits / 4) % 2 == 1
    }

    pub open spec fn is_executable(self) -> bool {
        (self.bits / 8) % 2 == 1
    }

    pub open spec fn is_user(self) -> bool {
        (self.bits / 16) % 2 == 1
    }

    /// Valid with none of R, W, X: the entry refers to a next-level table.
    pub open spec fn is_interior(self) -> bool {
        self.is_valid() && !self.is_readable() && !self.is_writable() && !self.is_executable()
    }

    /// Valid with one of R, W, X.
    pub open spec fn is_leaf(self) -> bool {
        self.is_valid() && (self.is_readable() || self.is_writable() || self.is_executable())
    }

    /// The flag byte.
    pub open spec fn flag_bits(self) -> u8 {
        (self.bits % 256) as u8
    }

    /// The physical page number held in bits 10 to 53.
    pub open spec fn ppn(self) -> u64 {
        ((self.bits / 1024) % 0x1000_0000_0000) as u64
    }

    /// The physical address of the page that the entry refers to.
    pub open spec fn addr(self) -> u64 {
        (self.ppn() * 4096) as u64
    }

    /// The entry that refers to the page of `pa` with the given flags.
    pub open spec fn spec_new(pa: u64, flags: PTEFlags) -> PageTableEntry {
        PageTableEntry { bits: ((pa / 4096) * 1024 + flags.bits) as u64 }
    }

    /// What an entry made by `spec_new` holds.
    pub proof fn lemma_new(pa: u64, flags: PTEFlags)
        requires
            pa <= MAX_PHYS_ADDR,
        ensures
            Self::spec_new(pa, flags).flag_bits() == flags.bits,
            Self::spec_new(pa, flags).addr() == pa - pa % 4096,
            Self::spec_new(pa, flags).is_valid() <==> flags.bits % 2 == 1,
            Self::spec_new(pa, flags).is_readable() <==> (flags.bits / 2) % 2 == 1,
            Self::spec_new(pa, flags).is_writable() <==> (flags.bits / 4) % 2 == 1,
            Self::spec_new(pa, flags).is_executable() <==> (flags.bits / 8) % 2 == 1,
            Self::spec_new(pa, flags).is_user() <==> (flags.bits / 16) % 2 == 1,
    {
        let f: u8 = flags.bits;
        assert(pa <= 0xff_ffff_ffff_ffff ==> {
            let b = ((pa / 4096) * 1024 + f) as u64;
            &&& b % 256 == f
            &&& ((b / 1024) % 0x1000_0000_0000) * 4096 == pa - pa % 4096
            &&& b % 2 == f % 2
            &&& (b / 2) % 2 == (f / 2) % 2
            &&& (b / 4) % 2 == (f / 4) % 2
            &&& (b / 8) % 2 == (f / 8) % 2
            &&& (b / 16) % 2 == (f / 16) % 2
        }) by (bit_vector);
    }

    /// The address that an entry refers to is a page boundary within
    /// the physical address range, so adding a page offset to it gives an
    /// address of that page with that offset.
    pub proof fn lemma_target(self, off: u64)
        requires
            off < 4096,
        ensures
            self.addr() % 4096 == 0,
            self.addr() + off <= MAX_PHYS_ADDR,
            (self.addr() + off) % 4096 == off as int,
            (self.addr() + off) - (self.addr() + off) % 4096 == self.addr(),
    {
        let b: u64 = self.bits;
        assert(off < 4096 ==> {
            let a = (((b / 1024) % 0x1000_0000_0000) * 4096) as u64;
            &&& ((b / 1024) % 0x1000_0000_0000) * 4096 <= 0xff_ffff_ffff_f000
            &&& a % 4096 == 0
            &&& (a + off) % 4096 == off
            &&& a + off <= 0xff_ffff_ffff_ffff
        }) by (bit_vector);
    }

    /// The flag predicates read the flag byte.
    pub proof fn lemma_flag_bits(self)
        ensures
            self.is_valid() <==> self.flag_bits() % 2 == 1,
            self.is_readable() <==> (self.flag_bits() / 2) % 2 == 1,
            self.is_writable() <==> (self.flag_bits() / 4) % 2 == 1,
            self.is_executable() <==> (self.flag_bits() / 8) % 2 == 1,
            self.is_user() <==> (self.flag_bits() / 16) % 2 == 1,
    {
        let b: u64 = self.bits;
        assert({
            let f = (b % 256) as u8;
            &&& b % 2 == f % 2
            &&& (b / 2) % 2 == (f / 2) % 2
            &&& (b / 4) % 2 == (f / 4) % 2
            &&& (b / 8) % 2 == (f / 8) % 2
            &&& (b / 16) % 2 == (f / 16) % 2
        }) by (bit_vector);
    }

    pub fn empty() -> (r: Self)
        ensures
            r.bits == 0,
    {
        PageTableEntry { bits: 0 }
    }

    pub fn new(pa: Addr, flags: PTEFlags) -> (r: Self)
        ensures
            r == Self::spec_new(pa.bits, flags),
    {
        let p: u64 = pa.to_pte_bits();
        let f: u8 = flags.bits();
        assert(p % 1024 == 0 && p <= 0x3fff_ffff_ffff_fc00 ==> p | (f as u64) == p + f)
            by (bit_vector);
        PageTableEntry { bits: p | (f as u64) }
    }

    pub fn get_addr_bits(&self) -> (r: u64)
        ensures
            r == self.addr(),
    {
        let b: u64 = self.bits;
        assert(((b >> 10u64) & 0xfff_ffff_ffffu64) << 12u64 == ((b / 1024) % 0x1000_0000_0000)
            * 4096) by (bit_vector);
        ((b >> 10) & 0xfff_ffff_ffff) << 12
    }

    pub fn flags(&self) -> (r: PTEFlags)
        ensures
            r.bits == self.flag_bits(),
    {
        let b: u64 = self.bits;
        assert((b & 0xffu64) == b % 256) by (bit_vector);
        PTEFlags { bits: (b & 0xff) as u8 }
    }

    pub fn valid(&self) -> (r: bool)
        ensures
            r == self.is_valid(),
    {
        let b: u64 = self.bits;
        assert((b & 1u64 != 0) <==> (b % 2 == 1)) by (bit_vector);
        b & 1 != 0
    }

    pub fn readable(&self) -> (r: bool)
        ensures
            r == self.is_readable(),
    {
        let b: u64 = self.bits;
        assert((b & 2u64 != 0) <==> ((b / 2) % 2 == 1)) by (bit_vector);
        b & 2 != 0
    }

    pub fn writable(&self) -> (r: bool)
        ensures
            r == self.is_writable(),
    {
        let b: u64 = self.bits;
        assert((b & 4u64 != 0) <==> ((b / 4) % 2 == 1)) by (bit_vector);
        b & 4 != 0
    }

    pub fn executable(&self) -> (r: bool)
        ensures
            r == self.is_executable(),
    {
        let b: u64 = self.bits;
        assert((b & 8u64 != 0) <==> ((b / 8) % 2 == 1)) by (bit_vector);
        b & 8 != 0
    }

    pub fn user(&self) -> (r: bool)
        ensures
            r == self.is_user(),
    {
        let b: u64 = self.bits;
        assert((b & 16u64 != 0) <==> ((b / 16) % 2 == 1)) by (bit_vector);
        b & 16 != 0
    }
}

/// The entry at index `idx` of the page-table page at `table`.
pub open spec fn pte_at(mem: &PhysMemory, table: u64, idx: int) -> PageTableEntry {
    PageTableEntry { bits: mem.word(table, idx) }
}

/// The place of a leaf-level entry: a page-table page and an index in it.
#[derive(Clone, Copy, PartialEq, Eq, Structural, Debug)]
pub struct PteSlot {
    pub table: Page,
    pub index: usize,
}

/// Which page-table pages a table has below its root: the indices of
/// the root that lead to a middle-level page, and the pairs of indices
/// that lead on to a leaf-level page.
pub struct TableShape {
    pub middle: Set<int>,
    pub leaf: Set<(int, int)>,
}

impl TableShape {
    /// The shape of a table that has a root only.
    pub open spec fn bare() -> TableShape {
        TableShape { middle: Set::empty(), leaf: Set::empty() }
    }

    /// How many page-table pages are missing on the way along the
    /// indices `i2` and `i1`.
    pub open spec fn missing(self, i2: int, i1: int) -> int {
        if !self.middle.contains(i2) {
            2
        } else if !self.leaf.contains((i2, i1)) {
            1
        } else {
            0
        }
    }

    /// The shape after `k` pages, or as many as are missing if that is
    /// less, have been added on the way along `i2` and `i1`, the
    /// middle-level page first.
    pub open spec fn grown(self, i2: int, i1: int, k: int) -> TableShape {
        let m = self.missing(i2, i1);
        TableShape {
            middle: if m == 2 && k >= 1 {
                self.middle.insert(i2)
            } else {
                self.middle
            },
            leaf: if m >= 1 && k >= m {
                self.leaf.insert((i2, i1))
            } else {
                self.leaf
            },
        }
    }

    /// How many page-table pages are missing on the way to the
    /// leaf-level entry for `va`.
    pub open spec fn missing_at(self, va: u64) -> int {
        self.missing(vpn_index(va, 2) as int, vpn_index(va, 1) as int)
    }

    /// The shape after every page on the way to the entry for `va` has
    /// been added.
    pub open spec fn with_page(self, va: u64) -> TableShape {
        self.grown(vpn_index(va, 2) as int, vpn_index(va, 1) as int, 2)
    }

    /// The shape after the ways to the entries of `k` pages in a row
    /// from `first` on have been completed.
    pub open spec fn after_pages(self, first: u64, k: int) -> TableShape
        decreases k,
    {
        if k <= 0 {
            self
        } else {
            self.after_pages(first, k - 1).with_page((first + (k - 1) * 4096) as u64)
        }
    }

    /// How many page-table pages it takes to complete the ways to the
    /// entries of `k` pages in a row from `first` on, one page after the
    /// other.
    pub open spec fn cost(self, first: u64, k: int) -> int
        decreases k,
    {
        if k <= 0 {
            0
        } else {
            self.cost(first, k - 1) + self.after_pages(first, k - 1).missing_at(
                (first + (k - 1) * 4096) as u64,
            )
        }
    }

    /// How many frames it takes to map `k` pages in a row from `first`
    /// on, each to a frame of its own: a frame for each page, and the
    /// page-table pages on the way.
    pub open spec fn fresh_cost(self, first: u64, k: int) -> int {
        k + self.cost(first, k)
    }

    /// Mapping page `k` of a run of `n` pages to a frame of its own,
    /// after the pages before it, with `available` frames at the start of
    /// the run: it succeeds if the frames last for it, and then the ways
    /// to the first `k + 1` pages are complete; if it fails, all frames
    /// are used up and the whole run costs more than there were.
    pub proof fn lemma_fresh_step(self, first: u64, k: int, n: int, available: int, ok: bool)
        requires
            0 <= k < n,
            self.fresh_cost(first, k) <= available,
            ok <==> 1 + self.after_pages(first, k).missing_at((first + k * 4096) as u64)
                <= available - self.fresh_cost(first, k),
        ensures
            0 <= self.fresh_cost(first, k),
            self.fresh_cost(first, k + 1) == self.fresh_cost(first, k) + 1 + self.after_pages(
                first,
                k,
            ).missing_at((first + k * 4096) as u64),
            self.fresh_cost(first, k + 1) <= self.fresh_cost(first, n),
            ok ==> self.after_pages(first, k).grown(
                vpn_index((first + k * 4096) as u64, 2) as int,
                vpn_index((first + k * 4096) as u64, 1) as int,
                min_int(
                    self.after_pages(first, k).missing_at((first + k * 4096) as u64),
                    available - self.fresh_cost(first, k) - 1,
                ),
            ) == self.after_pages(first, k + 1),
            ok ==> self.fresh_cost(first, k + 1) <= available,
            !ok ==> self.fresh_cost(first, n) > available,
            !ok ==> self.fresh_cost(first, k) + min_int(
                1 + self.after_pages(first, k).missing_at((first + k * 4096) as u64),
                available - self.fresh_cost(first, k),
            ) == available,
    {
        let a = (first + k * 4096) as u64;
        let sh = self.after_pages(first, k);
        let m = sh.missing_at(a);
        let i2 = vpn_index(a, 2) as int;
        let i1 = vpn_index(a, 1) as int;
        self.lemma_cost_grows(first, 0, k);
        self.lemma_cost_grows(first, k + 1, n);
        if ok {
            let k2 = min_int(m, available - self.fresh_cost(first, k) - 1);
            assert(k2 == m);
            assert(sh.grown(i2, i1, m).middle =~= sh.grown(i2, i1, 2).middle);
            assert(sh.grown(i2, i1, m).leaf =~= sh.grown(i2, i1, 2).leaf);
        }
    }

    /// The cost grows with the number of pages.
    pub proof fn lemma_cost_grows(self, first: u64, a: int, b: int)
        requires
            0 <= a <= b,
        ensures
            0 <= self.cost(first, a) <= self.cost(first, b),
        decreases b,
    {
        if a < b {
            self.lemma_cost_grows(first, a, b - 1);
        } else if a > 0 {
            self.lemma_cost_grows(first, a - 1, a - 1);
        }
    }
}

/// Why a mapping could not be installed.
#[derive(Clone, Copy, PartialEq, Eq, Structural, Debug)]
pub enum MapError {
    /// The frame allocator had no frame left for a page-table page.
    OutOfFrames,
}

/// A three-level Sv39 page table. Its page-table pages live in physical
/// memory; the table owns the tickets of their frames and of any other
/// frame filed with it.
pub struct PageTable {
    root: Addr,
    pages: FrameMap,
    // For each page-table page, the indices that lead to it from the root.
    paths: Ghost<Map<u64, Seq<int>>>,
}

impl PageTable {
    /// Physical address of the root page-table page.
    pub closed spec fn root(&self) -> u64 {
        self.root.bits
    }

    /// The frames whose tickets the table holds.
    pub closed spec fn frames(&self) -> Set<u64> {
        self.pages.dom()
    }

    /// The frames that serve as page-table pages.
    pub closed spec fn tables(&self) -> Set<u64> {
        self.paths@.dom()
    }

    /// The page-table pages form a tree in memory: each is held by the
    /// table, and every interior entry above the leaf level refers to
    /// the one page-table page that serves the entry's index path.
    /// Nothing is asked of an entry that is not interior: a leaf may
    /// stand above the leaf level, and a walk stops at it.
    /// `lemma_entry_written` shows that writing an entry that is not
    /// interior into any page keeps the table well formed.
    pub closed spec fn wf(&self, mem: &PhysMemory) -> bool {
        &&& mem.wf()
        &&& self.pages.wf()
        &&& self.paths@.contains_key(self.root.bits)
        &&& self.paths@[self.root.bits].len() == 0
        &&& forall|t: u64| #[trigger]
            self.paths@.contains_key(t) ==> {
                &&& mem.contains_page(t)
                &&& self.pages.dom().contains(t)
                &&& self.paths@[t].len() <= 2
            }
        &&& forall|t: u64, i: int|
            self.paths@.contains_key(t) && self.paths@[t].len() < 2 && 0 <= i < 512 && (
            #[trigger] pte_at(mem, t, i)).is_interior() ==> {
                &&& self.paths@.contains_key(pte_at(mem, t, i).addr())
                &&& self.paths@[pte_at(mem, t, i).addr()] == self.paths@[t].push(i)
            }
    }

    /// The table is well formed in `mem`, and the allocator manages
    /// frames of `mem` and counts every frame of the table as in use.
    pub open spec fn inv(&self, mem: &PhysMemory, allocator: &PageAllocator) -> bool {
        &&& self.wf(mem)
        &&& allocator@.wf()
        &&& mem.base() <= allocator@.start
        &&& allocator@.end <= mem.top()
        &&& self.frames().subset_of(allocator@.issued)
    }

    /// Where the leaf-level entry for `va` stands, if the two upper
    /// levels lead to a leaf-level page.
    pub open spec fn slot(&self, mem: &PhysMemory, va: u64) -> Option<PteSlot> {
        let e2 = pte_at(mem, self.root(), vpn_index(va, 2) as int);
        if !e2.is_interior() {
            None
        } else {
            let e1 = pte_at(mem, e2.addr(), vpn_index(va, 1) as int);
            if !e1.is_interior() {
                None
            } else {
                Some(PteSlot { table: Page { addr: e1.addr() }, index: vpn_index(va, 0) as usize })
            }
        }
    }

    /// The valid leaf-level entry that maps `va`, if there is one.
    pub open spec fn mapping(&self, mem: &PhysMemory, va: u64) -> Option<PageTableEntry> {
        match self.slot(mem, va) {
            Some(s) => {
                let e = pte_at(mem, s.table.addr, s.index as int);
                if e.is_valid() {
                    Some(e)
                } else {
                    None
                }
            },
            None => None,
        }
    }

    /// The physical address that `va` translates to. A user translation
    /// asks for the U flag; a kernel translation does not look at it.
    pub open spec fn translation(&self, mem: &PhysMemory, va: u64, user: bool) -> Option<u64> {
        match self.mapping(mem, va) {
            Some(e) => if user && !e.is_user() {
                None
            } else {
                Some((e.addr() + va % 4096) as u64)
            },
            None => None,
        }
    }

    /// Whether a leaf stands above the leaf level on the way to the
    /// entry for `va`: the entry of the root is a leaf, or it is interior
    /// and the entry of the middle-level page is a leaf. A walk stops
    /// there, since the table has no pages larger than a frame.
    pub open spec fn leaf_above(&self, mem: &PhysMemory, va: u64) -> bool {
        let e2 = pte_at(mem, self.root(), vpn_index(va, 2) as int);
        e2.is_leaf() || (e2.is_interior() && pte_at(
            mem,
            e2.addr(),
            vpn_index(va, 1) as int,
        ).is_leaf())
    }

    /// No leaf stands above the leaf level on the way to any entry.
    pub open spec fn no_leaf_above(&self, mem: &PhysMemory) -> bool {
        forall|va: u64| !#[trigger] self.leaf_above(mem, va)
    }

    /// How many page-table pages a walk to the leaf-level entry for `va`
    /// finds missing: two where the entry of the root is not valid, one
    /// where that entry is interior and the entry of the middle-level
    /// page is not valid, and none otherwise; so none where a leaf stands
    /// on the way, at which the walk stops.
    pub open spec fn missing_levels(&self, mem: &PhysMemory, va: u64) -> int {
        let e2 = pte_at(mem, self.root(), vpn_index(va, 2) as int);
        if !e2.is_valid() {
            2
        } else if e2.is_interior() && !pte_at(mem, e2.addr(), vpn_index(va, 1) as int).is_valid() {
            1
        } else {
            0
        }
    }

    /// Which page-table pages the table has below its root.
    pub open spec fn shape(&self, mem: &PhysMemory) -> TableShape {
        TableShape {
            middle: Set::new(|i2: int| 0 <= i2 < 512 && pte_at(mem, self.root(), i2).is_interior()),
            leaf: Set::new(
                |p: (int, int)|
                    0 <= p.0 < 512 && 0 <= p.1 < 512 && pte_at(mem, self.root(), p.0).is_interior()
                        && pte_at(mem, pte_at(mem, self.root(), p.0).addr(), p.1).is_interior(),
            ),
        }
    }

    /// Where no leaf stands on the way to an entry, the pages missing on
    /// the way are those that the shape of the table lacks.
    pub proof fn lemma_shape_missing(&self, mem: &PhysMemory, va: u64)
        requires
            !self.leaf_above(mem, va),
        ensures
            self.shape(mem).missing_at(va) == self.missing_levels(mem, va),
    {
        lemma_vpn_indexes(va);
    }

    /// A walk stops at a leaf above the leaf level: an address with such
    /// a leaf on its way has no leaf-level entry, is not mapped and does
    /// not translate.
    pub proof fn lemma_leaf_stops(&self, mem: &PhysMemory, va: u64, user: bool)
        requires
            self.wf(mem),
            self.leaf_above(mem, va),
        ensures
            self.slot(mem, va).is_none(),
            self.mapping(mem, va).is_none(),
            self.translation(mem, va, user).is_none(),
            self.missing_levels(mem, va) == 0,
    {
    }

    /// What a new page-table page under entry `index` of the page at
    /// `table` does to the shape: under the root it adds a middle-level
    /// page, and under the middle-level page that entry `above` of the
    /// root refers to, a leaf-level page.
    proof fn lemma_shape_step(
        &self,
        mem: &PhysMemory,
        old_self: &PageTable,
        old_mem: &PhysMemory,
        table: u64,
        index: int,
        f: u64,
        above: int,
    )
        requires
            old_self.wf(old_mem),
            self.root == old_self.root,
            old_self.paths@.contains_key(table),
            old_self.paths@[table].len() < 2,
            0 <= index < 512,
            table != self.root.bits ==> 0 <= above < 512 && pte_at(
                old_mem,
                self.root.bits,
                above,
            ).is_interior() && pte_at(old_mem, self.root.bits, above).addr() == table,
            !pte_at(old_mem, table, index).is_valid(),
            pte_at(mem, table, index).is_interior(),
            pte_at(mem, table, index).addr() == f,
            !old_self.paths@.contains_key(f),
            forall|i: int| 0 <= i < 512 ==> #[trigger] mem.word(f, i) == 0,
            forall|p: u64, i: int|
                old_mem.contains_page(p) && 0 <= i < 512 && p != f && !(p == table && i == index)
                    ==> #[trigger] mem.word(p, i) == old_mem.word(p, i),
        ensures
            table == self.root.bits ==> self.shape(mem) == (TableShape {
                middle: old_self.shape(old_mem).middle.insert(index),
                leaf: old_self.shape(old_mem).leaf,
            }),
            table != self.root.bits ==> self.shape(mem) == (TableShape {
                middle: old_self.shape(old_mem).middle,
                leaf: old_self.shape(old_mem).leaf.insert((above, index)),
            }),
    {
        let root = self.root.bits;
        let s0 = old_self.shape(old_mem);
        let s1 = self.shape(mem);
        assert forall|t: u64, i: int|
            old_self.paths@.contains_key(t) && 0 <= i < 512 && !(t == table && i
                == index) implies #[trigger] pte_at(mem, t, i) == pte_at(old_mem, t, i) by {
            assert(mem.word(t, i) == old_mem.word(t, i));
        }
        if table == root {
            assert forall|i2: int| s1.middle.contains(i2) == s0.middle.insert(index).contains(
                i2,
            ) by {
                if 0 <= i2 < 512 && i2 != index {
                    assert(pte_at(mem, root, i2) == pte_at(old_mem, root, i2));
                }
            }
            assert forall|p: (int, int)| s1.leaf.contains(p) == s0.leaf.contains(p) by {
                if 0 <= p.0 < 512 && 0 <= p.1 < 512 {
                    if p.0 == index {
                        assert(mem.word(f, p.1) == 0);
                    } else {
                        assert(pte_at(mem, root, p.0) == pte_at(old_mem, root, p.0));
                        let e = pte_at(old_mem, root, p.0);
                        if e.is_interior() {
                            assert(old_self.paths@[e.addr()] =~= seq![p.0]);
                            assert(pte_at(mem, e.addr(), p.1) == pte_at(old_mem, e.addr(), p.1));
                        }
                    }
                }
            }
            assert(s1.middle =~= s0.middle.insert(index));
            assert(s1.leaf =~= s0.leaf);
        } else {
            let a = above;
            assert(old_self.paths@[table] =~= seq![a]);
            assert forall|i2: int| s1.middle.contains(i2) == s0.middle.contains(i2) by {
                if 0 <= i2 < 512 {
                    assert(pte_at(mem, root, i2) == pte_at(old_mem, root, i2));
                }
            }
            assert forall|p: (int, int)| s1.leaf.contains(p) == s0.leaf.insert((a, index)).contains(
                p,
            ) by {
                if 0 <= p.0 < 512 && 0 <= p.1 < 512 {
                    assert(pte_at(mem, root, p.0) == pte_at(old_mem, root, p.0));
                    let e = pte_at(old_mem, root, p.0);
                    if e.is_interior() {
                        assert(old_self.paths@[e.addr()] =~= seq![p.0]);
                        if e.addr() == table {
                            assert(p.0 == a) by {
                                assert(seq![p.0][0] == seq![a][0]);
                            }
                            if p.1 != index {
                                assert(pte_at(mem, table, p.1) == pte_at(old_mem, table, p.1));
                            }
                        } else {
                            assert(p.0 != a);
                            assert(pte_at(mem, e.addr(), p.1) == pte_at(old_mem, e.addr(), p.1));
                        }
                    }
                }
            }
            assert(s1.middle =~= s0.middle);
            assert(s1.leaf =~= s0.leaf.insert((a, index)));
        }
    }

    /// The mapping of an address depends on its virtual page number only.
    pub proof fn lemma_mapping_by_vpn(&self, mem: &PhysMemory, a: u64, b: u64)
        requires
            vpn(a) == vpn(b),
        ensures
            self.slot(mem, a) == self.slot(mem, b),
            self.mapping(mem, a) == self.mapping(mem, b),
    {
        lemma_same_vpn(a, b);
    }

    /// Every address of a page mapped to the page of `pa` with `flags`
    /// and the valid flag translates for the kernel to the address of
    /// the page of `pa` with the same page offset, through an entry that
    /// holds those flags; for the user it translates so if the flags hold
    /// the user flag, and not at all if they do not.
    pub proof fn lemma_translate_mapped(
        &self,
        mem: &PhysMemory,
        va: u64,
        pa: u64,
        flags: PTEFlags,
    )
        requires
            pa <= MAX_PHYS_ADDR,
            self.mapping(mem, va) == Some(
                PageTableEntry::spec_new(pa, flags.spec_union(PTEFlags { bits: PTE_V })),
            ),
        ensures
            self.translation(mem, va, false) == Some((page_base(pa) + va % 4096) as u64),
            self.translation(mem, va, false).unwrap() % 4096 == va % 4096,
            self.mapping(mem, va).unwrap().flag_bits() == flags.spec_union(
                PTEFlags { bits: PTE_V },
            ).bits,
            self.translation(mem, va, true) == if (flags.bits / 16) % 2 == 1 {
                Some((page_base(pa) + va % 4096) as u64)
            } else {
                None
            },
    {
        let full = flags.spec_union(PTEFlags { bits: PTE_V });
        let e = PageTableEntry::spec_new(pa, full);
        PageTableEntry::lemma_new(pa, full);
        e.lemma_target((va % 4096) as u64);
        let f: u8 = flags.bits;
        assert(((f | 1u8) / 16) % 2 == (f / 16) % 2) by (bit_vector);
    }

    /// After a range of pages has been mapped from `va` to `pa`, two
    /// addresses with the same page offset, the address `k` pages after
    /// `va` translates to the address `k` pages after `pa`, through an
    /// entry that holds the flags asked for and the valid flag, for every
    /// `k` below the number of pages.
    pub proof fn lemma_translate_range(
        &self,
        mem: &PhysMemory,
        old_self: &PageTable,
        old_mem: &PhysMemory,
        va: u64,
        pa: u64,
        len: u64,
        flags: PTEFlags,
        k: int,
    )
        requires
            self.maps_range_over(mem, old_self, old_mem, va, pa, pages_for(len), flags),
            page_base(va) + pages_for(len) * 4096 <= MAX_VIRT_ADDR + 1,
            page_base(pa) + pages_for(len) * 4096 <= MAX_PHYS_ADDR + 1,
            va % 4096 == pa % 4096,
            0 <= k < pages_for(len),
        ensures
            self.translation(mem, (va + k * 4096) as u64, false) == Some((pa + k * 4096) as u64),
            self.mapping(mem, (va + k * 4096) as u64).unwrap().flag_bits() == flags.spec_union(
                PTEFlags { bits: PTE_V },
            ).bits,
    {
        let a = (va + k * 4096) as u64;
        lemma_vpn_indexes(a);
        lemma_vpn_indexes(va);
        assert(vpn(a) == vpn(va) + k);
        let target = (page_base(pa) + k * 4096) as u64;
        assert(self.mapping(mem, a) == Some(
            PageTableEntry::spec_new(target, flags.spec_union(PTEFlags { bits: PTE_V })),
        ));
        self.lemma_translate_mapped(mem, a, target, flags);
    }

    /// A well-formed table holds its root among its page-table pages,
    /// holds the ticket of each page-table page, and each lies in memory.
    pub proof fn lemma_wf_tables(&self, mem: &PhysMemory)
        requires
            self.wf(mem),
        ensures
            mem.wf(),
            self.tables().contains(self.root()),
            self.tables().subset_of(self.frames()),
            forall|t: u64| self.tables().contains(t) ==> mem.contains_page(t),
    {
    }

    /// Writing an entry that is not interior, into any word of memory,
    /// keeps the table well formed: a leaf may be written above the leaf
    /// level, and any entry that is not interior may take the place of
    /// one that was.
    pub proof fn lemma_entry_written(
        &self,
        mem1: &PhysMemory,
        mem2: &PhysMemory,
        page: u64,
        index: int,
    )
        requires
            self.wf(mem1),
            mem2.wf(),
            mem2.same_range(mem1),
            !pte_at(mem2, page, index).is_interior(),
            forall|p: u64, i: int|
                mem1.contains_page(p) && 0 <= i < 512 && !(p == page && i == index)
                    ==> #[trigger] mem2.word(p, i) == mem1.word(p, i),
        ensures
            self.wf(mem2),
    {
        assert forall|t: u64, i: int|
            self.paths@.contains_key(t) && 0 <= i < 512 && !(t == page && i
                == index) implies #[trigger] pte_at(mem2, t, i) == pte_at(mem1, t, i) by {
            assert(mem2.word(t, i) == mem1.word(t, i));
        }
    }

    /// Well-formedness and every mapping depend only on the contents of
    /// the page-table pages.
    pub proof fn lemma_same_tables(&self, mem1: &PhysMemory, mem2: &PhysMemory)
        requires
            self.wf(mem1),
            mem2.wf(),
            mem2.same_range(mem1),
            forall|t: u64, i: int|
                self.tables().contains(t) && 0 <= i < 512 ==> #[trigger] mem2.word(t, i)
                    == mem1.word(t, i),
        ensures
            self.wf(mem2),
            self.shape(mem2) == self.shape(mem1),
            forall|va: u64| #[trigger] self.slot(mem2, va) == self.slot(mem1, va),
            forall|va: u64| #[trigger] self.mapping(mem2, va) == self.mapping(mem1, va),
            forall|va: u64| #[trigger] self.leaf_above(mem2, va) == self.leaf_above(mem1, va),
            forall|va: u64| #[trigger]
                self.missing_levels(mem2, va) == self.missing_levels(mem1, va),
    {
        assert forall|t: u64, i: int|
            self.paths@.contains_key(t) && 0 <= i < 512 implies #[trigger] pte_at(mem2, t, i)
            == pte_at(mem1, t, i) by {
            assert(mem2.word(t, i) == mem1.word(t, i));
        }
        assert(self.shape(mem2).middle =~= self.shape(mem1).middle);
        assert forall|p: (int, int)|
            self.shape(mem2).leaf.contains(p) == self.shape(mem1).leaf.contains(p) by {
            if 0 <= p.0 < 512 && 0 <= p.1 < 512 {
                let e = pte_at(mem1, self.root(), p.0);
                if e.is_interior() {
                    assert(self.paths@[e.addr()] =~= seq![p.0]);
                }
            }
        }
        assert(self.shape(mem2).leaf =~= self.shape(mem1).leaf);
        assert forall|va: u64| #[trigger] self.slot(mem2, va) == self.slot(mem1, va) by {
            self.lemma_slot_same(mem1, mem2, va);
        }
        assert forall|va: u64| #[trigger] self.mapping(mem2, va) == self.mapping(mem1, va) by {
            self.lemma_slot_same(mem1, mem2, va);
        }
        assert forall|va: u64| #[trigger]
            self.leaf_above(mem2, va) == self.leaf_above(mem1, va) by {
            self.lemma_slot_same(mem1, mem2, va);
        }
        assert forall|va: u64| #[trigger]
            self.missing_levels(mem2, va) == self.missing_levels(mem1, va) by {
            self.lemma_slot_same(mem1, mem2, va);
        }
    }

    /// The walk for one address reads page-table pages only.
    proof fn lemma_slot_same(&self, mem1: &PhysMemory, mem2: &PhysMemory, va: u64)
        requires
            self.wf(mem1),
            forall|t: u64, i: int|
                self.paths@.contains_key(t) && 0 <= i < 512 ==> #[trigger] pte_at(mem2, t, i)
                    == pte_at(mem1, t, i),
        ensures
            self.slot(mem2, va) == self.slot(mem1, va),
            self.mapping(mem2, va) == self.mapping(mem1, va),
            self.leaf_above(mem2, va) == self.leaf_above(mem1, va),
            self.missing_levels(mem2, va) == self.missing_levels(mem1, va),
    {
        lemma_vpn_indexes(va);
        let e2 = pte_at(mem1, self.root(), vpn_index(va, 2) as int);
        assert(pte_at(mem2, self.root(), vpn_index(va, 2) as int) == e2);
        if e2.is_interior() {
            let e1 = pte_at(mem1, e2.addr(), vpn_index(va, 1) as int);
            assert(pte_at(mem2, e2.addr(), vpn_index(va, 1) as int) == e1);
            if e1.is_interior() {
                assert(pte_at(mem2, e1.addr(), vpn_index(va, 0) as int) == pte_at(
                    mem1,
                    e1.addr(),
                    vpn_index(va, 0) as int,
                ));
            }
        }
    }

    /// The page that holds the leaf-level entry for an address is a
    /// page-table page in memory, served by the address's two upper indices.
    proof fn lemma_slot_in_tables(&self, mem: &PhysMemory, va: u64)
        requires
            self.wf(mem),
            self.slot(mem, va).is_some(),
        ensures
            self.paths@.contains_key(self.slot(mem, va).unwrap().table.addr),
            self.paths@[self.slot(mem, va).unwrap().table.addr] == seq![
                vpn_index(va, 2) as int,
                vpn_index(va, 1) as int,
            ],
            mem.contains_page(self.slot(mem, va).unwrap().table.addr),
            self.slot(mem, va).unwrap().index < 512,
    {
        lemma_vpn_indexes(va);
        let j2 = vpn_index(va, 2) as int;
        let j1 = vpn_index(va, 1) as int;
        let e2 = pte_at(mem, self.root(), j2);
        let t1 = e2.addr();
        assert(self.paths@[t1] =~= seq![j2]);
        let e1 = pte_at(mem, t1, j1);
        assert(self.paths@[e1.addr()] =~= seq![j2, j1]);
    }

    /// Writing the leaf-level entry for `va` changes the mapping of the
    /// page of `va` and of no other page.
    proof fn lemma_leaf_write(
        &self,
        mem1: &PhysMemory,
        mem2: &PhysMemory,
        slot: PteSlot,
        pte: PageTableEntry,
        va: u64,
    )
        requires
            self.wf(mem1),
            mem2.wf(),
            mem2.same_range(mem1),
            self.slot(mem1, va) == Some(slot),
            mem2.word(slot.table.addr, slot.index as int) == pte.bits,
            forall|p: u64, i: int|
                mem1.contains_page(p) && 0 <= i < 512 && !(p == slot.table.addr && i == slot.index)
                    ==> #[trigger] mem2.word(p, i) == mem1.word(p, i),
        ensures
            self.wf(mem2),
            self.shape(mem2) == self.shape(mem1),
            forall|va2: u64| #[trigger]
                self.mapping(mem2, va2) == if vpn(va2) == vpn(va) {
                    if pte.is_valid() {
                        Some(pte)
                    } else {
                        None
                    }
                } else {
                    self.mapping(mem1, va2)
                },
            forall|va2: u64| #[trigger] self.leaf_above(mem2, va2) == self.leaf_above(mem1, va2),
            forall|va2: u64| #[trigger]
                self.missing_levels(mem2, va2) == self.missing_levels(mem1, va2),
    {
        self.lemma_slot_in_tables(mem1, va);
        assert forall|t: u64, i: int|
            self.paths@.contains_key(t) && 0 <= i < 512 && !(t == slot.table.addr && i
                == slot.index) implies #[trigger] pte_at(mem2, t, i) == pte_at(mem1, t, i) by {
            assert(mem2.word(t, i) == mem1.word(t, i));
        }
        assert(self.wf(mem2));
        assert(self.shape(mem2).middle =~= self.shape(mem1).middle);
        assert forall|p: (int, int)|
            self.shape(mem2).leaf.contains(p) == self.shape(mem1).leaf.contains(p) by {
            if 0 <= p.0 < 512 && 0 <= p.1 < 512 {
                let e = pte_at(mem1, self.root(), p.0);
                if e.is_interior() {
                    assert(self.paths@[e.addr()] =~= seq![p.0]);
                }
            }
        }
        assert(self.shape(mem2).leaf =~= self.shape(mem1).leaf);
        assert forall|va2: u64| #[trigger]
            self.mapping(mem2, va2) == if vpn(va2) == vpn(va) {
                if pte.is_valid() {
                    Some(pte)
                } else {
                    None
                }
            } else {
                self.mapping(mem1, va2)
            } by {
            self.lemma_leaf_write_one(mem1, mem2, slot, pte, va, va2);
        }
        assert forall|va2: u64| #[trigger]
            self.leaf_above(mem2, va2) == self.leaf_above(mem1, va2) by {
            self.lemma_leaf_write_one(mem1, mem2, slot, pte, va, va2);
        }
        assert forall|va2: u64| #[trigger]
            self.missing_levels(mem2, va2) == self.missing_levels(mem1, va2) by {
            self.lemma_leaf_write_one(mem1, mem2, slot, pte, va, va2);
        }
    }

    /// What writing the leaf-level entry for `va` does to the mapping of
    /// the one address `va2`.
    proof fn lemma_leaf_write_one(
        &self,
        mem1: &PhysMemory,
        mem2: &PhysMemory,
        slot: PteSlot,
        pte: PageTableEntry,
        va: u64,
        va2: u64,
    )
        requires
            self.wf(mem1),
            self.slot(mem1, va) == Some(slot),
            pte_at(mem2, slot.table.addr, slot.index as int) == pte,
            forall|t: u64, i: int|
                self.paths@.contains_key(t) && 0 <= i < 512 && !(t == slot.table.addr && i
                    == slot.index) ==> #[trigger] pte_at(mem2, t, i) == pte_at(mem1, t, i),
        ensures
            self.mapping(mem2, va2) == if vpn(va2) == vpn(va) {
                if pte.is_valid() {
                    Some(pte)
                } else {
                    None
                }
            } else {
                self.mapping(mem1, va2)
            },
            self.leaf_above(mem2, va2) == self.leaf_above(mem1, va2),
            self.missing_levels(mem2, va2) == self.missing_levels(mem1, va2),
    {
        lemma_vpn_indexes(va2);
        lemma_vpn_indexes(va);
        lemma_same_vpn(va2, va);
        self.lemma_slot_in_tables(mem1, va);
        let j2 = vpn_index(va2, 2) as int;
        let j1 = vpn_index(va2, 1) as int;
        let j0 = vpn_index(va2, 0) as int;
        let root = self.root.bits;
        let o2 = pte_at(mem1, root, j2);
        assert(pte_at(mem2, root, j2) == o2);
        if o2.is_interior() {
            let t1 = o2.addr();
            let o1 = pte_at(mem1, t1, j1);
            assert(self.paths@[t1] =~= seq![j2]);
            assert(pte_at(mem2, t1, j1) == o1);
            if o1.is_interior() {
                let t0 = o1.addr();
                assert(self.slot(mem1, va2) == Some(PteSlot { table: Page { addr: t0 }, index: j0 as usize }));
                self.lemma_slot_in_tables(mem1, va2);
                if t0 == slot.table.addr {
                    let a = seq![j2, j1];
                    let b = seq![vpn_index(va, 2) as int, vpn_index(va, 1) as int];
                    assert(a == b);
                    assert(a[0] == b[0]);
                    assert(a[1] == b[1]);
                }
                if !(t0 == slot.table.addr && j0 == slot.index) {
                    assert(pte_at(mem2, t0, j0) == pte_at(mem1, t0, j0));
                }
            }
        }
    }

    /// A table with a fresh, zeroed root page and no mapping; `None`
    /// when the allocator has no frame.
    pub fn new(mem: &mut PhysMemory, allocator: &mut PageAllocator) -> (r: Option<Self>)
        requires
            old(mem).wf(),
            old(allocator)@.wf(),
            old(mem).base() <= old(allocator)@.start,
            old(allocator)@.end <= old(mem).top(),
        ensures
            final(mem).wf(),
            final(mem).same_range(old(mem)),
            final(allocator)@ == old(allocator)@.after_alloc(),
            r.is_some() <==> old(allocator)@.available() > 0,
            r.is_none() ==> forall|p: u64, i: int|
                old(mem).contains_page(p) && 0 <= i < 512 ==> #[trigger] final(mem).word(p, i)
                    == old(mem).word(p, i),
            r.is_some() ==> {
                let pt = r.unwrap();
                &&& pt.inv(final(mem), final(allocator))
                &&& Some(pt.root()) == old(allocator)@.next_frame()
                &&& pt.frames() == set![pt.root()]
                &&& pt.tables() == set![pt.root()]
                &&& forall|i: int| 0 <= i < 512 ==> #[trigger] final(mem).word(pt.root(), i) == 0
                &&& pt.shape(final(mem)) == TableShape::bare()
                &&& forall|va: u64| (#[trigger] pt.mapping(final(mem), va)).is_none()
                &&& pt.no_leaf_above(final(mem))
                &&& forall|p: u64, i: int|
                    old(mem).contains_page(p) && 0 <= i < 512 && p != pt.root()
                        ==> #[trigger] final(mem).word(p, i) == old(mem).word(p, i)
            },
    {
        proof {
            allocator@.lemma_alloc();
        }
        match kalloc(allocator) {
            None => None,
            Some(tracker) => {
                let page = tracker.page();
                mem.zero_frame(page);
                let mut pages = FrameMap::new();
                pages.insert(tracker);
                let root = Addr::new(page.addr);
                let pt = PageTable {
                    root,
                    pages,
                    paths: Ghost(Map::empty().insert(page.addr, Seq::empty())),
                };
                proof {
                    assert(pt.frames() =~= set![pt.root()]);
                    assert(pt.tables() =~= set![pt.root()]);
                    assert(pt.shape(mem).middle =~= Set::<int>::empty()) by {
                        assert forall|i2: int| !pt.shape(mem).middle.contains(i2) by {
                            if 0 <= i2 < 512 {
                                assert(mem.word(page.addr, i2) == 0);
                            }
                        }
                    }
                    assert(pt.shape(mem).leaf =~= Set::<(int, int)>::empty()) by {
                        assert forall|p: (int, int)| !pt.shape(mem).leaf.contains(p) by {
                            if 0 <= p.0 < 512 {
                                assert(mem.word(page.addr, p.0) == 0);
                            }
                        }
                    }
                    assert forall|va: u64| (#[trigger] pt.mapping(mem, va)).is_none() by {
                        lemma_vpn_indexes(va);
                        assert(mem.word(page.addr, vpn_index(va, 2) as int) == 0);
                    }
                    assert forall|va: u64| !#[trigger] pt.leaf_above(mem, va) by {
                        lemma_vpn_indexes(va);
                        assert(mem.word(page.addr, vpn_index(va, 2) as int) == 0);
                    }
                    assert forall|t: u64, i: int|
                        pt.paths@.contains_key(t) && 0 <= i < 512 implies !(#[trigger] pte_at(
                        mem,
                        t,
                        i,
                    )).is_valid() by {
                        assert(mem.word(page.addr, i) == 0);
                    }
                }
                Some(pt)
            },
        }
    }

    /// Files the ticket of a frame with the table.
    pub fn push_page(&mut self, mem: &PhysMemory, page_tracker: PageTracker)
        requires
            old(self).wf(mem),
        ensures
            final(self).wf(mem),
            final(self).root() == old(self).root(),
            final(self).tables() == old(self).tables(),
            final(self).frames() == old(self).frames().insert(page_tracker.frame().addr),
    {
        self.pages.insert(page_tracker);
    }
}

impl PageTable {
    /// Finds the leaf-level entry for `va` without changing the table.
    /// `None` where an entry on the way is not valid, or is a leaf: the
    /// table has no pages larger than a frame, so the walk stops at a
    /// leaf above the leaf level and reads nothing through it.
    pub fn walk(&self, mem: &PhysMemory, va: Addr) -> (r: Option<PteSlot>)
        requires
            self.wf(mem),
            va.bits <= MAX_VIRT_ADDR,
        ensures
            r == self.slot(mem, va.bits),
    {
        proof {
            lemma_vpn_indexes(va.bits);
        }
        let indexes = va.get_indexes();
        let root = Page { addr: self.root.bits };
        let e2 = PageTableEntry { bits: mem.read(root, indexes[2] as usize) };
        assert(e2 == pte_at(mem, self.root(), vpn_index(va.bits, 2) as int));
        if !e2.valid() || e2.readable() || e2.writable() || e2.executable() {
            return None;
        }
        let t1 = Page { addr: e2.get_addr_bits() };
        let e1 = PageTableEntry { bits: mem.read(t1, indexes[1] as usize) };
        assert(e1 == pte_at(mem, t1.addr, vpn_index(va.bits, 1) as int));
        if !e1.valid() || e1.readable() || e1.writable() || e1.executable() {
            return None;
        }
        let t0 = Page { addr: e1.get_addr_bits() };
        Some(PteSlot { table: t0, index: indexes[0] as usize })
    }

    /// The entry that maps `va`, if `va` is mapped.
    pub fn lookup(&self, mem: &PhysMemory, va: Addr) -> (r: Option<PageTableEntry>)
        requires
            self.wf(mem),
            va.bits <= MAX_VIRT_ADDR,
        ensures
            r == self.mapping(mem, va.bits),
    {
        proof {
            lemma_vpn_indexes(va.bits);
        }
        match self.walk(mem, va) {
            None => None,
            Some(slot) => {
                assert(self.paths@.contains_key(slot.table.addr));
                let e = PageTableEntry { bits: mem.read(slot.table, slot.index) };
                if e.valid() {
                    Some(e)
                } else {
                    None
                }
            },
        }
    }

    /// Translates `va` to a physical address, keeping the page offset.
    /// A user translation succeeds only through an entry with the U flag.
    pub fn translate(&self, mem: &PhysMemory, va: Addr, user: bool) -> (r: Option<Addr>)
        requires
            self.wf(mem),
            va.bits <= MAX_VIRT_ADDR,
        ensures
            r == match self.translation(mem, va.bits, user) {
                Some(pa) => Some(Addr { bits: pa }),
                None => None,
            },
    {
        match self.lookup(mem, va) {
            None => None,
            Some(e) => {
                if user && !e.user() {
                    None
                } else {
                    Some(Addr::new(e.get_addr_bits() + va.page_offset()))
                }
            },
        }
    }

    /// Translates a user virtual address.
    pub fn walk_addr(&self, mem: &PhysMemory, va: Addr) -> (r: Option<Addr>)
        requires
            self.wf(mem),
            va.bits <= MAX_VIRT_ADDR,
        ensures
            r == match self.translation(mem, va.bits, true) {
                Some(pa) => Some(Addr { bits: pa }),
                None => None,
            },
    {
        self.translate(mem, va, true)
    }

    /// Whether the table holds the ticket of the frame at `key`.
    pub fn contain(&self, key: Addr) -> (r: bool)
        ensures
            r == self.frames().contains(key.bits),
    {
        self.pages.contains(key.bits)
    }

    /// The SATP value that selects this table: Sv39 mode, address space
    /// identifier zero, and the page number of the root.
    pub fn make_satp(&self) -> (r: u64)
        ensures
            r == 0x8000_0000_0000_0000 + self.root() / 4096,
    {
        let b: u64 = self.root.bits;
        assert((8u64 << 60u64) | (b >> 12u64) == 0x8000_0000_0000_0000 + b / 4096) by (bit_vector);
        (8u64 << 60) | (b >> 12)
    }

    /// Gives up the ticket of the frame at `addr`, which must not be a
    /// page-table page, and releases the frame.
    pub fn remove_page(&mut self, mem: &PhysMemory, allocator: &mut PageAllocator, addr: Addr)
        requires
            old(self).inv(mem, old(allocator)),
            !old(self).tables().contains(addr.bits),
        ensures
            final(self).inv(mem, final(allocator)),
            final(self).root() == old(self).root(),
            final(self).tables() == old(self).tables(),
            final(self).frames() == old(self).frames().remove(addr.bits),
            final(allocator)@ == if old(self).frames().contains(addr.bits) {
                old(allocator)@.after_free(addr.bits)
            } else {
                old(allocator)@
            },
    {
        match self.pages.remove(addr.bits) {
            Some(tracker) => {
                kfree(allocator, tracker);
            },
            None => {},
        }
    }
}

impl PageTable {
    /// Follows entry `index` of the page-table page `table` to the
    /// next-level page. Where the entry is not valid, a fresh zeroed
    /// page is allocated and the entry is made to refer to it. Where the
    /// entry is a leaf, there is no next-level page, and nothing changes.
    fn descend(
        &mut self,
        mem: &mut PhysMemory,
        allocator: &mut PageAllocator,
        table: Page,
        index: usize,
        Ghost(above): Ghost<int>,
    ) -> (r: Option<Page>)
        requires
            old(self).inv(old(mem), old(allocator)),
            old(self).paths@.contains_key(table.addr),
            old(self).paths@[table.addr].len() < 2,
            index < 512,
            table.addr != old(self).root.bits ==> 0 <= above < 512 && pte_at(
                old(mem),
                old(self).root.bits,
                above,
            ).is_interior() && pte_at(old(mem), old(self).root.bits, above).addr() == table.addr,
        ensures
            final(self).inv(final(mem), final(allocator)),
            final(mem).same_range(old(mem)),
            final(self).root == old(self).root,
            forall|p: u64, i: int|
                old(mem).contains_page(p) && 0 <= i < 512 ==> #[trigger] final(mem).word(p, i)
                    == step_word(old(mem), old(allocator), table.addr, index as int, p, i),
            final(self).shape(final(mem)) == if pte_at(old(mem), table.addr, index as int).is_valid()
                || old(allocator)@.available() == 0 {
                old(self).shape(old(mem))
            } else if table.addr == old(self).root.bits {
                TableShape {
                    middle: old(self).shape(old(mem)).middle.insert(index as int),
                    leaf: old(self).shape(old(mem)).leaf,
                }
            } else {
                TableShape {
                    middle: old(self).shape(old(mem)).middle,
                    leaf: old(self).shape(old(mem)).leaf.insert((above, index as int)),
                }
            },
            forall|va: u64| #[trigger]
                final(self).mapping(final(mem), va) == old(self).mapping(old(mem), va),
            forall|va: u64| #[trigger]
                final(self).leaf_above(final(mem), va) == old(self).leaf_above(old(mem), va),
            pte_at(old(mem), table.addr, index as int).is_valid() ==> {
                &&& r == if pte_at(old(mem), table.addr, index as int).is_interior() {
                    Some(Page { addr: pte_at(old(mem), table.addr, index as int).addr() })
                } else {
                    None
                }
                &&& final(self).paths@ == old(self).paths@
                &&& final(self).pages.dom() == old(self).pages.dom()
                &&& final(allocator)@ == old(allocator)@
                &&& forall|p: u64, i: int|
                    old(mem).contains_page(p) && 0 <= i < 512 ==> #[trigger] final(mem).word(p, i)
                        == old(mem).word(p, i)
            },
            !pte_at(old(mem), table.addr, index as int).is_valid() ==> {
                &&& final(allocator)@ == old(allocator)@.after_alloc()
                &&& r.is_some() <==> old(allocator)@.available() > 0
                &&& r.is_none() ==> {
                    &&& final(self).paths@ == old(self).paths@
                    &&& final(self).pages.dom() == old(self).pages.dom()
                    &&& forall|p: u64, i: int|
                        old(mem).contains_page(p) && 0 <= i < 512 ==> #[trigger] final(mem).word(
                            p,
                            i,
                        ) == old(mem).word(p, i)
                }
                &&& r.is_some() ==> {
                    let f = r.unwrap().addr;
                    &&& Some(f) == old(allocator)@.next_frame()
                    &&& !old(allocator)@.issued.contains(f)
                    &&& final(self).paths@ == old(self).paths@.insert(
                        f,
                        old(self).paths@[table.addr].push(index as int),
                    )
                    &&& final(self).pages.dom() == old(self).pages.dom().insert(f)
                    &&& pte_at(final(mem), table.addr, index as int).is_interior()
                    &&& pte_at(final(mem), table.addr, index as int).addr() == f
                    &&& forall|i: int| 0 <= i < 512 ==> #[trigger] final(mem).word(f, i) == 0
                    &&& forall|p: u64, i: int|
                        old(mem).contains_page(p) && 0 <= i < 512 && p != f && !(p == table.addr
                            && i == index) ==> #[trigger] final(mem).word(p, i) == old(mem).word(
                            p,
                            i,
                        )
                }
            },
    {
        let pte = PageTableEntry { bits: mem.read(table, index) };
        if pte.valid() {
            if pte.readable() || pte.writable() || pte.executable() {
                // A leaf above the leaf level: the table has no pages
                // larger than a frame.
                return None;
            }
            return Some(Page { addr: pte.get_addr_bits() });
        }
        proof {
            allocator@.lemma_alloc();
        }
        match kalloc(allocator) {
            None => None,
            Some(tracker) => {
                let page = tracker.page();
                let f = page.addr;
                let ghost path = self.paths@[table.addr].push(index as int);
                mem.zero_frame(page);
                let entry = PageTableEntry::new(Addr::new(f), PTEFlags::V());
                mem.write(table, index, entry.bits);
                self.pages.insert(tracker);
                self.paths = Ghost(self.paths@.insert(f, path));
                proof {
                    PageTableEntry::lemma_new(f, PTEFlags { bits: 1 });
                    assert(!old(self).paths@.contains_key(f));
                    assert(pte_at(mem, table.addr, index as int) == entry);
                    self.lemma_shape_step(
                        mem,
                        old(self),
                        old(mem),
                        table.addr,
                        index as int,
                        f,
                        above,
                    );
                    assert forall|t: u64, i: int|
                        old(self).paths@.contains_key(t) && 0 <= i < 512 && !(t == table.addr && i
                            == index) implies #[trigger] pte_at(mem, t, i) == pte_at(
                        old(mem),
                        t,
                        i,
                    ) by {
                        assert(mem.word(t, i) == old(mem).word(t, i));
                    }
                    assert forall|t: u64, i: int|
                        self.paths@.contains_key(t) && self.paths@[t].len() < 2 && 0 <= i < 512
                            && (#[trigger] pte_at(mem, t, i)).is_interior() implies {
                        &&& self.paths@.contains_key(pte_at(mem, t, i).addr())
                        &&& self.paths@[pte_at(mem, t, i).addr()] == self.paths@[t].push(i)
                    } by {
                        if t == f {
                            assert(mem.word(f, i) == 0);
                        } else if t == table.addr && i == index {
                        } else {
                            assert(pte_at(mem, t, i) == pte_at(old(mem), t, i));
                        }
                    }
                    assert(self.wf(mem));
                    assert forall|va: u64|
                        #![trigger self.mapping(mem, va)]
                        #![trigger self.leaf_above(mem, va)]
                        self.mapping(mem, va) == old(self).mapping(old(mem), va)
                            && self.leaf_above(mem, va) == old(self).leaf_above(old(mem), va) by {
                        lemma_vpn_indexes(va);
                        let j2 = vpn_index(va, 2) as int;
                        let j1 = vpn_index(va, 1) as int;
                        let j0 = vpn_index(va, 0) as int;
                        let root = self.root.bits;
                        let o2 = pte_at(old(mem), root, j2);
                        let n2 = pte_at(mem, root, j2);
                        if root == table.addr && j2 == index {
                            assert(n2 == entry);
                            assert(mem.word(f, j1) == 0);
                        } else {
                            assert(n2 == o2);
                            if o2.is_interior() {
                                let t1 = o2.addr();
                                let o1 = pte_at(old(mem), t1, j1);
                                let n1 = pte_at(mem, t1, j1);
                                if t1 == table.addr && j1 == index {
                                    assert(n1 == entry);
                                    assert(mem.word(f, j0) == 0);
                                } else {
                                    assert(n1 == o1);
                                    if o1.is_interior() {
                                        let t0 = o1.addr();
                                        assert(old(self).paths@[t0].len() == 2);
                                        assert(pte_at(mem, t0, j0) == pte_at(old(mem), t0, j0));
                                    }
                                }
                            }
                        }
                    }
                }
                Some(page)
            },
        }
    }
}

/// The smaller of two integers.
pub open spec fn min_int(a: int, b: int) -> int {
    if a <= b {
        a
    } else {
        b
    }
}

/// The entry that refers to the next-level page-table page at `frame`:
/// the page number of the frame, and of the flags the valid flag alone.
pub open spec fn table_entry(frame: u64) -> PageTableEntry {
    PageTableEntry::spec_new(frame, PTEFlags { bits: PTE_V })
}

/// The entry that refers to a page-table page at a page boundary within
/// the physical address range holds the valid flag alone, and the
/// address it refers to is that of the page.
pub proof fn lemma_table_entry(frame: u64)
    requires
        frame % 4096 == 0,
        frame <= MAX_PHYS_ADDR,
    ensures
        table_entry(frame).flag_bits() == PTE_V,
        table_entry(frame).addr() == frame,
        table_entry(frame).is_interior(),
{
    PageTableEntry::lemma_new(frame, PTEFlags { bits: PTE_V });
}

/// Word `i` of the frame at `p` after entry `index` of the page-table
/// page at `table` has been followed: where the entry was not valid and
/// a frame was available, the frame that the allocator hands out is
/// zero in every word and the entry refers to it; every other word is
/// as it was.
pub open spec fn step_word(
    mem: &PhysMemory,
    allocator: &PageAllocator,
    table: u64,
    index: int,
    p: u64,
    i: int,
) -> u64 {
    if !pte_at(mem, table, index).is_valid() && allocator@.available() >= 1 {
        if p == allocator@.next_frame().unwrap() {
            0
        } else if p == table && i == index {
            table_entry(allocator@.next_frame().unwrap()).bits
        } else {
            mem.word(p, i)
        }
    } else {
        mem.word(p, i)
    }
}

impl PageTable {
    /// The frame that a walk to the entry for `va` takes first, if it
    /// takes one.
    pub open spec fn first_taken(allocator: &PageAllocator) -> u64 {
        allocator@.next_frame().unwrap()
    }

    /// The frame that a walk to the entry for `va` takes second, if it
    /// takes two.
    pub open spec fn second_taken(allocator: &PageAllocator) -> u64 {
        allocator@.after_alloc().next_frame().unwrap()
    }

    /// The frames that a walk to the entry for `va` takes for
    /// page-table pages: as many as are missing on the way, or as the
    /// allocator has, in the order in which it hands them out.
    pub open spec fn walk_frames(
        &self,
        mem: &PhysMemory,
        allocator: &PageAllocator,
        va: u64,
    ) -> Set<u64> {
        let m = self.missing_levels(mem, va);
        let a = allocator@.available();
        if m == 2 && a >= 2 {
            set![Self::first_taken(allocator), Self::second_taken(allocator)]
        } else if m >= 1 && a >= 1 {
            set![Self::first_taken(allocator)]
        } else {
            Set::empty()
        }
    }

    /// The page-table page that holds the leaf-level entry for `va`
    /// after a walk that found or made the way to it: the page that was
    /// there, or the last frame taken.
    pub open spec fn leaf_page(
        &self,
        mem: &PhysMemory,
        allocator: &PageAllocator,
        va: u64,
    ) -> u64 {
        let m = self.missing_levels(mem, va);
        if m == 2 {
            Self::second_taken(allocator)
        } else if m == 1 {
            Self::first_taken(allocator)
        } else {
            pte_at(
                mem,
                pte_at(mem, self.root(), vpn_index(va, 2) as int).addr(),
                vpn_index(va, 1) as int,
            ).addr()
        }
    }

    /// The leaf-level entry for `va` as a walk finds it: the entry that
    /// was there, or zero on a page that the walk takes.
    pub open spec fn leaf_before(&self, mem: &PhysMemory, va: u64) -> PageTableEntry {
        if self.missing_levels(mem, va) == 0 {
            pte_at(
                mem,
                pte_at(
                    mem,
                    pte_at(mem, self.root(), vpn_index(va, 2) as int).addr(),
                    vpn_index(va, 1) as int,
                ).addr(),
                vpn_index(va, 0) as int,
            )
        } else {
            PageTableEntry { bits: 0 }
        }
    }

    /// The entries on the way to the leaf-level entry for `va` after a
    /// walk: each that the walk wrote holds the valid flag alone and
    /// refers to the frame taken for the page below it; each that was
    /// valid is as it was; and where the walk reached it, the leaf-level
    /// entry is `leaf`. Where a leaf stands on the way, the entries up
    /// to it are as they were.
    pub open spec fn way_after(
        &self,
        mem: &PhysMemory,
        old_self: &PageTable,
        old_mem: &PhysMemory,
        old_allocator: &PageAllocator,
        va: u64,
        leaf: PageTableEntry,
    ) -> bool {
        let m = old_self.missing_levels(old_mem, va);
        let a = old_allocator@.available();
        let top = pte_at(mem, self.root(), vpn_index(va, 2) as int);
        let middle = pte_at(mem, top.addr(), vpn_index(va, 1) as int);
        &&& m == 2 && a >= 1 ==> top.flag_bits() == PTE_V && top.addr() == Self::first_taken(
            old_allocator,
        )
        &&& m == 2 && a >= 2 ==> middle.flag_bits() == PTE_V && middle.addr()
            == Self::second_taken(old_allocator)
        &&& m == 1 && a >= 1 ==> middle.flag_bits() == PTE_V && middle.addr()
            == Self::first_taken(old_allocator)
        &&& m <= 1 ==> top == pte_at(old_mem, old_self.root(), vpn_index(va, 2) as int)
        &&& m == 0 && top.is_interior() ==> middle == pte_at(
            old_mem,
            pte_at(old_mem, old_self.root(), vpn_index(va, 2) as int).addr(),
            vpn_index(va, 1) as int,
        )
        &&& m <= a && !old_self.leaf_above(old_mem, va) ==> middle.addr() == old_self.leaf_page(
            old_mem,
            old_allocator,
            va,
        ) && pte_at(mem, middle.addr(), vpn_index(va, 0) as int) == leaf
    }

    /// How the page-table pages of `self` in `mem` stand to those of an
    /// earlier state after operations that only add to the table: an
    /// entry of a page that was there changes only from not valid to
    /// valid; a page taken since is zero in every word but its valid
    /// entries; and an entry above the leaf level that has become valid
    /// holds the valid flag alone and refers to a page taken since.
    pub open spec fn tidy_from(
        &self,
        mem: &PhysMemory,
        old_self: &PageTable,
        old_mem: &PhysMemory,
    ) -> bool {
        &&& forall|t: u64, i: int|
            old_self.tables().contains(t) && 0 <= i < 512 && #[trigger] mem.word(t, i)
                != old_mem.word(t, i) ==> !pte_at(old_mem, t, i).is_valid() && pte_at(
                mem,
                t,
                i,
            ).is_valid()
        &&& forall|t: u64, i: int|
            self.tables().contains(t) && !old_self.tables().contains(t) && 0 <= i < 512 && !pte_at(
                mem,
                t,
                i,
            ).is_valid() ==> #[trigger] mem.word(t, i) == 0
        &&& forall|va: u64|
            old_self.missing_levels(old_mem, va) == 2 && #[trigger] self.missing_levels(mem, va)
                < 2 ==> {
                let top = pte_at(mem, self.root(), vpn_index(va, 2) as int);
                &&& top == table_entry(top.addr())
                &&& self.tables().contains(top.addr())
                &&& !old_self.tables().contains(top.addr())
            }
        &&& forall|va: u64|
            old_self.missing_levels(old_mem, va) >= 1 && #[trigger] self.missing_levels(mem, va)
                == 0 ==> {
                let top = pte_at(mem, self.root(), vpn_index(va, 2) as int);
                let middle = pte_at(mem, top.addr(), vpn_index(va, 1) as int);
                &&& middle == table_entry(middle.addr())
                &&& self.tables().contains(middle.addr())
                &&& !old_self.tables().contains(middle.addr())
            }
    }

    /// Word `i` of the frame at `p` after a walk to the entry for `va`
    /// that allocates what is missing on the way. A frame taken for the
    /// middle level is zero in every word but the entry on the way, which
    /// refers to the frame taken for the leaf level, if one was left to
    /// take; a frame taken for the leaf level is zero in every word; the
    /// entry above a frame taken refers to it and holds the valid flag
    /// alone; every other word is as it was.
    pub open spec fn walk_word(
        &self,
        mem: &PhysMemory,
        allocator: &PageAllocator,
        va: u64,
        p: u64,
        i: int,
    ) -> u64 {
        let m = self.missing_levels(mem, va);
        let a = allocator@.available();
        let i2 = vpn_index(va, 2) as int;
        let i1 = vpn_index(va, 1) as int;
        if m == 2 && a >= 1 {
            if p == Self::first_taken(allocator) {
                if a >= 2 && i == i1 {
                    table_entry(Self::second_taken(allocator)).bits
                } else {
                    0
                }
            } else if a >= 2 && p == Self::second_taken(allocator) {
                0
            } else if p == self.root() && i == i2 {
                table_entry(Self::first_taken(allocator)).bits
            } else {
                mem.word(p, i)
            }
        } else if m == 1 && a >= 1 {
            if p == Self::first_taken(allocator) {
                0
            } else if p == pte_at(mem, self.root(), i2).addr() && i == i1 {
                table_entry(Self::first_taken(allocator)).bits
            } else {
                mem.word(p, i)
            }
        } else {
            mem.word(p, i)
        }
    }
}

impl PageTable {
    /// What every operation that may add page-table pages keeps or
    /// changes, apart from the mappings: the root stays; page-table pages
    /// are only added, each from a frame that was not in use; the tickets
    /// held grow by those of the new pages; the allocator makes as many
    /// allocations in a row as pages were added; memory changes only
    /// within page-table pages; and a leaf stands above the leaf level on
    /// the way to an entry exactly where one stood before.
    pub open spec fn grown_from(
        &self,
        mem: &PhysMemory,
        allocator: &PageAllocator,
        old_self: &PageTable,
        old_mem: &PhysMemory,
        old_allocator: &PageAllocator,
    ) -> bool {
        &&& mem.same_range(old_mem)
        &&& self.root() == old_self.root()
        &&& old_self.tables().subset_of(self.tables())
        &&& self.frames() == old_self.frames().union(self.tables())
        &&& allocator@.issued == old_allocator@.issued.union(self.tables())
        &&& allocator@.start == old_allocator@.start
        &&& allocator@.end == old_allocator@.end
        &&& forall|t: u64| #[trigger]
            self.tables().contains(t) && !old_self.tables().contains(t)
                ==> !old_allocator@.issued.contains(t)
        &&& forall|p: u64, i: int|
            old_mem.contains_page(p) && !self.tables().contains(p) && 0 <= i < 512
                ==> #[trigger] mem.word(p, i) == old_mem.word(p, i)
        &&& forall|va: u64| #[trigger] self.leaf_above(mem, va) == old_self.leaf_above(old_mem, va)
    }

    /// Word `i` of the frame at `p` after the page of `va` has been
    /// mapped through `entry`: as after a walk to the leaf-level entry
    /// for `va`, but that the entry itself, where the walk reached it, is
    /// `entry`.
    pub open spec fn map_word(
        &self,
        mem: &PhysMemory,
        allocator: &PageAllocator,
        va: u64,
        entry: PageTableEntry,
        p: u64,
        i: int,
    ) -> u64 {
        if self.missing_levels(mem, va) <= allocator@.available() && p == self.leaf_page(
            mem,
            allocator,
            va,
        ) && i == vpn_index(va, 0) {
            entry.bits
        } else {
            self.walk_word(mem, allocator, va, p, i)
        }
    }

    /// Mapping a page that was not mapped leaves the page-table pages
    /// tidy.
    proof fn lemma_map_tidy(
        old_self: &PageTable,
        old_mem: &PhysMemory,
        old_allocator: &PageAllocator,
        new_self: &PageTable,
        mem: &PhysMemory,
        va: u64,
        entry: PageTableEntry,
    )
        requires
            old_self.inv(old_mem, old_allocator),
            old_self.mapping(old_mem, va).is_none(),
            !old_self.leaf_above(old_mem, va),
            entry.is_valid(),
            new_self.root() == old_self.root(),
            new_self.tables() == old_self.tables().union(
                old_self.walk_frames(old_mem, old_allocator, va),
            ),
            forall|p: u64, i: int|
                old_mem.contains_page(p) && 0 <= i < 512 ==> (#[trigger] mem.word(p, i)
                    == old_self.map_word(old_mem, old_allocator, va, entry, p, i)
                    || mem.word(p, i) == old_self.walk_word(old_mem, old_allocator, va, p, i)),
            forall|p: u64, i: int|
                old_mem.contains_page(p) && 0 <= i < 512 && !(p == old_self.leaf_page(
                    old_mem,
                    old_allocator,
                    va,
                ) && i == vpn_index(va, 0)) ==> #[trigger] mem.word(p, i) == old_self.walk_word(
                    old_mem,
                    old_allocator,
                    va,
                    p,
                    i,
                ),
        ensures
            new_self.tidy_from(mem, old_self, old_mem),
    {
        lemma_vpn_indexes(va);
        old_self.lemma_wf_tables(old_mem);
        old_allocator@.lemma_alloc();
        old_allocator@.after_alloc().lemma_alloc();
        let root = old_self.root();
        let m = old_self.missing_levels(old_mem, va);
        let a = old_allocator@.available();
        let i2 = vpn_index(va, 2) as int;
        let i1 = vpn_index(va, 1) as int;
        let i0 = vpn_index(va, 0) as int;
        let first = Self::first_taken(old_allocator);
        let second = Self::second_taken(old_allocator);
        let leaf = old_self.leaf_page(old_mem, old_allocator, va);
        let o2 = pte_at(old_mem, root, i2);
        if a >= 1 {
            lemma_table_entry(first);
            assert(!old_allocator@.issued.contains(first));
            assert(!old_self.tables().contains(first));
        }
        if a >= 2 {
            lemma_table_entry(second);
            assert(old_allocator@.after_alloc().issued.contains(first));
            assert(!old_allocator@.after_alloc().issued.contains(second));
            assert(!old_self.tables().contains(second));
            assert(first != second);
        }
        if m <= 1 {
            assert(old_self.paths@[o2.addr()] =~= seq![i2]);
        }
        if m == 0 {
            old_self.lemma_slot_in_tables(old_mem, va);
            assert(old_self.paths@[leaf].len() == 2);
            assert(!pte_at(old_mem, leaf, i0).is_valid());
        }
        // An entry of a page that was there changes only from not valid
        // to valid.
        assert forall|t: u64, i: int|
            old_self.tables().contains(t) && 0 <= i < 512 && #[trigger] mem.word(t, i)
                != old_mem.word(t, i) implies !pte_at(old_mem, t, i).is_valid() && pte_at(
            mem,
            t,
            i,
        ).is_valid() by {
            assert(old_mem.contains_page(t));
            assert(mem.word(t, i) == old_self.map_word(old_mem, old_allocator, va, entry, t, i)
                || mem.word(t, i) == old_self.walk_word(old_mem, old_allocator, va, t, i));
        }
        // A page taken is zero in every word but its valid entries.
        assert forall|t: u64, i: int|
            new_self.tables().contains(t) && !old_self.tables().contains(t) && 0 <= i < 512
                && !pte_at(mem, t, i).is_valid() implies #[trigger] mem.word(t, i) == 0 by {
            assert(old_self.walk_frames(old_mem, old_allocator, va).contains(t));
            assert(old_mem.contains_page(t));
            assert(mem.word(t, i) == old_self.map_word(old_mem, old_allocator, va, entry, t, i)
                || mem.word(t, i) == old_self.walk_word(old_mem, old_allocator, va, t, i));
        }
        assert forall|va2: u64|
            old_self.missing_levels(old_mem, va2) == 2 && #[trigger] new_self.missing_levels(
                mem,
                va2,
            ) < 2 implies {
            let top = pte_at(mem, new_self.root(), vpn_index(va2, 2) as int);
            &&& top == table_entry(top.addr())
            &&& new_self.tables().contains(top.addr())
            &&& !old_self.tables().contains(top.addr())
        } by {
            lemma_vpn_indexes(va2);
            let j2 = vpn_index(va2, 2) as int;
            assert(mem.word(root, j2) == old_self.walk_word(
                old_mem,
                old_allocator,
                va,
                root,
                j2,
            ));
            assert(old_self.walk_frames(old_mem, old_allocator, va).contains(first));
        }
        assert forall|va2: u64|
            old_self.missing_levels(old_mem, va2) >= 1 && #[trigger] new_self.missing_levels(
                mem,
                va2,
            ) == 0 implies {
            let top = pte_at(mem, new_self.root(), vpn_index(va2, 2) as int);
            let middle = pte_at(mem, top.addr(), vpn_index(va2, 1) as int);
            &&& middle == table_entry(middle.addr())
            &&& new_self.tables().contains(middle.addr())
            &&& !old_self.tables().contains(middle.addr())
        } by {
            lemma_vpn_indexes(va2);
            let j2 = vpn_index(va2, 2) as int;
            let j1 = vpn_index(va2, 1) as int;
            assert(mem.word(root, j2) == old_self.walk_word(
                old_mem,
                old_allocator,
                va,
                root,
                j2,
            ));
            let top = pte_at(mem, root, j2);
            if old_self.missing_levels(old_mem, va2) == 2 {
                // The entry of the root is new, so the middle-level page is
                // the first frame taken.
                assert(top.addr() == first);
                assert(old_mem.contains_page(first));
                assert(mem.word(first, j1) == old_self.walk_word(
                    old_mem,
                    old_allocator,
                    va,
                    first,
                    j1,
                ));
                assert(old_self.walk_frames(old_mem, old_allocator, va).contains(second));
            } else {
                let t = pte_at(old_mem, root, j2).addr();
                assert(top == pte_at(old_mem, root, j2));
                assert(old_self.paths@[t] =~= seq![j2]);
                assert(old_mem.contains_page(t));
                assert(mem.word(t, j1) == old_self.walk_word(old_mem, old_allocator, va, t, j1));
                assert(old_self.walk_frames(old_mem, old_allocator, va).contains(first));
            }
        }
    }

    /// Tidy growth in two steps is tidy growth.
    pub proof fn lemma_tidy_trans(
        &self,
        mem: &PhysMemory,
        mid: &PageTable,
        mid_mem: &PhysMemory,
        old_self: &PageTable,
        old_mem: &PhysMemory,
    )
        requires
            old_self.wf(old_mem),
            mid.wf(mid_mem),
            self.root() == mid.root(),
            mid.root() == old_self.root(),
            old_self.tables().subset_of(mid.tables()),
            mid.tables().subset_of(self.tables()),
            self.tidy_from(mem, mid, mid_mem),
            mid.tidy_from(mid_mem, old_self, old_mem),
        ensures
            self.tidy_from(mem, old_self, old_mem),
    {
        mid.lemma_wf_tables(mid_mem);
        assert forall|t: u64, i: int|
            old_self.tables().contains(t) && 0 <= i < 512 && #[trigger] mem.word(t, i)
                != old_mem.word(t, i) implies !pte_at(old_mem, t, i).is_valid() && pte_at(
            mem,
            t,
            i,
        ).is_valid() by {
            assert(mid.tables().contains(t));
            if mid_mem.word(t, i) != old_mem.word(t, i) {
                if mem.word(t, i) != mid_mem.word(t, i) {
                }
            } else {
                assert(mem.word(t, i) != mid_mem.word(t, i));
                assert(pte_at(mid_mem, t, i) == pte_at(old_mem, t, i));
            }
        }
        assert forall|t: u64, i: int|
            self.tables().contains(t) && !old_self.tables().contains(t) && 0 <= i < 512 && !pte_at(
                mem,
                t,
                i,
            ).is_valid() implies #[trigger] mem.word(t, i) == 0 by {
            if mid.tables().contains(t) {
                if mem.word(t, i) != mid_mem.word(t, i) {
                } else {
                    assert(pte_at(mid_mem, t, i) == pte_at(mem, t, i));
                    assert(mid_mem.word(t, i) == 0);
                }
            }
        }
        assert forall|va: u64|
            old_self.missing_levels(old_mem, va) == 2 && #[trigger] self.missing_levels(mem, va)
                < 2 implies {
            let top = pte_at(mem, self.root(), vpn_index(va, 2) as int);
            &&& top == table_entry(top.addr())
            &&& self.tables().contains(top.addr())
            &&& !old_self.tables().contains(top.addr())
        } by {
            lemma_vpn_indexes(va);
            let j2 = vpn_index(va, 2) as int;
            let root = self.root();
            if mid.missing_levels(mid_mem, va) < 2 {
                assert(pte_at(mid_mem, root, j2).is_valid());
                if mem.word(root, j2) != mid_mem.word(root, j2) {
                }
                assert(pte_at(mem, root, j2) == pte_at(mid_mem, root, j2));
            }
        }
        assert forall|va: u64|
            old_self.missing_levels(old_mem, va) >= 1 && #[trigger] self.missing_levels(mem, va)
                == 0 implies {
            let top = pte_at(mem, self.root(), vpn_index(va, 2) as int);
            let middle = pte_at(mem, top.addr(), vpn_index(va, 1) as int);
            &&& middle == table_entry(middle.addr())
            &&& self.tables().contains(middle.addr())
            &&& !old_self.tables().contains(middle.addr())
        } by {
            lemma_vpn_indexes(va);
            let j2 = vpn_index(va, 2) as int;
            let j1 = vpn_index(va, 1) as int;
            let root = self.root();
            if mid.missing_levels(mid_mem, va) == 0 {
                let top = pte_at(mid_mem, root, j2);
                assert(top.is_valid());
                if mem.word(root, j2) != mid_mem.word(root, j2) {
                }
                assert(pte_at(mem, root, j2) == top);
                // The entry of the root was interior before, or was
                // written since: either way it is interior.
                if old_self.missing_levels(old_mem, va) == 2 {
                    top.lemma_target(0);
                    lemma_table_entry(top.addr());
                } else {
                    if mid_mem.word(root, j2) != old_mem.word(root, j2) {
                    }
                    assert(top == pte_at(old_mem, root, j2));
                }
                assert(top.is_interior());
                assert(mid.tables().contains(top.addr()));
                assert(pte_at(mid_mem, top.addr(), j1).is_valid());
                if mem.word(top.addr(), j1) != mid_mem.word(top.addr(), j1) {
                }
                assert(pte_at(mem, top.addr(), j1) == pte_at(mid_mem, top.addr(), j1));
            }
        }
    }

    /// Following the entry of the root and then the entry of the
    /// middle-level page on the way to `va` leaves memory as a walk does.
    proof fn lemma_walk_words(
        old_self: &PageTable,
        old_mem: &PhysMemory,
        old_allocator: &PageAllocator,
        mid_mem: &PhysMemory,
        mid_allocator: &PageAllocator,
        mem: &PhysMemory,
        va: u64,
        middle: u64,
    )
        requires
            old_self.inv(old_mem, old_allocator),
            mid_mem.same_range(old_mem),
            mem.same_range(old_mem),
            mid_allocator@ == (if pte_at(
                old_mem,
                old_self.root(),
                vpn_index(va, 2) as int,
            ).is_valid() {
                old_allocator@
            } else {
                old_allocator@.after_alloc()
            }),
            pte_at(old_mem, old_self.root(), vpn_index(va, 2) as int).is_interior() || (!pte_at(
                old_mem,
                old_self.root(),
                vpn_index(va, 2) as int,
            ).is_valid() && old_allocator@.available() >= 1),
            middle == (if pte_at(old_mem, old_self.root(), vpn_index(va, 2) as int).is_valid() {
                pte_at(old_mem, old_self.root(), vpn_index(va, 2) as int).addr()
            } else {
                Self::first_taken(old_allocator)
            }),
            forall|p: u64, i: int|
                old_mem.contains_page(p) && 0 <= i < 512 ==> #[trigger] mid_mem.word(p, i)
                    == step_word(
                    old_mem,
                    old_allocator,
                    old_self.root(),
                    vpn_index(va, 2) as int,
                    p,
                    i,
                ),
            forall|p: u64, i: int|
                old_mem.contains_page(p) && 0 <= i < 512 ==> #[trigger] mem.word(p, i) == step_word(
                    mid_mem,
                    mid_allocator,
                    middle,
                    vpn_index(va, 1) as int,
                    p,
                    i,
                ),
        ensures
            forall|p: u64, i: int|
                old_mem.contains_page(p) && 0 <= i < 512 ==> #[trigger] mem.word(p, i)
                    == old_self.walk_word(old_mem, old_allocator, va, p, i),
    {
        lemma_vpn_indexes(va);
        old_self.lemma_wf_tables(old_mem);
        old_allocator@.lemma_alloc();
        old_allocator@.after_alloc().lemma_alloc();
        let root = old_self.root();
        let i2 = vpn_index(va, 2) as int;
        let i1 = vpn_index(va, 1) as int;
        let e2 = pte_at(old_mem, root, i2);
        assert forall|p: u64, i: int| old_mem.contains_page(p) && 0 <= i < 512 implies #[trigger] mem.word(
            p,
            i,
        ) == old_self.walk_word(old_mem, old_allocator, va, p, i) by {
            assert(mid_mem.word(p, i) == step_word(old_mem, old_allocator, root, i2, p, i));
            assert(mem.word(p, i) == step_word(mid_mem, mid_allocator, middle, i1, p, i));
            if e2.is_valid() {
                // The middle-level page was there.
                assert(old_self.paths@.contains_key(middle));
                assert(mid_mem.word(middle, i1) == old_mem.word(middle, i1));
                assert(pte_at(mid_mem, middle, i1) == pte_at(old_mem, middle, i1));
                if !pte_at(old_mem, middle, i1).is_valid() && old_allocator@.available() >= 1 {
                    let f0 = Self::first_taken(old_allocator);
                    assert(!old_allocator@.issued.contains(f0));
                    assert(middle != f0);
                }
            } else {
                let f1 = Self::first_taken(old_allocator);
                assert(!old_allocator@.issued.contains(f1));
                assert(root != f1);
                assert(old_mem.contains_page(f1));
                assert(mid_mem.word(f1, i1) == 0);
                assert(!pte_at(mid_mem, f1, i1).is_valid());
                if old_allocator@.available() >= 2 {
                    let f0 = Self::second_taken(old_allocator);
                    assert(old_allocator@.after_alloc().issued.contains(f1));
                    assert(old_allocator@.after_alloc().issued.contains(root));
                    assert(f0 != f1);
                    assert(f0 != root);
                }
            }
        }
    }

    /// Finds the leaf-level entry for `va`, allocating the page-table
    /// pages that are missing on the way. `None` when a leaf stands
    /// above the leaf level on the way, and then nothing changes, or when
    /// the allocator runs out of frames. No mapping changes. Each page
    /// taken is zeroed, and the entry above it is made to refer to it
    /// with the valid flag alone; entries that were valid stay as they
    /// were.
    #[verifier::rlimit(50)]
    pub fn walk_alloc(
        &mut self,
        mem: &mut PhysMemory,
        allocator: &mut PageAllocator,
        va: Addr,
    ) -> (r: Option<PteSlot>)
        requires
            old(self).inv(old(mem), old(allocator)),
            va.bits <= MAX_VIRT_ADDR,
        ensures
            final(self).inv(final(mem), final(allocator)),
            final(self).grown_from(final(mem), final(allocator), old(self), old(mem), old(allocator)),
            final(allocator)@ == old(allocator)@.after_allocs(
                min_int(old(self).missing_levels(old(mem), va.bits), old(allocator)@.available())
                    as nat,
            ),
            forall|va2: u64| #[trigger]
                final(self).mapping(final(mem), va2) == old(self).mapping(old(mem), va2),
            r.is_some() <==> !old(self).leaf_above(old(mem), va.bits) && old(self).missing_levels(
                old(mem),
                va.bits,
            ) <= old(allocator)@.available(),
            r.is_some() ==> r == final(self).slot(final(mem), va.bits),
            r.is_some() ==> r.unwrap().table.addr == old(self).leaf_page(
                old(mem),
                old(allocator),
                va.bits,
            ),
            r.is_none() && !old(self).leaf_above(old(mem), va.bits)
                ==> final(allocator)@.available() == 0,
            final(self).shape(final(mem)) == old(self).shape(old(mem)).grown(
                vpn_index(va.bits, 2) as int,
                vpn_index(va.bits, 1) as int,
                min_int(old(self).missing_levels(old(mem), va.bits), old(allocator)@.available()),
            ),
            final(self).tables() == old(self).tables().union(
                old(self).walk_frames(old(mem), old(allocator), va.bits),
            ),
            forall|t: u64| #[trigger]
                old(self).walk_frames(old(mem), old(allocator), va.bits).contains(t) ==> old(
                    mem,
                ).contains_page(t),
            old(self).walk_frames(old(mem), old(allocator), va.bits).disjoint(old(self).tables()),
            forall|p: u64, i: int|
                old(mem).contains_page(p) && 0 <= i < 512 ==> #[trigger] final(mem).word(p, i)
                    == old(self).walk_word(old(mem), old(allocator), va.bits, p, i),
            final(self).way_after(
                final(mem),
                old(self),
                old(mem),
                old(allocator),
                va.bits,
                old(self).leaf_before(old(mem), va.bits),
            ),
            forall|t: u64, i: int|
                old(self).tables().contains(t) && 0 <= i < 512 && pte_at(old(mem), t, i).is_valid()
                    ==> #[trigger] final(mem).word(t, i) == old(mem).word(t, i),
    {
        proof {
            lemma_vpn_indexes(va.bits);
            reveal_with_fuel(AllocatorState::after_allocs, 3);
            if allocator@.available() >= 1 {
                lemma_table_entry(Self::first_taken(allocator));
            }
            if allocator@.available() >= 2 {
                lemma_table_entry(Self::second_taken(allocator));
            }
            allocator@.lemma_alloc();
            allocator@.after_alloc().lemma_alloc();
            if !self.leaf_above(mem, va.bits) {
                self.lemma_shape_missing(mem, va.bits);
            }
            self.lemma_wf_tables(mem);
        }
        let indexes = va.get_indexes();
        let root = Page { addr: self.root.bits };
        let t1 = match self.descend(mem, allocator, root, indexes[2] as usize, Ghost(0)) {
            Some(t) => t,
            None => {
                assert(self.frames() =~= old(self).frames().union(self.tables()));
                assert(allocator@.issued =~= old(allocator)@.issued.union(self.tables()));
                assert(self.tables() =~= old(self).tables());
                return None;
            },
        };
        let ghost mid_self = *self;
        let ghost mid_mem = *mem;
        let ghost mid_allocator = *allocator;
        let ghost mid_alloc = allocator@;
        proof {
            mid_alloc.lemma_alloc();
            mid_self.lemma_wf_tables(&mid_mem);
        }
        assert(self.paths@.contains_key(t1.addr) && self.paths@[t1.addr].len() == 1);
        let t0 = match self.descend(
            mem,
            allocator,
            t1,
            indexes[1] as usize,
            Ghost(indexes[2] as int),
        ) {
            Some(t) => t,
            None => {
                assert(self.frames() =~= old(self).frames().union(self.tables()));
                assert(allocator@.issued =~= old(allocator)@.issued.union(self.tables()));
                assert(self.tables() =~= mid_self.tables());
                assert(mid_self.tables() =~= old(self).tables().union(
                    old(self).walk_frames(old(mem), old(allocator), va.bits),
                ));
                proof {
                    Self::lemma_walk_words(
                        old(self),
                        old(mem),
                        old(allocator),
                        &mid_mem,
                        &mid_allocator,
                        mem,
                        va.bits,
                        t1.addr,
                    );
                }
                return None;
            },
        };
        proof {
            assert(self.frames() =~= old(self).frames().union(self.tables()));
            assert(allocator@.issued =~= old(allocator)@.issued.union(self.tables()));
            assert(pte_at(mem, self.root.bits, indexes[2] as int) == pte_at(
                &mid_mem,
                self.root.bits,
                indexes[2] as int,
            ));
            assert(self.tables() =~= old(self).tables().union(
                old(self).walk_frames(old(mem), old(allocator), va.bits),
            ));
            Self::lemma_walk_words(
                old(self),
                old(mem),
                old(allocator),
                &mid_mem,
                &mid_allocator,
                mem,
                va.bits,
                t1.addr,
            );
        }
        Some(PteSlot { table: t0, index: indexes[0] as usize })
    }

    /// Whether `va` is mapped.
    pub fn is_mapped(&self, mem: &PhysMemory, va: Addr) -> (r: bool)
        requires
            self.wf(mem),
            va.bits <= MAX_VIRT_ADDR,
        ensures
            r == self.mapping(mem, va.bits).is_some(),
    {
        self.lookup(mem, va).is_some()
    }

    /// What `map` asks of its caller: the table is in order, the
    /// addresses lie in the Sv39 ranges, no leaf stands above the leaf
    /// level on the way to the entry for `va`, and the page of `va` is
    /// not mapped.
    pub open spec fn may_map(
        &self,
        mem: &PhysMemory,
        allocator: &PageAllocator,
        va: u64,
        pa: u64,
    ) -> bool {
        &&& self.inv(mem, allocator)
        &&& va <= MAX_VIRT_ADDR
        &&& pa <= MAX_PHYS_ADDR
        &&& !self.leaf_above(mem, va)
        &&& self.mapping(mem, va).is_none()
    }

    /// A mapped page cannot be mapped a second time: while the
    /// leaf-level entry for the page of `va` is valid, whatever it maps
    /// to, no address `va2` of that page meets what `map` asks of its
    /// caller, whatever it is to be mapped to, so that no call of `map`
    /// overwrites the entry.
    pub proof fn lemma_no_second_map(
        &self,
        mem: &PhysMemory,
        allocator: &PageAllocator,
        va: u64,
        va2: u64,
        pa2: u64,
    )
        requires
            self.mapping(mem, va).is_some(),
            vpn(va2) == vpn(va),
        ensures
            !self.may_map(mem, allocator, va2, pa2),
    {
        self.lemma_mapping_by_vpn(mem, va2, va);
    }

    /// Maps the page of `va` to the page of `pa` with `flags` and the
    /// valid flag. The page must not be mapped yet; after success it is
    /// mapped, so that mapping it a second time is not allowed. Fails,
    /// changing no mapping, when the allocator runs out of frames for
    /// page-table pages. The page-table pages taken on the way are zero
    /// but for the entries on the way, and these hold the valid flag
    /// alone.
    pub fn map(
        &mut self,
        mem: &mut PhysMemory,
        allocator: &mut PageAllocator,
        va: Addr,
        pa: Addr,
        flags: PTEFlags,
    ) -> (r: Result<(), MapError>)
        requires
            old(self).may_map(old(mem), old(allocator), va.bits, pa.bits),
        ensures
            final(self).inv(final(mem), final(allocator)),
            final(self).grown_from(final(mem), final(allocator), old(self), old(mem), old(allocator)),
            final(allocator)@ == old(allocator)@.after_allocs(
                min_int(old(self).missing_levels(old(mem), va.bits), old(allocator)@.available())
                    as nat,
            ),
            r.is_ok() <==> old(self).missing_levels(old(mem), va.bits) <= old(
                allocator,
            )@.available(),
            r.is_err() ==> final(allocator)@.available() == 0,
            final(self).shape(final(mem)) == old(self).shape(old(mem)).grown(
                vpn_index(va.bits, 2) as int,
                vpn_index(va.bits, 1) as int,
                min_int(old(self).missing_levels(old(mem), va.bits), old(allocator)@.available()),
            ),
            r.is_ok() ==> final(self).mapping(final(mem), va.bits).is_some(),
            forall|va2: u64| #[trigger]
                final(self).mapping(final(mem), va2) == if r.is_ok() && vpn(va2) == vpn(va.bits) {
                    Some(
                        PageTableEntry::spec_new(
                            pa.bits,
                            flags.spec_union(PTEFlags { bits: PTE_V }),
                        ),
                    )
                } else {
                    old(self).mapping(old(mem), va2)
                },
            final(self).tables() == old(self).tables().union(
                old(self).walk_frames(old(mem), old(allocator), va.bits),
            ),
            forall|t: u64| #[trigger]
                old(self).walk_frames(old(mem), old(allocator), va.bits).contains(t) ==> old(
                    mem,
                ).contains_page(t),
            old(self).walk_frames(old(mem), old(allocator), va.bits).disjoint(old(self).tables()),
            forall|p: u64, i: int|
                old(mem).contains_page(p) && 0 <= i < 512 ==> #[trigger] final(mem).word(p, i)
                    == old(self).map_word(
                    old(mem),
                    old(allocator),
                    va.bits,
                    PageTableEntry::spec_new(pa.bits, flags.spec_union(PTEFlags { bits: PTE_V })),
                    p,
                    i,
                ),
            final(self).way_after(
                final(mem),
                old(self),
                old(mem),
                old(allocator),
                va.bits,
                PageTableEntry::spec_new(pa.bits, flags.spec_union(PTEFlags { bits: PTE_V })),
            ),
            forall|t: u64, i: int|
                old(self).tables().contains(t) && 0 <= i < 512 && pte_at(old(mem), t, i).is_valid()
                    ==> #[trigger] final(mem).word(t, i) == old(mem).word(t, i),
            final(self).tidy_from(final(mem), old(self), old(mem)),
    {
        let ghost entry = PageTableEntry::spec_new(
            pa.bits,
            flags.spec_union(PTEFlags { bits: PTE_V }),
        );
        proof {
            let fb = flags.bits;
            assert((fb | 1u8) % 2 == 1) by (bit_vector);
            PageTableEntry::lemma_new(pa.bits, flags.spec_union(PTEFlags { bits: PTE_V }));
            lemma_vpn_indexes(va.bits);
            self.lemma_wf_tables(mem);
        }
        let slot = match self.walk_alloc(mem, allocator, va) {
            Some(slot) => slot,
            None => {
                proof {
                    Self::lemma_map_tidy(
                        old(self),
                        old(mem),
                        old(allocator),
                        &*self,
                        mem,
                        va.bits,
                        entry,
                    );
                }
                return Err(MapError::OutOfFrames);
            },
        };
        let ghost mid_mem = *mem;
        let full = flags.union(PTEFlags::V());
        let pte = PageTableEntry::new(pa, full);
        proof {
            let fb = flags.bits;
            assert((fb | 1u8) % 2 == 1) by (bit_vector);
            PageTableEntry::lemma_new(pa.bits, full);
            self.lemma_slot_in_tables(mem, va.bits);
        }
        mem.write(slot.table, slot.index, pte.bits);
        proof {
            self.lemma_leaf_write(&mid_mem, mem, slot, pte, va.bits);
            let root = self.root.bits;
            let top = pte_at(&mid_mem, root, vpn_index(va.bits, 2) as int);
            assert(self.paths@[slot.table.addr].len() == 2);
            assert(self.paths@[root].len() == 0);
            assert(self.paths@[top.addr()] =~= seq![vpn_index(va.bits, 2) as int]);
            assert(pte_at(mem, root, vpn_index(va.bits, 2) as int) == top);
            assert(pte_at(mem, top.addr(), vpn_index(va.bits, 1) as int) == pte_at(
                &mid_mem,
                top.addr(),
                vpn_index(va.bits, 1) as int,
            ));
            assert forall|t: u64, i: int|
                old(self).tables().contains(t) && 0 <= i < 512 && pte_at(
                    old(mem),
                    t,
                    i,
                ).is_valid() implies #[trigger] mem.word(t, i) == old(mem).word(t, i) by {
                assert(mid_mem.word(t, i) == old(mem).word(t, i));
                if t == slot.table.addr && i == slot.index {
                    // The entry written was not valid: the page was not mapped.
                    assert(old(self).missing_levels(old(mem), va.bits) == 0);
                    assert(old(self).slot(old(mem), va.bits).is_some());
                }
            }
            Self::lemma_map_tidy(old(self), old(mem), old(allocator), &*self, mem, va.bits, entry);
        }
        Ok(())
    }
}

/// The number of pages that `len` bytes take up, a final partial page
/// counted as one.
pub open spec fn pages_for(len: u64) -> int {
    if len % 4096 == 0 {
        len as int / 4096
    } else {
        len as int / 4096 + 1
    }
}

/// A bound on the page-table pages that mapping `pages` pages from the
/// page of `va` on can take: two for the first page, and one for every
/// boundary of a leaf-level or a middle-level page crossed after it.
pub open spec fn tables_bound(va: u64, pages: int) -> int {
    if pages <= 0 {
        0
    } else {
        let first = vpn(va);
        let last = first + pages - 1;
        2 + (last / 512 - first / 512) + (last / 0x4_0000 - first / 0x4_0000)
    }
}

impl PageTable {
    /// A page next to a mapped page in the same leaf-level page misses
    /// no page-table page, and one in the same middle-level page misses
    /// at most one.
    proof fn lemma_missing_after(&self, mem: &PhysMemory, prev: u64, va: u64)
        requires
            self.wf(mem),
            self.mapping(mem, prev).is_some(),
            vpn(va) == vpn(prev) + 1,
        ensures
            self.missing_levels(mem, va) <= (if vpn(va) % 512 == 0 {
                1int
            } else {
                0int
            }) + (if vpn(va) % 0x4_0000 == 0 {
                1int
            } else {
                0int
            }),
    {
        lemma_vpn_indexes(va);
        lemma_vpn_indexes(prev);
    }

    /// The page-table pages that page `k` of a range misses, when the
    /// pages before it are mapped, fit in the growth of the bound.
    proof fn lemma_step_cost(&self, mem: &PhysMemory, first: u64, va: u64, k: int, n: int)
        requires
            self.wf(mem),
            0 <= k < n,
            vpn(va) == vpn(first) + k,
            k > 0 ==> va >= 4096 && self.mapping(mem, (va - 4096) as u64).is_some() && vpn(
                (va - 4096) as u64,
            ) == vpn(va) - 1,
        ensures
            self.missing_levels(mem, va) <= tables_bound(first, k + 1) - tables_bound(first, k),
            tables_bound(first, k + 1) <= tables_bound(first, n),
            0 <= tables_bound(first, k),
    {
        let v = vpn(first);
        if k > 0 {
            self.lemma_missing_after(mem, (va - 4096) as u64, va);
            assert((v + k) / 512 - (v + k - 1) / 512 == if (v + k) % 512 == 0 {
                1int
            } else {
                0int
            });
            assert((v + k) / 0x4_0000 - (v + k - 1) / 0x4_0000 == if (v + k) % 0x4_0000 == 0 {
                1int
            } else {
                0int
            });
        }
        assert((v + k) / 512 <= (v + n - 1) / 512);
        assert((v + k) / 0x4_0000 <= (v + n - 1) / 0x4_0000);
        assert(v / 512 <= (v + k) / 512);
        assert(v / 0x4_0000 <= (v + k) / 0x4_0000);
    }

    /// The mappings of `self` are those of `old_self`, but for the `k`
    /// pages from the page of `va` on, which map in order to the pages
    /// from the page of `pa` on, with `flags` and the valid flag.
    pub open spec fn maps_range_over(
        &self,
        mem: &PhysMemory,
        old_self: &PageTable,
        old_mem: &PhysMemory,
        va: u64,
        pa: u64,
        k: int,
        flags: PTEFlags,
    ) -> bool {
        forall|va2: u64| #[trigger]
            self.mapping(mem, va2) == if vpn(va) <= vpn(va2) < vpn(va) + k {
                Some(
                    PageTableEntry::spec_new(
                        (page_base(pa) + (vpn(va2) - vpn(va)) * 4096) as u64,
                        flags.spec_union(PTEFlags { bits: PTE_V }),
                    ),
                )
            } else {
                old_self.mapping(old_mem, va2)
            }
    }

    /// Growth in two steps is growth.
    pub proof fn lemma_grown_trans(
        &self,
        mem: &PhysMemory,
        allocator: &PageAllocator,
        mid_self: &PageTable,
        mid_mem: &PhysMemory,
        mid_allocator: &PageAllocator,
        old_self: &PageTable,
        old_mem: &PhysMemory,
        old_allocator: &PageAllocator,
    )
        requires
            self.grown_from(mem, allocator, mid_self, mid_mem, mid_allocator),
            mid_self.grown_from(mid_mem, mid_allocator, old_self, old_mem, old_allocator),
        ensures
            self.grown_from(mem, allocator, old_self, old_mem, old_allocator),
    {
        assert(self.frames() =~= old_self.frames().union(self.tables()));
        assert(allocator@.issued =~= old_allocator@.issued.union(self.tables()));
        assert forall|p: u64, i: int|
            old_mem.contains_page(p) && !self.tables().contains(p) && 0 <= i < 512 implies #[trigger] mem.word(
            p,
            i,
        ) == old_mem.word(p, i) by {
            assert(mid_mem.contains_page(p));
            assert(!mid_self.tables().contains(p));
            assert(mem.word(p, i) == mid_mem.word(p, i));
            assert(mid_mem.word(p, i) == old_mem.word(p, i));
        }
    }

    /// The state of a table while a range is being mapped, after `k`
    /// pages for which `count` page-table pages were allocated: it has
    /// grown from the state before, the first `k` pages of the range are
    /// mapped, the shape is that after the ways to their entries were
    /// completed at the cost of `count` pages, and that many pages were
    /// allocated in a row.
    pub open spec fn ranged(
        &self,
        mem: &PhysMemory,
        allocator: &PageAllocator,
        old_self: &PageTable,
        old_mem: &PhysMemory,
        old_allocator: &PageAllocator,
        va: u64,
        pa: u64,
        k: int,
        flags: PTEFlags,
        count: nat,
    ) -> bool {
        &&& self.inv(mem, allocator)
        &&& self.grown_from(mem, allocator, old_self, old_mem, old_allocator)
        &&& count <= tables_bound(va, k)
        &&& count == old_self.shape(old_mem).cost(page_base(va), k)
        &&& count <= old_allocator@.available()
        &&& allocator@.available() == old_allocator@.available() - count
        &&& self.shape(mem) == old_self.shape(old_mem).after_pages(page_base(va), k)
        &&& allocator@ == old_allocator@.after_allocs(count)
        &&& self.maps_range_over(mem, old_self, old_mem, va, pa, k, flags)
        &&& self.tidy_from(mem, old_self, old_mem)
    }

    /// Mapping page `k` of a range takes the state after `k` pages to
    /// the state after `k + 1` pages, or fails for want of frames, and
    /// then the whole range costs more than was available.
    proof fn lemma_ranged_step(
        &self,
        mem: &PhysMemory,
        allocator: &PageAllocator,
        mid: &PageTable,
        mid_mem: &PhysMemory,
        mid_allocator: &PageAllocator,
        old_self: &PageTable,
        old_mem: &PhysMemory,
        old_allocator: &PageAllocator,
        va: u64,
        pa: u64,
        k: int,
        n: int,
        flags: PTEFlags,
        count: nat,
        ok: bool,
    )
        requires
            old_allocator@.wf(),
            old_self.wf(old_mem),
            0 <= k < n,
            page_base(va) + n * 4096 <= MAX_VIRT_ADDR + 1,
            page_base(pa) + n * 4096 <= MAX_PHYS_ADDR + 1,
            mid.ranged(mid_mem, mid_allocator, old_self, old_mem, old_allocator, va, pa, k, flags, count),
            !mid.leaf_above(mid_mem, (page_base(va) + k * 4096) as u64),
            self.inv(mem, allocator),
            self.grown_from(mem, allocator, mid, mid_mem, mid_allocator),
            self.tidy_from(mem, mid, mid_mem),
            allocator@ == mid_allocator@.after_allocs(
                min_int(
                    mid.missing_levels(mid_mem, (page_base(va) + k * 4096) as u64),
                    mid_allocator@.available(),
                ) as nat,
            ),
            ok <==> mid.missing_levels(mid_mem, (page_base(va) + k * 4096) as u64)
                <= mid_allocator@.available(),
            self.shape(mem) == mid.shape(mid_mem).grown(
                vpn_index((page_base(va) + k * 4096) as u64, 2) as int,
                vpn_index((page_base(va) + k * 4096) as u64, 1) as int,
                min_int(
                    mid.missing_levels(mid_mem, (page_base(va) + k * 4096) as u64),
                    mid_allocator@.available(),
                ),
            ),
            forall|va2: u64| #[trigger]
                self.mapping(mem, va2) == if ok && vpn(va2) == vpn(
                    (page_base(va) + k * 4096) as u64,
                ) {
                    Some(
                        PageTableEntry::spec_new(
                            (page_base(pa) + k * 4096) as u64,
                            flags.spec_union(PTEFlags { bits: PTE_V }),
                        ),
                    )
                } else {
                    mid.mapping(mid_mem, va2)
                },
        ensures
            ok ==> self.ranged(
                mem,
                allocator,
                old_self,
                old_mem,
                old_allocator,
                va,
                pa,
                k + 1,
                flags,
                count + min_int(
                    mid.missing_levels(mid_mem, (page_base(va) + k * 4096) as u64),
                    mid_allocator@.available(),
                ) as nat,
            ),
            !ok ==> {
                &&& self.grown_from(mem, allocator, old_self, old_mem, old_allocator)
                &&& self.tidy_from(mem, old_self, old_mem)
                &&& self.maps_range_over(mem, old_self, old_mem, va, pa, k, flags)
                &&& old_self.shape(old_mem).cost(page_base(va), n) > old_allocator@.available()
                &&& allocator@ == old_allocator@.after_allocs(old_allocator@.available() as nat)
                &&& old_allocator@.available() < tables_bound(va, n)
            },
            old_self.shape(old_mem).cost(page_base(va), n) >= 0,
    {
        let a = (page_base(va) + k * 4096) as u64;
        let first = page_base(va);
        let shape0 = old_self.shape(old_mem);
        let m = min_int(mid.missing_levels(mid_mem, a), mid_allocator@.available()) as nat;
        lemma_vpn_indexes(va);
        lemma_vpn_indexes(first);
        lemma_vpn_indexes(a);
        assert(vpn(a) == vpn(va) + k);
        if k > 0 {
            let prev = (a - 4096) as u64;
            lemma_vpn_indexes(prev);
            assert(vpn(prev) == vpn(va) + k - 1);
            assert(mid.mapping(mid_mem, prev).is_some());
        }
        mid.lemma_step_cost(mid_mem, va, a, k, n);
        mid.lemma_shape_missing(mid_mem, a);
        self.lemma_tidy_trans(mem, mid, mid_mem, old_self, old_mem);
        shape0.lemma_cost_grows(first, k + 1, n);
        shape0.lemma_cost_grows(first, 0, n);
        self.lemma_grown_trans(
            mem,
            allocator,
            mid,
            mid_mem,
            mid_allocator,
            old_self,
            old_mem,
            old_allocator,
        );
        old_allocator@.lemma_allocs_add(count, m);
        mid_allocator@.lemma_allocs(m);
        assert(shape0.cost(first, k + 1) == count + mid.missing_levels(mid_mem, a));
        if ok {
            assert(self.shape(mem) == shape0.after_pages(first, k + 1)) by {
                let sh = mid.shape(mid_mem);
                let i2 = vpn_index(a, 2) as int;
                let i1 = vpn_index(a, 1) as int;
                assert(sh.grown(i2, i1, m as int).middle =~= sh.grown(i2, i1, 2).middle);
                assert(sh.grown(i2, i1, m as int).leaf =~= sh.grown(i2, i1, 2).leaf);
            }
            assert forall|va2: u64| #[trigger]
                self.mapping(mem, va2) == if vpn(va) <= vpn(va2) < vpn(va) + (k + 1) {
                    Some(
                        PageTableEntry::spec_new(
                            (page_base(pa) + (vpn(va2) - vpn(va)) * 4096) as u64,
                            flags.spec_union(PTEFlags { bits: PTE_V }),
                        ),
                    )
                } else {
                    old_self.mapping(old_mem, va2)
                } by {
                assert(mid.mapping(mid_mem, va2) == if vpn(va) <= vpn(va2) < vpn(va) + k {
                    Some(
                        PageTableEntry::spec_new(
                            (page_base(pa) + (vpn(va2) - vpn(va)) * 4096) as u64,
                            flags.spec_union(PTEFlags { bits: PTE_V }),
                        ),
                    )
                } else {
                    old_self.mapping(old_mem, va2)
                });
            }
        } else {
            assert forall|va2: u64| #[trigger]
                self.mapping(mem, va2) == if vpn(va) <= vpn(va2) < vpn(va) + k {
                    Some(
                        PageTableEntry::spec_new(
                            (page_base(pa) + (vpn(va2) - vpn(va)) * 4096) as u64,
                            flags.spec_union(PTEFlags { bits: PTE_V }),
                        ),
                    )
                } else {
                    old_self.mapping(old_mem, va2)
                } by {
                assert(self.mapping(mem, va2) == mid.mapping(mid_mem, va2));
            }
        }
    }

    /// Maps the pages that `len` bytes take up, from the page of `va`
    /// on, to consecutive pages from the page of `pa` on. None of them
    /// may be mapped yet, nor have a leaf above the leaf level on its
    /// way. Stops at the first page for which the allocator has no frame
    /// left; the pages before it stay mapped.
    pub fn map_range(
        &mut self,
        mem: &mut PhysMemory,
        allocator: &mut PageAllocator,
        va: Addr,
        pa: Addr,
        len: u64,
        flags: PTEFlags,
    ) -> (r: Result<(), MapError>)
        requires
            old(self).inv(old(mem), old(allocator)),
            page_base(va.bits) + pages_for(len) * 4096 <= MAX_VIRT_ADDR + 1,
            page_base(pa.bits) + pages_for(len) * 4096 <= MAX_PHYS_ADDR + 1,
            forall|va2: u64|
                vpn(va.bits) <= vpn(va2) < vpn(va.bits) + pages_for(len) ==> (#[trigger] old(
                    self,
                ).mapping(old(mem), va2)).is_none(),
            forall|va2: u64|
                vpn(va.bits) <= vpn(va2) < vpn(va.bits) + pages_for(len) ==> !#[trigger] old(
                    self,
                ).leaf_above(old(mem), va2),
        ensures
            final(self).inv(final(mem), final(allocator)),
            final(self).grown_from(final(mem), final(allocator), old(self), old(mem), old(allocator)),
            old(allocator)@.available() >= tables_bound(va.bits, pages_for(len)) ==> r.is_ok(),
            r.is_ok() <==> old(self).shape(old(mem)).cost(page_base(va.bits), pages_for(len))
                <= old(allocator)@.available(),
            0 <= old(self).shape(old(mem)).cost(page_base(va.bits), pages_for(len)),
            r.is_ok() ==> old(self).shape(old(mem)).cost(page_base(va.bits), pages_for(len))
                <= tables_bound(va.bits, pages_for(len)),
            final(allocator)@ == old(allocator)@.after_allocs(
                min_int(
                    old(self).shape(old(mem)).cost(page_base(va.bits), pages_for(len)),
                    old(allocator)@.available(),
                ) as nat,
            ),
            r.is_ok() ==> final(self).shape(final(mem)) == old(self).shape(old(mem)).after_pages(
                page_base(va.bits),
                pages_for(len),
            ),
            r.is_err() ==> final(allocator)@.available() == 0,
            final(self).tidy_from(final(mem), old(self), old(mem)),
            r.is_ok() ==> final(self).maps_range_over(
                final(mem),
                old(self),
                old(mem),
                va.bits,
                pa.bits,
                pages_for(len),
                flags,
            ),
            r.is_err() ==> exists|k: int|
                0 <= k < pages_for(len) && #[trigger] final(self).maps_range_over(
                    final(mem),
                    old(self),
                    old(mem),
                    va.bits,
                    pa.bits,
                    k,
                    flags,
                ),
    {
        let va_lo: u64 = va.align_down().bits;
        let pa_lo: u64 = pa.align_down().bits;
        let n: u64 = if len % 4096 == 0 {
            len / 4096
        } else {
            len / 4096 + 1
        };
        let mut k: u64 = 0;
        let ghost mut count: nat = 0;
        proof {
            self.lemma_wf_tables(mem);
            assert(self.frames() =~= self.frames().union(self.tables()));
            assert(allocator@.issued =~= allocator@.issued.union(self.tables()));
            old(self).shape(old(mem)).lemma_cost_grows(va_lo, 0, n as int);
        }
        while k < n
            invariant
                k <= n,
                n == pages_for(len),
                va_lo == page_base(va.bits),
                pa_lo == page_base(pa.bits),
                va_lo + n * 4096 <= MAX_VIRT_ADDR + 1,
                pa_lo + n * 4096 <= MAX_PHYS_ADDR + 1,
                old(allocator)@.wf(),
                old(self).wf(old(mem)),
                self.ranged(
                    mem,
                    allocator,
                    old(self),
                    old(mem),
                    old(allocator),
                    va.bits,
                    pa.bits,
                    k as int,
                    flags,
                    count,
                ),
                old(self).shape(old(mem)).cost(va_lo, n as int) >= 0,
                forall|va2: u64|
                    vpn(va.bits) <= vpn(va2) < vpn(va.bits) + n ==> (#[trigger] old(self).mapping(
                        old(mem),
                        va2,
                    )).is_none(),
                forall|va2: u64|
                    vpn(va.bits) <= vpn(va2) < vpn(va.bits) + n ==> !#[trigger] old(self).leaf_above(
                        old(mem),
                        va2,
                    ),
            decreases n - k,
        {
            let a = Addr::new(va_lo + k * 4096);
            let p = Addr::new(pa_lo + k * 4096);
            let ghost mid_self = *self;
            let ghost mid_mem = *mem;
            let ghost mid_allocator = *allocator;
            let ghost m = min_int(self.missing_levels(mem, a.bits), allocator@.available()) as nat;
            proof {
                lemma_vpn_indexes(va.bits);
                lemma_vpn_indexes(a.bits);
                assert(vpn(a.bits) == vpn(va.bits) + k);
                assert(self.mapping(mem, a.bits) == old(self).mapping(old(mem), a.bits));
                assert(old(self).mapping(old(mem), a.bits).is_none());
                assert(self.leaf_above(mem, a.bits) == old(self).leaf_above(old(mem), a.bits));
                assert(!old(self).leaf_above(old(mem), a.bits));
            }
            let res = self.map(mem, allocator, a, p, flags);
            proof {
                self.lemma_ranged_step(
                    mem,
                    allocator,
                    &mid_self,
                    &mid_mem,
                    &mid_allocator,
                    old(self),
                    old(mem),
                    old(allocator),
                    va.bits,
                    pa.bits,
                    k as int,
                    n as int,
                    flags,
                    count,
                    res.is_ok(),
                );
                count = count + m;
            }
            match res {
                Err(e) => {
                    return Err(e);
                },
                Ok(()) => {},
            }
            k = k + 1;
        }
        Ok(())
    }
}

/// One line of a printed page table: a valid entry, the level of the
/// page-table page that holds it (2 for the root) and its index there.
#[derive(Clone, Copy, PartialEq, Eq, Structural, Debug)]
pub struct PageTableLine {
    pub level: usize,
    pub index: usize,
    pub entry: PageTableEntry,
}

/// The lines for the entries `lo` up to, not including, `hi` of the
/// page-table page at `table` of the given level: for every valid entry
/// its line, followed, where the entry is interior and stands above the
/// leaf level, by the lines of the page that the entry refers to.
pub open spec fn table_lines(mem: &PhysMemory, table: u64, level: int, lo: int, hi: int) -> Seq<
    PageTableLine,
>
    decreases level, hi - lo, 0int,
{
    if level < 0 || lo >= hi {
        Seq::empty()
    } else {
        table_lines(mem, table, level, lo, hi - 1) + entry_lines(mem, table, level, hi - 1)
    }
}

/// The lines for entry `index` of the page-table page at `table`.
pub open spec fn entry_lines(mem: &PhysMemory, table: u64, level: int, index: int) -> Seq<
    PageTableLine,
>
    decreases level, 0int, 1int,
{
    let e = pte_at(mem, table, index);
    if level < 0 || !e.is_valid() {
        Seq::empty()
    } else {
        let line = PageTableLine { level: level as usize, index: index as usize, entry: e };
        if level > 0 && e.is_interior() {
            seq![line] + table_lines(mem, e.addr(), level - 1, 0, 512)
        } else {
            seq![line]
        }
    }
}

impl PageTable {
    /// Appends to `out` the lines of the leaf-level page at `table`.
    fn print_leaf_table(&self, mem: &PhysMemory, table: Page, out: &mut Vec<PageTableLine>)
        requires
            mem.wf(),
            mem.contains_page(table.addr),
        ensures
            final(out)@ == old(out)@ + table_lines(mem, table.addr, 0, 0, 512),
    {
        let mut i: usize = 0;
        proof {
            assert(out@ =~= old(out)@ + table_lines(mem, table.addr, 0, 0, 0));
        }
        while i < 512
            invariant
                i <= 512,
                mem.wf(),
                mem.contains_page(table.addr),
                out@ == old(out)@ + table_lines(mem, table.addr, 0, 0, i as int),
            decreases 512 - i,
        {
            let ghost before = out@;
            let entry = PageTableEntry { bits: mem.read(table, i) };
            if entry.valid() {
                out.push(PageTableLine { level: 0, index: i, entry });
            }
            proof {
                assert(entry == pte_at(mem, table.addr, i as int));
                assert(table_lines(mem, table.addr, 0, 0, i + 1) == table_lines(
                    mem,
                    table.addr,
                    0,
                    0,
                    i as int,
                ) + entry_lines(mem, table.addr, 0, i as int));
                assert(out@ =~= before + entry_lines(mem, table.addr, 0, i as int));
                assert(out@ =~= old(out)@ + table_lines(mem, table.addr, 0, 0, i + 1));
            }
            i = i + 1;
        }
    }

    /// Appends to `out` the lines of the middle-level page at `table`.
    fn print_middle_table(&self, mem: &PhysMemory, table: Page, out: &mut Vec<PageTableLine>)
        requires
            self.wf(mem),
            self.paths@.contains_key(table.addr),
            self.paths@[table.addr].len() == 1,
        ensures
            final(out)@ == old(out)@ + table_lines(mem, table.addr, 1, 0, 512),
    {
        let mut i: usize = 0;
        proof {
            assert(out@ =~= old(out)@ + table_lines(mem, table.addr, 1, 0, 0));
        }
        while i < 512
            invariant
                i <= 512,
                self.wf(mem),
                self.paths@.contains_key(table.addr),
                self.paths@[table.addr].len() == 1,
                out@ == old(out)@ + table_lines(mem, table.addr, 1, 0, i as int),
            decreases 512 - i,
        {
            let ghost before = out@;
            let entry = PageTableEntry { bits: mem.read(table, i) };
            if entry.valid() {
                assert(entry == pte_at(mem, table.addr, i as int));
                out.push(PageTableLine { level: 1, index: i, entry });
                if !(entry.readable() || entry.writable() || entry.executable()) {
                    self.print_leaf_table(mem, Page { addr: entry.get_addr_bits() }, out);
                }
            }
            proof {
                assert(table_lines(mem, table.addr, 1, 0, i + 1) == table_lines(
                    mem,
                    table.addr,
                    1,
                    0,
                    i as int,
                ) + entry_lines(mem, table.addr, 1, i as int));
                assert(out@ =~= before + entry_lines(mem, table.addr, 1, i as int));
                assert(out@ =~= old(out)@ + table_lines(mem, table.addr, 1, 0, i + 1));
            }
            i = i + 1;
        }
    }

    /// The lines of the page table: every valid entry of the root, each
    /// that is interior followed by the valid entries of the page that it
    /// refers to, and so on down to the leaf level.
    pub fn print_page_table(&self, mem: &PhysMemory) -> (r: Vec<PageTableLine>)
        requires
            self.wf(mem),
        ensures
            r@ == table_lines(mem, self.root(), 2, 0, 512),
    {
        let mut out: Vec<PageTableLine> = Vec::new();
        let root = Page { addr: self.root.bits };
        let mut i: usize = 0;
        proof {
            assert(out@ =~= table_lines(mem, self.root(), 2, 0, 0));
        }
        while i < 512
            invariant
                i <= 512,
                self.wf(mem),
                root.addr == self.root.bits,
                out@ == table_lines(mem, self.root(), 2, 0, i as int),
            decreases 512 - i,
        {
            let ghost before = out@;
            let entry = PageTableEntry { bits: mem.read(root, i) };
            if entry.valid() {
                assert(entry == pte_at(mem, root.addr, i as int));
                out.push(PageTableLine { level: 2, index: i, entry });
                if !(entry.readable() || entry.writable() || entry.executable()) {
                    self.print_middle_table(mem, Page { addr: entry.get_addr_bits() }, &mut out);
                }
            }
            proof {
                assert(table_lines(mem, self.root(), 2, 0, i + 1) == table_lines(
                    mem,
                    self.root(),
                    2,
                    0,
                    i as int,
                ) + entry_lines(mem, self.root(), 2, i as int));
                assert(out@ =~= before + entry_lines(mem, self.root(), 2, i as int));
                assert(out@ =~= table_lines(mem, self.root(), 2, 0, i + 1));
            }
            i = i + 1;
        }
        out
    }
}

impl PageTable {
    /// Gives up the table: every frame whose ticket it holds goes back
    /// to the allocator, the root first. The free frames of the
    /// allocator are then those that were free and those of the table,
    /// and as many more frames are available as the table held.
    pub fn release(self, mem: &PhysMemory, allocator: &mut PageAllocator)
        requires
            self.inv(mem, old(allocator)),
        ensures
            final(allocator)@.wf(),
            final(allocator)@.start == old(allocator)@.start,
            final(allocator)@.end == old(allocator)@.end,
            final(allocator)@.next == old(allocator)@.next,
            final(allocator)@.issued == old(allocator)@.issued.difference(self.frames()),
            self.frames().finite(),
            final(allocator)@.available() == old(allocator)@.available() + self.frames().len(),
            forall|p: u64| #[trigger]
                final(allocator)@.free.contains(p) <==> old(allocator)@.free.contains(p)
                    || self.frames().contains(p),
    {
        let mut pages = self.pages;
        pages.release_all(allocator);
    }
}

} // verus!
