//! Typed wrappers around raw addresses.

use vstd::prelude::*;
use crate::mem_layout::PAGE_SIZE;

verus! {

/// A virtual or physical address; the role is given by the use.
#[derive(Clone, Copy, PartialEq, Eq, Structural, Debug)]
pub struct Addr {
    pub bits: u64,
}

/// The page offset of a raw address: its low twelve bits.
pub open spec fn offset_of(a: u64) -> u64 {
    (a % 4096) as u64
}

/// The base of the page that holds a raw address.
pub open spec fn page_base(a: u64) -> u64 {
    (a - a % 4096) as u64
}

/// The least page boundary at or above a raw address.
pub open spec fn page_ceil(a: u64) -> int {
    if a % 4096 == 0 { a as int } else { a - a % 4096 + 4096 }
}

/// The index into the page table of the given level (0 is the leaf level)
/// that a raw virtual address selects.
pub open spec fn vpn_index(a: u64, level: int) -> u64 {
    if level == 0 {
        ((a / 0x1000) % 512) as u64
    } else if level == 1 {
        ((a / 0x20_0000) % 512) as u64
    } else {
        ((a / 0x4000_0000) % 512) as u64
    }
}

/// The 27-bit virtual page number of a raw virtual address.
pub open spec fn vpn(a: u64) -> int {
    ((a / 4096) % 0x800_0000) as int
}

/// The three page-table indices of an address make up its virtual page
/// number, and within the Sv39 range the page number is the address
/// divided by the page size.
pub proof fn lemma_vpn_indexes(a: u64)
    ensures
        vpn(a) == vpn_index(a, 0) + 512 * vpn_index(a, 1) + 0x4_0000 * vpn_index(a, 2),
        vpn_index(a, 0) < 512,
        vpn_index(a, 1) < 512,
        vpn_index(a, 2) < 512,
        a <= 0x7f_ffff_ffff ==> vpn(a) == a / 4096,
{
    assert((a / 4096) % 0x800_0000 == ((a / 0x1000) % 512) + 512 * ((a / 0x20_0000) % 512)
        + 0x4_0000 * ((a / 0x4000_0000) % 512)) by (bit_vector);
}

/// Two addresses with the same virtual page number select the same
/// entry at every page-table level, and conversely.
pub proof fn lemma_same_vpn(a: u64, b: u64)
    ensures
        vpn(a) == vpn(b) <==> (vpn_index(a, 0) == vpn_index(b, 0) && vpn_index(a, 1) == vpn_index(
            b,
            1,
        ) && vpn_index(a, 2) == vpn_index(b, 2)),
{
    lemma_vpn_indexes(a);
    lemma_vpn_indexes(b);
}

/// Rounding up gives a page boundary, which rounding down leaves in
/// place; rounding down gives one that rounding up leaves in place; and
/// from an address that is not on a page boundary the two lie one page
/// apart.
pub proof fn lemma_align_round_trip(x: u64)
    requires
        x + 4095 <= u64::MAX,
    ensures
        page_base(page_ceil(x) as u64) == page_ceil(x),
        page_ceil(page_base(x)) == page_base(x),
        x % 4096 == 0 ==> page_ceil(x) == x && page_base(x) == x,
        x % 4096 != 0 ==> page_ceil(x) == page_base(x) + 4096,
{
}

impl Addr {
    pub fn empty() -> (r: Self)
        ensures
            r.bits == 0,
    {
        Addr { bits: 0 }
    }

    pub fn new(addr: u64) -> (r: Self)
        ensures
            r.bits == addr,
    {
        Addr { bits: addr }
    }

    /// The address packed into the PPN field of a page-table entry.
    pub fn to_pte_bits(&self) -> (r: u64)
        ensures
            r == (self.bits / 4096) * 1024,
    {
        let b: u64 = self.bits;
        assert((b >> 12u64) << 10u64 == (b / 4096) * 1024) by (bit_vector);
        (b >> 12) << 10
    }

    /// The offset of the address within its page.
    pub fn page_offset(&self) -> (r: u64)
        ensures
            r == offset_of(self.bits),
    {
        let b: u64 = self.bits;
        assert(b & 4095u64 == b % 4096) by (bit_vector);
        b & (PAGE_SIZE - 1)
    }

    pub fn aligned(&self) -> (r: bool)
        ensures
            r <==> self.bits % 4096 == 0,
    {
        self.page_offset() == 0
    }

    pub fn align_down(&self) -> (r: Self)
        ensures
            r.bits == page_base(self.bits),
    {
        let b: u64 = self.bits;
        assert(b & !4095u64 == b - b % 4096) by (bit_vector);
        Addr { bits: b & !(PAGE_SIZE - 1) }
    }

    pub fn align_up(&self) -> (r: Self)
        requires
            self.bits + PAGE_SIZE - 1 <= u64::MAX,
        ensures
            r.bits == page_ceil(self.bits),
    {
        let b: u64 = self.bits + (PAGE_SIZE - 1);
        assert(b & !4095u64 == b - b % 4096) by (bit_vector);
        Addr { bits: b & !(PAGE_SIZE - 1) }
    }

    pub fn add(&self, offset: u64) -> (r: Self)
        requires
            self.bits + offset <= u64::MAX,
        ensures
            r.bits == self.bits + offset,
    {
        Addr { bits: self.bits + offset }
    }

    /// The three nine-bit page-table indices of a virtual address,
    /// leaf level first.
    pub fn get_indexes(&self) -> (r: [u64; 3])
        ensures
            r[0] == vpn_index(self.bits, 0),
            r[1] == vpn_index(self.bits, 1),
            r[2] == vpn_index(self.bits, 2),
    {
        let b: u64 = self.bits;
        assert((b >> 12u64) & 511u64 == (b / 0x1000) % 512) by (bit_vector);
        assert(((b >> 12u64) >> 9u64) & 511u64 == (b / 0x20_0000) % 512) by (bit_vector);
        assert((((b >> 12u64) >> 9u64) >> 9u64) & 511u64 == (b / 0x4000_0000) % 512)
            by (bit_vector);
        let va: u64 = b >> 12;
        let i0: u64 = va & 511;
        let va1: u64 = va >> 9;
        let i1: u64 = va1 & 511;
        let va2: u64 = va1 >> 9;
        let i2: u64 = va2 & 511;
        [i0, i1, i2]
    }
}

/// An address known to be page aligned.
#[derive(Clone, Copy, PartialEq, Eq, Structural, Debug)]
pub struct Page {
    pub addr: u64,
}

impl Page {
    pub fn empty() -> (r: Self)
        ensures
            r.addr == 0,
    {
        Page { addr: 0 }
    }

    /// The page that holds `addr`.
    pub fn new(addr: u64) -> (r: Self)
        ensures
            r.addr == page_base(addr),
    {
        assert(addr & !4095u64 == addr - addr % 4096) by (bit_vector);
        Page { addr: addr & !(PAGE_SIZE - 1) }
    }
}

} // verus!
