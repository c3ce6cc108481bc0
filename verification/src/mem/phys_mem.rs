//! Physical memory as the kernel sees it: a run of page frames, each
//! holding 512 machine words.

use vstd::prelude::*;
use crate::mem::address::{Addr, Page};
use crate::mem::page_table::PageTableEntry;

verus! {

/// A contiguous range of physical memory that starts at a page boundary
/// and holds a whole number of page frames.
pub struct PhysMemory {
    base: u64,
    frames: usize,
    words: Vec<u64>,
}

/// Byte `k` (little endian) of a machine word.
pub open spec fn byte_of_word(w: u64, k: u64) -> u8 {
    ((w >> (8 * k)) & 0xff) as u8
}

/// The word `w` with byte `k` (little endian) replaced by `b`.
pub open spec fn word_with_byte(w: u64, k: u64, b: u8) -> u64 {
    (w & !(0xffu64 << (8 * k))) | ((b as u64) << (8 * k))
}

/// Replacing a byte of a word sets that byte and keeps the others.
pub proof fn lemma_word_with_byte(w: u64, k: u64, b: u8, j: u64)
    requires
        k < 8,
        j < 8,
    ensures
        byte_of_word(word_with_byte(w, k, b), j) == if j == k {
            b
        } else {
            byte_of_word(w, j)
        },
{
    assert(k < 8 && j < 8 ==> ((((w & !(0xffu64 << (8 * k))) | ((b as u64) << (8 * k))) >> (8 * j))
        & 0xff) as u8 == if j == k {
        b
    } else {
        ((w >> (8 * j)) & 0xff) as u8
    }) by (bit_vector);
}

impl PhysMemory {
    /// Physical address of the first byte.
    pub closed spec fn base(&self) -> u64 {
        self.base
    }

    /// Number of page frames held.
    pub closed spec fn frame_count(&self) -> int {
        self.frames as int
    }

    /// Physical address one past the last byte.
    pub open spec fn top(&self) -> int {
        self.base() + 4096 * self.frame_count()
    }

    /// The words held are those of the frames counted.
    pub closed spec fn stored(&self) -> bool {
        self.words@.len() == 512 * self.frames
    }

    /// The memory starts at a page boundary and ends within the range of
    /// Sv39 physical addresses.
    pub open spec fn wf(&self) -> bool {
        &&& self.stored()
        &&& self.base() % 4096 == 0
        &&& self.top() <= 0x100_0000_0000_0000
    }

    /// Whether `pa` is the base of a frame held in this memory.
    pub open spec fn contains_page(&self, pa: u64) -> bool {
        &&& pa % 4096 == 0
        &&& self.base() <= pa
        &&& pa + 4096 <= self.top()
    }

    /// Word `idx` of the frame at `page`.
    #[verifier::opaque]
    pub closed spec fn word(&self, page: u64, idx: int) -> u64 {
        self.words@[((page - self.base) / 4096) * 512 + idx]
    }

    /// The 512 words of the frame at `page`.
    pub open spec fn frame(&self, page: u64) -> Seq<u64> {
        Seq::new(512, |i: int| self.word(page, i))
    }

    /// The byte at physical address `pa`.
    pub open spec fn byte(&self, pa: u64) -> u8 {
        byte_of_word(self.word((pa - pa % 4096) as u64, ((pa % 4096) / 8) as int), pa % 8)
    }

    /// Whether the two memories cover the same physical range.
    pub open spec fn same_range(&self, other: &PhysMemory) -> bool {
        &&& self.base() == other.base()
        &&& self.frame_count() == other.frame_count()
    }

    /// A memory of `frames` zeroed page frames starting at `base`.
    pub fn new(base: u64, frames: usize) -> (r: Self)
        requires
            base % 4096 == 0,
            base + 4096 * frames <= 0x100_0000_0000_0000,
            512 * frames <= usize::MAX,
        ensures
            r.wf(),
            r.base() == base,
            r.frame_count() == frames,
            forall|p: u64, i: int| r.contains_page(p) && 0 <= i < 512 ==> #[trigger] r.word(p, i) == 0,
    {
        reveal(PhysMemory::word);
        let n: usize = frames * 512;
        let mut words: Vec<u64> = Vec::new();
        let mut k: usize = 0;
        while k < n
            invariant
                k <= n,
                words@.len() == k,
                forall|j: int| 0 <= j < k ==> words@[j] == 0,
            decreases n - k,
        {
            words.push(0);
            k = k + 1;
        }
        PhysMemory { base, frames, words }
    }

    /// Whether `page` is the base of a frame held in this memory.
    pub fn has_page(&self, page: Page) -> (r: bool)
        requires
            self.wf(),
        ensures
            r == self.contains_page(page.addr),
    {
        let a: u64 = page.addr;
        if a % 4096 != 0 || a < self.base {
            return false;
        }
        let f: u64 = (a - self.base) / 4096;
        f < self.frames as u64
    }

    /// Reads word `idx` of the frame at `page`.
    pub fn read(&self, page: Page, idx: usize) -> (r: u64)
        requires
            self.wf(),
            self.contains_page(page.addr),
            idx < 512,
        ensures
            r == self.word(page.addr, idx as int),
    {
        reveal(PhysMemory::word);
        let f: u64 = (page.addr - self.base) / 4096;
        assert(f < self.frames);
        let n: usize = self.words.len();
        assert(512 * f + 512 <= n);
        let k: usize = (f as usize) * 512 + idx;
        self.words[k]
    }

    /// Writes word `idx` of the frame at `page`; every other word keeps
    /// its value.
    pub fn write(&mut self, page: Page, idx: usize, value: u64)
        requires
            old(self).wf(),
            old(self).contains_page(page.addr),
            idx < 512,
        ensures
            final(self).wf(),
            final(self).same_range(old(self)),
            final(self).word(page.addr, idx as int) == value,
            forall|p: u64, i: int|
                old(self).contains_page(p) && 0 <= i < 512 && !(p == page.addr && i == idx)
                    ==> #[trigger] final(self).word(p, i) == old(self).word(p, i),
    {
        reveal(PhysMemory::word);
        let f: u64 = (page.addr - self.base) / 4096;
        assert(f < self.frames);
        let n: usize = self.words.len();
        assert(512 * f + 512 <= n);
        let k: usize = (f as usize) * 512 + idx;
        self.words.set(k, value);
        assert forall|p: u64, i: int|
            old(self).contains_page(p) && 0 <= i < 512 && !(p == page.addr && i == idx)
            implies #[trigger] self.word(p, i) == old(self).word(p, i) by {
            let g = (p - self.base) / 4096;
            assert(p - self.base == 4096 * g);
            assert(page.addr - self.base == 4096 * f);
            assert(g < self.frames);
            assert(p != page.addr ==> g != f);
            assert(g * 512 + i != k);
        }
    }

    /// Whether the byte at `pa` lies in this memory.
    pub open spec fn contains_addr(&self, pa: u64) -> bool {
        self.contains_page((pa - pa % 4096) as u64)
    }

    /// Reads the byte at physical address `pa`.
    pub fn read_byte(&self, pa: Addr) -> (r: u8)
        requires
            self.wf(),
            self.contains_addr(pa.bits),
        ensures
            r == self.byte(pa.bits),
    {
        let off: u64 = pa.page_offset();
        let page = Page::new(pa.bits);
        let w: u64 = self.read(page, (off / 8) as usize);
        let k: u64 = pa.bits % 8;
        assert(k == off % 8);
        ((w >> (8 * k)) & 0xff) as u8
    }

    /// Writes the byte at physical address `pa`; every other byte, and
    /// every word but the one that holds the byte, keeps its value.
    pub fn write_byte(&mut self, pa: Addr, value: u8)
        requires
            old(self).wf(),
            old(self).contains_addr(pa.bits),
        ensures
            final(self).wf(),
            final(self).same_range(old(self)),
            forall|a: u64| #[trigger]
                old(self).contains_addr(a) ==> final(self).byte(a) == if a == pa.bits {
                    value
                } else {
                    old(self).byte(a)
                },
            forall|p: u64, i: int|
                old(self).contains_page(p) && 0 <= i < 512 && !(p == (pa.bits - pa.bits % 4096)
                    && i == (pa.bits % 4096) / 8) ==> #[trigger] final(self).word(p, i) == old(
                    self,
                ).word(p, i),
    {
        let off: u64 = pa.page_offset();
        let page = Page::new(pa.bits);
        let idx: usize = (off / 8) as usize;
        let w: u64 = self.read(page, idx);
        let k: u64 = pa.bits % 8;
        let nw: u64 = (w & !(0xffu64 << (8 * k))) | ((value as u64) << (8 * k));
        self.write(page, idx, nw);
        proof {
            assert forall|a: u64| #[trigger] old(self).contains_addr(a) implies self.byte(a) == if a
                == pa.bits {
                value
            } else {
                old(self).byte(a)
            } by {
                let ap = (a - a % 4096) as u64;
                let ai = ((a % 4096) / 8) as int;
                lemma_word_with_byte(w, k, value, a % 8);
                assert(a == ap + 8 * ai + a % 8);
                assert(pa.bits == page.addr + 8 * idx + k);
                if ap == page.addr && ai == idx {
                    assert(self.word(ap, ai) == nw);
                } else {
                    assert(self.word(ap, ai) == old(self).word(ap, ai));
                }
            }
        }
    }

    /// Fills the frame at `page` with zero words; every other frame keeps
    /// its contents.
    pub fn zero_frame(&mut self, page: Page)
        requires
            old(self).wf(),
            old(self).contains_page(page.addr),
        ensures
            final(self).wf(),
            final(self).same_range(old(self)),
            forall|i: int| 0 <= i < 512 ==> #[trigger] final(self).word(page.addr, i) == 0,
            forall|p: u64, i: int|
                old(self).contains_page(p) && 0 <= i < 512 && p != page.addr
                    ==> #[trigger] final(self).word(p, i) == old(self).word(p, i),
    {
        let mut k: usize = 0;
        while k < 512
            invariant
                k <= 512,
                self.wf(),
                self.same_range(old(self)),
                old(self).contains_page(page.addr),
                forall|i: int| 0 <= i < k ==> #[trigger] self.word(page.addr, i) == 0,
                forall|p: u64, i: int|
                    old(self).contains_page(p) && 0 <= i < 512 && p != page.addr
                        ==> #[trigger] self.word(p, i) == old(self).word(p, i),
            decreases 512 - k,
        {
            self.write(page, k, 0);
            k = k + 1;
        }
    }
}

impl Page {
    /// Fills the page with zeros.
    pub fn clean_page(&self, mem: &mut PhysMemory)
        requires
            old(mem).wf(),
            old(mem).contains_page(self.addr),
        ensures
            final(mem).wf(),
            final(mem).same_range(old(mem)),
            forall|i: int| 0 <= i < 512 ==> #[trigger] final(mem).word(self.addr, i) == 0,
            forall|p: u64, i: int|
                old(mem).contains_page(p) && 0 <= i < 512 && p != self.addr
                    ==> #[trigger] final(mem).word(p, i) == old(mem).word(p, i),
    {
        mem.zero_frame(*self);
    }

    /// The bytes of the page.
    pub fn get_bytes(&self, mem: &PhysMemory) -> (r: Vec<u8>)
        requires
            mem.wf(),
            mem.contains_page(self.addr),
        ensures
            r@.len() == 4096,
            forall|k: int| 0 <= k < 4096 ==> #[trigger] r@[k] == mem.byte((self.addr + k) as u64),
    {
        let mut out: Vec<u8> = Vec::new();
        let mut k: u64 = 0;
        while k < 4096
            invariant
                k <= 4096,
                mem.wf(),
                mem.contains_page(self.addr),
                out@.len() == k,
                forall|j: int| 0 <= j < k ==> #[trigger] out@[j] == mem.byte((self.addr + j) as u64),
            decreases 4096 - k,
        {
            out.push(mem.read_byte(Addr::new(self.addr + k)));
            k = k + 1;
        }
        out
    }

    /// The 512 page-table entries that the page holds where it serves
    /// as a page-table page.
    pub fn get_ptes(&self, mem: &PhysMemory) -> (r: Vec<PageTableEntry>)
        requires
            mem.wf(),
            mem.contains_page(self.addr),
        ensures
            r@.len() == 512,
            forall|j: int| 0 <= j < 512 ==> (#[trigger] r@[j]).bits == mem.word(self.addr, j),
    {
        let mut out: Vec<PageTableEntry> = Vec::new();
        let mut i: usize = 0;
        while i < 512
            invariant
                i <= 512,
                mem.wf(),
                mem.contains_page(self.addr),
                out@.len() == i,
                forall|j: int| 0 <= j < i ==> (#[trigger] out@[j]).bits == mem.word(self.addr, j),
            decreases 512 - i,
        {
            out.push(PageTableEntry { bits: mem.read(*self, i) });
            i = i + 1;
        }
        out
    }
}

} // verus!
