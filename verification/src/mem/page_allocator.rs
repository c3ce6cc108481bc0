//! Physical page frame allocator: a bump cursor over a range of frames
//! and a LIFO list of released frames.

use vstd::prelude::*;
use crate::mem::address::{Addr, Page, page_ceil};
use crate::mem_layout::{PAGE_SIZE, PHYS_TOP};

verus! {

/// Released frames, most recently released first.
pub struct FreeList {
    // The head of the list is the last element.
    nodes: Vec<u64>,
}

impl View for FreeList {
    type V = Seq<u64>;

    /// The frames of the list, head first.
    closed spec fn view(&self) -> Seq<u64> {
        Seq::new(self.nodes@.len(), |i: int| self.nodes@[self.nodes@.len() - 1 - i])
    }
}

impl FreeList {
    pub fn empty() -> (r: Self)
        ensures
            r@ == Seq::<u64>::empty(),
    {
        let r = FreeList { nodes: Vec::new() };
        assert(r@ =~= Seq::<u64>::empty());
        r
    }

    pub fn is_empty(&self) -> (r: bool)
        ensures
            r <==> self@.len() == 0,
    {
        self.nodes.len() == 0
    }

    /// Puts a frame at the head of the list.
    pub fn push_front(&mut self, page: Page)
        ensures
            final(self)@ == seq![page.addr] + old(self)@,
    {
        self.nodes.push(page.addr);
        assert(self@ =~= seq![page.addr] + old(self)@);
    }

    /// Puts a frame at the rear of the list.
    pub fn push_back(&mut self, page: Page)
        ensures
            final(self)@ == old(self)@.push(page.addr),
    {
        self.nodes.insert(0, page.addr);
        assert(self@ =~= old(self)@.push(page.addr));
    }

    /// Takes the frame at the head of the list.
    pub fn pop_front(&mut self) -> (r: Option<Page>)
        ensures
            old(self)@.len() == 0 ==> r.is_none() && final(self)@ == old(self)@,
            old(self)@.len() > 0 ==> r == Some(Page { addr: old(self)@[0] }) && final(self)@
                == old(self)@.drop_first(),
    {
        match self.nodes.pop() {
            Some(a) => {
                assert(self@ =~= old(self)@.drop_first());
                Some(Page { addr: a })
            },
            None => {
                assert(self@ =~= old(self)@);
                None
            },
        }
    }
}

/// The abstract state of a frame allocator.
pub struct AllocatorState {
    /// First frame of the managed range.
    pub start: u64,
    /// The bump cursor: the lowest frame never handed out.
    pub next: u64,
    /// End of the managed range.
    pub end: u64,
    /// Released frames, most recently released first.
    pub free: Seq<u64>,
    /// Frames handed out and not yet released.
    pub issued: Set<u64>,
}

impl AllocatorState {
    pub open spec fn wf(self) -> bool {
        &&& self.start % 4096 == 0
        &&& self.next % 4096 == 0
        &&& self.end % 4096 == 0
        &&& self.start <= self.next <= self.end
        &&& forall|i: int|
            0 <= i < self.free.len() ==> {
                &&& (#[trigger] self.free[i]) % 4096 == 0
                &&& self.start <= self.free[i] < self.next
                &&& !self.issued.contains(self.free[i])
            }
        &&& forall|i: int, j: int|
            0 <= i < j < self.free.len() ==> self.free[i] != self.free[j]
        &&& forall|p: u64| #[trigger]
            self.issued.contains(p) ==> p % 4096 == 0 && self.start <= p < self.next
    }

    /// Number of frames that can be handed out before the allocator is
    /// exhausted.
    pub open spec fn available(self) -> int {
        self.free.len() + (self.end - self.next) / 4096
    }

    /// The frame that the next allocation hands out, if any: the head of
    /// the free list, else the frame at the bump cursor.
    pub open spec fn next_frame(self) -> Option<u64> {
        if self.free.len() > 0 {
            Some(self.free[0])
        } else if self.next < self.end {
            Some(self.next)
        } else {
            None
        }
    }

    /// The state after one allocation.
    pub open spec fn after_alloc(self) -> AllocatorState {
        if self.free.len() > 0 {
            AllocatorState {
                free: self.free.drop_first(),
                issued: self.issued.insert(self.free[0]),
                ..self
            }
        } else if self.next < self.end {
            AllocatorState {
                next: (self.next + 4096) as u64,
                issued: self.issued.insert(self.next),
                ..self
            }
        } else {
            self
        }
    }

    /// The state after `n` allocations in a row.
    pub open spec fn after_allocs(self, n: nat) -> AllocatorState
        decreases n,
    {
        if n == 0 {
            self
        } else {
            self.after_alloc().after_allocs((n - 1) as nat)
        }
    }

    /// The state after the frame `p` is released.
    pub open spec fn after_free(self, p: u64) -> AllocatorState {
        AllocatorState { free: seq![p] + self.free, issued: self.issued.remove(p), ..self }
    }

    /// Allocation keeps the state well formed, hands out a frame of the
    /// managed range that was not in use, and uses up one available frame.
    pub proof fn lemma_alloc(self)
        requires
            self.wf(),
        ensures
            self.after_alloc().wf(),
            self.next_frame().is_some() <==> self.available() > 0,
            self.next_frame().is_some() ==> {
                let p = self.next_frame().unwrap();
                &&& p % 4096 == 0
                &&& self.start <= p < self.end
                &&& !self.issued.contains(p)
                &&& self.after_alloc().issued == self.issued.insert(p)
                &&& self.after_alloc().available() == self.available() - 1
            },
            self.next_frame().is_none() ==> self.after_alloc() == self,
    {
        let s = self.after_alloc();
        if self.free.len() > 0 {
            assert forall|i: int| 0 <= i < s.free.len() implies {
                &&& (#[trigger] s.free[i]) % 4096 == 0
                &&& s.start <= s.free[i] < s.next
                &&& !s.issued.contains(s.free[i])
            } by {
                assert(s.free[i] == self.free[i + 1]);
            }
            assert forall|i: int, j: int| 0 <= i < j < s.free.len() implies s.free[i]
                != s.free[j] by {
                assert(s.free[i] == self.free[i + 1]);
                assert(s.free[j] == self.free[j + 1]);
            }
        } else if self.next < self.end {
            assert(self.free =~= Seq::<u64>::empty());
        }
    }

    /// Allocations in a row keep the state well formed; while frames are
    /// available each uses one up, and frames in use stay in use.
    pub proof fn lemma_allocs(self, n: nat)
        requires
            self.wf(),
        ensures
            self.after_allocs(n).wf(),
            self.after_allocs(n).start == self.start,
            self.after_allocs(n).end == self.end,
            self.issued.subset_of(self.after_allocs(n).issued),
            n <= self.available() ==> self.after_allocs(n).available() == self.available() - n,
            n >= self.available() ==> self.after_allocs(n).available() == 0,
        decreases n,
    {
        self.lemma_alloc();
        if n > 0 {
            self.after_alloc().lemma_allocs((n - 1) as nat);
        }
    }

    /// Allocations in a row add up.
    pub proof fn lemma_allocs_add(self, a: nat, b: nat)
        ensures
            self.after_allocs(a).after_allocs(b) == self.after_allocs(a + b),
        decreases a,
    {
        if a > 0 {
            self.after_alloc().lemma_allocs_add((a - 1) as nat, b);
        }
    }

    /// Two runs of allocations, each as long as asked for or as the
    /// frames last, make one such run.
    pub proof fn lemma_allocs_seq(self, a: int, b: int)
        requires
            self.wf(),
            0 <= a,
            0 <= b,
        ensures
            self.available() >= 0,
            self.after_allocs(self.capped(a)).available() == self.available() - self.capped(a),
            self.after_allocs(self.capped(a)).after_allocs(
                self.after_allocs(self.capped(a)).capped(b),
            ) == self.after_allocs(self.capped(a + b)),
    {
        self.lemma_allocs(self.capped(a));
        let mid = self.after_allocs(self.capped(a));
        self.lemma_allocs_add(self.capped(a), mid.capped(b));
    }

    /// The number `n`, or the number of available frames if that is
    /// less.
    pub open spec fn capped(self, n: int) -> nat {
        if n <= self.available() {
            n as nat
        } else {
            self.available() as nat
        }
    }

    /// Releasing a frame in use keeps the state well formed and gives one
    /// more available frame: the frame released joins the free frames, at
    /// their head.
    pub proof fn lemma_free(self, p: u64)
        requires
            self.wf(),
            self.issued.contains(p),
        ensures
            self.after_free(p).wf(),
            self.after_free(p).available() == self.available() + 1,
            self.after_free(p).next_frame() == Some(p),
            forall|q: u64| #[trigger]
                self.after_free(p).free.contains(q) <==> q == p || self.free.contains(q),
    {
        let s = self.after_free(p);
        assert forall|q: u64| #[trigger] s.free.contains(q) <==> q == p || self.free.contains(
            q,
        ) by {
            if s.free.contains(q) {
                let i = choose|i: int| 0 <= i < s.free.len() && s.free[i] == q;
                if i > 0 {
                    assert(self.free[i - 1] == q);
                }
            }
            if q == p {
                assert(s.free[0] == q);
            }
            if self.free.contains(q) {
                let j = choose|j: int| 0 <= j < self.free.len() && self.free[j] == q;
                assert(s.free[j + 1] == q);
            }
        }
        assert forall|i: int| 0 <= i < s.free.len() implies {
            &&& (#[trigger] s.free[i]) % 4096 == 0
            &&& s.start <= s.free[i] < s.next
            &&& !s.issued.contains(s.free[i])
        } by {
            if i > 0 {
                assert(s.free[i] == self.free[i - 1]);
            }
        }
        assert forall|i: int, j: int| 0 <= i < j < s.free.len() implies s.free[i] != s.free[j] by {
            assert(s.free[j] == self.free[j - 1]);
            if i > 0 {
                assert(s.free[i] == self.free[i - 1]);
            }
        }
    }

    /// Frames are reused last released first: after two allocations and
    /// the release of the first frame, the next allocation hands out the
    /// first frame again, and the two frames first handed out differ.
    pub proof fn lemma_lifo_reuse(self)
        requires
            self.wf(),
            self.available() >= 2,
        ensures
            ({
                let first = self.next_frame();
                let after_one = self.after_alloc();
                let second = after_one.next_frame();
                let after_two = after_one.after_alloc();
                let released = after_two.after_free(first.unwrap());
                let third = released.next_frame();
                &&& first.is_some()
                &&& second.is_some()
                &&& first != second
                &&& third == first
            }),
    {
        self.lemma_alloc();
        let first = self.next_frame().unwrap();
        let after_one = self.after_alloc();
        after_one.lemma_alloc();
        let after_two = after_one.after_alloc();
        assert(after_one.issued.contains(first));
        assert(after_two.issued.contains(first));
        after_two.lemma_free(first);
    }
}

/// Bump-then-free-list allocator of physical page frames.
pub struct PageAllocator {
    start: Addr,
    next: Addr,
    end: Addr,
    free_list: FreeList,
    issued: Ghost<Set<u64>>,
}

impl View for PageAllocator {
    type V = AllocatorState;

    closed spec fn view(&self) -> AllocatorState {
        AllocatorState {
            start: self.start.bits,
            next: self.next.bits,
            end: self.end.bits,
            free: self.free_list@,
            issued: self.issued@,
        }
    }
}

impl PageAllocator {
    /// An allocator that manages no frame.
    pub fn empty() -> (r: Self)
        ensures
            r@.wf(),
            r@.start == 0,
            r@.next == 0,
            r@.end == 0,
            r@.free == Seq::<u64>::empty(),
            r@.issued == Set::<u64>::empty(),
    {
        PageAllocator {
            start: Addr::empty(),
            next: Addr::empty(),
            end: Addr::empty(),
            free_list: FreeList::empty(),
            issued: Ghost(Set::empty()),
        }
    }

    /// Takes over the frames of `[start, end)`; nothing is in use.
    pub fn init(&mut self, start: Addr, end: Addr)
        requires
            start.bits % 4096 == 0,
            end.bits % 4096 == 0,
            start.bits <= end.bits,
        ensures
            final(self)@.wf(),
            final(self)@ == (AllocatorState {
                start: start.bits,
                next: start.bits,
                end: end.bits,
                free: Seq::<u64>::empty(),
                issued: Set::<u64>::empty(),
            }),
    {
        self.start = start;
        self.next = start;
        self.end = end;
        self.free_list = FreeList::empty();
        self.issued = Ghost(Set::empty());
    }

    /// Hands out a frame: the most recently released one, else the frame
    /// at the bump cursor; `None` when neither exists.
    pub fn alloc_page(&mut self) -> (r: Option<Page>)
        requires
            old(self)@.wf(),
        ensures
            final(self)@.wf(),
            final(self)@ == old(self)@.after_alloc(),
            r == match old(self)@.next_frame() {
                Some(a) => Some(Page { addr: a }),
                None => None,
            },
    {
        proof {
            self@.lemma_alloc();
        }
        match self.free_list.pop_front() {
            Some(page) => {
                self.issued = Ghost(self.issued@.insert(page.addr));
                Some(page)
            },
            None => {
                if self.next.bits < self.end.bits {
                    let res = self.next;
                    self.next = Addr { bits: res.bits + PAGE_SIZE };
                    self.issued = Ghost(self.issued@.insert(res.bits));
                    Some(Page { addr: res.bits })
                } else {
                    None
                }
            },
        }
    }

    /// Takes back a frame in use and puts it at the head of the free list.
    pub fn dealloc(&mut self, page: Page)
        requires
            old(self)@.wf(),
            old(self)@.issued.contains(page.addr),
        ensures
            final(self)@.wf(),
            final(self)@ == old(self)@.after_free(page.addr),
    {
        proof {
            self@.lemma_free(page.addr);
        }
        self.free_list.push_front(page);
        self.issued = Ghost(self.issued@.remove(page.addr));
    }
}

/// An owning ticket for one physical page frame. It is moved when stored
/// and never copied; giving it back to the allocator releases the frame.
#[derive(Debug)]
pub struct PageTracker {
    page: Page,
}

impl PageTracker {
    /// The frame that the ticket stands for.
    pub closed spec fn frame(&self) -> Page {
        self.page
    }

    pub fn new(page: Page) -> (r: Self)
        ensures
            r.frame() == page,
    {
        PageTracker { page }
    }

    pub fn page(&self) -> (r: Page)
        ensures
            r == self.frame(),
    {
        self.page
    }
}

/// Sets the allocator up over the frames between the end of the kernel
/// image and the end of physical memory.
pub fn kinit(allocator: &mut PageAllocator, ekernel: u64)
    requires
        ekernel <= PHYS_TOP,
    ensures
        final(allocator)@.wf(),
        final(allocator)@ == (AllocatorState {
            start: page_ceil(ekernel) as u64,
            next: page_ceil(ekernel) as u64,
            end: PHYS_TOP,
            free: Seq::<u64>::empty(),
            issued: Set::<u64>::empty(),
        }),
{
    allocator.init(Addr::new(ekernel).align_up(), Addr::new(PHYS_TOP).align_down());
}

/// Allocates a frame and wraps it in its ticket.
pub fn kalloc(allocator: &mut PageAllocator) -> (r: Option<PageTracker>)
    requires
        old(allocator)@.wf(),
    ensures
        final(allocator)@.wf(),
        final(allocator)@ == old(allocator)@.after_alloc(),
        match old(allocator)@.next_frame() {
            Some(a) => r.is_some() && r.unwrap().frame() == (Page { addr: a }),
            None => r.is_none(),
        },
{
    match allocator.alloc_page() {
        Some(page) => Some(PageTracker::new(page)),
        None => None,
    }
}

/// Releases the frame of a ticket.
pub fn kfree(allocator: &mut PageAllocator, tracker: PageTracker)
    requires
        old(allocator)@.wf(),
        old(allocator)@.issued.contains(tracker.frame().addr),
    ensures
        final(allocator)@.wf(),
        final(allocator)@ == old(allocator)@.after_free(tracker.frame().addr),
{
    allocator.dealloc(tracker.page());
}

} // verus!
