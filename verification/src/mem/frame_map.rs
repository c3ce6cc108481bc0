//! Page frames owned by an address space, keyed by physical address.

use std::collections::BTreeMap;
use vstd::prelude::*;
use crate::mem::page_allocator::{PageAllocator, PageTracker, kfree};

verus! {

/// A set of frame tickets, each filed under the address of its frame.
pub struct FrameMap {
    map: BTreeMap<u64, PageTracker>,
    // Every address that a ticket is filed under, in the order of filing;
    // addresses of tickets taken out since may remain.
    filed: Vec<u64>,
}

impl FrameMap {
    /// Every ticket is filed under the address of its own frame.
    pub closed spec fn wf(&self) -> bool {
        &&& forall|k: u64| #[trigger]
            self.map@.contains_key(k) ==> self.map@[k].frame().addr == k
        &&& forall|k: u64| #[trigger] self.map@.contains_key(k) ==> self.filed@.contains(k)
    }

    /// The addresses of the frames held.
    pub closed spec fn dom(&self) -> Set<u64> {
        self.map@.dom()
    }

    pub fn new() -> (r: Self)
        ensures
            r.wf(),
            r.dom() == Set::<u64>::empty(),
    {
        FrameMap { map: BTreeMap::new(), filed: Vec::new() }
    }

    /// Files a ticket under the address of its frame. A ticket already
    /// filed there is replaced.
    pub fn insert(&mut self, tracker: PageTracker)
        requires
            old(self).wf(),
        ensures
            final(self).wf(),
            final(self).dom() == old(self).dom().insert(tracker.frame().addr),
    {
        let key: u64 = tracker.page().addr;
        self.file_ticket(tracker);
        self.filed.push(key);
        proof {
            let n = old(self).filed@.len() as int;
            assert(self.filed@[n] == key);
            assert forall|k: u64| #[trigger] self.map@.contains_key(k) implies self.filed@.contains(
                k,
            ) by {
                if k != key {
                    let j = choose|j: int|
                        0 <= j < old(self).filed@.len() && old(self).filed@[j] == k;
                    assert(self.filed@[j] == k);
                }
            }
        }
    }

    /// Takes out the ticket of the frame at `addr`, if it is held.
    pub fn remove(&mut self, addr: u64) -> (r: Option<PageTracker>)
        requires
            old(self).wf(),
        ensures
            final(self).wf(),
            final(self).dom() == old(self).dom().remove(addr),
            r.is_some() <==> old(self).dom().contains(addr),
            r.is_some() ==> r.unwrap().frame().addr == addr,
    {
        self.remove_ticket(addr)
    }

    /// Whether the frame at `addr` is held.
    pub fn contains(&self, addr: u64) -> (r: bool)
        ensures
            r == self.dom().contains(addr),
    {
        broadcast use vstd::std_specs::btree::group_btree_axioms;
        broadcast use vstd::laws_cmp::group_laws_cmp;

        self.map.contains_key(&addr)
    }

    /// Gives every ticket back to the allocator, in the order of
    /// filing: the frames held are released and none is left. The free
    /// frames of the allocator are then those that were free and those
    /// that were held, and as many more frames are available as were
    /// held.
    pub fn release_all(&mut self, allocator: &mut PageAllocator)
        requires
            old(self).wf(),
            old(allocator)@.wf(),
            old(self).dom().subset_of(old(allocator)@.issued),
        ensures
            final(self).wf(),
            final(self).dom() == Set::<u64>::empty(),
            final(allocator)@.wf(),
            final(allocator)@.start == old(allocator)@.start,
            final(allocator)@.end == old(allocator)@.end,
            final(allocator)@.next == old(allocator)@.next,
            final(allocator)@.issued == old(allocator)@.issued.difference(old(self).dom()),
            old(self).dom().finite(),
            final(allocator)@.available() == old(allocator)@.available() + old(self).dom().len(),
            forall|p: u64| #[trigger]
                final(allocator)@.free.contains(p) <==> old(allocator)@.free.contains(p) || old(
                    self,
                ).dom().contains(p),
    {
        broadcast use vstd::std_specs::btree::axiom_btree_map_view_finite_dom;

        let n: usize = self.filed.len();
        let mut i: usize = 0;
        while i < n
            invariant
                i <= n,
                n == self.filed@.len(),
                self.filed@ == old(self).filed@,
                forall|k: u64| #[trigger]
                    self.map@.contains_key(k) ==> self.map@[k].frame().addr == k,
                forall|k: u64| #[trigger]
                    self.map@.contains_key(k) ==> exists|j: int|
                        i <= j < n && self.filed@[j] == k,
                self.dom().subset_of(old(self).dom()),
                old(self).dom().subset_of(old(allocator)@.issued),
                allocator@.wf(),
                allocator@.start == old(allocator)@.start,
                allocator@.end == old(allocator)@.end,
                allocator@.next == old(allocator)@.next,
                allocator@.issued == old(allocator)@.issued.difference(
                    old(self).dom().difference(self.dom()),
                ),
                self.dom().finite(),
                old(self).dom().finite(),
                allocator@.available() + self.dom().len() == old(allocator)@.available() + old(
                    self,
                ).dom().len(),
                forall|p: u64| #[trigger]
                    allocator@.free.contains(p) <==> old(allocator)@.free.contains(p) || (old(
                        self,
                    ).dom().contains(p) && !self.dom().contains(p)),
            decreases n - i,
        {
            let key = self.filed[i];
            let ghost before = *self;
            let ghost before_allocator = allocator@;
            match self.remove_ticket(key) {
                Some(tracker) => {
                    proof {
                        assert(before.dom().contains(key));
                        assert(old(self).dom().contains(key));
                        assert(old(allocator)@.issued.contains(key));
                        before_allocator.lemma_free(key);
                    }
                    kfree(allocator, tracker);
                },
                None => {},
            }
            proof {
                assert forall|k: u64| #[trigger] self.map@.contains_key(k) implies exists|j: int|
                    i + 1 <= j < n && self.filed@[j] == k by {
                    assert(before.map@.contains_key(k));
                    let j = choose|j: int| i <= j < n && before.filed@[j] == k;
                    assert(j != i);
                }
                assert(allocator@.issued =~= old(allocator)@.issued.difference(
                    old(self).dom().difference(self.dom()),
                ));
            }
            i = i + 1;
        }
        self.filed.clear();
        proof {
            assert(self.dom() =~= Set::<u64>::empty());
            assert(allocator@.issued =~= old(allocator)@.issued.difference(old(self).dom()));
        }
    }

    /// Puts a ticket into the map; the record of filing stays.
    fn file_ticket(&mut self, tracker: PageTracker)
        ensures
            final(self).filed@ == old(self).filed@,
            final(self).map@ == old(self).map@.insert(tracker.frame().addr, tracker),
    {
        broadcast use vstd::std_specs::btree::group_btree_axioms;
        broadcast use vstd::laws_cmp::group_laws_cmp;

        let key: u64 = tracker.page().addr;
        let _ = self.map.insert(key, tracker);
    }

    /// Takes a ticket out of the map; the record of filing stays.
    fn remove_ticket(&mut self, addr: u64) -> (r: Option<PageTracker>)
        requires
            forall|k: u64| #[trigger]
                old(self).map@.contains_key(k) ==> old(self).map@[k].frame().addr == k,
        ensures
            final(self).filed@ == old(self).filed@,
            final(self).map@ == old(self).map@.remove(addr),
            r.is_some() <==> old(self).map@.contains_key(addr),
            r.is_some() ==> r.unwrap().frame().addr == addr,
    {
        broadcast use vstd::std_specs::btree::group_btree_axioms;
        broadcast use vstd::laws_cmp::group_laws_cmp;

        self.map.remove(&addr)
    }
}

} // verus!
