//! A self-test of address translation on randomly chosen addresses.

use vstd::prelude::*;
use rand::rngs::SmallRng;
use rand::{Rng, SeedableRng};
use crate::mem::address::Addr;
use crate::mem::page_table::PageTable;
use crate::mem::phys_mem::PhysMemory;

verus! {

/// The small random number generator of the `rand` crate.
#[verifier::external_type_specification]
#[verifier::external_body]
pub struct ExSmallRng(SmallRng);

/// Lowest address that the self-test draws.
pub const WALK_TEST_LOW: u64 = 0x8020_0000;

/// The address above the highest that the self-test draws.
pub const WALK_TEST_HIGH: u64 = 0x8080_0000;

/// Number of addresses that the self-test draws.
pub const WALK_TEST_ROUNDS: usize = 10;

/// Makes a generator from a seed with `SmallRng::seed_from_u64`.
/// Nothing is claimed of the generator.
#[verifier::external_body]
fn seeded_rng(seed: u64) -> (r: SmallRng) {
    SmallRng::seed_from_u64(seed)
}

/// Draws a number with `Rng::gen_range` on the half-open range from
/// `low` to `high`, which panics on an empty range and else returns a
/// number of the range.
#[verifier::external_body]
fn draw(rng: &mut SmallRng, low: u64, high: u64) -> (r: u64)
    requires
        low < high,
    ensures
        low <= r < high,
{
    rng.gen_range(low..high)
}

impl PageTable {
    /// Translates ten randomly drawn addresses of the kernel's range
    /// for the user. Returns each address with its translation, or
    /// `None` as soon as one does not translate.
    pub fn walk_test(&self, mem: &PhysMemory) -> (r: Option<Vec<(Addr, Addr)>>)
        requires
            self.wf(mem),
        ensures
            r.is_some() ==> {
                &&& r.unwrap()@.len() == WALK_TEST_ROUNDS
                &&& forall|k: int|
                    0 <= k < WALK_TEST_ROUNDS ==> {
                        let pair = #[trigger] r.unwrap()@[k];
                        &&& WALK_TEST_LOW <= pair.0.bits < WALK_TEST_HIGH
                        &&& self.translation(mem, pair.0.bits, true) == Some(pair.1.bits)
                    }
            },
            r.is_none() ==> exists|va: u64|
                WALK_TEST_LOW <= va < WALK_TEST_HIGH && (#[trigger] self.translation(
                    mem,
                    va,
                    true,
                )).is_none(),
    {
        let mut rng = seeded_rng(0);
        let mut out: Vec<(Addr, Addr)> = Vec::new();
        let mut i: usize = 0;
        while i < WALK_TEST_ROUNDS
            invariant
                i <= WALK_TEST_ROUNDS,
                self.wf(mem),
                out@.len() == i,
                forall|k: int|
                    0 <= k < i ==> {
                        let pair = #[trigger] out@[k];
                        &&& WALK_TEST_LOW <= pair.0.bits < WALK_TEST_HIGH
                        &&& self.translation(mem, pair.0.bits, true) == Some(pair.1.bits)
                    },
            decreases WALK_TEST_ROUNDS - i,
        {
            let va = Addr::new(draw(&mut rng, WALK_TEST_LOW, WALK_TEST_HIGH));
            match self.walk_addr(mem, va) {
                Some(pa) => {
                    out.push((va, pa));
                },
                None => {
                    assert(self.translation(mem, va.bits, true).is_none());
                    return None;
                },
            }
            i = i + 1;
        }
        Some(out)
    }
}

} // verus!
