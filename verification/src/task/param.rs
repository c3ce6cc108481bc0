//! Parameters of the task table.

use vstd::prelude::*;

verus! {

/// Capacity of the task table.
pub const MAX_APP_NUM: usize = 16;

/// Virtual address at which every user program starts to run.
pub const APP_BASE_ADDRESS: u64 = 0x1_0000;

} // verus!
