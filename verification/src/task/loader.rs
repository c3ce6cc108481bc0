//! The packed blob of user programs: a count, a table of byte offsets
//! with an end sentinel, and the program images.

use vstd::prelude::*;
use vstd::bytes::{spec_u64_from_le_bytes, u64_from_le_bytes};
use vstd::slice::slice_subrange;

verus! {

/// The little-endian 64-bit word at byte offset `8 * k` of the blob.
pub open spec fn blob_word(blob: Seq<u8>, k: int) -> u64 {
    spec_u64_from_le_bytes(blob.subrange(8 * k, 8 * k + 8))
}

/// The number of programs that the blob says it holds; `None` where
/// the blob is too short to say.
pub open spec fn app_num(blob: Seq<u8>) -> Option<u64> {
    if blob.len() >= 8 {
        Some(blob_word(blob, 0))
    } else {
        None
    }
}

/// The bytes of program `id`: those between offset `id` and the offset
/// after it in the table. `None` where the blob holds no such program,
/// the table does not fit in the blob, or the offsets do not mark a
/// range within the blob.
pub open spec fn app_data(blob: Seq<u8>, id: int) -> Option<Seq<u8>> {
    match app_num(blob) {
        None => None,
        Some(n) => {
            let start = blob_word(blob, id + 1);
            let end = blob_word(blob, id + 2);
            if 0 <= id < n && 8 * (id + 3) <= blob.len() && start <= end <= blob.len() {
                Some(blob.subrange(start as int, end as int))
            } else {
                None
            }
        },
    }
}

/// Reads word `k` of the blob.
fn read_word(blob: &[u8], k: usize) -> (r: u64)
    requires
        8 * (k + 1) <= blob@.len(),
    ensures
        r == blob_word(blob@, k as int),
{
    let len: usize = blob.len();
    u64_from_le_bytes(slice_subrange(blob, 8 * k, 8 * k + 8))
}

/// The number of programs in the blob.
pub fn get_app_num(blob: &[u8]) -> (r: Option<u64>)
    ensures
        r == app_num(blob@),
{
    if blob.len() >= 8 {
        Some(read_word(blob, 0))
    } else {
        None
    }
}

/// The image of program `id`.
pub fn get_app_data(blob: &[u8], id: usize) -> (r: Option<&[u8]>)
    ensures
        match app_data(blob@, id as int) {
            Some(d) => r.is_some() && r.unwrap()@ == d,
            None => r.is_none(),
        },
{
    let n = match get_app_num(blob) {
        Some(n) => n,
        None => {
            return None;
        },
    };
    let len: usize = blob.len();
    if id as u64 >= n || len / 8 < 3 || id > len / 8 - 3 {
        return None;
    }
    let start = read_word(blob, id + 1);
    let end = read_word(blob, id + 2);
    if start <= end && end <= len as u64 {
        Some(slice_subrange(blob, start as usize, end as usize))
    } else {
        None
    }
}

} // verus!
