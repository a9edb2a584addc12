//! The identity sequence `0, 1, 2, ...`, padded to a whole number of blocks.
use vstd::prelude::*;

verus! {

/// `length` rounded up to a multiple of `resolution`.
pub open spec fn padded_len(length: int, resolution: int) -> int {
    (length + resolution - 1) / resolution * resolution
}

/// The sequence `0..m` for `m` the first multiple of `resolution` that is at
/// least `length`; each block of `resolution` entries is one unit of work.
pub fn iota(length: u32, resolution: u32) -> (r: Vec<u32>)
    requires
        resolution >= 1,
        padded_len(length as int, resolution as int) <= u32::MAX,
    ensures
        r.len() == padded_len(length as int, resolution as int),
        r.len() >= length,
        forall|i: int| 0 <= i < r.len() ==> #[trigger] r[i] == i,
{
    let total: u64 = (length as u64 + resolution as u64 - 1) / resolution as u64 * resolution as u64;
    assert(total >= length) by (nonlinear_arith)
        requires
            total == (length + resolution - 1) / resolution as int * resolution,
            resolution >= 1,
    {
        let q = (length + resolution - 1) / resolution as int;
        let m = (length + resolution - 1) % resolution as int;
        assert(q * resolution + m == length + resolution - 1);
        assert(m < resolution);
    }
    let total = total as u32;
    let mut r: Vec<u32> = Vec::with_capacity(total as usize);
    let mut i: u32 = 0;
    while i < total
        invariant
            i <= total,
            r.len() == i,
            forall|k: int| 0 <= k < i ==> #[trigger] r[k] == k,
        decreases total - i,
    {
        r.push(i);
        i += 1;
    }
    r
}

} // verus!
