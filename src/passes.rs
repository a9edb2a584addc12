//! The parallel primitives the builder is made of, and how many dependent
//! passes each takes.
use vstd::prelude::*;

verus! {

/// A parallel primitive.
#[derive(Clone, Copy, Debug, PartialEq, Eq, Hash, Structural)]
pub enum Algorithm {
    /// Fill a buffer with `0, 1, 2, ...`.
    Iota,
    /// Exclusive prefix sum by doubling.
    PrefixSum,
    /// Bitonic merge sort of key-value pairs.
    BitonicMergeSort,
}

pub open spec fn pow2(k: nat) -> nat
    decreases k,
{
    if k == 0 {
        1
    } else {
        2 * pow2((k - 1) as nat)
    }
}

impl Algorithm {
    /// How many passes, each depending on the one before, the primitive takes
    /// on `n` elements: one for iota; `ceil(log2 n)` for the prefix sum;
    /// `f (f + 1) / 2` for the sort, where `f = floor(log2 n)`.
    pub fn pass_count(&self, n: u32) -> (r: u32)
        ensures
            *self == Algorithm::Iota ==> r == 1,
            *self == Algorithm::PrefixSum && n <= 1 ==> r == 0,
            *self == Algorithm::PrefixSum && n > 1 ==> pow2(r as nat) >= n && pow2((r - 1) as nat) < n,
            *self == Algorithm::BitonicMergeSort && n <= 1 ==> r == 0,
            *self == Algorithm::BitonicMergeSort && n > 1 ==> exists|f: nat|
                #[trigger] pow2(f) <= n && n < pow2(f + 1) && r == f * (f + 1) / 2,
    {
        match self {
            Algorithm::Iota => 1,
            Algorithm::PrefixSum => {
                if n <= 1 {
                    return 0;
                }
                let mut k: u32 = 0;
                let mut p: u64 = 1;
                while p < n as u64
                    invariant
                        p == pow2(k as nat),
                        k <= 32,
                        k == 0 || pow2((k - 1) as nat) < n,
                        p < 2 * n,
                    decreases 2 * n - p,
                {
                    proof {
                        lemma_pow2_bound(k as nat);
                    }
                    p = p * 2;
                    k = k + 1;
                }
                k
            },
            Algorithm::BitonicMergeSort => {
                if n <= 1 {
                    return 0;
                }
                let mut f: u32 = 0;
                let mut p: u64 = 1;
                while p * 2 <= n as u64
                    invariant
                        p == pow2(f as nat),
                        p <= n,
                        f <= 32,
                    decreases n - p,
                {
                    proof {
                        lemma_pow2_bound(f as nat);
                    }
                    p = p * 2;
                    f = f + 1;
                }
                proof {
                    assert(pow2(f as nat + 1) == 2 * p);
                }
                assert(f * (f + 1) <= 32 * 33) by (nonlinear_arith)
                    requires f <= 32;
                f * (f + 1) / 2
            },
        }
    }
}

/// Powers of two at least 2^32 exceed every `u32`.
proof fn lemma_pow2_bound(k: nat)
    ensures
        k >= 32 ==> pow2(k) > u32::MAX,
        pow2(k) >= 1,
    decreases k,
{
    if k > 0 {
        lemma_pow2_bound((k - 1) as nat);
        if k == 32 {
            reveal_with_fuel(pow2, 33);
        }
    }
}

} // verus!
