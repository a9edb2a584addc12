//! Exclusive prefix sum by repeated doubling.
//!
//! Each pass adds to every position the value `offset` places behind it,
//! reading one buffer and writing the other; the offset doubles from pass to
//! pass. Every pass is independent work per position, which is what makes the
//! scheme parallel.
use vstd::prelude::*;

verus! {

/// The sum of `v[lo..hi]`.
pub open spec fn range_sum(v: Seq<u32>, lo: int, hi: int) -> int
    decreases hi - lo,
{
    if hi <= lo {
        0
    } else {
        range_sum(v, lo, hi - 1) + v[hi - 1]
    }
}

/// The sum of all of `v`.
pub open spec fn total_sum(v: Seq<u32>) -> int {
    range_sum(v, 0, v.len() as int)
}

/// `p` is the exclusive prefix sum of `v`: one entry more than `v`, the
/// entry at `j` being the sum of the first `j` values.
pub open spec fn is_exclusive_prefix_sum(v: Seq<u32>, p: Seq<u32>) -> bool {
    &&& p.len() == v.len() + 1
    &&& forall|j: int| 0 <= j <= v.len() ==> #[trigger] p[j] == range_sum(v, 0, j)
}

pub proof fn lemma_range_sum_split(v: Seq<u32>, a: int, b: int, c: int)
    requires
        a <= b <= c,
    ensures
        range_sum(v, a, c) == range_sum(v, a, b) + range_sum(v, b, c),
    decreases c - b,
{
    if c > b {
        lemma_range_sum_split(v, a, b, c - 1);
    }
}

pub proof fn lemma_range_sum_nonneg(v: Seq<u32>, a: int, b: int)
    ensures
        range_sum(v, a, b) >= 0,
    decreases b - a,
{
    if b > a {
        lemma_range_sum_nonneg(v, a, b - 1);
    }
}

/// A sum over a window is at most the sum over any window around it.
pub proof fn lemma_range_sum_mono(v: Seq<u32>, a: int, b: int, c: int, d: int)
    requires
        a <= b <= c <= d,
    ensures
        range_sum(v, b, c) <= range_sum(v, a, d),
{
    lemma_range_sum_split(v, a, b, d);
    lemma_range_sum_split(v, b, c, d);
    lemma_range_sum_nonneg(v, a, b);
    lemma_range_sum_nonneg(v, c, d);
}

/// Position `j` of a buffer after the passes so far: the sum of the `w`
/// values just before `j`.
pub open spec fn window(v: Seq<u32>, w: int, j: int) -> int {
    range_sum(v, max0(j - w), j)
}

pub open spec fn max0(a: int) -> int {
    if a < 0 { 0 } else { a }
}

/// One pass: `dst[j] = src[j] + src[j - offset]` where `j >= offset`.
fn prefix_sum_pass(v: Ghost<Seq<u32>>, src: &Vec<u32>, offset: usize) -> (dst: Vec<u32>)
    requires
        src.len() == v@.len() + 1,
        1 <= offset <= v@.len(),
        total_sum(v@) <= u32::MAX,
        forall|j: int| 0 <= j < src.len() ==> #[trigger] src[j] == window(v@, offset as int, j),
    ensures
        dst.len() == src.len(),
        forall|j: int| 0 <= j < dst.len() ==> #[trigger] dst[j] == window(v@, 2 * offset as int, j),
{
    let n = src.len();
    let mut dst: Vec<u32> = Vec::with_capacity(n);
    let mut j: usize = 0;
    while j < n
        invariant
            n == src.len(),
            src.len() == v@.len() + 1,
            1 <= offset <= v@.len(),
            total_sum(v@) <= u32::MAX,
            forall|k: int| 0 <= k < src.len() ==> #[trigger] src[k] == window(v@, offset as int, k),
            dst.len() == j,
            j <= n,
            forall|k: int| 0 <= k < j ==> #[trigger] dst[k] == window(v@, 2 * offset as int, k),
        decreases n - j,
    {
        let ghost w = offset as int;
        let ghost ji = j as int;
        proof {
            lemma_range_sum_mono(v@, 0, max0(ji - 2 * w), ji, v@.len() as int);
        }
        if j >= offset {
            proof {
                lemma_range_sum_split(v@, max0(ji - 2 * w), ji - w, ji);
                assert(src[ji - w] == window(v@, w, ji - w));
                assert(max0(ji - w - w) == max0(ji - 2 * w));
            }
            dst.push(src[j] + src[j - offset]);
        } else {
            dst.push(src[j]);
        }
        j += 1;
    }
    dst
}

/// The exclusive prefix sum of `values` and the total of all of them.
///
/// The result has one entry more than `values`; its first entry is 0 and its
/// last is the total. It takes `ceil(log2 n)` doubling passes.
pub fn prefix_sum(values: &Vec<u32>) -> (r: (Vec<u32>, u32))
    requires
        values.len() < u32::MAX,
        total_sum(values@) <= u32::MAX,
    ensures
        is_exclusive_prefix_sum(values@, r.0@),
        r.1 == total_sum(values@),
        r.0@[values.len() as int] == r.1,
{
    let n = values.len();
    let ghost v = values@;
    // the values shifted one place on, behind a leading zero
    let mut buf: Vec<u32> = Vec::with_capacity(n + 1);
    buf.push(0);
    let mut i: usize = 0;
    while i < n
        invariant
            n == values.len(),
            v == values@,
            buf.len() == i + 1,
            i <= n,
            forall|k: int| 0 <= k <= i ==> #[trigger] buf[k] == window(v, 1, k),
        decreases n - i,
    {
        proof {
            assert(range_sum(v, i as int, i as int + 1) == v[i as int]) by {
                assert(range_sum(v, i as int, i as int) == 0);
            }
        }
        buf.push(values[i]);
        i += 1;
    }
    let mut offset: u64 = 1;
    while offset < n as u64
        invariant
            n == values.len(),
            n < u32::MAX,
            v == values@,
            buf.len() == n + 1,
            1 <= offset,
            offset == 1 || offset < 2 * n,
            total_sum(v) <= u32::MAX,
            forall|k: int| 0 <= k <= n ==> #[trigger] buf[k] == window(v, offset as int, k),
        decreases 2 * n + 2 - offset,
    {
        buf = prefix_sum_pass(Ghost(v), &buf, offset as usize);
        offset = offset * 2;
    }
    assert forall|j: int| 0 <= j <= n implies #[trigger] buf[j] == range_sum(v, 0, j) by {
        assert(window(v, offset as int, j) == range_sum(v, 0, j));
    }
    let total = buf[n];
    (buf, total)
}

} // verus!
