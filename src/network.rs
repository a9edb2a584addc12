//! The bitonic network as a function on key sequences, and the proof that it
//! sorts.
//!
//! The proof goes through the 0-1 principle: each pass commutes with every
//! threshold map `x -> [x >= c]`, so the network sorts every sequence if it
//! sorts every sequence of zeros and ones. A 0-1 sequence is bitonic when
//! its ones (or its zeros) form one interval; a half-cleaner splits a bitonic
//! block into two bitonic halves, one of them clean, with every entry of the
//! lower half ordered before every entry of the upper half.
use vstd::prelude::*;
use vstd::arithmetic::div_mod::{
    lemma_div_denominator, lemma_fundamental_div_mod, lemma_fundamental_div_mod_converse,
};

verus! {

/// Position `t` is the lower end of its pair at step `j`.
pub open spec fn lower(t: int, j: int) -> bool {
    (t / j) % 2 == 0
}

/// Pairs whose lower end is `t` are put in ascending order in phase `k`.
pub open spec fn ascending(t: int, k: int) -> bool {
    (t / k) % 2 == 0
}

pub open spec fn min_u64(a: u64, b: u64) -> u64 {
    if a <= b { a } else { b }
}

pub open spec fn max_u64(a: u64, b: u64) -> u64 {
    if a >= b { a } else { b }
}

/// The keys after the pass `(k, j)`: each pair `(t, t + j)` with `t` a lower
/// end is ordered ascending or descending as phase `k` says for `t`.
pub open spec fn pass_keys(s: Seq<u64>, k: int, j: int) -> Seq<u64> {
    Seq::new(
        s.len(),
        |t: int|
            if lower(t, j) {
                if t + j < s.len() {
                    if ascending(t, k) {
                        min_u64(s[t], s[t + j])
                    } else {
                        max_u64(s[t], s[t + j])
                    }
                } else {
                    s[t]
                }
            } else if ascending(t - j, k) {
                max_u64(s[t - j], s[t])
            } else {
                min_u64(s[t - j], s[t])
            },
    )
}

/// The pair `(t, t + j)` (with `t` its lower end) is exchanged by the pass:
/// it is out of the order that phase `k` asks for.
pub open spec fn exchanged(s: Seq<u64>, t: int, k: int, j: int) -> bool {
    if ascending(t, k) {
        s[t] > s[t + j]
    } else {
        s[t] < s[t + j]
    }
}

/// The values after the pass `(k, j)`: each value moves with its key.
pub open spec fn pass_values(s: Seq<u64>, v: Seq<u32>, k: int, j: int) -> Seq<u32> {
    Seq::new(
        v.len(),
        |t: int|
            if lower(t, j) {
                if t + j < s.len() && exchanged(s, t, k, j) {
                    v[t + j]
                } else {
                    v[t]
                }
            } else if exchanged(s, t - j, k, j) {
                v[t - j]
            } else {
                v[t]
            },
    )
}

/// The values after the passes `(k, j), (k, j / 2), ..., (k, 1)`.
pub open spec fn apply_steps_values(s: Seq<u64>, v: Seq<u32>, k: int, j: int) -> Seq<u32>
    decreases j,
{
    if j <= 0 {
        v
    } else {
        apply_steps_values(pass_keys(s, k, j), pass_values(s, v, k, j), k, j / 2)
    }
}

/// The values after the phases `2, 4, ..., k`.
pub open spec fn apply_phases_values(s: Seq<u64>, v: Seq<u32>, k: int) -> Seq<u32>
    decreases k,
{
    if k < 2 {
        v
    } else {
        apply_steps_values(apply_phases(s, k / 2), apply_phases_values(s, v, k / 2), k, k / 2)
    }
}

/// The passes `(k, j), (k, j / 2), ..., (k, 1)`.
pub open spec fn apply_steps(s: Seq<u64>, k: int, j: int) -> Seq<u64>
    decreases j,
{
    if j <= 0 {
        s
    } else {
        apply_steps(pass_keys(s, k, j), k, j / 2)
    }
}

/// The phases `2, 4, ..., k` of the network.
pub open spec fn apply_phases(s: Seq<u64>, k: int) -> Seq<u64>
    decreases k,
{
    if k < 2 {
        s
    } else {
        apply_steps(apply_phases(s, k / 2), k, k / 2)
    }
}

pub open spec fn is_pow2(x: int) -> bool
    decreases x,
{
    if x <= 0 {
        false
    } else if x == 1 {
        true
    } else {
        x % 2 == 0 && is_pow2(x / 2)
    }
}

/// Sorted ascending.
pub open spec fn sorted(s: Seq<u64>) -> bool {
    forall|a: int, b: int| 0 <= a < b < s.len() ==> s[a] <= s[b]
}

/// The two ends of a pair: the upper end of a lower `t` is `t + j`, and the
/// lower end of an upper `t` is `t - j`.
pub proof fn lemma_pair_ends(t: int, j: int)
    requires
        t >= 0,
        j >= 1,
    ensures
        lower(t, j) ==> !lower(t + j, j),
        !lower(t, j) ==> t >= j && lower(t - j, j),
{
    vstd::arithmetic::div_mod::lemma_div_plus_one(t, j);
    assert((j + t) / j == 1 + t / j);
    if !lower(t, j) {
        if t < j {
            lemma_fundamental_div_mod_converse(t, j, 0, t);
        }
        vstd::arithmetic::div_mod::lemma_div_plus_one(t - j, j);
        assert(t / j == 1 + (t - j) / j);
    }
}

/// `1` where `x` reaches `c`, else `0`: a monotone map onto zeros and ones.
pub open spec fn thr(c: u64, x: u64) -> u64 {
    if x >= c { 1 } else { 0 }
}

pub open spec fn thr_seq(c: u64, s: Seq<u64>) -> Seq<u64> {
    Seq::new(s.len(), |t: int| thr(c, s[t]))
}

/// Every entry is 0 or 1.
pub open spec fn is01(s: Seq<u64>) -> bool {
    forall|t: int| 0 <= t < s.len() ==> #[trigger] s[t] <= 1
}

/// A pass commutes with a threshold map.
pub proof fn lemma_pass_thr(s: Seq<u64>, k: int, j: int, c: u64)
    requires
        j >= 1,
    ensures
        pass_keys(thr_seq(c, s), k, j) == thr_seq(c, pass_keys(s, k, j)),
{
    let a = pass_keys(thr_seq(c, s), k, j);
    let b = thr_seq(c, pass_keys(s, k, j));
    assert forall|t: int| 0 <= t < s.len() implies a[t] == b[t] by {
        if !lower(t, j) {
            lemma_pair_ends(t, j);
        }
    }
    assert(a =~= b);
}

pub proof fn lemma_steps_thr(s: Seq<u64>, k: int, j: int, c: u64)
    ensures
        apply_steps(thr_seq(c, s), k, j) == thr_seq(c, apply_steps(s, k, j)),
    decreases j,
{
    if j > 0 {
        lemma_pass_thr(s, k, j, c);
        lemma_steps_thr(pass_keys(s, k, j), k, j / 2, c);
    }
}

pub proof fn lemma_phases_thr(s: Seq<u64>, k: int, c: u64)
    ensures
        apply_phases(thr_seq(c, s), k) == thr_seq(c, apply_phases(s, k)),
    decreases k,
{
    if k >= 2 {
        lemma_phases_thr(s, k / 2, c);
        lemma_steps_thr(apply_phases(s, k / 2), k, k / 2, c);
    }
}

pub proof fn lemma_pass_is01(s: Seq<u64>, k: int, j: int)
    requires
        j >= 1,
        is01(s),
    ensures
        is01(pass_keys(s, k, j)),
        pass_keys(s, k, j).len() == s.len(),
{
    assert forall|t: int| 0 <= t < s.len() implies #[trigger] pass_keys(s, k, j)[t] <= 1 by {
        if !lower(t, j) {
            lemma_pair_ends(t, j);
        }
    }
}

/// Within `s[b..b + m]` the ones (with `one` false: the zeros) are exactly `s[x..y]`.
pub open spec fn interval01(s: Seq<u64>, b: int, m: int, x: int, y: int, one: bool) -> bool {
    &&& b <= x <= y <= b + m
    &&& forall|t: int| b <= t < b + m ==> #[trigger] s[t] == if (x <= t < y) == one { 1u64 } else { 0u64 }
}

/// `s[b..b + m]` is a bitonic sequence of zeros and ones.
pub open spec fn bitonic01(s: Seq<u64>, b: int, m: int) -> bool {
    exists|x: int, y: int, one: bool| #[trigger] interval01(s, b, m, x, y, one)
}

/// A half-cleaner on a bitonic 0-1 block `s[b..b + 2j]`, ascending or not,
/// leaves two bitonic halves with every entry of the lower half ordered
/// before every entry of the upper half.
pub proof fn lemma_half_cleaner(s: Seq<u64>, s2: Seq<u64>, b: int, j: int, asc: bool)
    requires
        j >= 1,
        0 <= b,
        b + 2 * j <= s.len(),
        s2.len() == s.len(),
        bitonic01(s, b, 2 * j),
        forall|t: int| b <= t < b + j ==> #[trigger] s2[t] == if asc {
            min_u64(s[t], s[t + j])
        } else {
            max_u64(s[t], s[t + j])
        },
        forall|u: int| b + j <= u < b + 2 * j ==> #[trigger] s2[u] == if asc {
            max_u64(s[u - j], s[u])
        } else {
            min_u64(s[u - j], s[u])
        },
    ensures
        bitonic01(s2, b, j),
        bitonic01(s2, b + j, j),
        forall|t: int, u: int| b <= t < b + j && b + j <= u < b + 2 * j ==>
            if asc { #[trigger] s2[t] <= #[trigger] s2[u] } else { s2[t] >= s2[u] },
{
    let (x, y, one) = choose|x: int, y: int, one: bool| #[trigger] interval01(s, b, 2 * j, x, y, one);
    assert(interval01(s, b, 2 * j, x, y, one));
    // the witnesses of the two halves, case by case
    let big = y - x >= j;
    let lo_w: (int, int, bool);
    let hi_w: (int, int, bool);
    // the shape of `max` over ones, or of `min` over zeros, on the lower half
    let wide: (int, int, bool) = if big {
        (b, b + j, one)
    } else if y <= b + j {
        (x, y, one)
    } else if x >= b + j {
        (x - j, y - j, one)
    } else {
        (y - j, x, !one)
    };
    // the shape of `min` over ones, or of `max` over zeros, on the lower half
    let narrow: (int, int, bool) = if x <= y - j {
        (x, y - j, one)
    } else {
        (b, b, one)
    };
    if asc == one {
        lo_w = narrow;
        hi_w = (wide.0 + j, wide.1 + j, wide.2);
    } else {
        lo_w = wide;
        hi_w = (narrow.0 + j, narrow.1 + j, narrow.2);
    }
    assert forall|t: int| b <= t < b + j implies #[trigger] s2[t] == if (lo_w.0 <= t < lo_w.1) == lo_w.2 {
        1u64
    } else {
        0u64
    } by {
        assert(s[t] == if (x <= t < y) == one { 1u64 } else { 0u64 });
        assert(s[t + j] == if (x <= t + j < y) == one { 1u64 } else { 0u64 });
    }
    assert(interval01(s2, b, j, lo_w.0, lo_w.1, lo_w.2));
    assert forall|u: int| b + j <= u < b + 2 * j implies #[trigger] s2[u] == if (hi_w.0 <= u < hi_w.1) == hi_w.2 {
        1u64
    } else {
        0u64
    } by {
        assert(s[u] == if (x <= u < y) == one { 1u64 } else { 0u64 });
        assert(s[u - j] == if (x <= u - j < y) == one { 1u64 } else { 0u64 });
    }
    assert(interval01(s2, b + j, j, hi_w.0, hi_w.1, hi_w.2));
    assert forall|t: int, u: int| b <= t < b + j && b + j <= u < b + 2 * j implies
        if asc { #[trigger] s2[t] <= #[trigger] s2[u] } else { s2[t] >= s2[u] } by {
        assert(s[t] == if (x <= t < y) == one { 1u64 } else { 0u64 });
        assert(s[t + j] == if (x <= t + j < y) == one { 1u64 } else { 0u64 });
        assert(s[u] == if (x <= u < y) == one { 1u64 } else { 0u64 });
        assert(s[u - j] == if (x <= u - j < y) == one { 1u64 } else { 0u64 });
    }
}

/// `t` lies in the `q`-th block of size `m` exactly when `t / m == q`.
pub proof fn lemma_div_range(t: int, m: int, q: int)
    requires
        m >= 1,
        t >= 0,
    ensures
        (t / m == q) <==> (q * m <= t < q * m + m),
{
    lemma_fundamental_div_mod(t, m);
    if q * m <= t < q * m + m {
        lemma_fundamental_div_mod_converse(t, m, q, t - q * m);
    } else if t / m == q {
        assert(t == m * q + t % m);
        assert(m * q == q * m) by (nonlinear_arith);
    }
}

/// In the block `[q 2j, q 2j + 2j)`, the lower ends are the first half.
pub proof fn lemma_in_pair_block(t: int, j: int, q: int)
    requires
        j >= 1,
        t >= 0,
        q * (2 * j) <= t < q * (2 * j) + 2 * j,
    ensures
        lower(t, j) <==> t < q * (2 * j) + j,
        t / (2 * j) == q,
{
    assert(q * (2 * j) == (2 * q) * j) by (nonlinear_arith);
    assert((2 * q) * j + j == (2 * q + 1) * j) by (nonlinear_arith);
    lemma_div_range(t, 2 * j, q);
    if t < q * (2 * j) + j {
        lemma_div_range(t, j, 2 * q);
    } else {
        lemma_div_range(t, j, 2 * q + 1);
    }
}

/// Every position of the `q`-th block of size `m` is in block `q / c` of size `m c`.
pub proof fn lemma_block_of(t: int, m: int, c: int, q: int)
    requires
        m >= 1,
        c >= 1,
        t >= 0,
        q * m <= t < q * m + m,
    ensures
        t / (m * c) == q / c,
{
    lemma_div_range(t, m, q);
    lemma_div_denominator(t, m, c);
}

/// Blocks of size `m` dividing a length `n` fit in it.
pub proof fn lemma_block_fits(q: int, m: int, n: int)
    requires
        m >= 1,
        n >= 0,
        n % m == 0,
        0 <= q < n / m,
    ensures
        q * m + m <= n,
        0 <= q * m,
{
    lemma_fundamental_div_mod(n, m);
    assert(q * m + m <= (n / m) * m) by (nonlinear_arith)
        requires q + 1 <= n / m, m >= 1;
    assert(m * (n / m) == (n / m) * m) by (nonlinear_arith);
    assert(0 <= q * m) by (nonlinear_arith)
        requires q >= 0, m >= 1;
}

/// During phase `k`: the blocks of size `m` are bitonic, and within each
/// block of size `k` the blocks of size `m` come in the phase's order.
pub open spec fn mstate(s: Seq<u64>, k: int, m: int) -> bool {
    &&& forall|q: int| 0 <= q < s.len() as int / m ==> #[trigger] bitonic01(s, q * m, m)
    &&& forall|a: int, b: int|
        0 <= a < s.len() && 0 <= b < s.len() && a / k == b / k && a / m < b / m ==> if ascending(a, k) {
            #[trigger] s[a] <= #[trigger] s[b]
        } else {
            s[a] >= s[b]
        }
}

/// The pass `(k, j)` on the block `[q 2j, q 2j + 2j)` is a half-cleaner in
/// the direction of the block's phase.
pub proof fn lemma_pass_block(s: Seq<u64>, k: int, j: int, c: int, q: int)
    requires
        j >= 1,
        c >= 1,
        k == 2 * j * c,
        s.len() as int % (2 * j) == 0,
        0 <= q < s.len() as int / (2 * j),
        bitonic01(s, q * (2 * j), 2 * j),
    ensures
        bitonic01(pass_keys(s, k, j), q * (2 * j), j),
        bitonic01(pass_keys(s, k, j), q * (2 * j) + j, j),
        forall|t: int, u: int| q * (2 * j) <= t < q * (2 * j) + j && q * (2 * j) + j <= u < q * (2 * j) + 2 * j ==>
            if ascending(q * (2 * j), k) {
                #[trigger] pass_keys(s, k, j)[t] <= #[trigger] pass_keys(s, k, j)[u]
            } else {
                pass_keys(s, k, j)[t] >= pass_keys(s, k, j)[u]
            },
{
    let b = q * (2 * j);
    let s2 = pass_keys(s, k, j);
    let asc = ascending(b, k);
    lemma_block_fits(q, 2 * j, s.len() as int);
    assert(2 * j * c == (2 * j) * c);
    lemma_block_of(b, 2 * j, c, q);
    assert forall|t: int| b <= t < b + j implies #[trigger] s2[t] == if asc {
        min_u64(s[t], s[t + j])
    } else {
        max_u64(s[t], s[t + j])
    } by {
        lemma_in_pair_block(t, j, q);
        lemma_block_of(t, 2 * j, c, q);
    }
    assert forall|u: int| b + j <= u < b + 2 * j implies #[trigger] s2[u] == if asc {
        max_u64(s[u - j], s[u])
    } else {
        min_u64(s[u - j], s[u])
    } by {
        lemma_in_pair_block(u, j, q);
        lemma_block_of(u - j, 2 * j, c, q);
    }
    lemma_half_cleaner(s, s2, b, j, asc);
}

/// A length that is a multiple of `k = 2 j c` is a multiple of `2 j` and of `j`.
pub proof fn lemma_len_multiples(n: int, k: int, j: int, c: int)
    requires
        n >= 0,
        j >= 1,
        c >= 1,
        k == 2 * j * c,
        n % k == 0,
    ensures
        n % (2 * j) == 0,
        n % j == 0,
        n / (2 * j) == c * (n / k),
        n / j == 2 * (c * (n / k)),
{
    assert(k >= 1) by (nonlinear_arith)
        requires k == 2 * j * c, j >= 1, c >= 1;
    lemma_fundamental_div_mod(n, k);
    let nk = n / k;
    assert(n == (c * nk) * (2 * j)) by (nonlinear_arith)
        requires n == k * nk, k == 2 * j * c;
    assert(n == (2 * c * nk) * j) by (nonlinear_arith)
        requires n == k * nk, k == 2 * j * c;
    lemma_fundamental_div_mod_converse(n, 2 * j, c * nk, 0);
    lemma_fundamental_div_mod_converse(n, j, 2 * c * nk, 0);
    assert(2 * c * nk == 2 * (c * nk)) by (nonlinear_arith);
}

/// One pass `(k, j)` takes phase `k` from bitonic blocks of size `2j` to
/// bitonic blocks of size `j`, keeping the order between blocks.
pub proof fn lemma_merge_step(s: Seq<u64>, k: int, j: int, c: int)
    requires
        j >= 1,
        c >= 1,
        k == 2 * j * c,
        s.len() as int % k == 0,
        mstate(s, k, 2 * j),
    ensures
        mstate(pass_keys(s, k, j), k, j),
{
    let n = s.len() as int;
    let s2 = pass_keys(s, k, j);
    lemma_len_multiples(n, k, j, c);
    assert forall|q2: int| 0 <= q2 < n / j implies #[trigger] bitonic01(s2, q2 * j, j) by {
        let q = q2 / 2;
        assert(0 <= q < n / (2 * j));
        assert(bitonic01(s, q * (2 * j), 2 * j));
        lemma_pass_block(s, k, j, c, q);
        if q2 % 2 == 0 {
            assert(q2 * j == q * (2 * j)) by (nonlinear_arith)
                requires q2 == 2 * q;
        } else {
            assert(q2 * j == q * (2 * j) + j) by (nonlinear_arith)
                requires q2 == 2 * q + 1;
        }
    }
    assert forall|a: int, b: int|
        0 <= a < n && 0 <= b < n && a / k == b / k && a / j < b / j implies if ascending(a, k) {
            #[trigger] s2[a] <= #[trigger] s2[b]
        } else {
            s2[a] >= s2[b]
        } by {
        lemma_div_denominator(a, j, 2);
        lemma_div_denominator(b, j, 2);
        assert(j * 2 == 2 * j);
        let qa = a / (2 * j);
        let qb = b / (2 * j);
        lemma_div_range(a, 2 * j, qa);
        lemma_div_range(b, 2 * j, qb);
        lemma_in_pair_block(a, j, qa);
        lemma_in_pair_block(b, j, qb);
        assert(0 <= qa < n / (2 * j)) by {
            lemma_div_is_ordered_nonneg(a, n, 2 * j);
            if qa == n / (2 * j) {
                lemma_block_fits_eq(n, 2 * j);
            }
        }
        assert(0 <= qb < n / (2 * j)) by {
            lemma_div_is_ordered_nonneg(b, n, 2 * j);
            if qb == n / (2 * j) {
                lemma_block_fits_eq(n, 2 * j);
            }
        }
        lemma_block_fits(qa, 2 * j, n);
        lemma_block_fits(qb, 2 * j, n);
        assert(2 * j * c == (2 * j) * c);
        if qa < qb {
            let pa = if lower(a, j) { a + j } else { a - j };
            let pb = if lower(b, j) { b + j } else { b - j };
            lemma_pair_ends(a, j);
            lemma_pair_ends(b, j);
            lemma_block_of(a, 2 * j, c, qa);
            lemma_block_of(pa, 2 * j, c, qa);
            lemma_block_of(b, 2 * j, c, qb);
            lemma_block_of(pb, 2 * j, c, qb);
            lemma_in_pair_block(pa, j, qa);
            lemma_in_pair_block(pb, j, qb);
            assert(s2[a] == s[a] || s2[a] == s[pa]);
            assert(s2[b] == s[b] || s2[b] == s[pb]);
            assert(pa / j < b / j && a / j < pb / j && pa / j < pb / j) by {
                lemma_div_denominator(pa, j, 2);
                lemma_div_denominator(pb, j, 2);
            }
            if ascending(a, k) {
                assert(s[a] <= s[b] && s[a] <= s[pb] && s[pa] <= s[b] && s[pa] <= s[pb]) by {
                    assert(mstate(s, k, 2 * j));
                }
            } else {
                assert(s[a] >= s[b] && s[a] >= s[pb] && s[pa] >= s[b] && s[pa] >= s[pb]) by {
                    assert(mstate(s, k, 2 * j));
                }
            }
        } else {
            assert(qa == qb);
            assert(bitonic01(s, qa * (2 * j), 2 * j));
            lemma_pass_block(s, k, j, c, qa);
            lemma_block_of(a, 2 * j, c, qa);
            lemma_block_of(qa * (2 * j), 2 * j, c, qa);
            assert(a < qa * (2 * j) + j && b >= qa * (2 * j) + j);
        }
    }
}

pub proof fn lemma_div_is_ordered_nonneg(a: int, n: int, d: int)
    requires
        0 <= a < n,
        d >= 1,
    ensures
        0 <= a / d <= n / d,
{
    vstd::arithmetic::div_mod::lemma_div_is_ordered(a, n, d);
    vstd::arithmetic::div_mod::lemma_div_pos_is_pos(a, d);
}

/// Position `n` itself begins block `n / d` when `d` divides `n`.
pub proof fn lemma_block_fits_eq(n: int, d: int)
    requires
        n >= 0,
        d >= 1,
        n % d == 0,
    ensures
        (n / d) * d == n,
{
    lemma_fundamental_div_mod(n, d);
    assert(d * (n / d) == (n / d) * d) by (nonlinear_arith);
}

/// Within every block of size `k`, the order of phase `k`.
pub open spec fn sorted_blocks(s: Seq<u64>, k: int) -> bool {
    forall|a: int, b: int| 0 <= a < b < s.len() && a / k == b / k ==> if ascending(a, k) {
        #[trigger] s[a] <= #[trigger] s[b]
    } else {
        s[a] >= s[b]
    }
}

/// An ascending 0-1 run `s[lo..hi]` is zeros then ones; the ones start at the result.
pub proof fn lemma_threshold_up(s: Seq<u64>, lo: int, hi: int) -> (x: int)
    requires
        0 <= lo <= hi <= s.len(),
        forall|t: int| lo <= t < hi ==> #[trigger] s[t] <= 1,
        forall|a: int, b: int| lo <= a < b < hi ==> #[trigger] s[a] <= #[trigger] s[b],
    ensures
        lo <= x <= hi,
        forall|t: int| lo <= t < hi ==> #[trigger] s[t] == if t >= x { 1u64 } else { 0u64 },
    decreases hi - lo,
{
    if hi == lo {
        lo
    } else {
        let x0 = lemma_threshold_up(s, lo, hi - 1);
        if s[hi - 1] == 1 {
            x0
        } else {
            assert forall|t: int| lo <= t < hi implies #[trigger] s[t] == 0 by {
                if t < hi - 1 {
                    assert(s[t] <= s[hi - 1]);
                }
            }
            hi
        }
    }
}

/// A descending 0-1 run `s[lo..hi]` is ones then zeros; the zeros start at the result.
pub proof fn lemma_threshold_down(s: Seq<u64>, lo: int, hi: int) -> (y: int)
    requires
        0 <= lo <= hi <= s.len(),
        forall|t: int| lo <= t < hi ==> #[trigger] s[t] <= 1,
        forall|a: int, b: int| lo <= a < b < hi ==> #[trigger] s[a] >= #[trigger] s[b],
    ensures
        lo <= y <= hi,
        forall|t: int| lo <= t < hi ==> #[trigger] s[t] == if t < y { 1u64 } else { 0u64 },
    decreases hi - lo,
{
    if hi == lo {
        lo
    } else {
        let y0 = lemma_threshold_down(s, lo, hi - 1);
        if s[hi - 1] == 0 {
            y0
        } else {
            assert forall|t: int| lo <= t < hi implies #[trigger] s[t] == 1 by {
                if t < hi - 1 {
                    assert(s[t] >= s[hi - 1]);
                }
            }
            hi
        }
    }
}

/// At the start of phase `k = 2h`, every block of size `k` is an ascending
/// run followed by a descending one: bitonic.
pub proof fn lemma_phase_start(s: Seq<u64>, h: int)
    requires
        h >= 1,
        is01(s),
        s.len() as int % (2 * h) == 0,
        sorted_blocks(s, h),
    ensures
        mstate(s, 2 * h, 2 * h),
{
    let n = s.len() as int;
    let k = 2 * h;
    assert forall|q: int| 0 <= q < n / k implies #[trigger] bitonic01(s, q * k, k) by {
        let b = q * k;
        lemma_block_fits(q, k, n);
        assert(b == (2 * q) * h && b + h == (2 * q + 1) * h) by (nonlinear_arith)
            requires b == q * k, k == 2 * h;
        assert forall|x1: int, x2: int| b <= x1 < x2 < b + h implies #[trigger] s[x1] <= #[trigger] s[x2] by {
            lemma_div_range(x1, h, 2 * q);
            lemma_div_range(x2, h, 2 * q);
        }
        assert forall|x1: int, x2: int| b + h <= x1 < x2 < b + k implies #[trigger] s[x1] >= #[trigger] s[x2] by {
            lemma_div_range(x1, h, 2 * q + 1);
            lemma_div_range(x2, h, 2 * q + 1);
        }
        let x = lemma_threshold_up(s, b, b + h);
        let y = lemma_threshold_down(s, b + h, b + k);
        assert(interval01(s, b, k, x, y, true));
    }
    assert forall|a: int, b: int|
        0 <= a < n && 0 <= b < n && a / k == b / k && a / k < b / k implies if ascending(a, k) {
            #[trigger] s[a] <= #[trigger] s[b]
        } else {
            s[a] >= s[b]
        } by {
    }
}

/// Phase `k` ends with every block of size `k` in its order.
pub proof fn lemma_phase_end(s: Seq<u64>, k: int)
    requires
        k >= 1,
        mstate(s, k, 1),
    ensures
        sorted_blocks(s, k),
{
    assert forall|a: int, b: int| 0 <= a < b < s.len() && a / k == b / k implies if ascending(a, k) {
        #[trigger] s[a] <= #[trigger] s[b]
    } else {
        s[a] >= s[b]
    } by {
        assert(a / 1 == a && b / 1 == b);
    }
}

pub proof fn lemma_steps(s: Seq<u64>, k: int, j: int, c: int)
    requires
        is_pow2(j),
        c >= 1,
        k == 2 * j * c,
        s.len() as int % k == 0,
        mstate(s, k, 2 * j),
    ensures
        mstate(apply_steps(s, k, j), k, 1),
        apply_steps(s, k, j).len() == s.len(),
    decreases j,
{
    lemma_merge_step(s, k, j, c);
    let s2 = pass_keys(s, k, j);
    if j == 1 {
        assert(apply_steps(s2, k, 0) == s2);
    } else {
        assert(j % 2 == 0 && is_pow2(j / 2));
        assert(2 * (j / 2) == j);
        assert(k == 2 * (j / 2) * (2 * c)) by (nonlinear_arith)
            requires k == 2 * j * c, 2 * (j / 2) == j;
        lemma_steps(s2, k, j / 2, 2 * c);
    }
}

pub proof fn lemma_steps_is01(s: Seq<u64>, k: int, j: int)
    requires
        is01(s),
    ensures
        is01(apply_steps(s, k, j)),
        apply_steps(s, k, j).len() == s.len(),
    decreases j,
{
    if j > 0 {
        lemma_pass_is01(s, k, j);
        lemma_steps_is01(pass_keys(s, k, j), k, j / 2);
    }
}

/// The first phases, up to `k`, leave every block of size `k` in its order.
pub proof fn lemma_phases(s: Seq<u64>, k: int)
    requires
        is01(s),
        is_pow2(k),
        s.len() as int % k == 0,
    ensures
        sorted_blocks(apply_phases(s, k), k),
        is01(apply_phases(s, k)),
        apply_phases(s, k).len() == s.len(),
    decreases k,
{
    if k == 1 {
        assert forall|a: int, b: int| 0 <= a < b < s.len() && a / k == b / k implies if ascending(a, k) {
            #[trigger] s[a] <= #[trigger] s[b]
        } else {
            s[a] >= s[b]
        } by {
            assert(a / 1 == a && b / 1 == b);
        }
    } else {
        let h = k / 2;
        assert(k % 2 == 0 && is_pow2(h));
        assert(k == 2 * h);
        let n = s.len() as int;
        assert(n % h == 0) by {
            lemma_len_multiples(n, k, h, 1);
        }
        lemma_phases(s, h);
        let r = apply_phases(s, h);
        lemma_phase_start(r, h);
        lemma_steps(r, k, h, 1);
        lemma_steps_is01(r, k, h);
        lemma_phase_end(apply_steps(r, k, h), k);
    }
}

/// The network sorts every sequence of zeros and ones whose length is a power of two.
pub proof fn lemma_network_sorts01(s: Seq<u64>)
    requires
        is01(s),
        is_pow2(s.len() as int),
    ensures
        sorted(apply_phases(s, s.len() as int)),
{
    let n = s.len() as int;
    assert(n % n == 0) by {
        lemma_fundamental_div_mod_converse(n, n, 1, 0);
    }
    lemma_phases(s, n);
    let r = apply_phases(s, n);
    assert forall|a: int, b: int| 0 <= a < b < r.len() implies r[a] <= r[b] by {
        lemma_div_range(a, n, 0);
        lemma_div_range(b, n, 0);
    }
}

/// The network sorts every sequence whose length is a power of two.
pub proof fn lemma_network_sorts(s: Seq<u64>)
    requires
        is_pow2(s.len() as int),
    ensures
        sorted(apply_phases(s, s.len() as int)),
{
    let n = s.len() as int;
    let r = apply_phases(s, n);
    lemma_phases_len(s, n);
    assert forall|a: int, b: int| 0 <= a < b < r.len() implies r[a] <= r[b] by {
        if r[a] > r[b] {
            let c = r[a];
            let z = thr_seq(c, s);
            lemma_phases_thr(s, n, c);
            lemma_network_sorts01(z);
            assert(apply_phases(z, n)[a] == 1 && apply_phases(z, n)[b] == 0);
        }
    }
}

pub proof fn lemma_phases_len(s: Seq<u64>, k: int)
    ensures
        apply_phases(s, k).len() == s.len(),
    decreases k,
{
    if k >= 2 {
        lemma_phases_len(s, k / 2);
        lemma_steps_len(apply_phases(s, k / 2), k, k / 2);
    }
}

pub proof fn lemma_steps_len(s: Seq<u64>, k: int, j: int)
    ensures
        apply_steps(s, k, j).len() == s.len(),
    decreases j,
{
    if j > 0 {
        lemma_steps_len(pass_keys(s, k, j), k, j / 2);
    }
}

} // verus!
