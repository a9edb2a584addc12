//! Bitonic merge sort of `(key, value)` pairs: a fixed network of
//! compare-and-exchange passes, the same whatever the keys, so that every
//! pass is independent work per pair.
//!
//! The passes run through `(sort_size, step_size)`: `sort_size` doubles from
//! 2 up to the length; for each, `step_size` halves from `sort_size / 2` down
//! to 1. In a pass, position `i` with bit `step_size` clear is compared with
//! `i + step_size`; the pair is put in ascending order where bit `sort_size`
//! of `i` is clear and in descending order where it is set.
use vstd::prelude::*;
use crate::bvh::{is_permutation, lemma_swap_keeps_permutation};
use crate::network::{
    apply_phases, apply_phases_values, apply_steps, apply_steps_values, exchanged, is_pow2,
    lemma_network_sorts, lemma_pair_ends, lower, pass_keys, pass_values, sorted,
};

verus! {

/// Every key is the key that `key_of` gives its value: the pairs still belong together.
pub open spec fn keyed_by(keys: Seq<u64>, values: Seq<u32>, key_of: Seq<u64>) -> bool {
    &&& keys.len() == values.len()
    &&& forall|i: int| 0 <= i < keys.len() ==> (#[trigger] values[i] as int) < key_of.len() && keys[i] == key_of[values[i] as int]
}

fn swap_pair(keys: &mut Vec<u64>, values: &mut Vec<u32>, i: usize, j: usize)
    requires
        i < old(keys).len(),
        j < old(keys).len(),
        old(keys).len() == old(values).len(),
    ensures
        final(keys)@ == old(keys)@.update(i as int, old(keys)@[j as int]).update(j as int, old(keys)@[i as int]),
        final(values)@ == old(values)@.update(i as int, old(values)@[j as int]).update(j as int, old(values)@[i as int]),
{
    let a = keys[i];
    let b = keys[j];
    keys.set(i, b);
    keys.set(j, a);
    let c = values[i];
    let d = values[j];
    values.set(i, d);
    values.set(j, c);
}

proof fn lemma_swap_keeps_pairs(keys: Seq<u64>, values: Seq<u32>, key_of: Seq<u64>, i: int, j: int)
    requires
        0 <= i < keys.len(),
        0 <= j < keys.len(),
        keyed_by(keys, values, key_of),
    ensures
        keyed_by(
            keys.update(i, keys[j]).update(j, keys[i]),
            values.update(i, values[j]).update(j, values[i]),
            key_of,
        ),
{
    let k2 = keys.update(i, keys[j]).update(j, keys[i]);
    let v2 = values.update(i, values[j]).update(j, values[i]);
    assert forall|p: int| 0 <= p < k2.len() implies (#[trigger] v2[p] as int) < key_of.len() && k2[p] == key_of[v2[p] as int] by {
        let sp = if p == j { i } else if p == i { j } else { p };
        assert(k2[p] == keys[sp] && v2[p] == values[sp]);
    }
}

/// One pass of the network over all pairs.
pub fn compare_exchange_pass(keys: &mut Vec<u64>, values: &mut Vec<u32>, sort_size: u64, step_size: u64)
    requires
        old(keys).len() == old(values).len(),
        step_size >= 1,
        sort_size >= 1,
    ensures
        final(keys).len() == old(keys).len(),
        final(values).len() == old(values).len(),
        forall|key_of: Seq<u64>| keyed_by(old(keys)@, old(values)@, key_of) ==> keyed_by(final(keys)@, final(values)@, key_of),
        forall|n: int| is_permutation(old(values)@, n) ==> is_permutation(final(values)@, n),
        final(keys)@ == pass_keys(old(keys)@, sort_size as int, step_size as int),
        final(values)@ == pass_values(old(keys)@, old(values)@, sort_size as int, step_size as int),
{
    let ghost k0 = keys@;
    let ghost v0 = values@;
    let ghost j = step_size as int;
    let ghost pk = pass_keys(k0, sort_size as int, j);
    let ghost pv = pass_values(k0, v0, sort_size as int, j);
    let count = keys.len();
    let mut i: usize = 0;
    proof {
        assert forall|t: int| 0 <= t < count implies #[trigger] keys@[t] == if (lower(t, j) && t < 0) || (!lower(t, j) && t - j < 0) {
            pk[t]
        } else {
            k0[t]
        } by {
            lemma_pair_ends(t, j);
        }
        assert forall|t: int| 0 <= t < count implies #[trigger] values@[t] == if (lower(t, j) && t < 0) || (!lower(t, j) && t - j < 0) {
            pv[t]
        } else {
            v0[t]
        } by {
            lemma_pair_ends(t, j);
        }
    }
    while i < count
        invariant
            count == keys.len(),
            keys.len() == values.len(),
            step_size >= 1,
            sort_size >= 1,
            forall|key_of: Seq<u64>| keyed_by(k0, v0, key_of) ==> keyed_by(keys@, values@, key_of),
            forall|n: int| is_permutation(v0, n) ==> is_permutation(values@, n),
            j == step_size,
            pk == pass_keys(k0, sort_size as int, j),
            keys.len() == k0.len(),
            i <= count,
            forall|t: int| 0 <= t < count ==> #[trigger] keys@[t] == if (lower(t, j) && t < i) || (!lower(t, j) && t - j < i) {
                pk[t]
            } else {
                k0[t]
            },
            pv == pass_values(k0, v0, sort_size as int, j),
            values.len() == v0.len(),
            forall|t: int| 0 <= t < count ==> #[trigger] values@[t] == if (lower(t, j) && t < i) || (!lower(t, j) && t - j < i) {
                pv[t]
            } else {
                v0[t]
            },
        decreases count - i,
    {
        proof {
            lemma_pair_ends(i as int, j);
        }
        let ghost before = keys@;
        let ghost vbefore = values@;
        let is_pair = step_size < count as u64 && (i as u64 / step_size) % 2 == 0
            && i < count - step_size as usize;
        if is_pair {
            let partner = i + step_size as usize;
            proof {
                assert(before[i as int] == k0[i as int]);
                lemma_pair_ends(partner as int, j);
                assert(before[partner as int] == k0[partner as int]);
                assert(vbefore[i as int] == v0[i as int]);
                assert(vbefore[partner as int] == v0[partner as int]);
            }
            let asc = (i as u64 / sort_size) % 2 == 0;
            let out_of_order = if asc { keys[i] > keys[partner] } else { keys[i] < keys[partner] };
            if out_of_order {
                let ghost vc = values@;
                swap_pair(keys, values, i, partner);
                proof {
                    assert forall|key_of: Seq<u64>| keyed_by(k0, v0, key_of) implies keyed_by(keys@, values@, key_of) by {
                        lemma_swap_keeps_pairs(before, vc, key_of, i as int, partner as int);
                    }
                    assert forall|n: int| is_permutation(v0, n) implies is_permutation(values@, n) by {
                        lemma_swap_keeps_permutation(vc, i as int, partner as int, n);
                    }
                }
            }
            proof {
                assert(keys@[i as int] == pk[i as int]);
                assert(keys@[partner as int] == pk[partner as int]);
                assert(exchanged(k0, i as int, sort_size as int, j) == out_of_order);
                assert(values@[i as int] == pv[i as int]);
                assert(values@[partner as int] == pv[partner as int]);
            }
        }
        proof {
            assert forall|t: int| 0 <= t < count implies #[trigger] keys@[t] == if (lower(t, j) && t < i + 1) || (!lower(t, j) && t - j < i + 1) {
                pk[t]
            } else {
                k0[t]
            } by {
                lemma_pair_ends(t, j);
                if t != i && !(is_pair && t == i + j) {
                    assert(keys@[t] == before[t]);
                }
            }
            assert forall|t: int| 0 <= t < count implies #[trigger] values@[t] == if (lower(t, j) && t < i + 1) || (!lower(t, j) && t - j < i + 1) {
                pv[t]
            } else {
                v0[t]
            } by {
                lemma_pair_ends(t, j);
                if t != i && !(is_pair && t == i + j) {
                    assert(values@[t] == vbefore[t]);
                }
            }
        }
        i += 1;
    }
    proof {
        assert forall|t: int| 0 <= t < count implies #[trigger] keys@[t] == pk[t] by {
            lemma_pair_ends(t, j);
        }
        assert(keys@ =~= pk);
        assert forall|t: int| 0 <= t < count implies #[trigger] values@[t] == pv[t] by {
            lemma_pair_ends(t, j);
        }
        assert(values@ =~= pv);
    }
}

/// Sorts the pairs `(keys[i], values[i])` ascending by key with the bitonic
/// network, for a length that is a power of two (shorter inputs are padded by
/// the caller). Pairs are only exchanged, never split: every value keeps its
/// key, and a permutation stays a permutation.
pub fn bitonic_merge_sort(keys: &mut Vec<u64>, values: &mut Vec<u32>)
    requires
        old(keys).len() == old(values).len(),
        old(keys).len() <= u32::MAX,
    ensures
        final(keys).len() == old(keys).len(),
        final(values).len() == old(values).len(),
        forall|key_of: Seq<u64>| keyed_by(old(keys)@, old(values)@, key_of) ==> keyed_by(final(keys)@, final(values)@, key_of),
        forall|n: int| is_permutation(old(values)@, n) ==> is_permutation(final(values)@, n),
        is_pow2(old(keys).len() as int) ==> final(keys)@ == apply_phases(old(keys)@, old(keys).len() as int),
        is_pow2(old(keys).len() as int) ==> sorted(final(keys)@),
        is_pow2(old(keys).len() as int) ==> final(values)@ == apply_phases_values(old(keys)@, old(values)@, old(keys).len() as int),
{
    let ghost k0 = keys@;
    let ghost v0 = values@;
    let count = keys.len() as u64;
    let mut sort_size: u64 = 2;
    proof {
        reveal_with_fuel(is_pow2, 2);
    }
    while sort_size <= count
        invariant
            count == keys.len(),
            count <= u32::MAX,
            keys.len() == values.len(),
            keys.len() == k0.len(),
            2 <= sort_size <= 2 * count + 2,
            is_pow2(sort_size as int),
            count >= 1 ==> sort_size / 2 <= count,
            keys@ == apply_phases(k0, sort_size as int / 2),
            values@ == apply_phases_values(k0, v0, sort_size as int / 2),
            forall|key_of: Seq<u64>| keyed_by(k0, v0, key_of) ==> keyed_by(keys@, values@, key_of),
            forall|n: int| is_permutation(v0, n) ==> is_permutation(values@, n),
        decreases 2 * count + 2 - sort_size,
    {
        let ghost start = keys@;
        let ghost vstart = values@;
        let mut step_size: u64 = sort_size / 2;
        while step_size >= 1
            invariant
                count == keys.len(),
                keys.len() == values.len(),
                keys.len() == k0.len(),
                2 <= sort_size,
                step_size < sort_size,
                apply_steps(keys@, sort_size as int, step_size as int) == apply_steps(start, sort_size as int, sort_size as int / 2),
                apply_steps_values(keys@, values@, sort_size as int, step_size as int) == apply_steps_values(
                    start,
                    vstart,
                    sort_size as int,
                    sort_size as int / 2,
                ),
                forall|key_of: Seq<u64>| keyed_by(k0, v0, key_of) ==> keyed_by(keys@, values@, key_of),
                forall|n: int| is_permutation(v0, n) ==> is_permutation(values@, n),
            decreases step_size,
        {
            compare_exchange_pass(keys, values, sort_size, step_size);
            step_size = step_size / 2;
        }
        proof {
            assert(sort_size % 2 == 0 && is_pow2(sort_size as int / 2)) by {
                reveal_with_fuel(is_pow2, 2);
            }
            assert(apply_phases(k0, sort_size as int) == apply_steps(apply_phases(k0, sort_size as int / 2), sort_size as int, sort_size as int / 2));
            assert((sort_size * 2) / 2 == sort_size);
            assert(is_pow2(sort_size as int * 2)) by {
                reveal_with_fuel(is_pow2, 2);
            }
        }
        sort_size = sort_size * 2;
    }
    proof {
        if is_pow2(count as int) {
            lemma_pow2_between(sort_size as int / 2, count as int);
            lemma_network_sorts(k0);
        }
    }
}

/// A power of two `b` with `a <= b < 2 a`, `a` a power of two, is `a`.
proof fn lemma_pow2_between(a: int, b: int)
    requires
        is_pow2(a),
        is_pow2(b),
        a <= b < 2 * a,
    ensures
        a == b,
    decreases b,
{
    if a != 1 {
        assert(b != 1);
        lemma_pow2_between(a / 2, b / 2);
    }
}

} // verus!
