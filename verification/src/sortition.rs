//! The sortition selector: weighted sampling without replacement over a
//! stake pool snapshot.
//!
//! A pool is an ordered list of (staker id, weight) entries with distinct
//! keys. A draw takes a seed, samples one entry at a time with probability
//! proportional to its remaining weight, zeroes the drawn entry's weight,
//! and stops after the requested number of draws or when the pool is used
//! up. For a fixed pool snapshot and a fixed seed the whole drawn sequence
//! is reproducible: it equals `drawn_ids` of the snapshot, the padded seed
//! and the draw count, a mathematical function of those three alone.

use crate::errors::Error;
use crate::maps::sum_vals;
use crate::maps::unique_keys;
use crate::sampling::Sampler;
use crate::sampling::count_positive;
use crate::sampling::draw_at;
use crate::sampling::lemma_count_positive_all;
use crate::sampling::lemma_count_positive_update_zero;
use crate::sampling::lemma_two_positive_has_other;
use crate::sampling::has_positive;
use crate::sampling::lemma_zero_at_keeps_positive;
use crate::sampling::lemma_zero_at_le;
use crate::sampling::pad32;
use crate::sampling::pad_seed;
use crate::sampling::sum_weights;
use crate::sampling::zero_at;
use vstd::prelude::*;

verus! {

/// The weight column of a pool snapshot.
pub open spec fn weights_of(pool: Seq<(u128, u128)>) -> Seq<u128> {
    pool.map_values(|p: (u128, u128)| p.1)
}

/// How many draws a request makes: the target, bounded by the pool size.
pub open spec fn draw_count(target: nat, pool_len: nat) -> nat {
    if target < pool_len {
        target
    } else {
        pool_len
    }
}

/// The weight table after `k` draws: each drawn index zeroed in turn.
pub open spec fn weights_after(w0: Seq<u128>, seed: Seq<u8>, k: nat) -> Seq<u128>
    decreases k,
{
    if k == 0 {
        w0
    } else {
        zero_at(weights_after(w0, seed, (k - 1) as nat), draw_at(w0, seed, (k - 1) as nat))
    }
}

/// The staker ids drawn by the first `count` draws from a pool snapshot
/// with a given seed, in draw order and without repetition.
pub open spec fn drawn_ids(pool: Seq<(u128, u128)>, seed: Seq<u8>, count: nat) -> Seq<u128>
    decreases count,
{
    if count == 0 {
        Seq::empty()
    } else {
        let prefix = drawn_ids(pool, seed, (count - 1) as nat);
        let idx = draw_at(weights_of(pool), seed, (count - 1) as nat);
        if 0 <= idx < pool.len() {
            if prefix.contains(pool[idx].0) {
                prefix
            } else {
                prefix.push(pool[idx].0)
            }
        } else {
            prefix
        }
    }
}

/// Drawing only ever zeroes weights: after any number of draws each entry
/// holds its original weight or zero.
pub proof fn lemma_weights_after_sub(w0: Seq<u128>, seed: Seq<u8>, k: nat)
    ensures
        weights_after(w0, seed, k).len() == w0.len(),
        forall|j: int|
            0 <= j < w0.len() ==> #[trigger] weights_after(w0, seed, k)[j] == w0[j]
                || weights_after(w0, seed, k)[j] == 0,
    decreases k,
{
    if k > 0 {
        lemma_weights_after_sub(w0, seed, (k - 1) as nat);
        lemma_zero_at_le(weights_after(w0, seed, (k - 1) as nat), draw_at(w0, seed, (k - 1) as nat));
    }
}

/// The weight column of a pool sums to the same total as the pool.
pub proof fn lemma_weights_of_sum(pool: Seq<(u128, u128)>)
    ensures
        sum_weights(weights_of(pool)) == sum_vals(pool),
        weights_of(pool).len() == pool.len(),
    decreases pool.len(),
{
    if pool.len() > 0 {
        lemma_weights_of_sum(pool.drop_last());
        assert(weights_of(pool).drop_last() =~= weights_of(pool.drop_last()));
    }
}

/// Law: sortition is deterministic. The sequence of drawn staker ids is a
/// function of the pool snapshot, the seed and the draw count alone, so two
/// draws from identical pool state with an identical seed select
/// identically.
pub proof fn lemma_draw_deterministic(
    pool: Seq<(u128, u128)>,
    seed: Seq<u8>,
    count: nat,
    r1: Seq<u128>,
    r2: Seq<u128>,
)
    requires
        r1 == drawn_ids(pool, seed, count),
        r2 == drawn_ids(pool, seed, count),
    ensures
        r1 == r2,
{
}

/// Law: an exhausting draw covers the pool. A duplicate-free drawn
/// sequence as long as the pool, each element a pool key, names every pool
/// key, so nothing is left once the drawn entries are removed.
pub proof fn lemma_full_draw_covers_pool(drawn: Seq<u128>, pool: Seq<(u128, u128)>)
    requires
        unique_keys(pool),
        forall|a: int, b: int| 0 <= a < b < drawn.len() ==> drawn[a] != drawn[b],
        drawn.len() == pool.len(),
        forall|m: int|
            0 <= m < drawn.len() ==> exists|i: int|
                0 <= i < pool.len() && #[trigger] pool[i].0 == #[trigger] drawn[m],
    ensures
        forall|j: int| 0 <= j < pool.len() ==> drawn.contains(#[trigger] pool[j].0),
        pool.filter(|p: (u128, u128)| !drawn.contains(p.0)) == Seq::<(u128, u128)>::empty(),
{
    broadcast use vstd::seq_lib::seq_to_set_is_finite;

    let keys = pool.map_values(|p: (u128, u128)| p.0);
    assert(keys.no_duplicates()) by {
        assert forall|a: int, b: int| 0 <= a < b < keys.len() implies keys[a] != keys[b] by {
            assert(pool[a].0 != pool[b].0);
        }
    }
    assert(drawn.no_duplicates());
    drawn.unique_seq_to_set();
    keys.unique_seq_to_set();
    assert(drawn.to_set().subset_of(keys.to_set())) by {
        assert forall|x: u128| drawn.to_set().contains(x) implies keys.to_set().contains(x) by {
            let m = choose|m: int| 0 <= m < drawn.len() && drawn[m] == x;
            let i = choose|i: int| 0 <= i < pool.len() && #[trigger] pool[i].0 == drawn[m];
            assert(keys[i] == x);
            assert(keys.contains(x));
        }
    }
    vstd::set_lib::lemma_subset_equality(drawn.to_set(), keys.to_set());
    assert forall|j: int| 0 <= j < pool.len() implies drawn.contains(#[trigger] pool[j].0) by {
        assert(keys[j] == pool[j].0);
        assert(keys.contains(pool[j].0));
        assert(keys.to_set().contains(pool[j].0));
        assert(drawn.to_set().contains(pool[j].0));
    }
    let pred = |p: (u128, u128)| !drawn.contains(p.0);
    let fp = pool.filter(pred);
    crate::maps::lemma_filter_subset(pool, pred);
    if fp.len() > 0 {
        broadcast use vstd::seq_lib::group_filter_ensures;

        assert(pred(fp[0]));
        let j = choose|j: int| 0 <= j < pool.len() && pool[j] == fp[0];
        assert(drawn.contains(pool[j].0));
        assert(false);
    }
    assert(fp =~= Seq::<(u128, u128)>::empty());
}

fn vec_contains(v: &Vec<u128>, x: u128) -> (r: bool)
    ensures
        r == v@.contains(x),
{
    let n = v.len();
    let mut i: usize = 0;
    while i < n
        invariant
            i <= n,
            forall|j: int| 0 <= j < i ==> v@[j] != x,
        decreases n - i,
    {
        if v[i] == x {
            return true;
        }
        i += 1;
    }
    false
}

/// Draws up to `target` distinct stakers from a pool snapshot, weighted by
/// stake and without replacement, deterministically from the seed. Returns
/// the drawn ids in draw order together with the reduced pool; fails with
/// `EmptyPool` exactly when no entry has positive weight.
pub fn weighted_draw(pool: &Vec<(u128, u128)>, seed: &Vec<u8>, target: usize) -> (r: Result<
    (Vec<u128>, Vec<(u128, u128)>),
    Error,
>)
    requires
        seed@.len() <= 32,
        sum_vals(pool@) <= u128::MAX,
        unique_keys(pool@),
    ensures
        match r {
            Ok(out) => {
                &&& has_positive(weights_of(pool@))
                &&& out.0@ == drawn_ids(
                    pool@,
                    pad32(seed@),
                    draw_count(target as nat, pool@.len()),
                )
                &&& out.0@.len() <= target
                &&& out.0@.len() <= pool@.len()
                &&& (forall|a: int, b: int|
                    0 <= a < b < out.0@.len() ==> out.0@[a] != out.0@[b])
                &&& (forall|m: int|
                    0 <= m < out.0@.len() ==> exists|i: int|
                        0 <= i < pool@.len() && #[trigger] pool@[i].0 == #[trigger] out.0@[m]
                            && pool@[i].1 > 0)
                &&& out.1@ == pool@.filter(|p: (u128, u128)| !out.0@.contains(p.0))
                &&& (forall|j: int| 0 <= j < pool@.len() ==> #[trigger] pool@[j].1 > 0)
                    ==> out.0@.len() == draw_count(target as nat, pool@.len())
                &&& ((forall|j: int| 0 <= j < pool@.len() ==> #[trigger] pool@[j].1 > 0)
                    && target >= pool@.len()) ==> out.1@ == Seq::<(u128, u128)>::empty()
            },
            Err(e) => e == Error::EmptyPool && !has_positive(weights_of(pool@)),
        },
{
    let ghost w0 = weights_of(pool@);
    let padded = pad_seed(seed);
    let ghost sp = pad32(seed@);
    let n = pool.len();
    let mut weights: Vec<u128> = Vec::new();
    let mut i: usize = 0;
    while i < n
        invariant
            i <= n,
            weights@ == w0.take(i as int),
        decreases n - i,
    {
        weights.push(pool[i].1);
        proof {
            assert(weights@ =~= w0.take(i + 1));
        }
        i += 1;
    }
    proof {
        assert(weights@ =~= w0);
        lemma_weights_of_sum(pool@);
    }
    let mut sampler = match Sampler::new(&weights, &padded) {
        Ok(s) => s,
        Err(_) => {
            return Err(Error::EmptyPool);
        },
    };
    let count = if target < n {
        target
    } else {
        n
    };
    let ghost all_pos = forall|j: int| 0 <= j < pool@.len() ==> #[trigger] pool@[j].1 > 0;
    proof {
        if all_pos {
            lemma_count_positive_all(w0);
        }
    }
    let mut drawn: Vec<u128> = Vec::new();
    let mut k: usize = 0;
    while k < count
        invariant
            k <= count,
            sampler.weights0() == w0,
            sampler.seed() == sp,
            sampler.step() == k,
            sampler.weights() == weights_after(w0, sp, k as nat),
            has_positive(sampler.weights()),
            drawn@ == drawn_ids(pool@, sp, k as nat),
            drawn@.len() <= k,
            forall|a: int, b: int| 0 <= a < b < drawn@.len() ==> drawn@[a] != drawn@[b],
            forall|m: int|
                0 <= m < drawn@.len() ==> exists|i: int|
                    0 <= i < pool@.len() && #[trigger] pool@[i].0 == #[trigger] drawn@[m]
                        && pool@[i].1 > 0,
            all_pos ==> drawn@.len() == k,
            all_pos && k < count ==> count_positive(sampler.weights()) == n - k,
            all_pos && k < count ==> (forall|j: int|
                0 <= j < pool@.len() ==> ((#[trigger] sampler.weights()[j] == 0) <==> drawn@.contains(
                    pool@[j].0,
                ))),
        decreases count - k,
    {
        let ghost w_before = sampler.weights();
        let idx = sampler.sample_and_zero();
        proof {
            lemma_weights_after_sub(w0, sp, k as nat);
            assert(w_before[idx as int] > 0);
            assert(w0[idx as int] == w_before[idx as int]);
            assert(pool@[idx as int].1 == w0[idx as int]);
        }
        let id = pool[idx].0;
        let already = vec_contains(&drawn, id);
        let ghost drawn_before = drawn@;
        proof {
            if all_pos {
                // the drawn index is fresh: its weight is still positive,
                // and every already-drawn staker's entry is zeroed
                assert(w_before[idx as int] != 0);
                assert(!drawn_before.contains(pool@[idx as int].0));
                assert(!already);
            }
        }
        if !already {
            drawn.push(id);
        }
        proof {
            lemma_zero_at_keeps_positive(w_before, idx as int);
            assert(weights_after(w0, sp, (k + 1) as nat) == zero_at(
                weights_after(w0, sp, k as nat),
                draw_at(w0, sp, k as nat),
            ));
            assert(drawn@ == drawn_ids(pool@, sp, (k + 1) as nat));
            if all_pos && k + 1 < count {
                assert(count_positive(w_before) == n - k >= 2);
                lemma_two_positive_has_other(w_before, idx as int);
                assert(sampler.weights() == w_before.update(idx as int, 0));
                lemma_count_positive_update_zero(w_before, idx as int);
                assert(drawn@ == drawn_before.push(pool@[idx as int].0));
                assert forall|j: int|
                    0 <= j < pool@.len() implies ((#[trigger] sampler.weights()[j] == 0)
                    <==> drawn@.contains(pool@[j].0)) by {
                    if j == idx as int {
                        assert(drawn@[drawn@.len() - 1] == pool@[j].0);
                        assert(drawn@.contains(pool@[j].0));
                    } else {
                        assert(sampler.weights()[j] == w_before[j]);
                        if w_before[j] == 0 {
                            assert(drawn_before.contains(pool@[j].0));
                            let m = choose|m: int|
                                0 <= m < drawn_before.len() && drawn_before[m] == pool@[j].0;
                            assert(drawn@[m] == pool@[j].0);
                            assert(drawn@.contains(pool@[j].0));
                        } else if drawn@.contains(pool@[j].0) {
                            let m = choose|m: int|
                                0 <= m < drawn@.len() && drawn@[m] == pool@[j].0;
                            if m < drawn_before.len() {
                                assert(drawn_before.contains(pool@[j].0));
                                assert(w_before[j] == 0);
                            } else {
                                assert(pool@[j].0 == pool@[idx as int].0);
                                assert(j == idx as int);
                            }
                            assert(false);
                        }
                    }
                }
            }
        }
        k += 1;
    }
    let ghost pred = |p: (u128, u128)| !drawn@.contains(p.0);
    let mut remaining: Vec<(u128, u128)> = Vec::new();
    proof {
        reveal(Seq::filter);
        assert(pool@.take(0).filter(pred) =~= Seq::<(u128, u128)>::empty());
    }
    let mut j: usize = 0;
    while j < n
        invariant
            j <= n,
            remaining@ == pool@.take(j as int).filter(pred),
        decreases n - j,
    {
        let ghost r_before = remaining@;
        let keep = !vec_contains(&drawn, pool[j].0);
        if keep {
            remaining.push(pool[j]);
        }
        proof {
            reveal(Seq::filter);
            let t = pool@.take(j + 1);
            assert(t.drop_last() =~= pool@.take(j as int));
            assert(t.last() == pool@[j as int]);
            assert(keep == pred(pool@[j as int]));
            if keep {
                assert(t.filter(pred) == r_before.push(pool@[j as int]));
            } else {
                assert(t.filter(pred) == r_before);
            }
            assert(remaining@ == t.filter(pred));
        }
        j += 1;
    }
    proof {
        assert(pool@.take(n as int) =~= pool@);
        if all_pos && target >= n {
            lemma_full_draw_covers_pool(drawn@, pool@);
        }
    }
    Ok((drawn, remaining))
}

} // verus!
