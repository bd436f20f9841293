//! The seeded weighted sampler behind sortition.
//!
//! Drawing is done by an outside pseudo-random generator and weighted-index
//! distribution. Both are deterministic: the generator's output is a
//! function of its 32-byte seed, and each draw returns an index with
//! probability proportional to its current weight, consuming generator
//! state. `draw_at` names the index that the sampler returns at each step;
//! it is a function of the initial weight table, the seed and the step
//! alone, which is what makes jury selection reproducible by any observer.

use rand::SeedableRng;
use rand::distributions::Distribution;
use vstd::prelude::*;

verus! {

#[verifier::external_type_specification]
#[verifier::external_body]
pub struct ExStdRng(rand::rngs::StdRng);

/// Holds the outside weighted-index distribution; its generic declaration
/// is not accepted, so it lives behind an opaque field.
#[verifier::external_body]
pub(crate) struct WeightedTable {
    dist: rand::distributions::WeightedIndex<u128>,
}

/// The index that a sampler built from `weights0` and `seed` returns at
/// draw number `step` (counting from zero), its earlier draws each zeroed
/// as `zero_at` describes.
pub uninterp spec fn draw_at(weights0: Seq<u128>, seed: Seq<u8>, step: nat) -> int;

pub open spec fn sum_weights(w: Seq<u128>) -> int
    decreases w.len(),
{
    if w.len() == 0 {
        0
    } else {
        sum_weights(w.drop_last()) + w.last()
    }
}

pub open spec fn has_positive(w: Seq<u128>) -> bool {
    exists|i: int| 0 <= i < w.len() && w[i] > 0
}

pub open spec fn has_other_positive(w: Seq<u128>, i: int) -> bool {
    exists|j: int| 0 <= j < w.len() && j != i && w[j] > 0
}

/// The weight table after a draw of index `i`: the index is zeroed, except
/// that the distribution refuses an update that would leave no weight at
/// all and then keeps the table unchanged.
pub open spec fn zero_at(w: Seq<u128>, i: int) -> Seq<u128> {
    if 0 <= i < w.len() && has_other_positive(w, i) {
        w.update(i, 0)
    } else {
        w
    }
}

pub proof fn lemma_zero_at_keeps_positive(w: Seq<u128>, i: int)
    requires
        has_positive(w),
    ensures
        has_positive(zero_at(w, i)),
{
    if 0 <= i < w.len() && has_other_positive(w, i) {
        let j = choose|j: int| 0 <= j < w.len() && j != i && w[j] > 0;
        assert(zero_at(w, i)[j] > 0);
    }
}

/// Zeroing draws never raises a weight or touches other entries.
pub proof fn lemma_zero_at_le(w: Seq<u128>, i: int)
    ensures
        zero_at(w, i).len() == w.len(),
        forall|j: int| 0 <= j < w.len() ==> #[trigger] zero_at(w, i)[j] == w[j] || zero_at(w, i)[j] == 0,
        forall|j: int| 0 <= j < w.len() && j != i ==> #[trigger] zero_at(w, i)[j] == w[j],
{
}

/// How many entries of a weight table are positive.
pub open spec fn count_positive(w: Seq<u128>) -> int
    decreases w.len(),
{
    if w.len() == 0 {
        0
    } else {
        count_positive(w.drop_last()) + if w.last() > 0 {
            1int
        } else {
            0int
        }
    }
}

pub proof fn lemma_count_positive_all(w: Seq<u128>)
    requires
        forall|j: int| 0 <= j < w.len() ==> #[trigger] w[j] > 0,
    ensures
        count_positive(w) == w.len(),
    decreases w.len(),
{
    if w.len() > 0 {
        lemma_count_positive_all(w.drop_last());
        assert(w[w.len() - 1] > 0);
    }
}

pub proof fn lemma_count_positive_update_zero(w: Seq<u128>, i: int)
    requires
        0 <= i < w.len(),
        w[i] > 0,
    ensures
        count_positive(w.update(i, 0)) == count_positive(w) - 1,
    decreases w.len(),
{
    let t = w.update(i, 0);
    if i == w.len() - 1 {
        assert(t.drop_last() =~= w.drop_last());
    } else {
        assert(t.last() == w.last());
        assert(t.drop_last() =~= w.drop_last().update(i, 0));
        assert(w.drop_last()[i] == w[i]);
        lemma_count_positive_update_zero(w.drop_last(), i);
    }
}

/// A table with one positive entry at most, all others zero.
pub proof fn lemma_count_positive_le_one(w: Seq<u128>, i: int)
    requires
        forall|j: int| 0 <= j < w.len() && j != i ==> #[trigger] w[j] == 0,
    ensures
        count_positive(w) <= 1,
    decreases w.len(),
{
    if w.len() > 0 {
        if i == w.len() - 1 {
            assert(forall|j: int|
                0 <= j < w.drop_last().len() && j != w.len() ==> #[trigger] w.drop_last()[j] == 0);
            lemma_count_positive_le_one(w.drop_last(), w.len() as int);
            assert(count_positive(w.drop_last()) == 0) by {
                lemma_count_positive_all_zero(w.drop_last());
            }
        } else {
            assert(forall|j: int|
                0 <= j < w.drop_last().len() && j != i ==> #[trigger] w.drop_last()[j] == 0);
            lemma_count_positive_le_one(w.drop_last(), i);
            assert(w[w.len() - 1] == 0);
        }
    }
}

pub proof fn lemma_count_positive_all_zero(w: Seq<u128>)
    requires
        forall|j: int| 0 <= j < w.len() ==> #[trigger] w[j] == 0,
    ensures
        count_positive(w) == 0,
    decreases w.len(),
{
    if w.len() > 0 {
        lemma_count_positive_all_zero(w.drop_last());
        assert(w[w.len() - 1] == 0);
    }
}

/// With two or more positive entries, zeroing any one leaves another.
pub proof fn lemma_two_positive_has_other(w: Seq<u128>, i: int)
    requires
        count_positive(w) >= 2,
        0 <= i < w.len(),
    ensures
        has_other_positive(w, i),
{
    if !has_other_positive(w, i) {
        assert(forall|j: int| 0 <= j < w.len() && j != i ==> #[trigger] w[j] == 0);
        lemma_count_positive_le_one(w, i);
        assert(false);
    }
}

/// A weighted sampler without replacement: each draw returns an index with
/// positive remaining weight and zeroes it for the draws that follow.
pub(crate) struct Sampler {
    rng: rand::rngs::StdRng,
    table: WeightedTable,
    seed_ghost: Ghost<Seq<u8>>,
    weights0_ghost: Ghost<Seq<u128>>,
    weights_ghost: Ghost<Seq<u128>>,
    step_ghost: Ghost<nat>,
}

impl Sampler {
    /// The 32-byte seed the sampler was built from.
    pub(crate) closed spec fn seed(&self) -> Seq<u8> {
        self.seed_ghost@
    }

    /// The weight table the sampler was built from.
    pub(crate) closed spec fn weights0(&self) -> Seq<u128> {
        self.weights0_ghost@
    }

    /// The current weight table: the initial one with drawn indices zeroed.
    pub(crate) closed spec fn weights(&self) -> Seq<u128> {
        self.weights_ghost@
    }

    /// How many draws have been made.
    pub(crate) closed spec fn step(&self) -> nat {
        self.step_ghost@
    }

    /// Builds a sampler over the given weight table from a 32-byte seed;
    /// fails exactly when the table is empty or sums to zero.
    pub(crate) fn new(weights: &Vec<u128>, seed: &Vec<u8>) -> (r: Result<Sampler, ()>)
        requires
            seed@.len() == 32,
            sum_weights(weights@) <= u128::MAX,
        ensures
            r is Ok <==> (weights@.len() > 0 && has_positive(weights@)),
            r is Ok ==> {
                &&& r->Ok_0.seed() == seed@
                &&& r->Ok_0.weights0() == weights@
                &&& r->Ok_0.weights() == weights@
                &&& r->Ok_0.step() == 0
            },
    {
        let rng = rng_from_seed(seed);
        match weighted_index_new(weights) {
            Ok(table) => Ok(Sampler {
                rng,
                table,
                seed_ghost: Ghost(seed@),
                weights0_ghost: Ghost(weights@),
                weights_ghost: Ghost(weights@),
                step_ghost: Ghost(0nat),
            }),
            Err(_) => Err(()),
        }
    }

    /// Relies on rand's WeightedIndex::sample and update_weights: sample
    /// returns an index with positive current weight, a deterministic
    /// function of the seed, the initial weights and the draws made so far;
    /// update_weights then zeroes that index, except that it leaves the
    /// table unchanged when no other weight is positive.
    #[verifier::external_body]
    pub(crate) fn sample_and_zero(&mut self) -> (i: usize)
        requires
            has_positive(old(self).weights()),
        ensures
            i as int == draw_at(old(self).weights0(), old(self).seed(), old(self).step()),
            i < old(self).weights().len(),
            old(self).weights()[i as int] > 0,
            final(self).weights() == zero_at(old(self).weights(), i as int),
            final(self).weights0() == old(self).weights0(),
            final(self).seed() == old(self).seed(),
            final(self).step() == old(self).step() + 1,
    {
        let i = self.table.dist.sample(&mut self.rng);
        let _ = self.table.dist.update_weights(&[(i, &0u128)]);
        i
    }
}

/// A seed extended with zero bytes to the 32 the generator needs.
pub open spec fn pad32(s: Seq<u8>) -> Seq<u8> {
    s + Seq::new((32 - s.len()) as nat, |i: int| 0u8)
}

/// Zero-pads a seed to exactly 32 bytes.
pub fn pad_seed(seed_vec: &Vec<u8>) -> (r: Vec<u8>)
    requires
        seed_vec@.len() <= 32,
    ensures
        r@ == pad32(seed_vec@),
        r@.len() == 32,
{
    let mut r: Vec<u8> = Vec::new();
    let n = seed_vec.len();
    let mut i: usize = 0;
    while i < n
        invariant
            i <= n,
            r@ == seed_vec@.take(i as int),
        decreases n - i,
    {
        r.push(seed_vec[i]);
        proof {
            assert(r@ =~= seed_vec@.take(i + 1));
        }
        i += 1;
    }
    while r.len() < 32
        invariant
            n <= r@.len() <= 32,
            r@.take(n as int) == seed_vec@,
            forall|j: int| n <= j < r@.len() ==> r@[j] == 0u8,
        decreases 32 - r@.len(),
    {
        r.push(0u8);
        proof {
            assert(r@.take(n as int) =~= seed_vec@);
        }
    }
    proof {
        assert(r@ =~= pad32(seed_vec@));
    }
    r
}

/// Relies on rand's WeightedIndex::new: construction fails exactly when
/// the weight table is empty or its total is zero, and cannot overflow
/// while the total fits the weight type.
#[verifier::external_body]
fn weighted_index_new(weights: &Vec<u128>) -> (r: Result<WeightedTable, ()>)
    requires
        sum_weights(weights@) <= u128::MAX,
    ensures
        r is Ok <==> (weights@.len() > 0 && has_positive(weights@)),
{
    match rand::distributions::WeightedIndex::new(weights) {
        Ok(dist) => Ok(WeightedTable { dist }),
        Err(_) => Err(()),
    }
}

/// Relies on StdRng::from_seed: builds the deterministic generator from a
/// 32-byte seed.
#[verifier::external_body]
fn rng_from_seed(seed: &Vec<u8>) -> (r: rand::rngs::StdRng)
    requires
        seed@.len() == 32,
{
    let arr: [u8; 32] = seed.as_slice().try_into().unwrap();
    rand::rngs::StdRng::from_seed(arr)
}

/// The generator the sortition selector draws from, seeded with the given
/// bytes zero-padded to 32.
pub fn get_rng(seed_vec: Vec<u8>) -> (r: rand::rngs::StdRng)
    requires
        seed_vec@.len() <= 32,
{
    let padded = pad_seed(&seed_vec);
    rng_from_seed(&padded)
}

} // verus!
