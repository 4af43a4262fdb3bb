//! The generator: the tree of a distribution in memory, and the sampler
//! that walks it.

use vstd::prelude::*;
use vstd::arithmetic::power2::{
    pow2, lemma_pow2_unfold, lemma_pow2_strictly_increases, lemma2_to64, lemma2_to64_rest,
};
use vstd::bits::lemma_usize_shr_is_div;
use crate::coin::FairCoin;
use crate::distribution::{
    Error, total, positive_count, ceil_log2, depth, padding, defect, valid, lemma_ceil_log2_bounds,
    lemma_ceil_log2_unique, lemma_total_of_prefix, lemma_total_reaches_positives,
    lemma_valid_distribution,
};
use crate::tree::{has_bit, real_labels, labels_at};
use crate::walk::{
    Cursor, Step, Walk, root, admits, step_of, walk, landing, restarts, consumed, draws,
    lemma_step_stays_inside, lemma_landing_is_final,
};

verus! {

/// The tree of a distribution, ready to be sampled from.
pub struct Generator {
    bucket_count: usize,
    levels: Vec<Vec<usize>>,
    weights: Ghost<Seq<usize>>,
}

impl View for Generator {
    type V = Seq<usize>;

    /// The weights that the generator was built from.
    closed spec fn view(&self) -> Seq<usize> {
        self.weights@
    }
}

/// Counts the weights that are strictly positive.
fn count_positive(distribution: &[usize]) -> (count: usize)
    ensures
        count == positive_count(distribution@),
{
    let mut count: usize = 0;
    let mut i: usize = 0;
    while i < distribution.len()
        invariant
            i <= distribution@.len(),
            count <= i,
            count == positive_count(distribution@.take(i as int)),
        decreases distribution@.len() - i,
    {
        assert(distribution@.take(i + 1).drop_last() =~= distribution@.take(i as int));
        if distribution[i] > 0 {
            count += 1;
        }
        i += 1;
    }
    assert(distribution@.take(i as int) =~= distribution@);
    count
}

/// Adds up the weights, as far as the sum fits in a `usize`.
fn checked_total(distribution: &[usize]) -> (sum: Option<usize>)
    ensures
        match sum {
            Some(sum) => sum == total(distribution@),
            None => total(distribution@) > usize::MAX,
        },
{
    let mut sum: usize = 0;
    let mut i: usize = 0;
    while i < distribution.len()
        invariant
            i <= distribution@.len(),
            sum == total(distribution@.take(i as int)),
        decreases distribution@.len() - i,
    {
        assert(distribution@.take(i + 1).drop_last() =~= distribution@.take(i as int));
        match sum.checked_add(distribution[i]) {
            Some(more) => {
                sum = more;
            },
            None => {
                proof {
                    lemma_total_of_prefix(distribution@, i + 1);
                }
                return None;
            },
        }
        i += 1;
    }
    assert(distribution@.take(i as int) =~= distribution@);
    Some(sum)
}

/// Finds the least power of two that reaches `sum`, and its exponent, as far
/// as that power fits in a `usize`.
fn power_above(sum: usize) -> (found: Option<(usize, usize)>)
    requires
        sum >= 1,
    ensures
        match found {
            Some((exponent, power)) => {
                &&& exponent == ceil_log2(sum as nat)
                &&& power == pow2(exponent as nat)
                &&& power >= sum
            },
            None => pow2(ceil_log2(sum as nat)) > usize::MAX,
        },
{
    let mut exponent: usize = 0;
    let mut power: usize = 1;
    proof {
        lemma2_to64();
    }
    while power < sum
        invariant
            power == pow2(exponent as nat),
            exponent < power,
            exponent >= 1 ==> pow2((exponent - 1) as nat) < sum,
        decreases usize::MAX - exponent,
    {
        proof {
            lemma_pow2_unfold((exponent + 1) as nat);
        }
        if power > usize::MAX / 2 {
            proof {
                let reached = ceil_log2(sum as nat);
                lemma_ceil_log2_bounds(sum as nat);
                if reached <= exponent {
                    if reached < exponent {
                        lemma_pow2_strictly_increases(reached, exponent as nat);
                    }
                } else if reached > exponent + 1 {
                    lemma_pow2_strictly_increases((exponent + 1) as nat, reached);
                }
            }
            return None;
        }
        power = 2 * power;
        exponent += 1;
    }
    proof {
        lemma_ceil_log2_unique(sum as nat, exponent as nat);
    }
    Some((exponent, power))
}

/// Tells whether the binary expansion of `value` has a one at `bit`.
fn test_bit(value: usize, bit: usize) -> (set: bool)
    requires
        bit < usize::BITS,
    ensures
        set == has_bit(value as nat, bit as nat),
{
    let shifted: usize = value >> bit;
    proof {
        lemma_usize_shr_is_div(value, bit);
        assert(shifted & 1 == shifted % 2) by (bit_vector);
    }
    shifted & 1 > 0
}

/// Collects the leaf labels of one level: the buckets whose weight has a
/// one at `bit`, by ascending index, then the virtual bucket if `pad` has
/// one there.
fn level_labels(distribution: &[usize], pad: usize, bit: usize) -> (labels: Vec<usize>)
    requires
        bit < usize::BITS,
    ensures
        labels@ == if has_bit(pad as nat, bit as nat) {
            real_labels(distribution@, bit as nat).push(distribution@.len() as usize)
        } else {
            real_labels(distribution@, bit as nat)
        },
{
    let mut labels: Vec<usize> = Vec::new();
    let mut i: usize = 0;
    while i < distribution.len()
        invariant
            i <= distribution@.len(),
            bit < usize::BITS,
            labels@ == real_labels(distribution@.take(i as int), bit as nat),
        decreases distribution@.len() - i,
    {
        assert(distribution@.take(i + 1).drop_last() =~= distribution@.take(i as int));
        if test_bit(distribution[i], bit) {
            labels.push(i);
        }
        i += 1;
    }
    assert(distribution@.take(i as int) =~= distribution@);
    if test_bit(pad, bit) {
        labels.push(distribution.len());
    }
    labels
}

/// Copies a list of labels.
fn copy_labels(labels: &Vec<usize>) -> (copy: Vec<usize>)
    ensures
        copy@ == labels@,
{
    let mut copy: Vec<usize> = Vec::new();
    let mut i: usize = 0;
    while i < labels.len()
        invariant
            i <= labels@.len(),
            copy@ == labels@.take(i as int),
        decreases labels@.len() - i,
    {
        copy.push(labels[i]);
        i += 1;
    }
    copy
}

impl Cursor {
    /// The cursor at which every walk starts.
    pub fn root() -> (cursor: Cursor)
        ensures
            cursor == root(),
    {
        Cursor { level: 0, label_index: 0 }
    }
}

impl Generator {
    #[verifier::type_invariant]
    spec fn well_formed(&self) -> bool {
        &&& valid(self.weights@)
        &&& self.bucket_count == self.weights@.len()
        &&& self.levels@.len() == depth(self.weights@)
        &&& forall|level: int|
            0 <= level < self.levels@.len() ==> (#[trigger] self.levels@[level])@ == labels_at(
                self.weights@,
                level as nat,
            )
    }

    /// Builds the generator of a distribution, given as one weight for each
    /// bucket.
    ///
    /// At least two weights have to be positive, and their sum, rounded up
    /// to a power of two, has to fit in a `usize`.
    pub fn new(distribution: &[usize]) -> (built: Result<Generator, Error>)
        ensures
            match built {
                Ok(generator) => defect(distribution@) is None && generator@ == distribution@,
                Err(error) => defect(distribution@) == Some(error),
            },
    {
        if count_positive(distribution) < 2 {
            return Err(Error::InvalidDistribution);
        }
        let sum = match checked_total(distribution) {
            Some(sum) => sum,
            None => {
                proof {
                    lemma_ceil_log2_bounds(total(distribution@));
                }
                return Err(Error::Overflow);
            },
        };
        proof {
            lemma_total_reaches_positives(distribution@);
        }
        let (height, power) = match power_above(sum) {
            Some(found) => found,
            None => {
                return Err(Error::Overflow);
            },
        };
        let pad: usize = power - sum;
        proof {
            lemma_valid_distribution(distribution@);
            if height >= usize::BITS {
                lemma2_to64();
                lemma2_to64_rest();
                if height > usize::BITS {
                    lemma_pow2_strictly_increases(usize::BITS as nat, height as nat);
                }
            }
        }
        let mut levels: Vec<Vec<usize>> = Vec::new();
        let mut level: usize = 0;
        while level < height
            invariant
                level <= height < usize::BITS,
                height == depth(distribution@),
                pad == padding(distribution@),
                levels@.len() == level,
                forall|above: int|
                    0 <= above < level ==> (#[trigger] levels@[above])@ == labels_at(
                        distribution@,
                        above as nat,
                    ),
            decreases height - level,
        {
            let labels = level_labels(distribution, pad, height - level - 1);
            levels.push(labels);
            level += 1;
        }
        Ok(Generator { bucket_count: distribution.len(), levels, weights: Ghost(distribution@) })
    }

    /// Takes one flip at `cursor`.
    pub fn step(&self, cursor: Cursor, toss: bool) -> (step: Step)
        requires
            admits(self@, cursor),
        ensures
            step == step_of(self@, cursor, toss),
            match step {
                Step::Leaf(bucket) => bucket < self@.len() && self@[bucket as int] > 0,
                Step::Restart => padding(self@) > 0,
                Step::Descend(next) => admits(self@, next) && next.level == cursor.level + 1,
            },
    {
        proof {
            use_type_invariant(self);
            lemma_step_stays_inside(self@, cursor, toss);
        }
        let labels = &self.levels[cursor.level];
        let index: usize = 2 * cursor.label_index + (if toss {
            1
        } else {
            0
        });
        if index < labels.len() {
            let label: usize = labels[index];
            if label < self.bucket_count {
                Step::Leaf(label)
            } else {
                Step::Restart
            }
        } else {
            Step::Descend(Cursor { level: cursor.level + 1, label_index: index - labels.len() })
        }
    }

    /// Walks the tree along a recorded sequence of flips, and returns the
    /// bucket on whose leaf the walk lands, or `None` if the flips run out
    /// first. Flips after the landing are not looked at.
    pub fn replay(&self, flips: &[bool]) -> (landed: Option<usize>)
        ensures
            landed == landing(self@, flips@),
            landed matches Some(bucket) ==> bucket < self@.len() && self@[bucket as int] > 0,
    {
        proof {
            use_type_invariant(self);
            lemma_valid_distribution(self@);
        }
        let mut cursor = Cursor::root();
        let mut i: usize = 0;
        while i < flips.len()
            invariant
                i <= flips@.len(),
                admits(self@, cursor),
                walk(self@, flips@.take(i as int)) == Walk::At(cursor),
            decreases flips@.len() - i,
        {
            assert(flips@.take(i + 1).drop_last() =~= flips@.take(i as int));
            match self.step(cursor, flips[i]) {
                Step::Leaf(bucket) => {
                    proof {
                        lemma_landing_is_final(self@, flips@.take(i + 1), flips@.skip(i + 1));
                        assert(flips@.take(i + 1) + flips@.skip(i + 1) =~= flips@);
                    }
                    return Some(bucket);
                },
                Step::Restart => {
                    cursor = Cursor::root();
                },
                Step::Descend(next) => {
                    cursor = next;
                },
            }
            i += 1;
        }
        assert(flips@.take(i as int) =~= flips@);
        None
    }

    /// Draws one bucket, taking from `fair_coin` as many flips as the walk
    /// needs and no more, and letting the walk start over from the root up
    /// to `max_restarts` times. `None` is returned when it would have to
    /// start over once more.
    ///
    /// Nothing is known of the coin, so the contract cannot name the flips
    /// that it showed: it says that some sequence of flips leads to what is
    /// returned, every flip of it looked at. Where the weights add up to a
    /// power of two there is no virtual bucket, so the walk never starts
    /// over and a bucket is always returned.
    pub fn sample_within(&self, fair_coin: &mut impl FairCoin, max_restarts: usize) -> (drawn:
        Option<usize>)
        ensures
            exists|flips: Seq<bool>| draws(self@, flips, max_restarts as nat, drawn),
            drawn matches Some(bucket) ==> bucket < self@.len() && self@[bucket as int] > 0,
            padding(self@) == 0 ==> drawn is Some,
    {
        proof {
            use_type_invariant(self);
            lemma_valid_distribution(self@);
        }
        let mut cursor = Cursor::root();
        let mut restarted: usize = 0;
        let ghost mut flips: Seq<bool> = Seq::empty();
        loop
            invariant
                admits(self@, cursor),
                walk(self@, flips) == Walk::At(cursor),
                consumed(self@, flips) == flips.len(),
                restarts(self@, flips) == restarted,
                restarted <= max_restarts,
            decreases max_restarts - restarted, depth(self@) - cursor.level,
        {
            let toss = fair_coin.flip();
            proof {
                assert(flips.push(toss).drop_last() =~= flips);
                flips = flips.push(toss);
            }
            match self.step(cursor, toss) {
                Step::Leaf(bucket) => {
                    assert(draws(self@, flips, max_restarts as nat, Some(bucket)));
                    return Some(bucket);
                },
                Step::Restart => {
                    if restarted == max_restarts {
                        assert(draws(self@, flips, max_restarts as nat, None));
                        return None;
                    }
                    restarted += 1;
                    cursor = Cursor::root();
                },
                Step::Descend(next) => {
                    cursor = next;
                },
            }
        }
    }

    /// Draws one bucket, taking from `fair_coin` as many flips as the walk
    /// needs and no more.
    ///
    /// With a fair coin, bucket `i` comes out with probability
    /// `weights[i] / sum`. Each time the walk reaches a leaf of the virtual
    /// bucket it starts over from the root, which a fair coin makes it do in
    /// fewer than half of its rounds. `None` is returned only when the walk
    /// would have to start over more than `usize::MAX` times in one call:
    /// that takes more flips than a `usize` can count, and a fair coin does
    /// it with a probability below `2^-usize::MAX`.
    pub fn sample(&self, fair_coin: &mut impl FairCoin) -> (drawn: Option<usize>)
        ensures
            exists|flips: Seq<bool>| draws(self@, flips, usize::MAX as nat, drawn),
            drawn matches Some(bucket) ==> bucket < self@.len() && self@[bucket as int] > 0,
            padding(self@) == 0 ==> drawn is Some,
    {
        self.sample_within(fair_coin, usize::MAX)
    }
}

impl Clone for Generator {
    fn clone(&self) -> (copy: Self)
        ensures
            copy@ == self@,
    {
        proof {
            use_type_invariant(self);
        }
        let mut levels: Vec<Vec<usize>> = Vec::new();
        let mut level: usize = 0;
        while level < self.levels.len()
            invariant
                level <= self.levels@.len(),
                levels@.len() == level,
                forall|above: int|
                    0 <= above < level ==> (#[trigger] levels@[above])@ == self.levels@[above]@,
            decreases self.levels@.len() - level,
        {
            let labels = copy_labels(&self.levels[level]);
            levels.push(labels);
            level += 1;
        }
        Generator { bucket_count: self.bucket_count, levels, weights: self.weights }
    }
}

} // verus!
