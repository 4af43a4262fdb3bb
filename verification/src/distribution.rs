//! The mathematics of a weighted distribution: its total, the depth of the
//! tree that represents it, and the padding that rounds the total up to a
//! power of two.

use vstd::prelude::*;
use vstd::arithmetic::power2::{
    pow2, lemma_pow2_pos, lemma_pow2_unfold, lemma_pow2_strictly_increases, lemma2_to64,
};

verus! {

/// Why a list of weights cannot be turned into a generator.
#[derive(Debug, Clone, Copy, PartialEq, Eq, Structural)]
pub enum Error {
    /// Fewer than two weights are strictly positive.
    InvalidDistribution,
    /// The sum of the weights, rounded up to a power of two, does not fit in
    /// a `usize`.
    Overflow,
}

impl Error {
    /// The text of the message.
    pub open spec fn text(self) -> Seq<char> {
        match self {
            Error::InvalidDistribution =>
                "the distribution must have at least two non-zero weights"@,
            Error::Overflow =>
                "the sum of the weights, rounded up to a power of two, must fit in a usize"@,
        }
    }

    /// Says in words what is wrong.
    pub fn message(&self) -> (message: String)
        ensures
            message@ == self.text(),
    {
        match self {
            Error::InvalidDistribution =>
                "the distribution must have at least two non-zero weights".to_owned(),
            Error::Overflow =>
                "the sum of the weights, rounded up to a power of two, must fit in a usize"
                    .to_owned(),
        }
    }
}

/// The sum of all weights.
pub open spec fn total(weights: Seq<usize>) -> nat
    decreases weights.len(),
{
    if weights.len() == 0 {
        0
    } else {
        total(weights.drop_last()) + weights.last() as nat
    }
}

/// The number of weights that are strictly positive.
pub open spec fn positive_count(weights: Seq<usize>) -> nat
    decreases weights.len(),
{
    if weights.len() == 0 {
        0
    } else {
        positive_count(weights.drop_last()) + (if weights.last() > 0 {
            1nat
        } else {
            0nat
        })
    }
}

/// The base-two logarithm of `n`, rounded up: the least `d` with `2^d >= n`.
pub open spec fn ceil_log2(n: nat) -> nat
    decreases n,
{
    if n <= 1 {
        0
    } else {
        1 + ceil_log2((n + 1) / 2)
    }
}

/// The number of levels of the tree for `weights`.
pub open spec fn depth(weights: Seq<usize>) -> nat {
    ceil_log2(total(weights))
}

/// The weight of the virtual bucket: what is missing from the total to the
/// next power of two. Zero when the total is a power of two already.
pub open spec fn padding(weights: Seq<usize>) -> nat {
    (pow2(depth(weights)) - total(weights)) as nat
}

/// The reason for which `weights` is refused, if it is.
pub open spec fn defect(weights: Seq<usize>) -> Option<Error> {
    if positive_count(weights) < 2 {
        Some(Error::InvalidDistribution)
    } else if pow2(depth(weights)) > usize::MAX {
        Some(Error::Overflow)
    } else {
        None
    }
}

/// A distribution from which a generator can be built.
pub open spec fn valid(weights: Seq<usize>) -> bool {
    defect(weights) is None
}

/// `ceil_log2(n)` is an exponent whose power of two reaches `n`, and the one
/// below it does not.
pub proof fn lemma_ceil_log2_bounds(n: nat)
    requires
        n >= 1,
    ensures
        pow2(ceil_log2(n)) >= n,
        n >= 2 ==> ceil_log2(n) >= 1 && pow2((ceil_log2(n) - 1) as nat) < n,
    decreases n,
{
    if n == 1 {
        lemma_pow2_pos(0);
    } else {
        let m: nat = (n + 1) / 2;
        lemma_ceil_log2_bounds(m);
        lemma_pow2_unfold(ceil_log2(n));
        if m >= 2 {
            lemma_pow2_unfold(ceil_log2(m));
        } else {
            lemma2_to64();
        }
    }
}

/// The total of the first weights is no more than the total of all.
pub proof fn lemma_total_of_prefix(weights: Seq<usize>, n: int)
    requires
        0 <= n <= weights.len(),
    ensures
        total(weights.take(n)) <= total(weights),
    decreases weights.len(),
{
    if n == weights.len() {
        assert(weights.take(n) =~= weights);
    } else {
        lemma_total_of_prefix(weights.drop_last(), n);
        assert(weights.drop_last().take(n) =~= weights.take(n));
    }
}

/// A power of two exceeds its exponent.
pub proof fn lemma_pow2_exceeds_exponent(e: nat)
    ensures
        e < pow2(e),
    decreases e,
{
    if e == 0 {
        lemma_pow2_pos(0);
    } else {
        lemma_pow2_exceeds_exponent((e - 1) as nat);
        lemma_pow2_unfold(e);
    }
}

/// No other exponent has the two properties of `ceil_log2(n)`.
pub proof fn lemma_ceil_log2_unique(n: nat, d: nat)
    requires
        n >= 1,
        pow2(d) >= n,
        d >= 1 ==> pow2((d - 1) as nat) < n,
    ensures
        d == ceil_log2(n),
{
    let c = ceil_log2(n);
    lemma_ceil_log2_bounds(n);
    if d < c {
        if d < c - 1 {
            lemma_pow2_strictly_increases(d, (c - 1) as nat);
        }
    } else if d > c {
        if c < d - 1 {
            lemma_pow2_strictly_increases(c, (d - 1) as nat);
        }
    }
}

/// Every positive weight adds at least one to the total.
pub proof fn lemma_total_reaches_positives(weights: Seq<usize>)
    ensures
        total(weights) >= positive_count(weights),
    decreases weights.len(),
{
    if weights.len() > 0 {
        lemma_total_reaches_positives(weights.drop_last());
    }
}

/// What is left of the total without one weight still covers the other
/// positive weights.
proof fn lemma_rest_covers_positives(weights: Seq<usize>, i: int)
    requires
        0 <= i < weights.len(),
    ensures
        total(weights) - weights[i] >= positive_count(weights) - 1,
    decreases weights.len(),
{
    if i == weights.len() - 1 {
        lemma_total_reaches_positives(weights.drop_last());
    } else {
        lemma_rest_covers_positives(weights.drop_last(), i);
    }
}

/// The facts about a valid distribution that the tree rests on.
pub proof fn lemma_valid_distribution(weights: Seq<usize>)
    requires
        valid(weights),
    ensures
        total(weights) >= 2,
        1 <= depth(weights) < usize::MAX,
        pow2(depth(weights)) == total(weights) + padding(weights),
        pow2(depth(weights)) <= usize::MAX,
        padding(weights) < pow2((depth(weights) - 1) as nat),
        forall|i: int| 0 <= i < weights.len() ==> weights[i] < total(weights),
{
    lemma_total_reaches_positives(weights);
    lemma_ceil_log2_bounds(total(weights));
    lemma_pow2_unfold(depth(weights));
    lemma_pow2_exceeds_exponent(depth(weights));
    assert forall|i: int| 0 <= i < weights.len() implies weights[i] < total(weights) by {
        lemma_rest_covers_positives(weights, i);
    }
}

} // verus!
