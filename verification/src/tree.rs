//! The levelled tree of a distribution: which buckets own a leaf at which
//! level, and how many inner nodes each level passes on to the next.

use vstd::prelude::*;
use vstd::arithmetic::power2::{pow2, lemma_pow2_pos, lemma_pow2_unfold, lemma2_to64};
use vstd::arithmetic::div_mod::{lemma_mod_breakdown, lemma_small_mod};
use crate::distribution::{total, depth, padding, valid, lemma_valid_distribution};

verus! {

/// Whether the binary expansion of `value` has a one at position `bit`,
/// position zero being the least significant.
pub open spec fn has_bit(value: nat, bit: nat) -> bool {
    (value / pow2(bit)) % 2 == 1
}

/// The indices of the weights whose binary expansion has a one at position
/// `bit`, in ascending order.
pub open spec fn real_labels(weights: Seq<usize>, bit: nat) -> Seq<usize>
    decreases weights.len(),
{
    if weights.len() == 0 {
        Seq::empty()
    } else {
        let before = real_labels(weights.drop_last(), bit);
        if has_bit(weights.last() as nat, bit) {
            before.push((weights.len() - 1) as usize)
        } else {
            before
        }
    }
}

/// The position in the binary expansions that decides who owns a leaf at
/// `level`: the most significant of the `depth` positions at the root, the
/// least significant at the last level.
pub open spec fn level_bit(weights: Seq<usize>, level: nat) -> nat {
    (depth(weights) - level - 1) as nat
}

/// The leaf labels of `level`, in the order in which a walk counts them: the
/// buckets whose weight has a one at the level's position, by ascending
/// index, then the virtual bucket, labelled `weights.len()`, if the padding
/// has a one there. There are no leaves from level `depth` on.
pub open spec fn labels_at(weights: Seq<usize>, level: nat) -> Seq<usize> {
    if level < depth(weights) {
        let owned = real_labels(weights, level_bit(weights, level));
        if has_bit(padding(weights), level_bit(weights, level)) {
            owned.push(weights.len() as usize)
        } else {
            owned
        }
    } else {
        Seq::empty()
    }
}

/// The number of leaves at `level`.
pub open spec fn leaf_count(weights: Seq<usize>, level: nat) -> nat {
    labels_at(weights, level).len()
}

/// The number of inner nodes above `level`, each of which hands two nodes
/// down to it: one for the root, and below that twice the number above less
/// the nodes that became leaves.
pub open spec fn branches(weights: Seq<usize>, level: nat) -> int
    decreases level,
{
    if level == 0 {
        1
    } else {
        2 * branches(weights, (level - 1) as nat) - leaf_count(weights, (level - 1) as nat)
    }
}

/// Zero has no ones in its binary expansion.
pub proof fn lemma_bit_means_positive(value: nat, bit: nat)
    requires
        has_bit(value, bit),
    ensures
        value > 0,
{
    lemma_pow2_pos(bit);
    if value == 0 {
        assert(0int / (pow2(bit) as int) == 0) by (nonlinear_arith)
            requires
                pow2(bit) > 0,
        ;
    }
}

/// Every label that `real_labels` lists is the index of a weight with a one
/// at `bit`.
pub proof fn lemma_real_labels_are_buckets(weights: Seq<usize>, bit: nat, k: int)
    requires
        weights.len() <= usize::MAX,
        0 <= k < real_labels(weights, bit).len(),
    ensures
        real_labels(weights, bit)[k] < weights.len(),
        has_bit(weights[real_labels(weights, bit)[k] as int] as nat, bit),
        weights[real_labels(weights, bit)[k] as int] > 0,
    decreases weights.len(),
{
    let before = real_labels(weights.drop_last(), bit);
    if k < before.len() {
        lemma_real_labels_are_buckets(weights.drop_last(), bit, k);
    }
    lemma_bit_means_positive(weights[real_labels(weights, bit)[k] as int] as nat, bit);
}

/// There are no more labels than weights.
pub proof fn lemma_real_labels_len(weights: Seq<usize>, bit: nat)
    ensures
        real_labels(weights, bit).len() <= weights.len(),
    decreases weights.len(),
{
    if weights.len() > 0 {
        lemma_real_labels_len(weights.drop_last(), bit);
    }
}

/// The weight that stands behind a label: that of the bucket, or the padding
/// behind the label of the virtual bucket.
pub open spec fn weight_of(weights: Seq<usize>, label: usize) -> nat {
    if label < weights.len() {
        weights[label as int] as nat
    } else if label == weights.len() {
        padding(weights)
    } else {
        0
    }
}

/// How often `label` stands in `labels`.
pub open spec fn occurrences(labels: Seq<usize>, label: usize) -> nat
    decreases labels.len(),
{
    if labels.len() == 0 {
        0
    } else {
        occurrences(labels.drop_last(), label) + (if labels.last() == label {
            1nat
        } else {
            0nat
        })
    }
}

/// `real_labels` lists a bucket once if its weight has a one at `bit`, and
/// not at all if it has none.
proof fn lemma_real_occurrences(weights: Seq<usize>, bit: nat, label: usize)
    requires
        weights.len() <= usize::MAX,
    ensures
        occurrences(real_labels(weights, bit), label) == (if label < weights.len() && has_bit(
            weights[label as int] as nat,
            bit,
        ) {
            1nat
        } else {
            0nat
        }),
    decreases weights.len(),
{
    if weights.len() > 0 {
        let before = real_labels(weights.drop_last(), bit);
        lemma_real_occurrences(weights.drop_last(), bit, label);
        if has_bit(weights.last() as nat, bit) {
            assert(real_labels(weights, bit).drop_last() =~= before);
        }
    }
}

/// A bucket owns one leaf at each level at whose position its weight has a
/// one, and none at any other level; so does the virtual bucket, by the
/// padding.
pub proof fn lemma_leaves_follow_bits(weights: Seq<usize>, level: nat, label: usize)
    requires
        weights.len() <= usize::MAX,
        level < depth(weights),
        label <= weights.len(),
    ensures
        occurrences(labels_at(weights, level), label) == (if has_bit(
            weight_of(weights, label),
            level_bit(weights, level),
        ) {
            1nat
        } else {
            0nat
        }),
{
    let bit = level_bit(weights, level);
    let owned = real_labels(weights, bit);
    lemma_real_occurrences(weights, bit, label);
    if has_bit(padding(weights), bit) {
        assert(labels_at(weights, level).drop_last() =~= owned);
    }
}

/// What the lowest `bits` binary digits of `value` amount to.
#[verifier::opaque]
pub closed spec fn low_digits(value: nat, bits: nat) -> nat {
    value % pow2(bits)
}

/// The sum of the weights, each reduced to its lowest `bits` binary digits.
pub closed spec fn low_sum(weights: Seq<usize>, bits: nat) -> nat
    decreases weights.len(),
{
    if weights.len() == 0 {
        0
    } else {
        low_sum(weights.drop_last(), bits) + low_digits(weights.last() as nat, bits)
    }
}

/// `count` times `2^bits`: the share of the total that `count` nodes stand
/// for when `bits` levels lie below them.
#[verifier::opaque]
pub closed spec fn scaled(count: int, bits: nat) -> int {
    count * pow2(bits)
}

/// Scaling goes through sums and differences, and keeps sign and order.
pub proof fn lemma_scaled_is_linear(x: int, y: int, bits: nat)
    ensures
        scaled(x + y, bits) == scaled(x, bits) + scaled(y, bits),
        scaled(x - y, bits) == scaled(x, bits) - scaled(y, bits),
        scaled(2 * x, bits) == scaled(x, bits + 1),
        scaled(0, bits) == 0,
        scaled(1, bits) == pow2(bits),
        scaled(x, 0) == x,
        scaled(x, bits) >= 0 <==> x >= 0,
        x <= y ==> scaled(x, bits) <= scaled(y, bits),
{
    reveal(scaled);
    let p = pow2(bits) as int;
    lemma_pow2_pos(bits);
    lemma_pow2_unfold(bits + 1);
    lemma2_to64();
    assert((x + y) * p == x * p + y * p) by (nonlinear_arith);
    assert((x - y) * p == x * p - y * p) by (nonlinear_arith);
    assert((2 * x) * p == x * (2 * p)) by (nonlinear_arith);
    assert(0 * p == 0);
    assert(1 * p == p);
    assert(x * 1 == x);
    assert(x * p >= 0 <==> x >= 0) by (nonlinear_arith)
        requires
            p > 0,
    ;
    assert(x <= y ==> x * p <= y * p) by (nonlinear_arith)
        requires
            p > 0,
    ;
}

/// One more digit adds what its position is worth, if it is a one.
pub proof fn lemma_low_digits_split(value: nat, bit: nat)
    ensures
        has_bit(value, bit) ==> low_digits(value, bit + 1) == low_digits(value, bit) + scaled(
            1,
            bit,
        ),
        !has_bit(value, bit) ==> low_digits(value, bit + 1) == low_digits(value, bit),
{
    reveal(low_digits);
    lemma_scaled_is_linear(1, 0, bit);
    lemma_pow2_pos(bit);
    lemma_pow2_unfold(bit + 1);
    let p = pow2(bit) as int;
    let digit = (value as int / p) % 2;
    lemma_mod_breakdown(value as int, p, 2);
    assert(p * 2 == pow2(bit + 1));
    assert(digit == 1 ==> p * digit == p) by (nonlinear_arith);
    assert(digit == 0 ==> p * digit == 0) by (nonlinear_arith);
}

/// A value that has no more than `bits` digits is all low digits, and no
/// digits amount to nothing.
pub proof fn lemma_low_digits_of_small(value: nat, bits: nat)
    ensures
        value < pow2(bits) ==> low_digits(value, bits) == value,
        low_digits(value, 0) == 0,
{
    reveal(low_digits);
    lemma2_to64();
    if value < pow2(bits) {
        lemma_small_mod(value, pow2(bits));
    }
}

/// One more digit adds to the sum what its position is worth, once for
/// each weight that has a one there.
proof fn lemma_low_sum_split(weights: Seq<usize>, bit: nat)
    ensures
        low_sum(weights, bit + 1) == low_sum(weights, bit) + scaled(
            real_labels(weights, bit).len() as int,
            bit,
        ),
    decreases weights.len(),
{
    if weights.len() == 0 {
        lemma_scaled_is_linear(0, 0, bit);
    } else {
        lemma_low_sum_split(weights.drop_last(), bit);
        lemma_low_digits_split(weights.last() as nat, bit);
        lemma_scaled_is_linear(real_labels(weights.drop_last(), bit).len() as int, 1, bit);
    }
}

/// Weights that have no more than `bits` digits add up to their total.
proof fn lemma_low_sum_of_small(weights: Seq<usize>, bits: nat)
    requires
        forall|i: int| 0 <= i < weights.len() ==> weights[i] < pow2(bits),
    ensures
        low_sum(weights, bits) == total(weights),
    decreases weights.len(),
{
    if weights.len() > 0 {
        lemma_low_sum_of_small(weights.drop_last(), bits);
        lemma_low_digits_of_small(weights.last() as nat, bits);
    }
}

/// No digits add up to nothing.
proof fn lemma_low_sum_vanishes(weights: Seq<usize>)
    ensures
        low_sum(weights, 0) == 0,
    decreases weights.len(),
{
    if weights.len() > 0 {
        lemma_low_sum_vanishes(weights.drop_last());
        lemma_low_digits_of_small(weights.last() as nat, 0);
    }
}

/// The inner nodes above a level, each weighed by the share of the total
/// that lies below it, make up what the weights and the padding still hold
/// in their low digits.
proof fn lemma_branches_weigh_low_digits(weights: Seq<usize>, level: nat)
    requires
        valid(weights),
        level <= depth(weights),
    ensures
        scaled(branches(weights, level), (depth(weights) - level) as nat) == low_sum(
            weights,
            (depth(weights) - level) as nat,
        ) + low_digits(padding(weights), (depth(weights) - level) as nat),
    decreases level,
{
    let d = depth(weights);
    lemma_valid_distribution(weights);
    if level == 0 {
        lemma_low_sum_of_small(weights, d);
        lemma_pow2_unfold(d);
        lemma_low_digits_of_small(padding(weights), d);
        lemma_scaled_is_linear(1, 0, d);
    } else {
        let above = (level - 1) as nat;
        let bit = (d - level) as nat;
        lemma_branches_weigh_low_digits(weights, above);
        assert(level_bit(weights, above) == bit);
        assert((d - above) as nat == bit + 1);
        lemma_low_sum_split(weights, bit);
        lemma_low_digits_split(padding(weights), bit);
        let b = branches(weights, above);
        let n = leaf_count(weights, above) as int;
        let r = real_labels(weights, bit).len() as int;
        lemma_scaled_is_linear(b, 0, bit);
        lemma_scaled_is_linear(2 * b, n, bit);
        lemma_scaled_is_linear(r, 1, bit);
    }
}

/// No level has more leaves than it has nodes, the last level has only
/// leaves, and level `k` has at most `2^k` inner nodes above it.
pub proof fn lemma_branches_bounds(weights: Seq<usize>, level: nat)
    requires
        valid(weights),
        level <= depth(weights),
    ensures
        0 <= branches(weights, level) <= pow2(level),
        level == depth(weights) ==> branches(weights, level) == 0,
    decreases level,
{
    let d = depth(weights);
    let bits = (d - level) as nat;
    lemma_branches_weigh_low_digits(weights, level);
    lemma_scaled_is_linear(branches(weights, level), 0, bits);
    if level == d {
        lemma_low_sum_vanishes(weights);
        lemma_low_digits_of_small(padding(weights), 0);
    }
    if level == 0 {
        lemma2_to64();
    } else {
        lemma_branches_bounds(weights, (level - 1) as nat);
        lemma_pow2_unfold(level);
    }
}

} // verus!
