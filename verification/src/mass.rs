//! The share of each bucket among the ways to flip through one round.
//!
//! A round is what a walk does between two visits of the root. It ends at a
//! leaf, after `depth` flips at the latest; counting a leaf at level `k` for
//! all `2^(depth - k - 1)` ways to go on flipping to the full length, the
//! `2^depth` ways to flip through a round fall to the buckets exactly as the
//! weights say, and to the virtual bucket as the padding says.

use vstd::prelude::*;
use vstd::arithmetic::power2::{pow2, lemma_pow2_strictly_increases, lemma_pow2_unfold};
use crate::distribution::{depth, valid, lemma_valid_distribution};
use crate::tree::{
    real_labels, level_bit, labels_at, leaf_count, branches, weight_of, occurrences, low_digits,
    scaled, lemma_branches_bounds, lemma_leaves_follow_bits, lemma_low_digits_of_small,
    lemma_low_digits_split, lemma_real_labels_are_buckets, lemma_scaled_is_linear,
};
use crate::walk::{Cursor, Step, root, admits, child_index, step_of, lemma_step_stays_inside};

verus! {

/// Of the ways to flip on from `cursor` to the full length of a round, the
/// number that end at a leaf labelled `label`.
pub open spec fn paths_from(weights: Seq<usize>, cursor: Cursor, label: usize) -> nat
    decreases depth(weights) - cursor.level, 1nat,
{
    if cursor.level < depth(weights) <= usize::MAX {
        paths_after(weights, cursor, false, label) + paths_after(weights, cursor, true, label)
    } else {
        0
    }
}

/// The same, of the ways that begin with `toss`.
pub open spec fn paths_after(weights: Seq<usize>, cursor: Cursor, toss: bool, label: usize) -> nat
    decreases depth(weights) - cursor.level, 0nat,
{
    if cursor.level < depth(weights) <= usize::MAX {
        let rest = pow2((depth(weights) - cursor.level - 1) as nat);
        match step_of(weights, cursor, toss) {
            Step::Leaf(bucket) => if bucket == label {
                rest
            } else {
                0
            },
            Step::Restart => if label == weights.len() {
                rest
            } else {
                0
            },
            Step::Descend(next) => paths_from(weights, next, label),
        }
    } else {
        0
    }
}

/// What `paths_after` counts, told by the node that the flip leads to: the
/// node `child` of `level`, counted from the left.
spec fn paths_below(weights: Seq<usize>, level: nat, child: nat, label: usize) -> nat {
    let labels = labels_at(weights, level);
    if child < labels.len() {
        if labels[child as int] == label {
            pow2(level_bit(weights, level))
        } else {
            0
        }
    } else {
        paths_from(
            weights,
            Cursor { level: (level + 1) as usize, label_index: (child - labels.len()) as usize },
            label,
        )
    }
}

/// The sum of `paths_below` over the first `count` nodes of `level`.
spec fn paths_below_first(weights: Seq<usize>, level: nat, count: nat, label: usize) -> nat
    decreases count,
{
    if count == 0 {
        0
    } else {
        paths_below_first(weights, level, (count - 1) as nat, label) + paths_below(
            weights,
            level,
            (count - 1) as nat,
            label,
        )
    }
}

/// The sum of `paths_from` over the first `count` cursors of `level`.
spec fn paths_from_first(weights: Seq<usize>, level: nat, count: nat, label: usize) -> nat
    decreases count,
{
    if count == 0 {
        0
    } else {
        paths_from_first(weights, level, (count - 1) as nat, label) + paths_from(
            weights,
            Cursor { level: level as usize, label_index: (count - 1) as usize },
            label,
        )
    }
}

/// `paths_below` counts what `paths_after` counts.
proof fn lemma_paths_below_is_paths_after(
    weights: Seq<usize>,
    cursor: Cursor,
    toss: bool,
    label: usize,
)
    requires
        valid(weights),
        weights.len() <= usize::MAX,
        admits(weights, cursor),
    ensures
        paths_after(weights, cursor, toss, label) == paths_below(
            weights,
            cursor.level as nat,
            child_index(cursor, toss) as nat,
            label,
        ),
{
    let level = cursor.level as nat;
    let bit = level_bit(weights, level);
    let labels = labels_at(weights, level);
    let index = child_index(cursor, toss);
    lemma_valid_distribution(weights);
    lemma_step_stays_inside(weights, cursor, toss);
    if index < labels.len() {
        if index < real_labels(weights, bit).len() {
            lemma_real_labels_are_buckets(weights, bit, index);
        }
    }
}

/// The cursors of a level, each with its two children, make up the nodes of
/// the level from the left.
proof fn lemma_pairs_of_children(weights: Seq<usize>, level: nat, count: nat, label: usize)
    requires
        valid(weights),
        weights.len() <= usize::MAX,
        level < depth(weights),
        count <= branches(weights, level),
    ensures
        paths_from_first(weights, level, count, label) == paths_below_first(
            weights,
            level,
            2 * count,
            label,
        ),
    decreases count,
{
    if count > 0 {
        let before = (count - 1) as nat;
        lemma_pairs_of_children(weights, level, before, label);
        lemma_valid_distribution(weights);
        lemma_branches_bounds(weights, level);
        lemma_pow2_strictly_increases(level, depth(weights));
        let cursor = Cursor { level: level as usize, label_index: before as usize };
        lemma_paths_below_is_paths_after(weights, cursor, false, label);
        lemma_paths_below_is_paths_after(weights, cursor, true, label);
        assert(child_index(cursor, false) == 2 * before);
        assert(child_index(cursor, true) == 2 * before + 1);
        assert(paths_below_first(weights, level, 2 * count, label) == paths_below_first(
            weights,
            level,
            (2 * before + 1) as nat,
            label,
        ) + paths_below(weights, level, (2 * before + 1) as nat, label));
        assert(paths_below_first(weights, level, (2 * before + 1) as nat, label)
            == paths_below_first(weights, level, 2 * before, label) + paths_below(
            weights,
            level,
            2 * before,
            label,
        ));
    }
}

/// Among the leaves of a level, each one labelled `label` counts for all
/// the ways to flip on from it.
proof fn lemma_paths_below_leaves(weights: Seq<usize>, level: nat, count: nat, label: usize)
    requires
        level < depth(weights),
        count <= leaf_count(weights, level),
    ensures
        paths_below_first(weights, level, count, label) == scaled(
            occurrences(labels_at(weights, level).take(count as int), label) as int,
            level_bit(weights, level),
        ),
    decreases count,
{
    let labels = labels_at(weights, level);
    let bit = level_bit(weights, level);
    if count == 0 {
        lemma_scaled_is_linear(0, 0, bit);
    } else {
        let before = (count - 1) as nat;
        lemma_paths_below_leaves(weights, level, before, label);
        assert(labels.take(count as int).drop_last() =~= labels.take(before as int));
        lemma_scaled_is_linear(occurrences(labels.take(before as int), label) as int, 1, bit);
    }
}

/// Behind the leaves of a level come its inner nodes, which are the cursors
/// of the next level.
proof fn lemma_paths_below_inner_nodes(weights: Seq<usize>, level: nat, count: nat, label: usize)
    requires
        valid(weights),
        level < depth(weights),
        leaf_count(weights, level) <= count <= 2 * branches(weights, level),
    ensures
        paths_below_first(weights, level, count, label) == paths_below_first(
            weights,
            level,
            leaf_count(weights, level),
            label,
        ) + paths_from_first(
            weights,
            level + 1,
            (count - leaf_count(weights, level)) as nat,
            label,
        ),
    decreases count,
{
    if count > leaf_count(weights, level) {
        lemma_valid_distribution(weights);
        lemma_paths_below_inner_nodes(weights, level, (count - 1) as nat, label);
    }
}

/// The cursors of a level share among them what the label's weight holds
/// in the binary digits that the levels from there on stand for.
proof fn lemma_level_shares_low_digits(weights: Seq<usize>, level: nat, label: usize)
    requires
        valid(weights),
        weights.len() <= usize::MAX,
        level <= depth(weights),
        label <= weights.len(),
    ensures
        paths_from_first(weights, level, branches(weights, level) as nat, label) == low_digits(
            weight_of(weights, label),
            (depth(weights) - level) as nat,
        ),
    decreases depth(weights) - level,
{
    let d = depth(weights);
    let value = weight_of(weights, label);
    lemma_branches_bounds(weights, level);
    if level == d {
        lemma_low_digits_of_small(value, 0);
    } else {
        let bit = level_bit(weights, level);
        let labels = labels_at(weights, level);
        let inner = branches(weights, level) as nat;
        lemma_branches_bounds(weights, level + 1);
        assert(branches(weights, level + 1) == 2 * branches(weights, level) - leaf_count(
            weights,
            level,
        ));
        lemma_pairs_of_children(weights, level, inner, label);
        lemma_paths_below_inner_nodes(weights, level, 2 * inner, label);
        lemma_paths_below_leaves(weights, level, leaf_count(weights, level), label);
        assert(labels.take(labels.len() as int) =~= labels);
        lemma_leaves_follow_bits(weights, level, label);
        lemma_level_shares_low_digits(weights, level + 1, label);
        lemma_low_digits_split(value, bit);
        lemma_scaled_is_linear(0, 0, bit);
        assert((d - level) as nat == bit + 1);
    }
}

/// Of the `2^depth` ways to flip through one round from the root, as many
/// end on a leaf of a bucket as its weight says, and as many on a leaf of
/// the virtual bucket as the padding says.
pub proof fn lemma_paths_weigh_the_weights(weights: Seq<usize>, label: usize)
    requires
        valid(weights),
        weights.len() <= usize::MAX,
        label <= weights.len(),
    ensures
        paths_from(weights, root(), label) == weight_of(weights, label),
{
    lemma_valid_distribution(weights);
    lemma_level_shares_low_digits(weights, 0, label);
    lemma_low_digits_of_small(weight_of(weights, label), depth(weights));
    assert(paths_from_first(weights, 0, 1, label) == paths_from_first(weights, 0, 0, label)
        + paths_from(weights, root(), label));
}

/// Fewer than half of the ways to flip through one round lead back to the
/// root.
pub proof fn lemma_restarts_are_the_lesser_half(weights: Seq<usize>)
    requires
        valid(weights),
        weights.len() <= usize::MAX,
    ensures
        2 * paths_from(weights, root(), weights.len() as usize) < pow2(depth(weights)),
{
    lemma_valid_distribution(weights);
    lemma_paths_weigh_the_weights(weights, weights.len() as usize);
    lemma_pow2_unfold(depth(weights));
}

} // verus!
