//! How a sequence of coin flips moves through the tree of a distribution.

use vstd::prelude::*;
use vstd::arithmetic::power2::{pow2, lemma_pow2_strictly_increases, lemma_pow2_unfold};
use crate::distribution::{depth, padding, valid, lemma_valid_distribution};
use crate::tree::{
    has_bit, real_labels, level_bit, labels_at, leaf_count, branches, lemma_bit_means_positive,
    lemma_branches_bounds, lemma_real_labels_are_buckets, lemma_real_labels_len,
};

verus! {

/// Where a walk stands between two flips: on an inner node, of which
/// `level` is the level that the next flip leads to, and `label_index` its
/// place among the inner nodes above that level, counted from the left.
#[derive(Debug, Clone, Copy, PartialEq, Eq, Structural)]
pub struct Cursor {
    pub level: usize,
    pub label_index: usize,
}

/// What one flip does to a walk.
#[derive(Debug, Clone, Copy, PartialEq, Eq, Structural)]
pub enum Step {
    /// The walk reached a leaf of a bucket of the distribution.
    Leaf(usize),
    /// The walk reached a leaf of the virtual bucket and starts over.
    Restart,
    /// The walk reached an inner node and goes on one level down.
    Descend(Cursor),
}

/// Where a sequence of flips has brought a walk.
pub enum Walk {
    /// Still under way, with the next flip to be taken at this cursor.
    At(Cursor),
    /// Ended on a leaf of this bucket; later flips are not looked at.
    Landed(usize),
}

/// The cursor at which every walk starts, and starts over.
pub open spec fn root() -> Cursor {
    Cursor { level: 0, label_index: 0 }
}

/// The cursors that a walk through the tree of `weights` can stand at.
pub open spec fn admits(weights: Seq<usize>, cursor: Cursor) -> bool {
    &&& cursor.level < depth(weights)
    &&& cursor.label_index < branches(weights, cursor.level as nat)
}

/// The node that a flip leads to from `cursor`, counted from the left among
/// the nodes of the cursor's level, leaves first.
pub open spec fn child_index(cursor: Cursor, toss: bool) -> int {
    2 * cursor.label_index + (if toss {
        1int
    } else {
        0int
    })
}

/// The effect of one flip at `cursor`.
pub open spec fn step_of(weights: Seq<usize>, cursor: Cursor, toss: bool) -> Step {
    let labels = labels_at(weights, cursor.level as nat);
    let index = child_index(cursor, toss);
    if index < labels.len() {
        if labels[index] < weights.len() {
            Step::Leaf(labels[index])
        } else {
            Step::Restart
        }
    } else {
        Step::Descend(
            Cursor {
                level: (cursor.level + 1) as usize,
                label_index: (index - labels.len()) as usize,
            },
        )
    }
}

/// Where the walk stands after `flips`, taken in order from the root.
pub open spec fn walk(weights: Seq<usize>, flips: Seq<bool>) -> Walk
    decreases flips.len(),
{
    if flips.len() == 0 {
        Walk::At(root())
    } else {
        match walk(weights, flips.drop_last()) {
            Walk::Landed(bucket) => Walk::Landed(bucket),
            Walk::At(cursor) => match step_of(weights, cursor, flips.last()) {
                Step::Leaf(bucket) => Walk::Landed(bucket),
                Step::Restart => Walk::At(root()),
                Step::Descend(next) => Walk::At(next),
            },
        }
    }
}

/// The bucket that `flips` lead to, if they lead to one.
pub open spec fn landing(weights: Seq<usize>, flips: Seq<bool>) -> Option<usize> {
    match walk(weights, flips) {
        Walk::Landed(bucket) => Some(bucket),
        Walk::At(_) => None,
    }
}

/// Whether the last of `flips` sends the walk back to the root.
pub open spec fn ends_in_restart(weights: Seq<usize>, flips: Seq<bool>) -> bool {
    &&& flips.len() > 0
    &&& walk(weights, flips.drop_last()) matches Walk::At(cursor)
    &&& step_of(weights, cursor, flips.last()) is Restart
}

/// How often the walk along `flips` starts over.
pub open spec fn restarts(weights: Seq<usize>, flips: Seq<bool>) -> nat
    decreases flips.len(),
{
    if flips.len() == 0 {
        0
    } else {
        restarts(weights, flips.drop_last()) + (if ends_in_restart(weights, flips) {
            1nat
        } else {
            0nat
        })
    }
}

/// How many of `flips` the walk looks at: all that come before it lands.
pub open spec fn consumed(weights: Seq<usize>, flips: Seq<bool>) -> nat
    decreases flips.len(),
{
    if flips.len() == 0 {
        0
    } else {
        consumed(weights, flips.drop_last()) + (if walk(weights, flips.drop_last()) is At {
            1nat
        } else {
            0nat
        })
    }
}

/// What a sampler comes to that takes `flips` one by one, no more than it
/// needs, and gives up when the walk would start over once more than
/// `max_restarts` times.
pub open spec fn draws(
    weights: Seq<usize>,
    flips: Seq<bool>,
    max_restarts: nat,
    drawn: Option<usize>,
) -> bool {
    &&& consumed(weights, flips) == flips.len()
    &&& landing(weights, flips) == drawn
    &&& match drawn {
        Some(_) => restarts(weights, flips) <= max_restarts,
        None => restarts(weights, flips) == max_restarts + 1,
    }
}

/// One flip at a cursor of the tree leads to a bucket of positive weight, to
/// the root, or to a cursor of the tree one level down, and nothing in it
/// leaves the range of a `usize`.
pub proof fn lemma_step_stays_inside(weights: Seq<usize>, cursor: Cursor, toss: bool)
    requires
        valid(weights),
        weights.len() <= usize::MAX,
        admits(weights, cursor),
    ensures
        child_index(cursor, toss) < pow2(depth(weights)) <= usize::MAX,
        leaf_count(weights, cursor.level as nat) <= weights.len() + 1,
        match step_of(weights, cursor, toss) {
            Step::Leaf(bucket) => bucket < weights.len() && weights[bucket as int] > 0,
            Step::Restart => padding(weights) > 0,
            Step::Descend(next) => {
                &&& admits(weights, next)
                &&& next.level == cursor.level + 1
                &&& next.label_index == child_index(cursor, toss) - leaf_count(
                    weights,
                    cursor.level as nat,
                )
            },
        },
{
    let d = depth(weights);
    let level = cursor.level as nat;
    let bit = level_bit(weights, level);
    let labels = labels_at(weights, level);
    let index = child_index(cursor, toss);
    lemma_valid_distribution(weights);
    lemma_branches_bounds(weights, level);
    lemma_branches_bounds(weights, level + 1);
    lemma_pow2_unfold(level + 1);
    if level + 1 < d {
        lemma_pow2_strictly_increases(level + 1, d);
    }
    lemma_real_labels_len(weights, bit);
    assert(branches(weights, level + 1) == 2 * branches(weights, level) - leaf_count(
        weights,
        level,
    ));
    if index < labels.len() {
        if index < real_labels(weights, bit).len() {
            lemma_real_labels_are_buckets(weights, bit, index);
            assert(labels[index] == real_labels(weights, bit)[index]);
        } else {
            assert(has_bit(padding(weights), bit));
            assert(labels[index] == weights.len());
            lemma_bit_means_positive(padding(weights), bit);
        }
    } else {
        assert(index - labels.len() < branches(weights, level + 1));
        assert(level + 1 < d);
    }
}

/// A walk never leaves the tree, and where it lands is a bucket of the
/// distribution with a positive weight.
pub proof fn lemma_walk_stays_inside(weights: Seq<usize>, flips: Seq<bool>)
    requires
        valid(weights),
        weights.len() <= usize::MAX,
    ensures
        match walk(weights, flips) {
            Walk::At(cursor) => admits(weights, cursor),
            Walk::Landed(bucket) => bucket < weights.len() && weights[bucket as int] > 0,
        },
    decreases flips.len(),
{
    if flips.len() == 0 {
        lemma_valid_distribution(weights);
    } else {
        lemma_walk_stays_inside(weights, flips.drop_last());
        match walk(weights, flips.drop_last()) {
            Walk::Landed(_) => {},
            Walk::At(cursor) => {
                lemma_step_stays_inside(weights, cursor, flips.last());
                lemma_valid_distribution(weights);
            },
        }
    }
}

/// Once a walk has landed, further flips change nothing.
pub proof fn lemma_landing_is_final(weights: Seq<usize>, flips: Seq<bool>, more: Seq<bool>)
    requires
        landing(weights, flips) is Some,
    ensures
        landing(weights, flips + more) == landing(weights, flips),
    decreases more.len(),
{
    if more.len() == 0 {
        assert(flips + more =~= flips);
    } else {
        lemma_landing_is_final(weights, flips, more.drop_last());
        assert((flips + more).drop_last() =~= flips + more.drop_last());
    }
}

/// A walk looks at no more than `depth` flips between two visits of the
/// root: all in all no more than `depth` for each round that it began, and
/// while it is under way no more than `depth` for each round that it gave
/// up and as many as its level says in the round that it is in.
pub proof fn lemma_rounds_are_short(weights: Seq<usize>, flips: Seq<bool>)
    requires
        valid(weights),
        weights.len() <= usize::MAX,
    ensures
        consumed(weights, flips) <= depth(weights) * (restarts(weights, flips) + 1),
        walk(weights, flips) matches Walk::At(cursor) ==> consumed(weights, flips) <= depth(
            weights,
        ) * restarts(weights, flips) + cursor.level,
    decreases flips.len(),
{
    let d = depth(weights);
    let r = restarts(weights, flips);
    lemma_valid_distribution(weights);
    lemma_walk_stays_inside(weights, flips);
    assert(d * (r + 1) == d * r + d) by (nonlinear_arith);
    if flips.len() == 0 {
        assert(d * 0 == 0);
    } else {
        let before = flips.drop_last();
        let earlier = restarts(weights, before);
        lemma_rounds_are_short(weights, before);
        lemma_walk_stays_inside(weights, before);
        assert(d * (earlier + 1) == d * earlier + d) by (nonlinear_arith);
        match walk(weights, before) {
            Walk::Landed(_) => {},
            Walk::At(cursor) => {
                lemma_step_stays_inside(weights, cursor, flips.last());
                if step_of(weights, cursor, flips.last()) is Restart {
                    assert(ends_in_restart(weights, flips));
                    assert(d * (earlier + 1 + 1) == d * (earlier + 1) + d) by (nonlinear_arith);
                }
            },
        }
    }
}

} // verus!
