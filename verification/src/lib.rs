//! Exact sampling from a discrete distribution with integer weights, driven
//! by fair coin flips alone.
//!
//! A [`Generator`] is built once from a list of weights and then turns coin
//! flips into bucket indices: bucket `i` comes out with probability
//! `weights[i] / sum`, and a sample costs only a few flips more than the
//! entropy of the distribution.
//!
//! - [`distribution`]: the total of a list of weights, the depth of its
//!   tree and the padding to the next power of two.
//! - [`tree`]: which bucket owns a leaf at which level.
//! - [`walk`]: what a sequence of flips does in the tree.
//! - [`mass`]: how the ways to flip through a round fall to the buckets.
//! - [`generator`]: the tree in memory, built and walked.
//! - [`coin`]: fair coins.

pub mod coin;
pub mod distribution;
pub mod generator;
pub mod mass;
pub mod tree;
pub mod walk;

pub use crate::coin::{FairCoin, RngCoin, WordSource};
pub use crate::distribution::Error;
pub use crate::generator::Generator;
pub use crate::walk::{Cursor, Step};
