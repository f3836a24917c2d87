//! A binary decision-tree induction and classification engine.
//!
//! Labeled numeric feature vectors are greedily partitioned into a binary
//! tree that minimizes class impurity; the tree then assigns unlabeled
//! points to classes.  Feature values are fixed-point integers, so every
//! computation here is exact and fully verified.

pub mod data;
pub mod gini;
pub mod split;
pub mod tree;
pub mod classify;

pub use data::{Axis, Class, Criterion, DataPoint};
pub use tree::{train, train_with, DecisionTree, TrainError};
pub use classify::classify;

