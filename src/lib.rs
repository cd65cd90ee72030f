//! Selection of the feature subset whose greedy threshold tree leaves the
//! least label impurity over a population of labelled items.
//!
//! The library holds the discrete part of the search: counting labels,
//! partitioning groups by thresholds, growing the tree and enumerating and
//! ranking feature combinations. Impurity itself is measured by the caller
//! and handed in as an order key (`u64`), so that every decision made here is
//! exact and verified. The key functions must depend on the contents of their
//! arguments alone; the tree grown and the subset chosen are then fixed by
//! `tree::greedy_leaves` and `select::comb_keys`.
pub mod dataset;
pub mod tree;
pub mod select;
