//! Distributed linear octrees.
//!
//! Points in a cubic domain are binned into the cells of an octree, the cells
//! are ordered along the Morton curve, and every process of a message-passing
//! job ends up owning a contiguous, load-balanced range of that curve.
//!
//! This crate holds the sequential core: the key algebra, the per-rank tree
//! algorithms and the decisions taken between two message exchanges. The
//! exchanges themselves belong to the program that links this library.
//!
//! # References
//! [1] Sundar, Hari, Rahul S. Sampath, and George Biros. "Bottom-up construction and 2: 1
//! balance refinement of linear octrees in parallel." SIAM Journal on Scientific Computing 30.5
//! (2008): 2675-2708.
//!
//! [2] Chan, T. "Closest-point problems simplified on the RAM", ACM-SIAM Symposium on Discrete
//! Algorithms (2002)

/// Facts about rounding to multiples and powers of two.
pub mod arith;

/// The Morton index of an anchor, as a natural number.
pub mod interleave;

/// Perform operations on Morton keys.
pub mod morton;

/// Sorting and extrema along the Morton curve.
pub mod sorting;

/// Sums of weights over sequences.
pub mod sums;

/// Create octrees in parallel.
pub mod tree;

/// The region between two keys, as a set of keys.
pub mod region;

/// Sample sort: samples, splitters and buckets.
pub mod sample;

/// The distributed blocktree: what each process decides on its own.
pub mod blocktree;

/// Load balance: block weights, targets and donations.
pub mod balance;

/// The final adaptive tree: blocks split until no cell holds too many points.
pub mod split;

/// The comparison operators on keys and leaves.
pub mod compare;

/// Laws of the key algebra that relate several of its functions.
pub mod laws;

/// The blocktree as a partition of the Morton curve.
pub mod cover;
