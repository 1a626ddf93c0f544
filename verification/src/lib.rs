//! Core library of a small kernel: the process scheduler together with the
//! ordered process index it is built on, and the utility modules that stand
//! beside them (integer helpers, file paths, network descriptors).
//!
//! Every data structure and algorithm here is verified: the ordered index is
//! a red-black tree whose balancing invariants are part of its contracts, and
//! the scheduler's round-robin selection is specified over the index's
//! ordered key sequence.

pub mod binary_tree;
pub mod net;
pub mod path;
pub mod process;
pub mod scheduler;
pub mod util;
