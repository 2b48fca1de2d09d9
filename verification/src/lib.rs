//! Graph search over weighted state-transition graphs.
//!
//! The [`search`] module holds the graph and five search strategies:
//! breadth-first, depth-first with an optional depth bound, iterative
//! deepening, best-first under a caller-supplied score, and bidirectional
//! best-first. The [`decision_tree`] module holds a small decision tree.
//! Every function carries a contract that Verus proves.

pub mod decision_tree;
pub mod search;
