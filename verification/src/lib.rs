//! Minimal edit scripts between two sequences of units, found by a shortest
//! path search over their edit graph.
//!
//! `script::diff` is the whole of it: it holds the two lengths against a
//! budget, builds a `graph::MyersGraph`, lets `MyersGraph::shortest` find the
//! cheapest path from the origin to the terminal corner, and lets
//! `MyersGraph::construct_changes` spell that path as a script of
//! `model::EditOp`. `ranges::coalesce` writes a script in short. `model`
//! says what the result is, and `laws` what holds of it.
//!
//! `snapshot` is for the caller that watches a directory tree and diffs the
//! files that were modified: it tells what changed between two walks.

pub mod graph;
pub mod laws;
pub mod model;
pub mod path;
pub mod ranges;
pub mod script;
mod search;
pub mod snapshot;
mod solver;
