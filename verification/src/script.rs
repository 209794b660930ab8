//! The diff of two sequences: the budget check, the search, and the script.

use crate::graph::grid_size;
use crate::graph::DiffError;
use crate::graph::MyersGraph;
use crate::model::canonical_script;
use crate::model::script_cost;
use crate::model::EditOp;
use crate::path::canonical_path;
use crate::path::lemma_canonical_path_prefix;
use vstd::laws_eq::obeys_concrete_eq;
use vstd::prelude::*;

verus! {

/// Whether a source of `m` units and a destination of `n` units may be
/// compared under the given ceiling: the product of the lengths is within
/// the ceiling, and a `usize` can count the nodes of the edit graph.
pub open spec fn within_budget(m: nat, n: nat, ceiling: usize) -> bool {
    m * n <= ceiling && grid_size(m, n) <= usize::MAX
}

/// Whether the two lengths are within the budget that `ceiling` sets.
pub fn fits_budget(m: usize, n: usize, ceiling: usize) -> (fits: bool)
    ensures
        fits == within_budget(m as nat, n as nat, ceiling),
{
    assert((m + 1) * (n + 1) == m * n + m + n + 1) by (nonlinear_arith);
    assert(m * n >= 0) by (nonlinear_arith);
    match m.checked_mul(n) {
        None => false,
        Some(product) => {
            if product > ceiling {
                false
            } else {
                match product.checked_add(m) {
                    None => false,
                    Some(with_source) => match with_source.checked_add(n) {
                        None => false,
                        Some(with_both) => with_both < usize::MAX,
                    },
                }
            }
        },
    }
}

/// The minimal edit script that turns `source` into `destination`.
///
/// The lengths are held against the budget before anything else is done.
/// Within the budget the call succeeds, and the script is the chosen one:
/// among the cheapest paths of the edit graph, the one that enters each
/// position by a diagonal where one enters it, and else by the insertion
/// where the insertion is as cheap as the deletion.
///
/// The `==` of the unit type has to be equality, which the lemmas of
/// `vstd::laws_eq` show of the integer types. `diff_bytes` asks nothing.
pub fn diff<T: Eq + Sync>(source: Vec<T>, destination: Vec<T>, ceiling: usize) -> (result: Result<
    Vec<EditOp>,
    DiffError,
>)
    requires
        obeys_concrete_eq::<T>(),
    ensures
        match result {
            Ok(script) => {
                &&& within_budget(source@.len(), destination@.len(), ceiling)
                &&& script@ == canonical_script(source@, destination@)
            },
            Err(e) => {
                &&& e == DiffError::InputTooLarge
                &&& !within_budget(source@.len(), destination@.len(), ceiling)
            },
        },
{
    if !fits_budget(source.len(), destination.len(), ceiling) {
        return Err(DiffError::InputTooLarge);
    }
    let ghost a = source@;
    let ghost b = destination@;
    let graph = MyersGraph::new(source, destination);
    let terminal = graph.node_count() - 1;
    let path = graph.shortest(0, terminal)?;
    proof {
        lemma_canonical_path_prefix(a, b, a.len() as int, b.len() as int);
        assert(canonical_path(a, b).last() == grid_size(a.len(), b.len()) - 1) by {
            assert((a.len() + 1) * (b.len() + 1) == a.len() * (b.len() + 1) + b.len() + 1)
                by (nonlinear_arith);
        }
    }
    graph.construct_changes(path)
}

/// The minimal edit script that turns the bytes `source` into the bytes
/// `destination`: `diff` for the contents of two files.
pub fn diff_bytes(source: Vec<u8>, destination: Vec<u8>, ceiling: usize) -> (result: Result<
    Vec<EditOp>,
    DiffError,
>)
    ensures
        match result {
            Ok(script) => {
                &&& within_budget(source@.len(), destination@.len(), ceiling)
                &&& script@ == canonical_script(source@, destination@)
            },
            Err(e) => {
                &&& e == DiffError::InputTooLarge
                &&& !within_budget(source@.len(), destination@.len(), ceiling)
            },
        },
{
    broadcast use vstd::laws_eq::group_laws_eq;

    diff(source, destination, ceiling)
}

/// The cost of `script`: the number of its steps that are not `Equal`.
pub fn cost(script: &Vec<EditOp>) -> (total: usize)
    ensures
        total == script_cost(script@),
{
    let mut total: usize = 0;
    let mut k: usize = 0;
    while k < script.len()
        invariant
            k <= script@.len(),
            total <= k,
            total == script_cost(script@.take(k as int)),
        decreases script@.len() - k,
    {
        proof {
            assert(script@.take(k + 1).drop_last() =~= script@.take(k as int));
        }
        match script[k] {
            EditOp::Equal(_) => {},
            _ => {
                total += 1;
            },
        }
        k += 1;
    }
    assert(script@.take(k as int) =~= script@);
    total
}

} // verus!
