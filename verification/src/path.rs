//! From the records of a finished search to the path that it found, and from
//! a path of node numbers to the edit script that it spells.

use crate::graph::con_range;
use crate::graph::edge_origin;
use crate::graph::grid_size;
use crate::graph::lemma_node_index;
use crate::graph::node_index;
use crate::graph::DiffError;
use crate::graph::MyersGraph;
use crate::graph::Position;
use crate::model::canonical_script_prefix;
use crate::model::canonical_step;
use crate::model::destination_span;
use crate::model::is_alignment;
use crate::model::is_walk;
use crate::model::source_span;
use crate::model::EdgeKind;
use crate::model::EditOp;
use crate::search::predecessor_map;
use crate::search::search;
use crate::search::settled_ok;
use crate::solver::record_at;
use crate::solver::FrontierRecord;
use vstd::prelude::*;

verus! {

/// The node numbers along the chosen path from the origin to `(i, j)`, both
/// ends included.
pub open spec fn canonical_path_prefix<T>(a: Seq<T>, b: Seq<T>, i: int, j: int) -> Seq<usize>
    decreases i + j,
{
    if i < 0 || j < 0 || (i == 0 && j == 0) {
        seq![0usize]
    } else {
        match canonical_step(a, b, i, j) {
            EdgeKind::MatchDiagonal => canonical_path_prefix(a, b, i - 1, j - 1).push(
                node_index(b.len(), i, j) as usize,
            ),
            EdgeKind::Insert => canonical_path_prefix(a, b, i, j - 1).push(
                node_index(b.len(), i, j) as usize,
            ),
            EdgeKind::Delete => canonical_path_prefix(a, b, i - 1, j).push(
                node_index(b.len(), i, j) as usize,
            ),
        }
    }
}

/// The node numbers along the chosen path from the origin to the terminal
/// corner.
pub open spec fn canonical_path<T>(a: Seq<T>, b: Seq<T>) -> Seq<usize> {
    canonical_path_prefix(a, b, a.len() as int, b.len() as int)
}

/// The edit step that leads from the node numbered `from` to the node
/// numbered `to`, where an edge of the edit graph does.
pub open spec fn path_step<T>(a: Seq<T>, b: Seq<T>, from: int, to: int) -> Option<EditOp> {
    let width = b.len() + 1;
    let i = from / width as int;
    let j = from % width as int;
    if to == from + width && i < a.len() {
        Some(EditOp::Delete(i as usize))
    } else if to == from + 1 && j < b.len() {
        Some(EditOp::Insert(j as usize))
    } else if to == from + width + 1 && i < a.len() && j < b.len() && a[i] == b[j] {
        Some(EditOp::Equal(i as usize))
    } else {
        None
    }
}

/// The edit step between node `k` of `path` and the node after it.
pub open spec fn step_at<T>(a: Seq<T>, b: Seq<T>, path: Seq<usize>, k: int) -> Option<EditOp> {
    path_step(a, b, path[k] as int, path[k + 1] as int)
}

/// Whether the first `len` nodes of `path` are nodes of the graph, each
/// joined to the next by an edge.
pub open spec fn is_chain<T>(a: Seq<T>, b: Seq<T>, path: Seq<usize>, len: int) -> bool {
    forall|k: int|
        0 <= k < len - 1 ==> path[k] < grid_size(a.len(), b.len()) && (#[trigger] step_at(
            a,
            b,
            path,
            k,
        )) is Some
}

/// Whether `path` is a path of the edit graph of `a` and `b` from its origin
/// to its terminal corner.
pub open spec fn is_node_path<T>(a: Seq<T>, b: Seq<T>, path: Seq<usize>) -> bool {
    &&& path.len() >= 1
    &&& path[0] == 0
    &&& path.last() == grid_size(a.len(), b.len()) - 1
    &&& is_chain(a, b, path, path.len() as int)
}

/// The edit script that `path` spells: one step for each edge.
pub open spec fn script_of_path<T>(a: Seq<T>, b: Seq<T>, path: Seq<usize>) -> Seq<EditOp> {
    Seq::new((path.len() - 1) as nat, |k: int| step_at(a, b, path, k)->0)
}

/// The chosen path to `(i, j)` is a chain of edges that ends at `(i, j)` and
/// spells the chosen script to `(i, j)`.
pub proof fn lemma_canonical_path_prefix<T>(a: Seq<T>, b: Seq<T>, i: int, j: int)
    requires
        0 <= i <= a.len(),
        0 <= j <= b.len(),
        grid_size(a.len(), b.len()) <= usize::MAX,
    ensures
        canonical_path_prefix(a, b, i, j).len() == canonical_script_prefix(a, b, i, j).len() + 1,
        canonical_path_prefix(a, b, i, j)[0] == 0,
        canonical_path_prefix(a, b, i, j).last() == node_index(b.len(), i, j),
        is_chain(
            a,
            b,
            canonical_path_prefix(a, b, i, j),
            canonical_path_prefix(a, b, i, j).len() as int,
        ),
        script_of_path(a, b, canonical_path_prefix(a, b, i, j)) == canonical_script_prefix(
            a,
            b,
            i,
            j,
        ),
    decreases i + j,
{
    let path = canonical_path_prefix(a, b, i, j);
    let script = canonical_script_prefix(a, b, i, j);
    lemma_node_index(a.len(), b.len(), i, j);
    if i == 0 && j == 0 {
        assert(script_of_path(a, b, path) =~= script);
    } else {
        let before = edge_origin(canonical_step(a, b, i, j), i, j);
        lemma_canonical_path_prefix(a, b, before.0, before.1);
        lemma_node_index(a.len(), b.len(), before.0, before.1);
        let shorter = canonical_path_prefix(a, b, before.0, before.1);
        let last = shorter.len() - 1;
        assert(path == shorter.push(node_index(b.len(), i, j) as usize));
        assert(path[last] == shorter[last]);
        let width = (b.len() + 1) as int;
        assert(before.0 * width + width == (before.0 + 1) * width) by (nonlinear_arith);
        assert(step_at(a, b, path, last) == Some(script.last()));
        assert forall|k: int| 0 <= k < path.len() - 1 implies path[k] < grid_size(
            a.len(),
            b.len(),
        ) && (#[trigger] step_at(a, b, path, k)) is Some by {
            if k < last {
                assert(step_at(a, b, shorter, k) is Some);
                assert(path[k] == shorter[k]);
                assert(path[k + 1] == shorter[k + 1]);
            }
        }
        assert forall|k: int| 0 <= k < script.len() implies script_of_path(a, b, path)[k]
            == script[k] by {
            if k < last {
                assert(path[k] == shorter[k]);
                assert(path[k + 1] == shorter[k + 1]);
                assert(script_of_path(a, b, shorter)[k] == step_at(a, b, shorter, k)->0);
                assert(script[k] == canonical_script_prefix(a, b, before.0, before.1)[k]);
            }
        }
        assert(script_of_path(a, b, path) =~= script);
    }
}

/// The steps that the first `k + 1` nodes of a chain spell are a path of the
/// edit graph, and node `k` is the position that this path reaches.
pub proof fn lemma_chain_spells_walk<T>(a: Seq<T>, b: Seq<T>, path: Seq<usize>, k: int)
    requires
        0 <= k < path.len(),
        path[0] == 0,
        is_chain(a, b, path, k + 1),
        grid_size(a.len(), b.len()) <= usize::MAX,
    ensures
        is_walk(script_of_path(a, b, path.take(k + 1)), a, b),
        source_span(script_of_path(a, b, path.take(k + 1))) <= a.len(),
        destination_span(script_of_path(a, b, path.take(k + 1))) <= b.len(),
        path[k] == node_index(
            b.len(),
            source_span(script_of_path(a, b, path.take(k + 1))) as int,
            destination_span(script_of_path(a, b, path.take(k + 1))) as int,
        ),
    decreases k,
{
    let script = script_of_path(a, b, path.take(k + 1));
    if k > 0 {
        let shorter = script_of_path(a, b, path.take(k));
        lemma_chain_spells_walk(a, b, path, k - 1);
        let step = step_at(a, b, path, k - 1);
        assert(step is Some);
        assert(script.drop_last() =~= shorter) by {
            assert forall|l: int| 0 <= l < k - 1 implies script[l] == shorter[l] by {
                assert(step_at(a, b, path.take(k + 1), l) == step_at(a, b, path.take(k), l));
            }
        }
        assert(script.last() == step->0) by {
            assert(step_at(a, b, path.take(k + 1), k - 1) == step);
        }
        let i = source_span(shorter) as int;
        let j = destination_span(shorter) as int;
        let width = (b.len() + 1) as int;
        lemma_node_index(a.len(), b.len(), i, j);
        assert(i * width + width == (i + 1) * width) by (nonlinear_arith);
    }
}

/// The script that a node path from the origin to the terminal corner spells
/// aligns the source with the destination.
pub proof fn lemma_path_spells_alignment<T>(a: Seq<T>, b: Seq<T>, path: Seq<usize>)
    requires
        is_node_path(a, b, path),
        grid_size(a.len(), b.len()) <= usize::MAX,
    ensures
        is_alignment(script_of_path(a, b, path), a, b),
{
    let k = path.len() - 1;
    lemma_chain_spells_walk(a, b, path, k);
    assert(path.take(k + 1) =~= path);
    let script = script_of_path(a, b, path);
    let i = source_span(script) as int;
    let j = destination_span(script) as int;
    lemma_node_index(a.len(), b.len(), i, j);
    lemma_node_index(a.len(), b.len(), a.len() as int, b.len() as int);
    let width = (b.len() + 1) as int;
    assert((a.len() + 1) * width == a.len() * width + width) by (nonlinear_arith);
}

/// Follows the recorded edges from the terminal corner back to the origin and
/// hands the nodes out in the order from the origin.
fn trace<T: Eq + Sync>(graph: &MyersGraph<T>, records: &Vec<Vec<FrontierRecord>>) -> (path:
    Vec<usize>)
    requires
        predecessor_map(graph.source_units(), graph.destination_units(), records@),
    ensures
        path@ == canonical_path(graph.source_units(), graph.destination_units()),
{
    let ghost a = graph.source_units();
    let ghost b = graph.destination_units();
    let ghost full = canonical_path(a, b);
    let m = graph.source_len();
    let n = graph.destination_len();
    let mut back: Vec<usize> = Vec::new();
    let mut at = Position { i: m, j: n };
    while at.i > 0 || at.j > 0
        invariant
            a == graph.source_units(),
            b == graph.destination_units(),
            full == canonical_path(a, b),
            predecessor_map(a, b, records@),
            graph.has_position(at.i as int, at.j as int),
            record_at(records@, at.i as int, at.j as int).settled,
            canonical_path_prefix(a, b, at.i as int, at.j as int).len() + back@.len()
                == full.len(),
            forall|k: int|
                0 <= k < canonical_path_prefix(a, b, at.i as int, at.j as int).len()
                    ==> full[k] == canonical_path_prefix(a, b, at.i as int, at.j as int)[k],
            forall|k: int| 0 <= k < back@.len() ==> back@[k] == full[full.len() - 1 - k],
        decreases at.i + at.j,
    {
        let ghost here = canonical_path_prefix(a, b, at.i as int, at.j as int);
        proof {
            assert(settled_ok(a, b, records@, at.i as int, at.j as int));
            assert(full[here.len() - 1] == here[here.len() - 1]);
        }
        let node = graph.index_of(at);
        back.push(node);
        let from = records[at.i][at.j].from.unwrap();
        at =
        match from {
            EdgeKind::MatchDiagonal => Position { i: at.i - 1, j: at.j - 1 },
            EdgeKind::Delete => Position { i: at.i - 1, j: at.j },
            EdgeKind::Insert => Position { i: at.i, j: at.j - 1 },
        };
        proof {
            let shorter = canonical_path_prefix(a, b, at.i as int, at.j as int);
            assert(here == shorter.push(node));
            assert forall|k: int| 0 <= k < shorter.len() implies full[k] == shorter[k] by {
                assert(here[k] == shorter[k]);
            }
        }
    }
    back.push(0);
    let mut path: Vec<usize> = Vec::new();
    let mut left = back.len();
    while left > 0
        invariant
            left <= back@.len(),
            back@.len() == full.len(),
            path@.len() == back@.len() - left,
            forall|k: int| 0 <= k < back@.len() ==> back@[k] == full[full.len() - 1 - k],
            forall|k: int| 0 <= k < path@.len() ==> path@[k] == full[k],
        decreases left,
    {
        left -= 1;
        path.push(back[left]);
    }
    assert(path@ =~= full);
    path
}

impl<T: Eq + Sync> MyersGraph<T> {
    /// The cheapest path from the node `source_node` to the node
    /// `destination_node`, as the numbers of its nodes.
    ///
    /// A search runs between the origin and the terminal corner only: any
    /// other pair of nodes is turned down, a number beyond the grid too.
    pub fn shortest(&self, source_node: usize, destination_node: usize) -> (path: Result<
        Vec<usize>,
        DiffError,
    >)
        ensures
            match path {
                Ok(nodes) => {
                    &&& source_node == 0
                    &&& destination_node == self.terminal()
                    &&& nodes@ == canonical_path(self.source_units(), self.destination_units())
                },
                Err(e) => {
                    &&& e == DiffError::InvalidEndpoint
                    &&& !(source_node == 0 && destination_node == self.terminal())
                },
            },
    {
        let count = self.node_count();
        let terminal = count - 1;
        match con_range(count, destination_node) {
            None => Err(DiffError::InvalidEndpoint),
            Some(destination) => {
                if source_node != 0 || destination != terminal {
                    Err(DiffError::InvalidEndpoint)
                } else {
                    let records = search(self);
                    Ok(trace(self, &records))
                }
            },
        }
    }

    /// The edit script that the node path `diff_path` spells.
    ///
    /// A path that is not a path of the graph from its origin to its terminal
    /// corner is turned down.
    pub fn construct_changes(&self, diff_path: Vec<usize>) -> (changes: Result<
        Vec<EditOp>,
        DiffError,
    >)
        ensures
            match changes {
                Ok(script) => {
                    &&& is_node_path(self.source_units(), self.destination_units(), diff_path@)
                    &&& script@ == script_of_path(
                        self.source_units(),
                        self.destination_units(),
                        diff_path@,
                    )
                    &&& is_alignment(script@, self.source_units(), self.destination_units())
                },
                Err(e) => {
                    &&& e == DiffError::InternalInvariantViolation
                    &&& !is_node_path(self.source_units(), self.destination_units(), diff_path@)
                },
            },
    {
        let ghost a = self.source_units();
        let ghost b = self.destination_units();
        let m = self.source_len();
        let n = self.destination_len();
        let count = self.node_count();
        let width = n + 1;
        let len = diff_path.len();
        if len == 0 || diff_path[0] != 0 || diff_path[len - 1] != count - 1 {
            return Err(DiffError::InternalInvariantViolation);
        }
        let mut script: Vec<EditOp> = Vec::new();
        let mut k: usize = 0;
        while k < len - 1
            invariant
                a == self.source_units(),
                b == self.destination_units(),
                m == a.len(),
                n == b.len(),
                width == n + 1,
                count == grid_size(a.len(), b.len()),
                len == diff_path@.len(),
                len >= 1,
                k <= len - 1,
                script@.len() == k,
                is_chain(a, b, diff_path@, k + 1),
                forall|l: int| 0 <= l < k ==> script@[l] == step_at(a, b, diff_path@, l)->0,
            decreases len - 1 - k,
        {
            let from = diff_path[k];
            let to = diff_path[k + 1];
            if from >= count || to <= from {
                proof {
                    assert(!(step_at(a, b, diff_path@, k as int) is Some && diff_path@[k as int]
                        < grid_size(a.len(), b.len())));
                }
                return Err(DiffError::InternalInvariantViolation);
            }
            let at = self.position_of(from);
            let gap = to - from;
            let step = if gap == width && at.i < m {
                Some(EditOp::Delete(at.i))
            } else if gap == 1 && at.j < n {
                Some(EditOp::Insert(at.j))
            } else if gap - 1 == width && at.i < m && at.j < n && self.units_match(at.i, at.j) {
                Some(EditOp::Equal(at.i))
            } else {
                None
            };
            assert(step == step_at(a, b, diff_path@, k as int));
            match step {
                None => {
                    return Err(DiffError::InternalInvariantViolation);
                },
                Some(op) => {
                    script.push(op);
                },
            }
            k += 1;
        }
        proof {
            assert(script@ =~= script_of_path(a, b, diff_path@));
            lemma_path_spells_alignment(a, b, diff_path@);
        }
        Ok(script)
    }
}

} // verus!
