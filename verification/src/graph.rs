//! The pair of sequences under comparison and their edit graph, which is
//! never built: the edges that leave a position are computed when asked for.

use crate::model::EdgeKind;
use rayon::iter::IntoParallelRefIterator;
use rayon::iter::ParallelIterator;
use vstd::laws_eq::obeys_concrete_eq;
use vstd::prelude::*;

verus! {

/// Why a request was turned down.
///
/// A panic raised by the unit type's `==` is not caught: it ends the call and
/// reaches the caller as it is.
#[derive(Clone, Copy, Debug, PartialEq, Eq, Structural)]
pub enum DiffError {
    /// The product of the two lengths is over the caller's ceiling, or the
    /// edit graph has more nodes than a `usize` can count.
    InputTooLarge,
    /// A search was asked for between nodes other than the origin and the
    /// terminal corner.
    InvalidEndpoint,
    /// A node path is not a path of the edit graph from its origin to its
    /// terminal corner.
    InternalInvariantViolation,
}

/// A node of the edit graph: `i` source units and `j` destination units have
/// been consumed.
#[derive(Clone, Copy, Debug, PartialEq, Eq, Structural)]
pub struct Position {
    pub i: usize,
    pub j: usize,
}

/// An edge that leaves a position, named by its kind and by where it leads.
#[derive(Clone, Copy, Debug, PartialEq, Eq, Structural)]
pub struct Edge {
    pub kind: EdgeKind,
    pub to: Position,
}

/// What an edge of the given kind costs.
pub open spec fn edge_cost(kind: EdgeKind) -> nat {
    match kind {
        EdgeKind::MatchDiagonal => 0,
        EdgeKind::Delete => 1,
        EdgeKind::Insert => 1,
    }
}

impl EdgeKind {
    /// What an edge of this kind costs.
    pub fn cost(self) -> (cost: usize)
        ensures
            cost == edge_cost(self),
    {
        match self {
            EdgeKind::MatchDiagonal => 0,
            EdgeKind::Delete => 1,
            EdgeKind::Insert => 1,
        }
    }
}

/// The position from which an edge of the given kind reaches `(i, j)`.
pub open spec fn edge_origin(kind: EdgeKind, i: int, j: int) -> (int, int) {
    match kind {
        EdgeKind::MatchDiagonal => (i - 1, j - 1),
        EdgeKind::Delete => (i - 1, j),
        EdgeKind::Insert => (i, j - 1),
    }
}

/// The edges that leave `(i, j)` in the edit graph of `a` and `b`: the
/// diagonal first, where the two units are equal, then the deletion, then the
/// insertion, each where the grid has room for it.
pub open spec fn edges_at<T>(a: Seq<T>, b: Seq<T>, i: int, j: int) -> Seq<Edge> {
    let diagonal = if i < a.len() && j < b.len() && a[i] == b[j] {
        seq![
            Edge {
                kind: EdgeKind::MatchDiagonal,
                to: Position { i: (i + 1) as usize, j: (j + 1) as usize },
            },
        ]
    } else {
        Seq::empty()
    };
    let delete = if i < a.len() {
        seq![Edge { kind: EdgeKind::Delete, to: Position { i: (i + 1) as usize, j: j as usize } }]
    } else {
        Seq::empty()
    };
    let insert = if j < b.len() {
        seq![Edge { kind: EdgeKind::Insert, to: Position { i: i as usize, j: (j + 1) as usize } }]
    } else {
        Seq::empty()
    };
    diagonal + delete + insert
}

/// Number of nodes in the edit graph of a source of `m` and a destination of
/// `n` units.
pub open spec fn grid_size(m: nat, n: nat) -> nat {
    (m + 1) * (n + 1)
}

/// The number of the node `(i, j)` where the destination has `n` units: the
/// nodes are numbered row by row, a row for each count of source units.
pub open spec fn node_index(n: nat, i: int, j: int) -> int {
    i * (n + 1) + j
}

/// Whether `row` tells, for each unit of `destination`, whether it equals `unit`.
pub open spec fn is_match_row<T>(row: Seq<bool>, unit: T, destination: Seq<T>) -> bool {
    &&& row.len() == destination.len()
    &&& forall|j: int| 0 <= j < row.len() ==> row[j] == (unit == destination[j])
}

/// Node numbers stay below the size of the grid and tell positions apart.
pub proof fn lemma_node_index(m: nat, n: nat, i: int, j: int)
    requires
        0 <= i <= m,
        0 <= j <= n,
    ensures
        0 <= node_index(n, i, j) < grid_size(m, n),
        node_index(n, i, j) / (n + 1) as int == i,
        node_index(n, i, j) % (n + 1) as int == j,
        m + n < grid_size(m, n),
{
    let w = (n + 1) as int;
    assert(i * w <= m * w) by (nonlinear_arith)
        requires
            0 <= i <= m,
            w > 0,
    ;
    assert((m + 1) * w == m * w + w) by (nonlinear_arith);
    assert(m * w >= m) by (nonlinear_arith)
        requires
            w >= 1,
            m >= 0,
    ;
    vstd::arithmetic::div_mod::lemma_fundamental_div_mod_converse(i * w + j, w, i, j);
}

/// Keeps `val` when it names one of the `range` values `0 .. range`.
pub fn con_range(range: usize, val: usize) -> (kept: Option<usize>)
    ensures
        kept == (if val < range {
            Some(val)
        } else {
            None
        }),
{
    if val < range {
        Some(val)
    } else {
        None
    }
}

/// Compares `unit` with each unit of `destination`.
pub fn match_row<T: PartialEq>(unit: &T, destination: &Vec<T>) -> (row: Vec<bool>)
    requires
        obeys_concrete_eq::<T>(),
    ensures
        is_match_row(row@, *unit, destination@),
{
    let mut row: Vec<bool> = Vec::new();
    let mut j: usize = 0;
    while j < destination.len()
        invariant
            obeys_concrete_eq::<T>(),
            j <= destination.len(),
            row@.len() == j,
            forall|k: int| 0 <= k < j ==> row@[k] == (*unit == destination@[k]),
        decreases destination.len() - j,
    {
        proof {
            reveal(obeys_concrete_eq);
        }
        let same = *unit == destination[j];
        row.push(same);
        j += 1;
    }
    row
}

/// Compares every source unit with every destination unit, the rows shared
/// out among rayon's worker threads.
///
/// Calls rayon's `par_iter`, `map` and `collect` on the source. Trusted of
/// them: `map` applies the closure, which is `match_row` on one source unit,
/// to each unit once, and `collect` hands the results back as a vector in the
/// order of the units that they came from.
#[verifier::external_body]
fn par_match_rows<T: PartialEq + Sync>(source: &Vec<T>, destination: &Vec<T>) -> (rows: Vec<
    Vec<bool>,
>)
    requires
        obeys_concrete_eq::<T>(),
    ensures
        rows@.len() == source@.len(),
        forall|i: int|
            0 <= i < rows@.len() ==> is_match_row(#[trigger] rows@[i]@, source@[i], destination@),
{
    source.par_iter().map(|unit| match_row(unit, destination)).collect()
}

/// Two sequences of units and the edit graph between them.
///
/// The graph has a node for each pair `(i, j)` of a count of source units and
/// a count of destination units; node `(i, j)` has the number
/// `i * (destination length + 1) + j`. Only the table of equal units is kept.
pub struct MyersGraph<T: Eq + Sync> {
    source: Vec<T>,
    destination: Vec<T>,
    matches: Vec<Vec<bool>>,
}

impl<T: Eq + Sync> MyersGraph<T> {
    #[verifier::type_invariant]
    spec fn well_formed(&self) -> bool {
        &&& grid_size(self.source@.len(), self.destination@.len()) <= usize::MAX
        &&& self.matches@.len() == self.source@.len()
        &&& forall|i: int|
            0 <= i < self.matches@.len() ==> is_match_row(
                #[trigger] self.matches@[i]@,
                self.source@[i],
                self.destination@,
            )
    }

    /// The source sequence.
    pub closed spec fn source_units(&self) -> Seq<T> {
        self.source@
    }

    /// The destination sequence.
    pub closed spec fn destination_units(&self) -> Seq<T> {
        self.destination@
    }

    /// Number of nodes of the graph.
    pub open spec fn nodes(&self) -> nat {
        grid_size(self.source_units().len(), self.destination_units().len())
    }

    /// Number of the terminal corner.
    pub open spec fn terminal(&self) -> int {
        self.nodes() - 1
    }

    /// Whether `(i, j)` is a node of the graph.
    pub open spec fn has_position(&self, i: int, j: int) -> bool {
        0 <= i <= self.source_units().len() && 0 <= j <= self.destination_units().len()
    }

    /// Takes the two sequences and compares their units pairwise, in parallel.
    ///
    /// The `==` of the unit type has to be equality, which the lemmas of
    /// `vstd::laws_eq` show of the integer types, and a `usize` has to be able
    /// to count the nodes.
    pub fn new(source: Vec<T>, destination: Vec<T>) -> (graph: Self)
        requires
            obeys_concrete_eq::<T>(),
            grid_size(source@.len(), destination@.len()) <= usize::MAX,
        ensures
            graph.source_units() == source@,
            graph.destination_units() == destination@,
    {
        let matches = par_match_rows(&source, &destination);
        MyersGraph { source, destination, matches }
    }

    /// Length of the source.
    pub fn source_len(&self) -> (m: usize)
        ensures
            m == self.source_units().len(),
            self.nodes() <= usize::MAX,
            self.source_units().len() + self.destination_units().len() < usize::MAX,
    {
        proof {
            use_type_invariant(self);
            lemma_node_index(self.source@.len(), self.destination@.len(), 0, 0);
        }
        self.source.len()
    }

    /// Length of the destination.
    pub fn destination_len(&self) -> (n: usize)
        ensures
            n == self.destination_units().len(),
            self.nodes() <= usize::MAX,
            self.source_units().len() + self.destination_units().len() < usize::MAX,
    {
        proof {
            use_type_invariant(self);
            lemma_node_index(self.source@.len(), self.destination@.len(), 0, 0);
        }
        self.destination.len()
    }

    /// Number of nodes of the graph.
    pub fn node_count(&self) -> (count: usize)
        ensures
            count == self.nodes(),
            count >= 1,
    {
        proof {
            use_type_invariant(self);
            lemma_node_index(self.source@.len(), self.destination@.len(), 0, 0);
        }
        (self.source.len() + 1) * (self.destination.len() + 1)
    }

    /// Whether source unit `i` equals destination unit `j`.
    pub fn units_match(&self, i: usize, j: usize) -> (same: bool)
        requires
            i < self.source_units().len(),
            j < self.destination_units().len(),
        ensures
            same == (self.source_units()[i as int] == self.destination_units()[j as int]),
    {
        proof {
            use_type_invariant(self);
        }
        self.matches[i][j]
    }

    /// Whether a diagonal edge enters `at`.
    pub fn diagonal_into(&self, at: Position) -> (enters: bool)
        requires
            self.has_position(at.i as int, at.j as int),
        ensures
            enters == crate::model::diagonal_enters(
                self.source_units(),
                self.destination_units(),
                at.i as int,
                at.j as int,
            ),
    {
        at.i > 0 && at.j > 0 && self.units_match(at.i - 1, at.j - 1)
    }

    /// The edges that leave `at`.
    pub fn edges(&self, at: Position) -> (out: Vec<Edge>)
        requires
            self.has_position(at.i as int, at.j as int),
        ensures
            out@ == edges_at(
                self.source_units(),
                self.destination_units(),
                at.i as int,
                at.j as int,
            ),
    {
        let m = self.source_len();
        let n = self.destination_len();
        let mut out: Vec<Edge> = Vec::new();
        if at.i < m && at.j < n && self.units_match(at.i, at.j) {
            out.push(
                Edge { kind: EdgeKind::MatchDiagonal, to: Position { i: at.i + 1, j: at.j + 1 } },
            );
        }
        if at.i < m {
            out.push(Edge { kind: EdgeKind::Delete, to: Position { i: at.i + 1, j: at.j } });
        }
        if at.j < n {
            out.push(Edge { kind: EdgeKind::Insert, to: Position { i: at.i, j: at.j + 1 } });
        }
        assert(out@ =~= edges_at(
            self.source_units(),
            self.destination_units(),
            at.i as int,
            at.j as int,
        ));
        out
    }

    /// The number of the node `at`.
    pub fn index_of(&self, at: Position) -> (node: usize)
        requires
            self.has_position(at.i as int, at.j as int),
        ensures
            node == node_index(self.destination_units().len(), at.i as int, at.j as int),
            node < self.nodes(),
    {
        let n = self.destination_len();
        proof {
            lemma_node_index(
                self.source_units().len(),
                self.destination_units().len(),
                at.i as int,
                at.j as int,
            );
            assert(at.i * (n + 1) >= 0) by (nonlinear_arith);
        }
        at.i * (n + 1) + at.j
    }

    /// The node that has the number `node`.
    pub fn position_of(&self, node: usize) -> (at: Position)
        requires
            node < self.nodes(),
        ensures
            self.has_position(at.i as int, at.j as int),
            node_index(self.destination_units().len(), at.i as int, at.j as int) == node,
            at.i == node as int / (self.destination_units().len() + 1) as int,
            at.j == node as int % (self.destination_units().len() + 1) as int,
    {
        let m = self.source_len();
        let n = self.destination_len();
        let width = n + 1;
        proof {
            let w = width as int;
            let k = node as int;
            vstd::arithmetic::div_mod::lemma_fundamental_div_mod(k, w);
            vstd::arithmetic::div_mod::lemma_mod_bound(k, w);
            assert(k / w <= m) by (nonlinear_arith)
                requires
                    0 <= k < (m + 1) * w,
                    w > 0,
                    k == w * (k / w) + k % w,
                    0 <= k % w < w,
            ;
            assert(k / w >= 0) by (nonlinear_arith)
                requires
                    0 <= k,
                    w > 0,
            ;
            assert(w * (k / w) == (k / w) * w) by (nonlinear_arith);
        }
        Position { i: node / width, j: node % width }
    }
}

} // verus!
