//! The mathematical model of a diff: the longest common subsequence of two
//! sequences, the edit scripts that align them, and the one script that the
//! library hands out for a given pair.

use vstd::prelude::*;

verus! {

/// One step of an edit script.
///
/// `Equal(i)` keeps source unit `i`, which equals the destination unit that
/// the script has reached; `Delete(i)` drops source unit `i`; `Insert(j)`
/// adds destination unit `j`.
#[derive(Clone, Copy, Debug, PartialEq, Eq, Structural)]
pub enum EditOp {
    Equal(usize),
    Delete(usize),
    Insert(usize),
}

/// The three kinds of edge of the edit graph.
#[derive(Clone, Copy, Debug, PartialEq, Eq, Structural)]
pub enum EdgeKind {
    /// `(i, j) -> (i + 1, j + 1)`, free, present where the two units are equal.
    MatchDiagonal,
    /// `(i, j) -> (i + 1, j)`, cost 1.
    Delete,
    /// `(i, j) -> (i, j + 1)`, cost 1.
    Insert,
}

/// Length of a longest common subsequence of the first `i` units of `a` and
/// the first `j` units of `b`.
pub open spec fn lcs_prefix<T>(a: Seq<T>, b: Seq<T>, i: int, j: int) -> nat
    decreases i + j,
{
    if i <= 0 || j <= 0 {
        0
    } else if a[i - 1] == b[j - 1] {
        1 + lcs_prefix(a, b, i - 1, j - 1)
    } else {
        let without_source = lcs_prefix(a, b, i - 1, j);
        let without_destination = lcs_prefix(a, b, i, j - 1);
        if without_source >= without_destination {
            without_source
        } else {
            without_destination
        }
    }
}

/// Length of a longest common subsequence of `a` and `b`.
pub open spec fn lcs_len<T>(a: Seq<T>, b: Seq<T>) -> nat {
    lcs_prefix(a, b, a.len() as int, b.len() as int)
}

/// Cost of a cheapest path from the origin of the edit graph to `(i, j)`.
pub open spec fn distance_prefix<T>(a: Seq<T>, b: Seq<T>, i: int, j: int) -> int {
    i + j - 2 * lcs_prefix(a, b, i, j)
}

/// The edit distance between `a` and `b`, insertions and deletions only.
pub open spec fn edit_distance<T>(a: Seq<T>, b: Seq<T>) -> int {
    distance_prefix(a, b, a.len() as int, b.len() as int)
}

/// Whether a diagonal edge enters `(i, j)`.
pub open spec fn diagonal_enters<T>(a: Seq<T>, b: Seq<T>, i: int, j: int) -> bool {
    0 < i <= a.len() && 0 < j <= b.len() && a[i - 1] == b[j - 1]
}

/// The edge by which the chosen cheapest path enters `(i, j)`, a position
/// other than the origin.
///
/// A diagonal wins wherever one enters the position. Between the two unit
/// edges, the insertion wins a tie.
pub open spec fn canonical_step<T>(a: Seq<T>, b: Seq<T>, i: int, j: int) -> EdgeKind {
    if diagonal_enters(a, b, i, j) {
        EdgeKind::MatchDiagonal
    } else if j > 0 && (i <= 0 || lcs_prefix(a, b, i, j - 1) >= lcs_prefix(a, b, i - 1, j)) {
        EdgeKind::Insert
    } else {
        EdgeKind::Delete
    }
}

/// The chosen script from the origin to `(i, j)`.
pub open spec fn canonical_script_prefix<T>(a: Seq<T>, b: Seq<T>, i: int, j: int) -> Seq<EditOp>
    decreases i + j,
{
    if i < 0 || j < 0 || (i == 0 && j == 0) {
        Seq::empty()
    } else {
        match canonical_step(a, b, i, j) {
            EdgeKind::MatchDiagonal => canonical_script_prefix(a, b, i - 1, j - 1).push(
                EditOp::Equal((i - 1) as usize),
            ),
            EdgeKind::Insert => canonical_script_prefix(a, b, i, j - 1).push(
                EditOp::Insert((j - 1) as usize),
            ),
            EdgeKind::Delete => canonical_script_prefix(a, b, i - 1, j).push(
                EditOp::Delete((i - 1) as usize),
            ),
        }
    }
}

/// The script that a diff of `a` against `b` yields.
pub open spec fn canonical_script<T>(a: Seq<T>, b: Seq<T>) -> Seq<EditOp> {
    canonical_script_prefix(a, b, a.len() as int, b.len() as int)
}

/// Number of source units that `script` consumes.
pub open spec fn source_span(script: Seq<EditOp>) -> nat
    decreases script.len(),
{
    if script.len() == 0 {
        0
    } else {
        source_span(script.drop_last()) + match script.last() {
            EditOp::Insert(_) => 0nat,
            _ => 1nat,
        }
    }
}

/// Number of destination units that `script` consumes.
pub open spec fn destination_span(script: Seq<EditOp>) -> nat
    decreases script.len(),
{
    if script.len() == 0 {
        0
    } else {
        destination_span(script.drop_last()) + match script.last() {
            EditOp::Delete(_) => 0nat,
            _ => 1nat,
        }
    }
}

/// Number of `Delete` steps in `script`.
pub open spec fn deletions(script: Seq<EditOp>) -> nat
    decreases script.len(),
{
    if script.len() == 0 {
        0
    } else {
        deletions(script.drop_last()) + match script.last() {
            EditOp::Delete(_) => 1nat,
            _ => 0nat,
        }
    }
}

/// Number of `Insert` steps in `script`.
pub open spec fn insertions(script: Seq<EditOp>) -> nat
    decreases script.len(),
{
    if script.len() == 0 {
        0
    } else {
        insertions(script.drop_last()) + match script.last() {
            EditOp::Insert(_) => 1nat,
            _ => 0nat,
        }
    }
}

/// Number of `Equal` steps in `script`.
pub open spec fn matches_kept(script: Seq<EditOp>) -> nat
    decreases script.len(),
{
    if script.len() == 0 {
        0
    } else {
        matches_kept(script.drop_last()) + match script.last() {
            EditOp::Equal(_) => 1nat,
            _ => 0nat,
        }
    }
}

/// The cost of `script`: one for each step that is not `Equal`.
pub open spec fn script_cost(script: Seq<EditOp>) -> nat {
    deletions(script) + insertions(script)
}

/// Whether `op` is an edge of the edit graph of `a` and `b` that leaves `(i, j)`.
pub open spec fn op_fits<T>(op: EditOp, a: Seq<T>, b: Seq<T>, i: nat, j: nat) -> bool {
    match op {
        EditOp::Equal(x) => x == i && i < a.len() && j < b.len() && a[i as int] == b[j as int],
        EditOp::Delete(x) => x == i && i < a.len(),
        EditOp::Insert(y) => y == j && j < b.len(),
    }
}

/// Whether `script` is a path of the edit graph of `a` and `b` that starts at
/// the origin: each step leaves the position that the steps before it reached.
pub open spec fn is_walk<T>(script: Seq<EditOp>, a: Seq<T>, b: Seq<T>) -> bool
    decreases script.len(),
{
    script.len() == 0 || (is_walk(script.drop_last(), a, b) && op_fits(
        script.last(),
        a,
        b,
        source_span(script.drop_last()),
        destination_span(script.drop_last()),
    ))
}

/// Whether `script` aligns `a` with `b`: a path from the origin to the
/// terminal corner of their edit graph.
pub open spec fn is_alignment<T>(script: Seq<EditOp>, a: Seq<T>, b: Seq<T>) -> bool {
    is_walk(script, a, b) && source_span(script) == a.len() && destination_span(script)
        == b.len()
}

/// What the `Equal` and `Delete` steps of `script` put together, in order.
pub open spec fn rebuilt_source<T>(script: Seq<EditOp>, a: Seq<T>) -> Seq<T>
    decreases script.len(),
{
    if script.len() == 0 {
        Seq::empty()
    } else {
        let before = rebuilt_source(script.drop_last(), a);
        match script.last() {
            EditOp::Equal(i) => before.push(a[i as int]),
            EditOp::Delete(i) => before.push(a[i as int]),
            EditOp::Insert(_) => before,
        }
    }
}

/// What the `Equal` and `Insert` steps of `script` put together, in order. An
/// `Equal` step contributes the source unit that it keeps.
pub open spec fn rebuilt_destination<T>(script: Seq<EditOp>, a: Seq<T>, b: Seq<T>) -> Seq<T>
    decreases script.len(),
{
    if script.len() == 0 {
        Seq::empty()
    } else {
        let before = rebuilt_destination(script.drop_last(), a, b);
        match script.last() {
            EditOp::Equal(i) => before.push(a[i as int]),
            EditOp::Delete(_) => before,
            EditOp::Insert(j) => before.push(b[j as int]),
        }
    }
}

/// The measures of a script grow by one step when a step is appended.
pub proof fn lemma_push_step(script: Seq<EditOp>, op: EditOp)
    ensures
        script.push(op).drop_last() == script,
        script.push(op).last() == op,
{
    assert(script.push(op).drop_last() =~= script);
}

/// A common subsequence gains at most one unit when either prefix grows by
/// one unit, and loses none.
pub proof fn lemma_lcs_grows_slowly<T>(a: Seq<T>, b: Seq<T>, i: int, j: int)
    requires
        0 <= i,
        0 <= j,
    ensures
        i > 0 ==> lcs_prefix(a, b, i - 1, j) <= lcs_prefix(a, b, i, j) <= lcs_prefix(
            a,
            b,
            i - 1,
            j,
        ) + 1,
        j > 0 ==> lcs_prefix(a, b, i, j - 1) <= lcs_prefix(a, b, i, j) <= lcs_prefix(
            a,
            b,
            i,
            j - 1,
        ) + 1,
        lcs_prefix(a, b, i, j) <= i,
        lcs_prefix(a, b, i, j) <= j,
    decreases i + j,
{
    if i > 0 && j > 0 {
        lemma_lcs_grows_slowly(a, b, i - 1, j);
        lemma_lcs_grows_slowly(a, b, i, j - 1);
        lemma_lcs_grows_slowly(a, b, i - 1, j - 1);
    }
}

/// How the cost of a cheapest path to `(i, j)` follows from the costs at the
/// positions before it.
pub proof fn lemma_distance_step<T>(a: Seq<T>, b: Seq<T>, i: int, j: int)
    requires
        0 <= i <= a.len(),
        0 <= j <= b.len(),
    ensures
        0 <= distance_prefix(a, b, i, j) <= i + j,
        i == 0 && j == 0 ==> distance_prefix(a, b, i, j) == 0,
        diagonal_enters(a, b, i, j) ==> distance_prefix(a, b, i, j) == distance_prefix(
            a,
            b,
            i - 1,
            j - 1,
        ),
        i > 0 ==> distance_prefix(a, b, i, j) <= distance_prefix(a, b, i - 1, j) + 1,
        j > 0 ==> distance_prefix(a, b, i, j) <= distance_prefix(a, b, i, j - 1) + 1,
        (i > 0 || j > 0) && canonical_step(a, b, i, j) == EdgeKind::Insert
            ==> j > 0 && distance_prefix(a, b, i, j) == distance_prefix(a, b, i, j - 1) + 1,
        (i > 0 || j > 0) && canonical_step(a, b, i, j) == EdgeKind::Delete
            ==> i > 0 && distance_prefix(a, b, i, j) == distance_prefix(a, b, i - 1, j) + 1,
        !diagonal_enters(a, b, i, j) && j > 0 && distance_prefix(a, b, i, j) == distance_prefix(
            a,
            b,
            i,
            j - 1,
        ) + 1 ==> canonical_step(a, b, i, j) == EdgeKind::Insert,
{
    lemma_lcs_grows_slowly(a, b, i, j);
    if i > 0 {
        lemma_lcs_grows_slowly(a, b, i - 1, j);
    }
    if j > 0 {
        lemma_lcs_grows_slowly(a, b, i, j - 1);
    }
}

/// The chosen script to `(i, j)` is a path of the edit graph that ends at
/// `(i, j)`, keeps as many units as a longest common subsequence of the two
/// prefixes has, and costs what a cheapest path to `(i, j)` costs.
pub proof fn lemma_canonical_prefix<T>(a: Seq<T>, b: Seq<T>, i: int, j: int)
    requires
        0 <= i <= a.len(),
        0 <= j <= b.len(),
        i <= usize::MAX,
        j <= usize::MAX,
    ensures
        is_walk(canonical_script_prefix(a, b, i, j), a, b),
        source_span(canonical_script_prefix(a, b, i, j)) == i,
        destination_span(canonical_script_prefix(a, b, i, j)) == j,
        matches_kept(canonical_script_prefix(a, b, i, j)) == lcs_prefix(a, b, i, j),
        deletions(canonical_script_prefix(a, b, i, j)) == i - lcs_prefix(a, b, i, j),
        insertions(canonical_script_prefix(a, b, i, j)) == j - lcs_prefix(a, b, i, j),
        canonical_script_prefix(a, b, i, j).len() == i + j - lcs_prefix(a, b, i, j),
    decreases i + j,
{
    if i == 0 && j == 0 {
    } else {
        lemma_lcs_grows_slowly(a, b, i, j);
        match canonical_step(a, b, i, j) {
            EdgeKind::MatchDiagonal => {
                lemma_canonical_prefix(a, b, i - 1, j - 1);
                lemma_push_step(
                    canonical_script_prefix(a, b, i - 1, j - 1),
                    EditOp::Equal((i - 1) as usize),
                );
            },
            EdgeKind::Insert => {
                lemma_canonical_prefix(a, b, i, j - 1);
                lemma_push_step(
                    canonical_script_prefix(a, b, i, j - 1),
                    EditOp::Insert((j - 1) as usize),
                );
            },
            EdgeKind::Delete => {
                lemma_canonical_prefix(a, b, i - 1, j);
                lemma_push_step(
                    canonical_script_prefix(a, b, i - 1, j),
                    EditOp::Delete((i - 1) as usize),
                );
            },
        }
    }
}

} // verus!
