//! One step of the shortest path search over the edit graph, and what holds
//! of the records and of the frontier between the steps.
//!
//! The frontier has two ends: the target of a free edge joins it at the
//! front, the target of a unit edge at the back, so that it lists nodes in
//! the order of their distances and no node's distance changes once the node
//! is settled.
//!
//! A unit edge into a position that a diagonal also enters is never taken up:
//! the diagonal reaches that position at a cost that is no larger, and a tie
//! goes to the diagonal. Between the two unit edges into a position, the
//! insertion wins a tie.

use crate::graph::edge_cost;
use crate::graph::edge_origin;
use crate::graph::edges_at;
use crate::graph::Edge;
use crate::graph::MyersGraph;
use crate::graph::Position;
use crate::model::canonical_step;
use crate::model::diagonal_enters;
use crate::model::distance_prefix;
use crate::model::lemma_distance_step;
use crate::model::EdgeKind;
use std::collections::VecDeque;
use vstd::prelude::*;

verus! {

/// What the search knows of one node.
#[derive(Clone, Copy, Debug)]
pub struct FrontierRecord {
    /// The node that the record is about.
    pub node: Position,
    /// Cost of the cheapest path found so far; `None` before any was found.
    pub distance: Option<usize>,
    /// The edge by which that path enters the node.
    pub from: Option<EdgeKind>,
    /// Whether the distance is final.
    pub settled: bool,
}

/// How far a search has come: the distance of the node settled last, that
/// node, and how many of its edges have been relaxed.
pub struct Progress {
    pub level: int,
    pub i: int,
    pub j: int,
    pub relaxed: int,
}

/// The record of the node `(i, j)`.
pub open spec fn record_at(records: Seq<Vec<FrontierRecord>>, i: int, j: int) -> FrontierRecord {
    records[i]@[j]
}

/// Whether `records` has a record for each node of the grid, each about its
/// own node.
pub open spec fn shaped(records: Seq<Vec<FrontierRecord>>, m: int, n: int) -> bool {
    &&& records.len() == m + 1
    &&& forall|i: int| 0 <= i <= m ==> (#[trigger] records[i])@.len() == n + 1
    &&& forall|i: int, j: int|
        0 <= i <= m && 0 <= j <= n ==> (#[trigger] record_at(records, i, j)).node == (Position {
            i: i as usize,
            j: j as usize,
        })
}

/// Whether the edge of the given kind that leaves `(i, j)` is among the first
/// `relaxed` edges there, or is not there at all.
pub open spec fn edge_handled<T>(
    a: Seq<T>,
    b: Seq<T>,
    i: int,
    j: int,
    relaxed: int,
    kind: EdgeKind,
) -> bool {
    let diagonal: int = if i < a.len() && j < b.len() && a[i] == b[j] {
        1
    } else {
        0
    };
    let delete: int = if i < a.len() {
        1
    } else {
        0
    };
    match kind {
        EdgeKind::MatchDiagonal => diagonal == 0 || relaxed >= 1,
        EdgeKind::Delete => delete == 0 || relaxed >= diagonal + 1,
        EdgeKind::Insert => j >= b.len() || relaxed >= diagonal + delete + 1,
    }
}

/// Whether `(i, j)` is settled and its edge of the given kind has been relaxed.
pub open spec fn edge_done<T>(
    a: Seq<T>,
    b: Seq<T>,
    records: Seq<Vec<FrontierRecord>>,
    g: Progress,
    i: int,
    j: int,
    kind: EdgeKind,
) -> bool {
    record_at(records, i, j).settled && (i == g.i && j == g.j ==> edge_handled(
        a,
        b,
        i,
        j,
        g.relaxed,
        kind,
    ))
}

/// Whether the distance in `r` is at most that in `p` and `w` more.
pub open spec fn reaches_within(r: FrontierRecord, p: FrontierRecord, w: int) -> bool {
    r.distance is Some && p.distance is Some && r.distance->0 <= p.distance->0 + w
}

/// Every relaxed edge into `(i, j)` that the search takes up has bounded the
/// distance of `(i, j)`.
pub open spec fn relaxed_into<T>(
    a: Seq<T>,
    b: Seq<T>,
    records: Seq<Vec<FrontierRecord>>,
    g: Progress,
    i: int,
    j: int,
) -> bool {
    let r = record_at(records, i, j);
    &&& diagonal_enters(a, b, i, j) && edge_done(
        a,
        b,
        records,
        g,
        i - 1,
        j - 1,
        EdgeKind::MatchDiagonal,
    ) ==> reaches_within(r, record_at(records, i - 1, j - 1), 0)
    &&& !diagonal_enters(a, b, i, j) && i > 0 && edge_done(
        a,
        b,
        records,
        g,
        i - 1,
        j,
        EdgeKind::Delete,
    ) ==> reaches_within(r, record_at(records, i - 1, j), 1)
    &&& !diagonal_enters(a, b, i, j) && j > 0 && edge_done(
        a,
        b,
        records,
        g,
        i,
        j - 1,
        EdgeKind::Insert,
    ) ==> reaches_within(r, record_at(records, i, j - 1), 1)
}

/// The edge recorded for `(i, j)`, found at distance `d`, is a relaxed edge
/// that gives that distance, and it is the insertion exactly where a relaxed
/// insertion gives it.
pub open spec fn entered_ok<T>(
    a: Seq<T>,
    b: Seq<T>,
    records: Seq<Vec<FrontierRecord>>,
    g: Progress,
    i: int,
    j: int,
    d: int,
    from: Option<EdgeKind>,
) -> bool {
    match from {
        None => false,
        Some(kind) => {
            let (pi, pj) = edge_origin(kind, i, j);
            &&& kind == EdgeKind::MatchDiagonal <==> diagonal_enters(a, b, i, j)
            &&& pi >= 0
            &&& pj >= 0
            &&& edge_done(a, b, records, g, pi, pj, kind)
            &&& record_at(records, pi, pj).distance is Some
            &&& record_at(records, pi, pj).distance->0 + edge_cost(kind) == d
            &&& !diagonal_enters(a, b, i, j) ==> (kind == EdgeKind::Insert <==> j > 0 && edge_done(
                a,
                b,
                records,
                g,
                i,
                j - 1,
                EdgeKind::Insert,
            ) && record_at(records, i, j - 1).distance is Some && record_at(
                records,
                i,
                j - 1,
            ).distance->0 + 1 == d)
        },
    }
}

/// What holds of the record of `(i, j)` throughout a search.
pub open spec fn node_ok<T>(
    a: Seq<T>,
    b: Seq<T>,
    records: Seq<Vec<FrontierRecord>>,
    g: Progress,
    i: int,
    j: int,
) -> bool {
    let r = record_at(records, i, j);
    let origin = i == 0 && j == 0;
    &&& r.settled ==> {
        &&& r.distance is Some
        &&& r.distance->0 == distance_prefix(a, b, i, j)
        &&& r.distance->0 <= g.level
        &&& !origin ==> r.from == Some(canonical_step(a, b, i, j))
    }
    &&& match r.distance {
        None => !r.settled && r.from is None,
        Some(d) => {
            &&& !r.settled ==> g.level <= d <= g.level + 1
            &&& if origin {
                d == 0 && r.from is None
            } else {
                entered_ok(a, b, records, g, i, j, d as int, r.from)
            }
        },
    }
    &&& relaxed_into(a, b, records, g, i, j)
}

/// What holds of the frontier throughout a search: it lists, without
/// repeats and in the order of their distances, the nodes that were found
/// and are not settled.
pub open spec fn frontier_ok(
    records: Seq<Vec<FrontierRecord>>,
    frontier: Seq<Position>,
    m: int,
    n: int,
) -> bool {
    &&& m <= usize::MAX
    &&& n <= usize::MAX
    &&& forall|k: int|
        0 <= k < frontier.len() ==> {
            let at = #[trigger] frontier[k];
            &&& at.i <= m
            &&& at.j <= n
            &&& !record_at(records, at.i as int, at.j as int).settled
            &&& record_at(records, at.i as int, at.j as int).distance is Some
        }
    &&& forall|i: int, j: int|
        0 <= i <= m && 0 <= j <= n && !(#[trigger] record_at(records, i, j)).settled && record_at(
            records,
            i,
            j,
        ).distance is Some ==> exists|k: int|
            0 <= k < frontier.len() && #[trigger] frontier[k] == (Position {
                i: i as usize,
                j: j as usize,
            })
    &&& forall|k: int, l: int|
        0 <= k < l < frontier.len() ==> {
            let first = #[trigger] frontier[k];
            let second = #[trigger] frontier[l];
            &&& first != second
            &&& record_at(records, first.i as int, first.j as int).distance->0 <= record_at(
                records,
                second.i as int,
                second.j as int,
            ).distance->0
        }
}

/// What holds of the records throughout a search.
pub open spec fn records_ok<T>(
    a: Seq<T>,
    b: Seq<T>,
    records: Seq<Vec<FrontierRecord>>,
    g: Progress,
) -> bool {
    &&& shaped(records, a.len() as int, b.len() as int)
    &&& record_at(records, 0, 0).distance == Some(0usize)
    &&& forall|i: int, j: int|
        0 <= i <= a.len() && 0 <= j <= b.len() ==> #[trigger] node_ok(a, b, records, g, i, j)
}

/// Between two steps of a search, every node that is closer to the origin
/// than the frontier is settled.
pub proof fn lemma_closer_is_settled<T>(
    a: Seq<T>,
    b: Seq<T>,
    records: Seq<Vec<FrontierRecord>>,
    g: Progress,
    i: int,
    j: int,
)
    requires
        records_ok(a, b, records, g),
        g.i < 0,
        0 <= i <= a.len(),
        0 <= j <= b.len(),
        distance_prefix(a, b, i, j) < g.level,
    ensures
        record_at(records, i, j).settled,
    decreases i + j,
{
    lemma_distance_step(a, b, i, j);
    assert(node_ok(a, b, records, g, i, j));
    if i == 0 && j == 0 {
    } else {
        let kind = canonical_step(a, b, i, j);
        let (pi, pj) = edge_origin(kind, i, j);
        lemma_closer_is_settled(a, b, records, g, pi, pj);
        assert(node_ok(a, b, records, g, pi, pj));
    }
}

/// Puts `record` in the place of the record of `at`.
pub fn set_record(records: &mut Vec<Vec<FrontierRecord>>, at: Position, record: FrontierRecord)
    requires
        at.i < old(records)@.len(),
        at.j < old(records)@[at.i as int]@.len(),
    ensures
        final(records)@.len() == old(records)@.len(),
        forall|i: int|
            0 <= i < old(records)@.len() ==> (#[trigger] final(records)@[i])@.len() == old(
                records,
            )@[i]@.len(),
        record_at(final(records)@, at.i as int, at.j as int) == record,
        forall|i: int, j: int|
            0 <= i < old(records)@.len() && 0 <= j < old(records)@[i]@.len() && !(i == at.i && j
                == at.j) ==> #[trigger] record_at(final(records)@, i, j) == record_at(
                old(records)@,
                i,
                j,
            ),
{
    records[at.i][at.j] = record;
}


/// A stage of a search.
pub open spec fn progress(level: int, i: int, j: int, relaxed: int) -> Progress {
    Progress { level, i, j, relaxed }
}

/// Each edge that leaves a position stands in the list at the place of its
/// kind, and leads to the position that its kind names.
pub proof fn lemma_edge_listed<T>(a: Seq<T>, b: Seq<T>, i: int, j: int, k: int)
    requires
        0 <= i <= a.len(),
        0 <= j <= b.len(),
        i <= usize::MAX,
        j <= usize::MAX,
        a.len() + b.len() < usize::MAX,
        0 <= k < edges_at(a, b, i, j).len(),
    ensures
        ({
            let edge = edges_at(a, b, i, j)[k];
            &&& edge_origin(edge.kind, edge.to.i as int, edge.to.j as int) == (i, j)
            &&& edge.to.i <= a.len()
            &&& edge.to.j <= b.len()
            &&& !edge_handled(a, b, i, j, k, edge.kind)
            &&& edge_handled(a, b, i, j, k + 1, edge.kind)
            &&& forall|other: EdgeKind|
                other != edge.kind ==> edge_handled(a, b, i, j, k + 1, other) == edge_handled(
                    a,
                    b,
                    i,
                    j,
                    k,
                    other,
                )
            &&& edge.kind == EdgeKind::MatchDiagonal ==> diagonal_enters(
                a,
                b,
                edge.to.i as int,
                edge.to.j as int,
            )
        }),
        edges_at(a, b, i, j).len() <= 3,
        forall|kind: EdgeKind| edge_handled(a, b, i, j, edges_at(a, b, i, j).len() as int, kind),
        forall|kind: EdgeKind| edges_at(a, b, i, j).len() == 0 ==> edge_handled(a, b, i, j, 0, kind),
{
}

/// Whether an edge of kind `kind` takes the place of the recorded edge
/// `from` where both give the same distance.
pub fn outranks(kind: EdgeKind, from: Option<EdgeKind>) -> (better: bool)
    ensures
        better == (kind == EdgeKind::Insert && from == Some(EdgeKind::Delete)),
{
    match kind {
        EdgeKind::Insert => match from {
            Some(EdgeKind::Delete) => true,
            _ => false,
        },
        _ => false,
    }
}

/// What holds when an edge is about to be relaxed: it is edge number `k` of
/// the node `(ui, uj)`, which is settled at distance `reached`.
pub open spec fn relax_ready<T>(
    a: Seq<T>,
    b: Seq<T>,
    r0: Seq<Vec<FrontierRecord>>,
    ui: int,
    uj: int,
    reached: int,
    k: int,
    edge: Edge,
) -> bool {
    &&& 0 <= ui <= a.len()
    &&& 0 <= uj <= b.len()
    &&& a.len() + b.len() < usize::MAX
    &&& 0 <= k < edges_at(a, b, ui, uj).len()
    &&& edge == edges_at(a, b, ui, uj)[k]
    &&& record_at(r0, ui, uj).settled
    &&& record_at(r0, ui, uj).distance == Some(reached as usize)
    &&& 0 <= reached <= ui + uj
    &&& node_ok(a, b, r0, progress(reached, ui, uj, k), edge.to.i as int, edge.to.j as int)
}

/// Whether `r1` has for `(x, y)` the record that `r0` has, unless `(x, y)` is `to`.
pub open spec fn kept_record(
    r0: Seq<Vec<FrontierRecord>>,
    r1: Seq<Vec<FrontierRecord>>,
    to: Position,
    x: int,
    y: int,
) -> bool {
    x < 0 || y < 0 || (x == to.i && y == to.j) || record_at(r1, x, y) == record_at(r0, x, y)
}

/// Whether `r1` differs from `r0` at most in the record of `to`, as far as
/// the record of `(i, j)` and the records next to it go.
pub open spec fn kept_around(
    r0: Seq<Vec<FrontierRecord>>,
    r1: Seq<Vec<FrontierRecord>>,
    to: Position,
    i: int,
    j: int,
) -> bool {
    &&& kept_record(r0, r1, to, i, j)
    &&& kept_record(r0, r1, to, i - 1, j - 1)
    &&& kept_record(r0, r1, to, i - 1, j)
    &&& kept_record(r0, r1, to, i, j - 1)
}

/// An edge that changes nothing leaves every record in order.
pub proof fn lemma_relax_passes<T>(
    a: Seq<T>,
    b: Seq<T>,
    r0: Seq<Vec<FrontierRecord>>,
    ui: int,
    uj: int,
    reached: int,
    k: int,
    edge: Edge,
    i: int,
    j: int,
)
    requires
        relax_ready(a, b, r0, ui, uj, reached, k, edge),
        0 <= i <= a.len(),
        0 <= j <= b.len(),
        node_ok(a, b, r0, progress(reached, ui, uj, k), i, j),
        ({
            let target = record_at(r0, edge.to.i as int, edge.to.j as int);
            let candidate = reached + edge_cost(edge.kind);
            ||| target.settled
            ||| (edge.kind != EdgeKind::MatchDiagonal && diagonal_enters(
                a,
                b,
                edge.to.i as int,
                edge.to.j as int,
            ))
            ||| (target.distance is Some && target.distance->0 <= candidate && !(
            target.distance->0 == candidate && edge.kind == EdgeKind::Insert && target.from
                == Some(EdgeKind::Delete)))
        }),
    ensures
        node_ok(a, b, r0, progress(reached, ui, uj, k + 1), i, j),
{
    lemma_edge_listed(a, b, ui, uj, k);
}

/// A target that was found before is no farther than the edge would put it.
pub proof fn lemma_relax_cannot_improve<T>(
    a: Seq<T>,
    b: Seq<T>,
    r0: Seq<Vec<FrontierRecord>>,
    ui: int,
    uj: int,
    reached: int,
    k: int,
    edge: Edge,
)
    requires
        relax_ready(a, b, r0, ui, uj, reached, k, edge),
        records_ok(a, b, r0, progress(reached, ui, uj, k)),
        !(edge.kind != EdgeKind::MatchDiagonal && diagonal_enters(
            a,
            b,
            edge.to.i as int,
            edge.to.j as int,
        )),
        !record_at(r0, edge.to.i as int, edge.to.j as int).settled,
        record_at(r0, edge.to.i as int, edge.to.j as int).distance is Some,
    ensures
        record_at(r0, edge.to.i as int, edge.to.j as int).distance->0 <= reached + edge_cost(
            edge.kind,
        ),
{
    lemma_edge_listed(a, b, ui, uj, k);
    let target = record_at(r0, edge.to.i as int, edge.to.j as int);
    let (pi, pj) = edge_origin(target.from->0, edge.to.i as int, edge.to.j as int);
    assert(node_ok(a, b, r0, progress(reached, ui, uj, k), pi, pj));
}

/// An edge that finds its target for the first time leaves every record in
/// order.
pub proof fn lemma_relax_finds<T>(
    a: Seq<T>,
    b: Seq<T>,
    r0: Seq<Vec<FrontierRecord>>,
    r1: Seq<Vec<FrontierRecord>>,
    ui: int,
    uj: int,
    reached: int,
    k: int,
    edge: Edge,
    i: int,
    j: int,
)
    requires
        relax_ready(a, b, r0, ui, uj, reached, k, edge),
        0 <= i <= a.len(),
        0 <= j <= b.len(),
        node_ok(a, b, r0, progress(reached, ui, uj, k), i, j),
        !(edge.kind != EdgeKind::MatchDiagonal && diagonal_enters(
            a,
            b,
            edge.to.i as int,
            edge.to.j as int,
        )),
        record_at(r0, edge.to.i as int, edge.to.j as int).distance is None,
        kept_around(r0, r1, edge.to, i, j),
        record_at(r1, edge.to.i as int, edge.to.j as int) == (FrontierRecord {
            node: edge.to,
            distance: Some((reached + edge_cost(edge.kind)) as usize),
            from: Some(edge.kind),
            settled: false,
        }),
    ensures
        node_ok(a, b, r1, progress(reached, ui, uj, k + 1), i, j),
{
    lemma_edge_listed(a, b, ui, uj, k);
}

/// An insertion that takes the place of a recorded deletion leaves every
/// record in order.
pub proof fn lemma_relax_ties<T>(
    a: Seq<T>,
    b: Seq<T>,
    r0: Seq<Vec<FrontierRecord>>,
    r1: Seq<Vec<FrontierRecord>>,
    ui: int,
    uj: int,
    reached: int,
    k: int,
    edge: Edge,
    i: int,
    j: int,
)
    requires
        relax_ready(a, b, r0, ui, uj, reached, k, edge),
        0 <= i <= a.len(),
        0 <= j <= b.len(),
        node_ok(a, b, r0, progress(reached, ui, uj, k), i, j),
        !diagonal_enters(a, b, edge.to.i as int, edge.to.j as int),
        edge.kind == EdgeKind::Insert,
        !record_at(r0, edge.to.i as int, edge.to.j as int).settled,
        record_at(r0, edge.to.i as int, edge.to.j as int).distance == Some((reached + 1) as usize),
        record_at(r0, edge.to.i as int, edge.to.j as int).from == Some(EdgeKind::Delete),
        kept_around(r0, r1, edge.to, i, j),
        record_at(r1, edge.to.i as int, edge.to.j as int) == (FrontierRecord {
            node: edge.to,
            distance: Some((reached + 1) as usize),
            from: Some(EdgeKind::Insert),
            settled: false,
        }),
    ensures
        node_ok(a, b, r1, progress(reached, ui, uj, k + 1), i, j),
{
    lemma_edge_listed(a, b, ui, uj, k);
}

/// Whether `r1` differs from `r0` in the record of `to` alone.
pub open spec fn kept_but(
    r0: Seq<Vec<FrontierRecord>>,
    r1: Seq<Vec<FrontierRecord>>,
    to: Position,
    m: int,
    n: int,
) -> bool {
    forall|i: int, j: int|
        0 <= i <= m && 0 <= j <= n && !(i == to.i && j == to.j) ==> #[trigger] record_at(r1, i, j)
            == record_at(r0, i, j)
}

/// Whether the distance of every node of the frontier is `level` or one more.
pub open spec fn frontier_within(
    records: Seq<Vec<FrontierRecord>>,
    frontier: Seq<Position>,
    level: int,
) -> bool {
    forall|k: int|
        0 <= k < frontier.len() ==> level <= record_at(
            records,
            (#[trigger] frontier[k]).i as int,
            frontier[k].j as int,
        ).distance->0 <= level + 1
}

/// The nodes of the frontier are at the level of the search or one above it.
pub proof fn lemma_frontier_levels<T>(
    a: Seq<T>,
    b: Seq<T>,
    records: Seq<Vec<FrontierRecord>>,
    frontier: Seq<Position>,
    g: Progress,
)
    requires
        records_ok(a, b, records, g),
        frontier_ok(records, frontier, a.len() as int, b.len() as int),
    ensures
        frontier_within(records, frontier, g.level),
{
    assert forall|k: int| 0 <= k < frontier.len() implies g.level <= record_at(
        records,
        (#[trigger] frontier[k]).i as int,
        frontier[k].j as int,
    ).distance->0 <= g.level + 1 by {
        assert(node_ok(a, b, records, g, frontier[k].i as int, frontier[k].j as int));
    }
}

/// The frontier stays in order when a node found for the first time joins it
/// at the front with the distance of the level, or at the back with one more.
pub proof fn lemma_frontier_push(
    r0: Seq<Vec<FrontierRecord>>,
    r1: Seq<Vec<FrontierRecord>>,
    q0: Seq<Position>,
    q1: Seq<Position>,
    to: Position,
    level: int,
    front: bool,
    m: int,
    n: int,
)
    requires
        frontier_ok(r0, q0, m, n),
        frontier_within(r0, q0, level),
        to.i <= m,
        to.j <= n,
        record_at(r0, to.i as int, to.j as int).distance is None,
        !record_at(r1, to.i as int, to.j as int).settled,
        record_at(r1, to.i as int, to.j as int).distance == Some(
            (if front {
                level
            } else {
                level + 1
            }) as usize,
        ),
        0 <= level < usize::MAX,
        kept_but(r0, r1, to, m, n),
        front ==> q1 == seq![to] + q0,
        !front ==> q1 == q0.push(to),
    ensures
        frontier_ok(r1, q1, m, n),
{
    assert forall|k: int| 0 <= k < q0.len() implies (#[trigger] q0[k]) != to && record_at(
        r1,
        q0[k].i as int,
        q0[k].j as int,
    ) == record_at(r0, q0[k].i as int, q0[k].j as int) by {}
    assert forall|i: int, j: int|
        0 <= i <= m && 0 <= j <= n && !(#[trigger] record_at(r1, i, j)).settled && record_at(
            r1,
            i,
            j,
        ).distance is Some implies exists|k: int|
        0 <= k < q1.len() && #[trigger] q1[k] == (Position { i: i as usize, j: j as usize }) by {
        if i == to.i && j == to.j {
            if front {
                assert(q1[0] == to);
            } else {
                assert(q1[q0.len() as int] == to);
            }
        } else {
            assert(record_at(r1, i, j) == record_at(r0, i, j));
            let k = choose|k: int|
                0 <= k < q0.len() && #[trigger] q0[k] == (Position {
                    i: i as usize,
                    j: j as usize,
                });
            if front {
                assert(q1[k + 1] == q0[k]);
            } else {
                assert(q1[k] == q0[k]);
            }
        }
    }
    assert forall|k: int| 0 <= k < q1.len() implies ({
        let at = #[trigger] q1[k];
        &&& at.i <= m
        &&& at.j <= n
        &&& !record_at(r1, at.i as int, at.j as int).settled
        &&& record_at(r1, at.i as int, at.j as int).distance is Some
    }) by {
        if front {
            if k > 0 {
                assert(q1[k] == q0[k - 1]);
            }
        } else {
            if k < q0.len() {
                assert(q1[k] == q0[k]);
            }
        }
    }
    assert forall|k: int, l: int| 0 <= k < l < q1.len() implies ({
        let first = #[trigger] q1[k];
        let second = #[trigger] q1[l];
        &&& first != second
        &&& record_at(r1, first.i as int, first.j as int).distance->0 <= record_at(
            r1,
            second.i as int,
            second.j as int,
        ).distance->0
    }) by {
        if front {
            assert(q1[l] == q0[l - 1]);
            if k > 0 {
                assert(q1[k] == q0[k - 1]);
            }
        } else {
            assert(q1[k] == q0[k]);
            if l < q0.len() {
                assert(q1[l] == q0[l]);
            }
        }
    }
}

/// The frontier stays in order when no record changes in whether it is
/// settled or in its distance.
pub proof fn lemma_frontier_same(
    r0: Seq<Vec<FrontierRecord>>,
    r1: Seq<Vec<FrontierRecord>>,
    q: Seq<Position>,
    m: int,
    n: int,
)
    requires
        frontier_ok(r0, q, m, n),
        forall|i: int, j: int|
            0 <= i <= m && 0 <= j <= n ==> (#[trigger] record_at(r1, i, j)).settled == record_at(
                r0,
                i,
                j,
            ).settled && record_at(r1, i, j).distance == record_at(r0, i, j).distance,
    ensures
        frontier_ok(r1, q, m, n),
{
    assert forall|i: int, j: int|
        0 <= i <= m && 0 <= j <= n && !(#[trigger] record_at(r1, i, j)).settled && record_at(
            r1,
            i,
            j,
        ).distance is Some implies exists|k: int|
        0 <= k < q.len() && #[trigger] q[k] == (Position { i: i as usize, j: j as usize }) by {
        assert(record_at(r1, i, j).settled == record_at(r0, i, j).settled);
    }
    assert forall|k: int| 0 <= k < q.len() implies ({
        let at = #[trigger] q[k];
        &&& at.i <= m
        &&& at.j <= n
        &&& !record_at(r1, at.i as int, at.j as int).settled
        &&& record_at(r1, at.i as int, at.j as int).distance is Some
    }) by {
        let at = q[k];
        assert(record_at(r1, at.i as int, at.j as int).settled == record_at(
            r0,
            at.i as int,
            at.j as int,
        ).settled);
    }
    assert forall|k: int, l: int| 0 <= k < l < q.len() implies ({
        let first = #[trigger] q[k];
        let second = #[trigger] q[l];
        &&& first != second
        &&& record_at(r1, first.i as int, first.j as int).distance->0 <= record_at(
            r1,
            second.i as int,
            second.j as int,
        ).distance->0
    }) by {
        let first = q[k];
        let second = q[l];
        assert(record_at(r1, first.i as int, first.j as int).settled == record_at(
            r0,
            first.i as int,
            first.j as int,
        ).settled);
        assert(record_at(r1, second.i as int, second.j as int).settled == record_at(
            r0,
            second.i as int,
            second.j as int,
        ).settled);
    }
}

/// A record stays in order when the level of the search rises, as long as
/// its node, where found and not settled, is at the new level or one above.
pub proof fn lemma_raise_level<T>(
    a: Seq<T>,
    b: Seq<T>,
    records: Seq<Vec<FrontierRecord>>,
    g: Progress,
    level: int,
    i: int,
    j: int,
)
    requires
        node_ok(a, b, records, g, i, j),
        g.level <= level,
        !record_at(records, i, j).settled && record_at(records, i, j).distance is Some ==> level
            <= record_at(records, i, j).distance->0 <= level + 1,
    ensures
        node_ok(a, b, records, progress(level, g.i, g.j, g.relaxed), i, j),
{
}

/// Whether `r1` is `r0` with the node `(ui, uj)` marked as settled.
pub open spec fn settled_in(
    r0: Seq<Vec<FrontierRecord>>,
    r1: Seq<Vec<FrontierRecord>>,
    ui: int,
    uj: int,
    m: int,
    n: int,
) -> bool {
    let before = record_at(r0, ui, uj);
    &&& 0 <= ui <= m
    &&& 0 <= uj <= n
    &&& ui <= usize::MAX
    &&& uj <= usize::MAX
    &&& !before.settled
    &&& before.distance is Some
    &&& record_at(r1, ui, uj) == (FrontierRecord {
        node: before.node,
        distance: before.distance,
        from: before.from,
        settled: true,
    })
    &&& kept_but(r0, r1, Position { i: ui as usize, j: uj as usize }, m, n)
}

/// The node at the front of the frontier is as far from the origin as its
/// record says, and the edge recorded for it is the chosen one.
pub proof fn lemma_settle_front<T>(
    a: Seq<T>,
    b: Seq<T>,
    r0: Seq<Vec<FrontierRecord>>,
    r1: Seq<Vec<FrontierRecord>>,
    ui: int,
    uj: int,
)
    requires
        settled_in(r0, r1, ui, uj, a.len() as int, b.len() as int),
        records_ok(a, b, r0, progress(record_at(r0, ui, uj).distance->0 as int, -1, -1, 0)),
    ensures
        node_ok(a, b, r1, progress(record_at(r0, ui, uj).distance->0 as int, ui, uj, 0), ui, uj),
{
    let reached = record_at(r0, ui, uj).distance->0 as int;
    let g = progress(reached, -1, -1, 0);
    lemma_distance_step(a, b, ui, uj);
    assert(node_ok(a, b, r0, g, ui, uj));
    if distance_prefix(a, b, ui, uj) < reached {
        lemma_closer_is_settled(a, b, r0, g, ui, uj);
    }
    if ui == 0 && uj == 0 {
    } else {
        let from = record_at(r0, ui, uj).from->0;
        let (pi, pj) = edge_origin(from, ui, uj);
        assert(node_ok(a, b, r0, g, pi, pj));
        assert(distance_prefix(a, b, ui, uj) == reached);
        if !diagonal_enters(a, b, ui, uj) && uj > 0 {
            assert(node_ok(a, b, r0, g, ui, uj - 1));
            if distance_prefix(a, b, ui, uj - 1) < reached {
                lemma_closer_is_settled(a, b, r0, g, ui, uj - 1);
            }
        }
    }
}

/// Marking the node at the front of the frontier as settled leaves the other
/// records in order.
pub proof fn lemma_settle_other<T>(
    a: Seq<T>,
    b: Seq<T>,
    r0: Seq<Vec<FrontierRecord>>,
    r1: Seq<Vec<FrontierRecord>>,
    ui: int,
    uj: int,
    i: int,
    j: int,
)
    requires
        settled_in(r0, r1, ui, uj, a.len() as int, b.len() as int),
        0 <= i <= a.len(),
        0 <= j <= b.len(),
        !(i == ui && j == uj),
        node_ok(a, b, r0, progress(record_at(r0, ui, uj).distance->0 as int, -1, -1, 0), i, j),
    ensures
        node_ok(a, b, r1, progress(record_at(r0, ui, uj).distance->0 as int, ui, uj, 0), i, j),
{
    let to = Position { i: ui as usize, j: uj as usize };
    assert(record_at(r1, i, j) == record_at(r0, i, j));
    if i > 0 && j > 0 && !(i - 1 == ui && j - 1 == uj) {
        assert(record_at(r1, i - 1, j - 1) == record_at(r0, i - 1, j - 1));
    }
    if i > 0 && !(i - 1 == ui && j == uj) {
        assert(record_at(r1, i - 1, j) == record_at(r0, i - 1, j));
    }
    if j > 0 && !(i == ui && j - 1 == uj) {
        assert(record_at(r1, i, j - 1) == record_at(r0, i, j - 1));
    }
}

/// Once every edge of the node settled last is relaxed, the records are in
/// order as between two steps.
pub proof fn lemma_edges_finished<T>(
    a: Seq<T>,
    b: Seq<T>,
    records: Seq<Vec<FrontierRecord>>,
    level: int,
    ui: int,
    uj: int,
)
    requires
        0 <= ui <= a.len(),
        0 <= uj <= b.len(),
        ui <= usize::MAX,
        uj <= usize::MAX,
        a.len() + b.len() < usize::MAX,
        records_ok(
            a,
            b,
            records,
            progress(level, ui, uj, edges_at(a, b, ui, uj).len() as int),
        ),
    ensures
        records_ok(a, b, records, progress(level, -1, -1, 0)),
{
    let k = edges_at(a, b, ui, uj).len() as int;
    assert forall|i: int, j: int| 0 <= i <= a.len() && 0 <= j <= b.len() implies #[trigger] node_ok(
        a,
        b,
        records,
        progress(level, -1, -1, 0),
        i,
        j,
    ) by {
        assert(node_ok(a, b, records, progress(level, ui, uj, k), i, j));
        assert(edge_handled(a, b, ui, uj, k, EdgeKind::MatchDiagonal));
        assert(edge_handled(a, b, ui, uj, k, EdgeKind::Delete));
        assert(edge_handled(a, b, ui, uj, k, EdgeKind::Insert));
    }
}

/// The frontier stays in order when its first node is settled and leaves it.
pub proof fn lemma_frontier_pop(
    r0: Seq<Vec<FrontierRecord>>,
    r1: Seq<Vec<FrontierRecord>>,
    q0: Seq<Position>,
    m: int,
    n: int,
)
    requires
        frontier_ok(r0, q0, m, n),
        q0.len() > 0,
        settled_in(r0, r1, q0[0].i as int, q0[0].j as int, m, n),
    ensures
        frontier_ok(r1, q0.subrange(1, q0.len() as int), m, n),
{
    let q1 = q0.subrange(1, q0.len() as int);
    let first = q0[0];
    assert forall|k: int| 0 <= k < q1.len() implies (#[trigger] q1[k]) != first && record_at(
        r1,
        q1[k].i as int,
        q1[k].j as int,
    ) == record_at(r0, q1[k].i as int, q1[k].j as int) by {
        assert(q1[k] == q0[k + 1]);
    }
    assert forall|i: int, j: int|
        0 <= i <= m && 0 <= j <= n && !(#[trigger] record_at(r1, i, j)).settled && record_at(
            r1,
            i,
            j,
        ).distance is Some implies exists|k: int|
        0 <= k < q1.len() && #[trigger] q1[k] == (Position { i: i as usize, j: j as usize }) by {
        assert(record_at(r1, i, j) == record_at(r0, i, j));
        let k = choose|k: int|
            0 <= k < q0.len() && #[trigger] q0[k] == (Position { i: i as usize, j: j as usize });
        assert(q1[k - 1] == q0[k]);
    }
    assert forall|k: int, l: int| 0 <= k < l < q1.len() implies ({
        let first = #[trigger] q1[k];
        let second = #[trigger] q1[l];
        &&& first != second
        &&& record_at(r1, first.i as int, first.j as int).distance->0 <= record_at(
            r1,
            second.i as int,
            second.j as int,
        ).distance->0
    }) by {
        assert(q1[k] == q0[k + 1]);
        assert(q1[l] == q0[l + 1]);
    }
}

/// No node that was found and is not settled is closer to the origin than
/// the first node of the frontier, and none is farther by more than one.
pub proof fn lemma_front_is_closest<T>(
    a: Seq<T>,
    b: Seq<T>,
    records: Seq<Vec<FrontierRecord>>,
    frontier: Seq<Position>,
    g: Progress,
    i: int,
    j: int,
)
    requires
        records_ok(a, b, records, g),
        frontier_ok(records, frontier, a.len() as int, b.len() as int),
        frontier.len() > 0,
        0 <= i <= a.len(),
        0 <= j <= b.len(),
    ensures
        ({
            let reached = record_at(
                records,
                frontier[0].i as int,
                frontier[0].j as int,
            ).distance->0;
            &&& g.level <= reached
            &&& node_ok(a, b, records, progress(reached as int, g.i, g.j, g.relaxed), i, j)
        }),
{
    let reached = record_at(records, frontier[0].i as int, frontier[0].j as int).distance->0;
    lemma_frontier_levels(a, b, records, frontier, g);
    assert(node_ok(a, b, records, g, i, j));
    if !record_at(records, i, j).settled && record_at(records, i, j).distance is Some {
        let k = choose|k: int|
            0 <= k < frontier.len() && #[trigger] frontier[k] == (Position {
                i: i as usize,
                j: j as usize,
            });
        if k > 0 {
            assert(frontier[0] != frontier[k]);
        }
    }
    lemma_raise_level(a, b, records, g, reached as int, i, j);
}

/// A search whose frontier is empty has settled the terminal corner.
pub proof fn lemma_exhausted<T>(
    a: Seq<T>,
    b: Seq<T>,
    records: Seq<Vec<FrontierRecord>>,
    frontier: Seq<Position>,
    g: Progress,
)
    requires
        records_ok(a, b, records, g),
        frontier_ok(records, frontier, a.len() as int, b.len() as int),
        frontier.len() == 0,
        g.i < 0,
        g.level <= a.len() + b.len(),
    ensures
        record_at(records, a.len() as int, b.len() as int).settled,
{
    let top = (a.len() + b.len() + 1) as int;
    let raised = progress(top, g.i, g.j, g.relaxed);
    assert forall|i: int, j: int| 0 <= i <= a.len() && 0 <= j <= b.len() implies #[trigger] node_ok(
        a,
        b,
        records,
        raised,
        i,
        j,
    ) by {
        assert(node_ok(a, b, records, g, i, j));
        lemma_raise_level(a, b, records, g, top, i, j);
    }
    lemma_distance_step(a, b, a.len() as int, b.len() as int);
    lemma_closer_is_settled(a, b, records, raised, a.len() as int, b.len() as int);
}

/// Relaxes one edge that leaves the node `at`, settled at distance `reached`.
///
/// A settled target is left alone, and so is the target of a unit edge that a
/// diagonal enters. A target found for the first time goes to the front of
/// the frontier for a free edge and to its back for a unit edge. Where the
/// edge gives the distance that the target has, an insertion takes the place
/// of a recorded deletion.
pub fn relax<T: Eq + Sync>(
    graph: &MyersGraph<T>,
    records: &mut Vec<Vec<FrontierRecord>>,
    frontier: &mut VecDeque<Position>,
    at: Position,
    reached: usize,
    edge: Edge,
    Ghost(relaxed): Ghost<int>,
)
    requires
        graph.has_position(at.i as int, at.j as int),
        0 <= relaxed < edges_at(
            graph.source_units(),
            graph.destination_units(),
            at.i as int,
            at.j as int,
        ).len(),
        edge == edges_at(
            graph.source_units(),
            graph.destination_units(),
            at.i as int,
            at.j as int,
        )[relaxed],
        records_ok(
            graph.source_units(),
            graph.destination_units(),
            old(records)@,
            progress(reached as int, at.i as int, at.j as int, relaxed),
        ),
        frontier_ok(
            old(records)@,
            old(frontier)@,
            graph.source_units().len() as int,
            graph.destination_units().len() as int,
        ),
        record_at(old(records)@, at.i as int, at.j as int).settled,
        record_at(old(records)@, at.i as int, at.j as int).distance == Some(reached),
    ensures
        records_ok(
            graph.source_units(),
            graph.destination_units(),
            final(records)@,
            progress(reached as int, at.i as int, at.j as int, relaxed + 1),
        ),
        frontier_ok(
            final(records)@,
            final(frontier)@,
            graph.source_units().len() as int,
            graph.destination_units().len() as int,
        ),
        forall|i: int, j: int|
            0 <= i <= graph.source_units().len() && 0 <= j <= graph.destination_units().len()
                ==> (#[trigger] record_at(final(records)@, i, j)).settled == record_at(
                old(records)@,
                i,
                j,
            ).settled,
        record_at(final(records)@, at.i as int, at.j as int) == record_at(
            old(records)@,
            at.i as int,
            at.j as int,
        ),
{
    let ghost a = graph.source_units();
    let ghost b = graph.destination_units();
    let ghost m = a.len() as int;
    let ghost n = b.len() as int;
    let ghost g0 = progress(reached as int, at.i as int, at.j as int, relaxed);
    let ghost r0 = records@;
    let ghost q0 = frontier@;
    let source_len = graph.source_len();
    let to = edge.to;
    proof {
        lemma_edge_listed(a, b, at.i as int, at.j as int, relaxed);
        lemma_distance_step(a, b, at.i as int, at.j as int);
        assert(node_ok(a, b, r0, g0, at.i as int, at.j as int));
        assert(node_ok(a, b, r0, g0, to.i as int, to.j as int));
        assert(relax_ready(a, b, r0, at.i as int, at.j as int, reached as int, relaxed, edge));
        lemma_frontier_levels(a, b, r0, q0, g0);
    }
    let target = records[to.i][to.j];
    let cost = edge.kind.cost();
    let passed = target.settled || (cost == 1 && graph.diagonal_into(to));
    let candidate = reached + cost;
    let improves = !passed && match target.distance {
        None => true,
        Some(d) => candidate < d,
    };
    let ties = !passed && !improves && match target.distance {
        None => false,
        Some(d) => candidate == d && outranks(edge.kind, target.from),
    };
    if improves {
        proof {
            if target.distance is Some {
                lemma_relax_cannot_improve(
                    a,
                    b,
                    r0,
                    at.i as int,
                    at.j as int,
                    reached as int,
                    relaxed,
                    edge,
                );
            }
        }
        set_record(
            records,
            to,
            FrontierRecord {
                node: to,
                distance: Some(candidate),
                from: Some(edge.kind),
                settled: false,
            },
        );
        if cost == 0 {
            frontier.push_front(to);
        } else {
            frontier.push_back(to);
        }
        proof {
            let r1 = records@;
            assert(kept_but(r0, r1, to, m, n));
            lemma_frontier_push(r0, r1, q0, frontier@, to, reached as int, cost == 0, m, n);
            assert forall|i: int, j: int| 0 <= i <= m && 0 <= j <= n implies #[trigger] node_ok(
                a,
                b,
                r1,
                progress(reached as int, at.i as int, at.j as int, relaxed + 1),
                i,
                j,
            ) by {
                assert(node_ok(a, b, r0, g0, i, j));
                lemma_relax_finds(
                    a,
                    b,
                    r0,
                    r1,
                    at.i as int,
                    at.j as int,
                    reached as int,
                    relaxed,
                    edge,
                    i,
                    j,
                );
            }
        }
    } else if ties {
        set_record(
            records,
            to,
            FrontierRecord {
                node: to,
                distance: Some(candidate),
                from: Some(edge.kind),
                settled: false,
            },
        );
        proof {
            let r1 = records@;
            assert(kept_but(r0, r1, to, m, n));
            lemma_frontier_same(r0, r1, q0, m, n);
            assert forall|i: int, j: int| 0 <= i <= m && 0 <= j <= n implies #[trigger] node_ok(
                a,
                b,
                r1,
                progress(reached as int, at.i as int, at.j as int, relaxed + 1),
                i,
                j,
            ) by {
                assert(node_ok(a, b, r0, g0, i, j));
                lemma_relax_ties(
                    a,
                    b,
                    r0,
                    r1,
                    at.i as int,
                    at.j as int,
                    reached as int,
                    relaxed,
                    edge,
                    i,
                    j,
                );
            }
        }
    } else {
        proof {
            if !passed {
                lemma_relax_cannot_improve(
                    a,
                    b,
                    r0,
                    at.i as int,
                    at.j as int,
                    reached as int,
                    relaxed,
                    edge,
                );
            }
            assert forall|i: int, j: int| 0 <= i <= m && 0 <= j <= n implies #[trigger] node_ok(
                a,
                b,
                r0,
                progress(reached as int, at.i as int, at.j as int, relaxed + 1),
                i,
                j,
            ) by {
                assert(node_ok(a, b, r0, g0, i, j));
                lemma_relax_passes(
                    a,
                    b,
                    r0,
                    at.i as int,
                    at.j as int,
                    reached as int,
                    relaxed,
                    edge,
                    i,
                    j,
                );
            }
        }
    }
}

} // verus!
