//! The search itself: it settles nodes in the order of their distance from
//! the origin until the terminal corner is settled.

use crate::graph::edge_origin;
use crate::graph::edges_at;
use crate::graph::lemma_node_index;
use crate::graph::node_index;
use crate::graph::MyersGraph;
use crate::graph::Position;
use crate::model::canonical_step;
use crate::model::distance_prefix;
use crate::model::lemma_distance_step;
use crate::solver::frontier_ok;
use crate::solver::lemma_edges_finished;
use crate::solver::lemma_exhausted;
use crate::solver::lemma_front_is_closest;
use crate::solver::lemma_frontier_pop;
use crate::solver::lemma_settle_front;
use crate::solver::lemma_settle_other;
use crate::solver::node_ok;
use crate::solver::progress;
use crate::solver::record_at;
use crate::solver::records_ok;
use crate::solver::relax;
use crate::solver::set_record;
use crate::solver::settled_in;
use crate::solver::shaped;
use crate::solver::FrontierRecord;
use std::collections::VecDeque;
use vstd::prelude::*;
use vstd::set_lib::lemma_int_range;
use vstd::set_lib::set_int_range;

verus! {

/// The record of a node that no path has reached.
pub open spec fn blank_record(i: int, j: int) -> FrontierRecord {
    FrontierRecord {
        node: Position { i: i as usize, j: j as usize },
        distance: None,
        from: None,
        settled: false,
    }
}

/// What a finished search knows of the settled node `(i, j)`: how far it is
/// from the origin, by which edge the chosen path enters it, and that the
/// node before it on that path is settled too.
pub open spec fn settled_ok<T>(
    a: Seq<T>,
    b: Seq<T>,
    records: Seq<Vec<FrontierRecord>>,
    i: int,
    j: int,
) -> bool {
    let r = record_at(records, i, j);
    let before = edge_origin(canonical_step(a, b, i, j), i, j);
    &&& r.distance is Some
    &&& r.distance->0 == distance_prefix(a, b, i, j)
    &&& i > 0 || j > 0 ==> {
        &&& r.from == Some(canonical_step(a, b, i, j))
        &&& before.0 >= 0
        &&& before.1 >= 0
        &&& record_at(records, before.0, before.1).settled
    }
}

/// Whether `records` is what a finished search leaves behind: the terminal
/// corner is settled, and from every settled node the recorded edges lead
/// back to the origin along the chosen path.
pub open spec fn predecessor_map<T>(a: Seq<T>, b: Seq<T>, records: Seq<Vec<FrontierRecord>>) -> bool {
    &&& shaped(records, a.len() as int, b.len() as int)
    &&& record_at(records, a.len() as int, b.len() as int).settled
    &&& forall|i: int, j: int|
        0 <= i <= a.len() && 0 <= j <= b.len() && (#[trigger] record_at(records, i, j)).settled
            ==> settled_ok(a, b, records, i, j)
}

/// Whether `remaining` holds the number of every node that is not settled.
pub open spec fn holds_unsettled(
    remaining: Set<int>,
    records: Seq<Vec<FrontierRecord>>,
    m: int,
    n: int,
) -> bool {
    forall|i: int, j: int|
        0 <= i <= m && 0 <= j <= n && !(#[trigger] record_at(records, i, j)).settled
            ==> remaining.contains(node_index(n as nat, i, j))
}

/// A row of blank records for the nodes `(i, 0)` to `(i, n)`.
fn blank_row(i: usize, n: usize) -> (row: Vec<FrontierRecord>)
    requires
        n < usize::MAX,
    ensures
        row@.len() == n + 1,
        forall|j: int| 0 <= j <= n ==> #[trigger] row@[j] == blank_record(i as int, j),
{
    let mut row: Vec<FrontierRecord> = Vec::new();
    let mut j: usize = 0;
    while j <= n
        invariant
            n < usize::MAX,
            j <= n + 1,
            row@.len() == j,
            forall|k: int| 0 <= k < j ==> #[trigger] row@[k] == blank_record(i as int, k),
        decreases n + 1 - j,
    {
        row.push(
            FrontierRecord { node: Position { i, j }, distance: None, from: None, settled: false },
        );
        j += 1;
    }
    row
}

/// Blank records for a grid of `m + 1` rows of `n + 1` nodes.
fn blank_records(m: usize, n: usize) -> (records: Vec<Vec<FrontierRecord>>)
    requires
        m < usize::MAX,
        n < usize::MAX,
    ensures
        shaped(records@, m as int, n as int),
        forall|i: int, j: int|
            0 <= i <= m && 0 <= j <= n ==> #[trigger] record_at(records@, i, j) == blank_record(
                i,
                j,
            ),
{
    let mut records: Vec<Vec<FrontierRecord>> = Vec::new();
    let mut i: usize = 0;
    while i <= m
        invariant
            m < usize::MAX,
            n < usize::MAX,
            i <= m + 1,
            records@.len() == i,
            forall|k: int| 0 <= k < i ==> (#[trigger] records@[k])@.len() == n + 1,
            forall|k: int, j: int|
                0 <= k < i && 0 <= j <= n ==> #[trigger] record_at(records@, k, j) == blank_record(
                    k,
                    j,
                ),
        decreases m + 1 - i,
    {
        let row = blank_row(i, n);
        let ghost before = records@;
        let ghost cells = row@;
        records.push(row);
        proof {
            assert forall|k: int, j: int| 0 <= k < i + 1 && 0 <= j <= n implies #[trigger] record_at(
                records@,
                k,
                j,
            ) == blank_record(k, j) by {
                if k < i {
                    assert(record_at(before, k, j) == blank_record(k, j));
                } else {
                    assert(cells[j] == blank_record(i as int, j));
                }
            }
        }
        i += 1;
    }
    records
}

/// The records and the frontier with which a search starts: the origin is
/// found at distance zero, nothing else is known.
fn start(m: usize, n: usize) -> (state: (Vec<Vec<FrontierRecord>>, VecDeque<Position>))
    requires
        m < usize::MAX,
        n < usize::MAX,
    ensures
        shaped(state.0@, m as int, n as int),
        frontier_ok(state.0@, state.1@, m as int, n as int),
        record_at(state.0@, 0, 0) == (FrontierRecord {
            node: Position { i: 0, j: 0 },
            distance: Some(0usize),
            from: None,
            settled: false,
        }),
        forall|i: int, j: int|
            0 <= i <= m && 0 <= j <= n && !(i == 0 && j == 0) ==> #[trigger] record_at(
                state.0@,
                i,
                j,
            ) == blank_record(i, j),
{
    let origin = Position { i: 0, j: 0 };
    let mut records = blank_records(m, n);
    let ghost blank = records@;
    set_record(
        &mut records,
        origin,
        FrontierRecord { node: origin, distance: Some(0), from: None, settled: false },
    );
    let mut frontier: VecDeque<Position> = VecDeque::new();
    frontier.push_back(origin);
    proof {
        assert(frontier@[0] == origin);
        assert forall|i: int, j: int|
            0 <= i <= m && 0 <= j <= n && !(i == 0 && j == 0) implies #[trigger] record_at(
            records@,
            i,
            j,
        ) == blank_record(i, j) by {
            assert(record_at(blank, i, j) == blank_record(i, j));
        }
    }
    (records, frontier)
}

/// Settles the node `at`, which has just left the front of the frontier, and
/// tells its distance.
fn settle<T: Eq + Sync>(
    graph: &MyersGraph<T>,
    records: &mut Vec<Vec<FrontierRecord>>,
    at: Position,
    Ghost(level): Ghost<int>,
    Ghost(waiting): Ghost<Seq<Position>>,
) -> (reached: usize)
    requires
        records_ok(
            graph.source_units(),
            graph.destination_units(),
            old(records)@,
            progress(level, -1, -1, 0),
        ),
        frontier_ok(
            old(records)@,
            waiting,
            graph.source_units().len() as int,
            graph.destination_units().len() as int,
        ),
        waiting.len() > 0,
        at == waiting[0],
    ensures
        level <= reached <= at.i + at.j,
        graph.has_position(at.i as int, at.j as int),
        settled_in(
            old(records)@,
            final(records)@,
            at.i as int,
            at.j as int,
            graph.source_units().len() as int,
            graph.destination_units().len() as int,
        ),
        record_at(final(records)@, at.i as int, at.j as int).distance == Some(reached),
        records_ok(
            graph.source_units(),
            graph.destination_units(),
            final(records)@,
            progress(reached as int, at.i as int, at.j as int, 0),
        ),
        frontier_ok(
            final(records)@,
            waiting.subrange(1, waiting.len() as int),
            graph.source_units().len() as int,
            graph.destination_units().len() as int,
        ),
{
    let ghost a = graph.source_units();
    let ghost b = graph.destination_units();
    let ghost r0 = records@;
    let ghost g0 = progress(level, -1, -1, 0);
    let found = records[at.i][at.j];
    proof {
        assert(node_ok(a, b, r0, g0, at.i as int, at.j as int));
    }
    let reached = found.distance.unwrap();
    set_record(
        records,
        at,
        FrontierRecord {
            node: found.node,
            distance: found.distance,
            from: found.from,
            settled: true,
        },
    );
    proof {
        let r1 = records@;
        let m = a.len() as int;
        let n = b.len() as int;
        assert forall|i: int, j: int| 0 <= i <= m && 0 <= j <= n implies #[trigger] node_ok(
            a,
            b,
            r0,
            progress(reached as int, -1, -1, 0),
            i,
            j,
        ) by {
            lemma_front_is_closest(a, b, r0, waiting, g0, i, j);
        }
        lemma_front_is_closest(a, b, r0, waiting, g0, 0, 0);
        assert(settled_in(r0, r1, at.i as int, at.j as int, m, n));
        lemma_frontier_pop(r0, r1, waiting, m, n);
        lemma_settle_front(a, b, r0, r1, at.i as int, at.j as int);
        assert forall|i: int, j: int| 0 <= i <= m && 0 <= j <= n implies #[trigger] node_ok(
            a,
            b,
            r1,
            progress(reached as int, at.i as int, at.j as int, 0),
            i,
            j,
        ) by {
            if !(i == at.i && j == at.j) {
                assert(node_ok(a, b, r0, progress(reached as int, -1, -1, 0), i, j));
                lemma_settle_other(a, b, r0, r1, at.i as int, at.j as int, i, j);
            }
        }
        lemma_distance_step(a, b, at.i as int, at.j as int);
    }
    reached
}

/// Searches the edit graph from its origin until its terminal corner is
/// settled, and hands back the records of all nodes.
///
/// Each turn takes the node at the front of the frontier, settles it, and
/// relaxes the edges that leave it, the diagonal first. The frontier cannot
/// run empty before the terminal corner is settled.
pub fn search<T: Eq + Sync>(graph: &MyersGraph<T>) -> (records: Vec<Vec<FrontierRecord>>)
    ensures
        predecessor_map(graph.source_units(), graph.destination_units(), records@),
{
    let ghost a = graph.source_units();
    let ghost b = graph.destination_units();
    let m = graph.source_len();
    let n = graph.destination_len();
    let (mut records, mut frontier) = start(m, n);
    let ghost mut level: int = 0;
    let ghost mut remaining: Set<int> = set_int_range(0, graph.nodes() as int);
    proof {
        lemma_int_range(0, graph.nodes() as int);
        let blank = records@;
        assert forall|i: int, j: int| 0 <= i <= m && 0 <= j <= n implies #[trigger] node_ok(
            a,
            b,
            blank,
            progress(0, -1, -1, 0),
            i,
            j,
        ) by {
            if i > 0 && !(i == 1 && j == 0) {
                assert(record_at(blank, i - 1, j) == blank_record(i - 1, j));
            }
            if j > 0 && !(i == 0 && j == 1) {
                assert(record_at(blank, i, j - 1) == blank_record(i, j - 1));
            }
            if i > 0 && j > 0 && !(i == 1 && j == 1) {
                assert(record_at(blank, i - 1, j - 1) == blank_record(i - 1, j - 1));
            }
        }
        assert forall|i: int, j: int| 0 <= i <= m && 0 <= j <= n implies remaining.contains(
            node_index(n as nat, i, j),
        ) by {
            lemma_node_index(m as nat, n as nat, i, j);
        }
    }
    while !records[m][n].settled
        invariant
            m == a.len(),
            n == b.len(),
            a == graph.source_units(),
            b == graph.destination_units(),
            a.len() + b.len() < usize::MAX,
            0 <= level <= a.len() + b.len(),
            records_ok(a, b, records@, progress(level, -1, -1, 0)),
            frontier_ok(records@, frontier@, m as int, n as int),
            remaining.finite(),
            holds_unsettled(remaining, records@, m as int, n as int),
        decreases remaining.len(),
    {
        let ghost r0 = records@;
        let ghost waiting = frontier@;
        proof {
            if waiting.len() == 0 {
                lemma_exhausted(a, b, r0, waiting, progress(level, -1, -1, 0));
            }
        }
        let at = frontier.pop_front().unwrap();
        let reached = settle(graph, &mut records, at, Ghost(level), Ghost(waiting));
        proof {
            let r1 = records@;
            lemma_node_index(m as nat, n as nat, at.i as int, at.j as int);
            let settled_node = node_index(n as nat, at.i as int, at.j as int);
            assert(remaining.contains(settled_node));
            assert forall|i: int, j: int|
                0 <= i <= m && 0 <= j <= n && !(#[trigger] record_at(
                    r1,
                    i,
                    j,
                )).settled implies remaining.remove(settled_node).contains(
                node_index(n as nat, i, j),
            ) by {
                lemma_node_index(m as nat, n as nat, i, j);
                assert(record_at(r1, i, j) == record_at(r0, i, j));
            }
            remaining = remaining.remove(settled_node);
            level = reached as int;
        }
        let out = graph.edges(at);
        let mut k: usize = 0;
        while k < out.len()
            invariant
                m == a.len(),
                n == b.len(),
                a == graph.source_units(),
                b == graph.destination_units(),
                graph.has_position(at.i as int, at.j as int),
                k <= out.len(),
                out@ == edges_at(a, b, at.i as int, at.j as int),
                records_ok(
                    a,
                    b,
                    records@,
                    progress(reached as int, at.i as int, at.j as int, k as int),
                ),
                frontier_ok(records@, frontier@, m as int, n as int),
                record_at(records@, at.i as int, at.j as int).settled,
                record_at(records@, at.i as int, at.j as int).distance == Some(reached),
                holds_unsettled(remaining, records@, m as int, n as int),
            decreases out.len() - k,
        {
            let edge = out[k];
            relax(graph, &mut records, &mut frontier, at, reached, edge, Ghost(k as int));
            k += 1;
        }
        proof {
            lemma_edges_finished(a, b, records@, reached as int, at.i as int, at.j as int);
        }
    }
    proof {
        let g = progress(level, -1, -1, 0);
        assert forall|i: int, j: int|
            0 <= i <= a.len() && 0 <= j <= b.len() && (#[trigger] record_at(
                records@,
                i,
                j,
            )).settled implies settled_ok(a, b, records@, i, j) by {
            assert(node_ok(a, b, records@, g, i, j));
        }
    }
    records
}

} // verus!
