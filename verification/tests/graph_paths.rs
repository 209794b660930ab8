use myers_diff::graph::con_range;
use myers_diff::graph::match_row;
use myers_diff::graph::DiffError;
use myers_diff::graph::Edge;
use myers_diff::graph::MyersGraph;
use myers_diff::graph::Position;
use myers_diff::model::EdgeKind;
use myers_diff::model::EditOp;

fn letters(text: &str) -> Vec<char> {
    Vec::from_iter(String::from(text).chars())
}

#[test]
fn test_shortest() {
    let source = Vec::from_iter(String::from("abundance").chars());
    let destination = Vec::from_iter(String::from("abundy").chars());
    let edit_graph = MyersGraph::new(source, destination);
    let node_length = edit_graph.node_count();
    let edit_path = &edit_graph.shortest(0, node_length);
    println!("{:?}", *edit_path);
}

#[test]
fn one_past_the_last_node_is_turned_down() {
    let graph = MyersGraph::new(letters("abundance"), letters("abundy"));
    assert_eq!(graph.node_count(), 70);
    assert_eq!(graph.shortest(0, 70), Err(DiffError::InvalidEndpoint));
    assert_eq!(graph.shortest(0, usize::MAX), Err(DiffError::InvalidEndpoint));
}

#[test]
fn only_origin_to_terminal_is_searched() {
    let graph = MyersGraph::new(letters("abc"), letters("abd"));
    assert_eq!(graph.shortest(1, 15), Err(DiffError::InvalidEndpoint));
    assert_eq!(graph.shortest(0, 14), Err(DiffError::InvalidEndpoint));
    assert_eq!(graph.shortest(0, 0), Err(DiffError::InvalidEndpoint));
    assert_eq!(graph.shortest(15, 0), Err(DiffError::InvalidEndpoint));
    assert!(graph.shortest(0, 15).is_ok());
}

#[test]
fn shortest_path_of_abundance() {
    let graph = MyersGraph::new(letters("abundance"), letters("abundy"));
    // Rows of seven nodes: five diagonals, four deletions, one insertion.
    assert_eq!(
        graph.shortest(0, 69),
        Ok(vec![0, 8, 16, 24, 32, 40, 47, 54, 61, 68, 69])
    );
}

#[test]
fn shortest_path_of_empty_graph() {
    let graph = MyersGraph::new(letters(""), letters(""));
    assert_eq!(graph.node_count(), 1);
    assert_eq!(graph.shortest(0, 0), Ok(vec![0]));
    assert_eq!(graph.shortest(0, 1), Err(DiffError::InvalidEndpoint));
    assert_eq!(graph.construct_changes(vec![0]), Ok(vec![]));
}

#[test]
fn shortest_path_along_one_side() {
    let graph = MyersGraph::new(letters("abc"), letters(""));
    assert_eq!(graph.shortest(0, 3), Ok(vec![0, 1, 2, 3]));
    assert_eq!(
        graph.construct_changes(vec![0, 1, 2, 3]),
        Ok(vec![EditOp::Delete(0), EditOp::Delete(1), EditOp::Delete(2)])
    );
    let graph = MyersGraph::new(letters(""), letters("abc"));
    assert_eq!(graph.shortest(0, 3), Ok(vec![0, 1, 2, 3]));
    assert_eq!(
        graph.construct_changes(vec![0, 1, 2, 3]),
        Ok(vec![EditOp::Insert(0), EditOp::Insert(1), EditOp::Insert(2)])
    );
}

#[test]
fn changes_of_a_path() {
    let graph = MyersGraph::new(letters("abundance"), letters("abundy"));
    let path = graph.shortest(0, 69).unwrap();
    assert_eq!(
        graph.construct_changes(path),
        Ok(vec![
            EditOp::Equal(0),
            EditOp::Equal(1),
            EditOp::Equal(2),
            EditOp::Equal(3),
            EditOp::Equal(4),
            EditOp::Delete(5),
            EditOp::Delete(6),
            EditOp::Delete(7),
            EditOp::Delete(8),
            EditOp::Insert(5),
        ])
    );
}

#[test]
fn changes_of_another_path_of_the_graph() {
    // Not the cheapest path, but a path: delete both, then insert both.
    let graph = MyersGraph::new(letters("ab"), letters("ab"));
    assert_eq!(
        graph.construct_changes(vec![0, 3, 6, 7, 8]),
        Ok(vec![EditOp::Delete(0), EditOp::Delete(1), EditOp::Insert(0), EditOp::Insert(1)])
    );
    assert_eq!(
        graph.construct_changes(vec![0, 4, 8]),
        Ok(vec![EditOp::Equal(0), EditOp::Equal(1)])
    );
}

#[test]
fn broken_paths_are_turned_down() {
    let graph = MyersGraph::new(letters("ab"), letters("ba"));
    let broken = Err(DiffError::InternalInvariantViolation);
    // No path at all, a path that does not start at the origin, one that
    // does not reach the terminal corner.
    assert_eq!(graph.construct_changes(vec![]), broken);
    assert_eq!(graph.construct_changes(vec![1, 2, 5, 8]), broken);
    assert_eq!(graph.construct_changes(vec![0, 1, 2, 5]), broken);
    // A diagonal where the units differ.
    assert_eq!(graph.construct_changes(vec![0, 4, 8]), broken);
    // A step backwards, a step in place, a jump.
    assert_eq!(graph.construct_changes(vec![0, 1, 0, 1, 2, 5, 8]), broken);
    assert_eq!(graph.construct_changes(vec![0, 0, 1, 2, 5, 8]), broken);
    assert_eq!(graph.construct_changes(vec![0, 6, 7, 8]), broken);
    // An insertion out of the last column into the next row.
    assert_eq!(graph.construct_changes(vec![0, 1, 2, 3, 4, 5, 8]), broken);
    // A node beyond the grid.
    assert_eq!(graph.construct_changes(vec![0, 3, 6, 9, 8]), broken);
    assert!(graph.construct_changes(vec![0, 1, 2, 5, 8]).is_ok());
}

#[test]
fn edges_leave_in_order() {
    let graph = MyersGraph::new(letters("ab"), letters("ax"));
    assert_eq!(
        graph.edges(Position { i: 0, j: 0 }),
        vec![
            Edge { kind: EdgeKind::MatchDiagonal, to: Position { i: 1, j: 1 } },
            Edge { kind: EdgeKind::Delete, to: Position { i: 1, j: 0 } },
            Edge { kind: EdgeKind::Insert, to: Position { i: 0, j: 1 } },
        ]
    );
    assert_eq!(
        graph.edges(Position { i: 1, j: 1 }),
        vec![
            Edge { kind: EdgeKind::Delete, to: Position { i: 2, j: 1 } },
            Edge { kind: EdgeKind::Insert, to: Position { i: 1, j: 2 } },
        ]
    );
    assert_eq!(
        graph.edges(Position { i: 2, j: 0 }),
        vec![Edge { kind: EdgeKind::Insert, to: Position { i: 2, j: 1 } }]
    );
    assert_eq!(
        graph.edges(Position { i: 1, j: 2 }),
        vec![Edge { kind: EdgeKind::Delete, to: Position { i: 2, j: 2 } }]
    );
    assert_eq!(graph.edges(Position { i: 2, j: 2 }), vec![]);
}

#[test]
fn diagonal_into_a_position() {
    let graph = MyersGraph::new(letters("ab"), letters("ax"));
    assert!(graph.diagonal_into(Position { i: 1, j: 1 }));
    assert!(!graph.diagonal_into(Position { i: 2, j: 2 }));
    assert!(!graph.diagonal_into(Position { i: 0, j: 1 }));
    assert!(!graph.diagonal_into(Position { i: 1, j: 0 }));
    assert!(!graph.diagonal_into(Position { i: 0, j: 0 }));
}

#[test]
fn nodes_are_numbered_row_by_row() {
    let graph = MyersGraph::new(letters("abc"), letters("xy"));
    assert_eq!(graph.source_len(), 3);
    assert_eq!(graph.destination_len(), 2);
    assert_eq!(graph.node_count(), 12);
    assert_eq!(graph.index_of(Position { i: 0, j: 0 }), 0);
    assert_eq!(graph.index_of(Position { i: 0, j: 2 }), 2);
    assert_eq!(graph.index_of(Position { i: 1, j: 0 }), 3);
    assert_eq!(graph.index_of(Position { i: 3, j: 2 }), 11);
    assert_eq!(graph.position_of(0), Position { i: 0, j: 0 });
    assert_eq!(graph.position_of(5), Position { i: 1, j: 2 });
    assert_eq!(graph.position_of(11), Position { i: 3, j: 2 });
    for node in 0..12 {
        assert_eq!(graph.index_of(graph.position_of(node)), node);
    }
}

#[test]
fn con_range_keeps_what_is_in_range() {
    assert_eq!(con_range(5, 0), Some(0));
    assert_eq!(con_range(5, 4), Some(4));
    assert_eq!(con_range(5, 5), None);
    assert_eq!(con_range(5, 6), None);
    assert_eq!(con_range(0, 0), None);
    assert_eq!(con_range(usize::MAX, usize::MAX - 1), Some(usize::MAX - 1));
    assert_eq!(con_range(usize::MAX, usize::MAX), None);
}

#[test]
fn match_row_compares_with_each_unit() {
    assert_eq!(match_row(&'a', &letters("banana")), vec![false, true, false, true, false, true]);
    assert_eq!(match_row(&'z', &letters("banana")), vec![false; 6]);
    assert_eq!(match_row(&7u8, &Vec::new()), Vec::<bool>::new());
}
