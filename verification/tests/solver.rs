use board_puzzles::board::{decode, GOAL};
use board_puzzles::error::PuzzleError;
use board_puzzles::graph::{build_state_graph, Edge};
use board_puzzles::moves::{apply_move, undo_move, Move};
use board_puzzles::route::route_labels;
use board_puzzles::solver::solve;
use std::collections::{HashMap, VecDeque};

const ALL: [Move; 6] = [Move::H1, Move::H2, Move::H3, Move::V1, Move::V2, Move::V3];

/// The distance to the goal of every board from which the goal can be reached, found
/// by a plain search outward from the goal.
fn distances() -> HashMap<usize, usize> {
    let mut distance = HashMap::new();
    distance.insert(GOAL, 0);
    let mut queue = VecDeque::new();
    queue.push_back(GOAL);
    while let Some(known) = queue.pop_front() {
        let next = distance[&known] + 1;
        for m in ALL {
            let from = undo_move(known, m);
            if !distance.contains_key(&from) {
                distance.insert(from, next);
                queue.push_back(from);
            }
        }
    }
    distance
}

fn replay(start: usize, route: &[Move]) -> usize {
    let mut at = start;
    for m in route {
        at = apply_move(at, *m);
    }
    at
}

#[test]
fn edge_new_leads_nowhere() {
    assert_eq!(Edge::new(), Edge { to: 0, label: None });
}

#[test]
fn goal_needs_no_move() {
    let graph = build_state_graph();
    assert_eq!(solve(&graph, GOAL), Ok((0, vec![])));
    assert_eq!(solve(&graph, 123456789), Ok((0, vec![])));
    assert_eq!(route_labels(&solve(&graph, GOAL).unwrap().1), "");
}

#[test]
fn one_row_rotation_from_goal() {
    let graph = build_state_graph();
    assert_eq!(solve(&graph, 231456789), Ok((1, vec![Move::H1])));
    assert_eq!(solve(&graph, 123564789), Ok((1, vec![Move::H2])));
    assert_eq!(solve(&graph, 123456897), Ok((1, vec![Move::H3])));
    assert_eq!(route_labels(&solve(&graph, 231456789).unwrap().1), "H1");
}

#[test]
fn one_column_rotation_from_goal() {
    let graph = build_state_graph();
    assert_eq!(solve(&graph, 723156489), Ok((1, vec![Move::V1])));
    assert_eq!(solve(&graph, 183426759), Ok((1, vec![Move::V2])));
    assert_eq!(solve(&graph, 129453786), Ok((1, vec![Move::V3])));
}

#[test]
fn two_rotations_from_goal() {
    let graph = build_state_graph();
    assert_eq!(solve(&graph, 312456789), Ok((2, vec![Move::H1, Move::H1])));
    assert_eq!(solve(&graph, 423756189), Ok((2, vec![Move::V1, Move::V1])));
    let start = undo_move(undo_move(GOAL, Move::V3), Move::H2);
    assert_eq!(solve(&graph, start), Ok((2, vec![Move::H2, Move::V3])));
}

#[test]
fn swapped_pair_is_unsolvable() {
    let graph = build_state_graph();
    assert_eq!(solve(&graph, 213456789), Err(PuzzleError::Unsolvable));
    assert_eq!(solve(&graph, 123456798), Err(PuzzleError::Unsolvable));
}

#[test]
fn boards_that_are_no_configuration_are_unsolvable() {
    let graph = build_state_graph();
    assert_eq!(solve(&graph, 0), Err(PuzzleError::Unsolvable));
    assert_eq!(solve(&graph, 113456789), Err(PuzzleError::Unsolvable));
    assert_eq!(solve(&graph, 12345678), Err(PuzzleError::Unsolvable));
    assert_eq!(solve(&graph, 1123456789), Err(PuzzleError::Unsolvable));
    assert_eq!(solve(&graph, usize::MAX), Err(PuzzleError::Unsolvable));
}

#[test]
fn malformed_text_gives_no_query() {
    assert_eq!(decode("1 2 3\n4 5 6\n7 8\n"), Err(PuzzleError::MalformedInput));
}

#[test]
fn decoded_board_is_solved() {
    let graph = build_state_graph();
    let board = decode("2 3 1\n4 5 6\n7 8 9\n").unwrap();
    let (count, route) = solve(&graph, board).unwrap();
    assert_eq!((count, route_labels(&route).as_str()), (1, "H1"));
}

#[test]
fn half_of_all_arrangements_are_solvable() {
    let graph = build_state_graph();
    assert_eq!(graph.len(), 181440);
    assert_eq!(distances().len(), 181440);
}

#[test]
fn graph_holds_the_first_step_of_each_route() {
    let graph = build_state_graph();
    assert_eq!(graph.edge(GOAL), Some(Edge { to: 0, label: None }));
    assert_eq!(graph.edge(231456789), Some(Edge { to: GOAL, label: Some(Move::H1) }));
    assert_eq!(graph.edge(312456789), Some(Edge { to: 231456789, label: Some(Move::H1) }));
    assert_eq!(graph.edge(213456789), None);
    for (&start, _) in distances().iter() {
        if start != GOAL {
            let edge = graph.edge(start).unwrap();
            assert_eq!(apply_move(start, edge.label.unwrap()), edge.to);
        }
    }
}

#[test]
fn route_length_is_the_distance() {
    let graph = build_state_graph();
    for (&start, &distance) in distances().iter() {
        let (count, route) = solve(&graph, start).unwrap();
        assert_eq!(count, distance);
        assert_eq!(route.len(), distance);
    }
}

#[test]
fn replaying_the_route_reaches_the_goal() {
    let graph = build_state_graph();
    for (&start, _) in distances().iter() {
        let (_, route) = solve(&graph, start).unwrap();
        assert_eq!(replay(start, &route), GOAL);
    }
}

#[test]
fn each_edge_leads_one_step_closer() {
    let graph = build_state_graph();
    let distance = distances();
    for (&start, &far) in distance.iter() {
        if start != GOAL {
            let edge = graph.edge(start).unwrap();
            assert_eq!(distance[&edge.to] + 1, far);
        }
    }
}

#[test]
fn only_reachable_boards_are_solved() {
    let graph = build_state_graph();
    let distance = distances();
    for start in [213456789, 132456789, 987654321, 528394617, 123456789, 321654987] {
        assert_eq!(solve(&graph, start).is_ok(), distance.contains_key(&start));
    }
}

#[test]
fn rebuilding_gives_the_same_graph() {
    let first = build_state_graph();
    let second = build_state_graph();
    assert_eq!(first.len(), second.len());
    for (&start, _) in distances().iter() {
        assert_eq!(first.edge(start), second.edge(start));
        assert_eq!(solve(&first, start), solve(&second, start));
    }
}

#[test]
fn the_route_is_the_first_in_order_among_the_shortest() {
    let graph = build_state_graph();
    // Two rotations of different lines act on different cells only where a row meets a
    // column; H1 and H2 do not meet, so both orders solve this board in two steps.
    let start = undo_move(undo_move(GOAL, Move::H1), Move::H2);
    assert_eq!(replay(start, &[Move::H1, Move::H2]), GOAL);
    assert_eq!(replay(start, &[Move::H2, Move::H1]), GOAL);
    assert_eq!(solve(&graph, start), Ok((2, vec![Move::H2, Move::H1])));
}

#[test]
fn farthest_board_is_twelve_rotations_away() {
    let graph = build_state_graph();
    let mut farthest = 0;
    for (&start, _) in distances().iter() {
        let (count, _) = solve(&graph, start).unwrap();
        if count > farthest {
            farthest = count;
        }
    }
    assert_eq!(farthest, *distances().values().max().unwrap());
    assert_eq!(farthest, 12);
}
