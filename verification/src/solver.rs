//! Answering a query from the state graph.

use crate::board::GOAL;
use crate::error::PuzzleError;
use crate::graph::{shortest_path_tree, StateGraph};
use crate::moves::{lemma_moved_inverse, Move};
use crate::route::{best_route, is_distance, lemma_best_exists, lemma_best_route_is_shortest,
    lemma_best_route_of_goal, lemma_best_route_rest, solvable, solves};
use vstd::prelude::*;

verus! {

/// Follows the edges of the state graph from `start` to the goal and gives the number
/// of rotations on the way and the rotations themselves: the best route from `start`,
/// which is as short as any. A board that is no key of the graph is unsolvable.
pub fn solve(graph: &StateGraph, start: usize) -> (result: Result<(usize, Vec<Move>), PuzzleError>)
    ensures
        graph@ == shortest_path_tree(),
        graph@.contains_key(start) <==> solvable(start as nat),
        start == GOAL ==> result is Ok,
        match result {
            Ok((count, route)) => {
                &&& graph@.contains_key(start)
                &&& count == route@.len()
                &&& route@ == best_route(start as nat)
                &&& solves(start as nat, route@)
                &&& is_distance(start as nat, count as nat)
                &&& start == GOAL ==> count == 0
            },
            Err(error) => error == PuzzleError::Unsolvable && !graph@.contains_key(start),
        },
{
    proof {
        lemma_best_route_of_goal();
    }
    if graph.edge(start).is_none() {
        return Err(PuzzleError::Unsolvable);
    }
    let mut route: Vec<Move> = Vec::new();
    let mut at: usize = start;
    while at != GOAL
        invariant
            solvable(at as nat),
            route@ + best_route(at as nat) == best_route(start as nat),
        decreases best_route(at as nat).len(),
    {
        let edge = graph.edge(at).unwrap();
        let m = edge.label.unwrap();
        proof {
            lemma_best_route_rest(at as nat);
            lemma_moved_inverse(at as nat, m);
        }
        route.push(m);
        at = edge.to;
    }
    proof {
        let witness = choose|way: Seq<Move>| solves(start as nat, way);
        lemma_best_exists(start as nat, witness);
        lemma_best_route_is_shortest(start as nat);
    }
    Ok((route.len(), route))
}

} // verus!
