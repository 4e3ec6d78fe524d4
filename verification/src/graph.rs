//! The state graph: for every solvable configuration, the first step of its best route.

use crate::board::GOAL;
use crate::moves::{lemma_moved_configuration, lemma_moved_inverse, moved, predecessors, unmoved,
    Move};
use crate::route::{best_route, lemma_best_exists, lemma_best_route_rest, lemma_best_unique,
    lemma_goal_is_configuration, lemma_replay_first, rank, solvable, solves};
use std::collections::HashMap;
use std::collections::VecDeque;
use vstd::prelude::*;

verus! {

/// A step toward the goal: the rotation to make and the board that it leads to.
/// The goal's own edge holds no rotation.
#[derive(Clone, Copy, PartialEq, Eq, Debug)]
pub struct Edge {
    pub to: usize,
    pub label: Option<Move>,
}

impl Edge {
    /// The edge that leads nowhere, as the goal has it.
    pub fn new() -> (edge: Edge)
        ensures
            edge == (Edge { to: 0, label: None }),
    {
        Edge { to: 0, label: None }
    }
}

/// The edge that the state graph holds for a solvable configuration: none for the
/// goal, else the first rotation of the best route and the board that it leads to.
pub open spec fn edge_toward_goal(key: usize) -> Edge {
    if key == GOAL {
        Edge { to: 0, label: None }
    } else {
        let first = best_route(key as nat)[0];
        Edge { to: moved(key as nat, first) as usize, label: Some(first) }
    }
}

/// The state graph: the solvable configurations, each with its edge toward the goal.
pub open spec fn shortest_path_tree() -> Map<usize, Edge> {
    Map::new(|key: usize| solvable(key as nat), |key: usize| edge_toward_goal(key))
}

/// The state graph of the puzzle, built once and then only read.
pub struct StateGraph {
    edges: HashMap<usize, Edge>,
}

impl View for StateGraph {
    type V = Map<usize, Edge>;

    closed spec fn view(&self) -> Map<usize, Edge> {
        self.edges@
    }
}

impl StateGraph {
    /// What every state graph holds.
    #[verifier::type_invariant]
    spec fn is_tree(self) -> bool {
        self.edges@ == shortest_path_tree()
    }

    /// The edge of `key`, where `key` is solvable.
    pub fn edge(&self, key: usize) -> (edge: Option<Edge>)
        ensures
            self@ == shortest_path_tree(),
            edge == (if solvable(key as nat) {
                Some(edge_toward_goal(key))
            } else {
                None
            }),
    {
        proof {
            use_type_invariant(self);
        }
        match self.edges.get(&key) {
            Some(edge) => Some(*edge),
            None => None,
        }
    }

    /// The number of solvable configurations.
    pub fn len(&self) -> (len: usize)
        ensures
            self@ == shortest_path_tree(),
            len == self@.len(),
    {
        proof {
            use_type_invariant(self);
        }
        self.edges.len()
    }
}

/// Every key of `edges` has a route to the goal in `routes`, and its edge is the first
/// step of that route.
spec fn routes_fit(edges: Map<usize, Edge>, routes: Map<usize, Seq<Move>>) -> bool {
    &&& edges.contains_key(GOAL)
    &&& routes[GOAL] == Seq::<Move>::empty()
    &&& edges[GOAL] == (Edge { to: 0, label: None })
    &&& forall|key: usize| #[trigger]
        edges.contains_key(key) ==> {
            &&& solves(key as nat, routes[key])
            &&& key != GOAL ==> {
                &&& routes[key].len() > 0
                &&& edges[key] == (Edge {
                    to: moved(key as nat, routes[key][0]) as usize,
                    label: Some(routes[key][0]),
                })
            }
        }
}

/// The boards that the rotations before place `upto` lead from to `key` are keys of
/// `edges`, each with a route that ranks no higher than the one through `key`.
spec fn closed_at(
    edges: Map<usize, Edge>,
    routes: Map<usize, Seq<Move>>,
    key: usize,
    upto: nat,
) -> bool {
    forall|m: Move|
        m.ordinal() < upto ==> {
            &&& edges.contains_key(#[trigger] unmoved(key as nat, m) as usize)
            &&& rank(routes[unmoved(key as nat, m) as usize]) <= 6 * rank(routes[key])
                + m.ordinal()
        }
}

/// The keys in `done` have been explored in full.
spec fn explored(edges: Map<usize, Edge>, routes: Map<usize, Seq<Move>>, done: Set<usize>) -> bool {
    &&& forall|key: usize| #[trigger] done.contains(key) ==> edges.contains_key(key)
    &&& forall|key: usize| #[trigger] done.contains(key) ==> closed_at(edges, routes, key, 6)
}

/// The state of the search while the head of `pending` is explored, the rotations
/// before place `tried` being done with.
spec fn searching(
    edges: Map<usize, Edge>,
    routes: Map<usize, Seq<Move>>,
    done: Set<usize>,
    pending: Seq<usize>,
    tried: nat,
) -> bool {
    &&& routes_fit(edges, routes)
    &&& explored(edges, routes, done)
    &&& pending.len() > 0
    &&& forall|key: usize| #[trigger]
        edges.contains_key(key) ==> done.contains(key) || pending.contains(key)
    &&& forall|i: int| 0 <= i < pending.len() ==> edges.contains_key(#[trigger] pending[i])
    &&& forall|key: usize, i: int|
        0 <= i < pending.len() && #[trigger] done.contains(key) ==> rank(routes[key]) < rank(
            routes[#[trigger] pending[i]],
        )
    &&& forall|i: int, j: int|
        0 <= i < j < pending.len() ==> rank(routes[#[trigger] pending[i]]) < rank(
            routes[#[trigger] pending[j]],
        )
    &&& closed_at(edges, routes, pending[0], tried)
    &&& forall|key: usize| #[trigger]
        edges.contains_key(key) ==> rank(routes[key]) < 6 * rank(routes[pending[0]]) + tried
}

/// The state of the search when nothing is pending.
spec fn finished(edges: Map<usize, Edge>, routes: Map<usize, Seq<Move>>, done: Set<usize>) -> bool {
    &&& routes_fit(edges, routes)
    &&& explored(edges, routes, done)
    &&& forall|key: usize| #[trigger] edges.contains_key(key) ==> done.contains(key)
}

/// The state of the search between two explorations.
spec fn between(
    edges: Map<usize, Edge>,
    routes: Map<usize, Seq<Move>>,
    done: Set<usize>,
    pending: Seq<usize>,
) -> bool {
    if pending.len() > 0 {
        searching(edges, routes, done, pending, 0)
    } else {
        finished(edges, routes, done)
    }
}

/// A set of keys below `bound` is finite and has at most `bound` elements.
proof fn lemma_bounded_set(keys: Set<usize>, bound: usize)
    requires
        forall|key: usize| keys.contains(key) ==> key < bound,
    ensures
        keys.finite(),
        keys.len() <= bound,
    decreases bound,
{
    if bound == 0 {
        assert(keys =~= Set::<usize>::empty());
    } else {
        let top = (bound - 1) as usize;
        let rest = keys.remove(top);
        lemma_bounded_set(rest, top);
        if !keys.contains(top) {
            assert(keys =~= rest);
        }
    }
}

/// The search starts with the goal alone, pending.
proof fn lemma_search_starts(edges: Map<usize, Edge>, routes: Map<usize, Seq<Move>>)
    requires
        edges == Map::<usize, Edge>::empty().insert(GOAL, Edge { to: 0, label: None }),
        routes == Map::<usize, Seq<Move>>::empty().insert(GOAL, Seq::<Move>::empty()),
    ensures
        searching(edges, routes, Set::<usize>::empty(), seq![GOAL], 0),
{
    lemma_goal_is_configuration();
    let pending = seq![GOAL];
    assert(pending[0] == GOAL);
}

/// Where the board that the next rotation leads from is a key already, the search
/// goes on to the rotation after it.
proof fn lemma_found_before(
    edges: Map<usize, Edge>,
    routes: Map<usize, Seq<Move>>,
    done: Set<usize>,
    pending: Seq<usize>,
    tried: nat,
)
    requires
        searching(edges, routes, done, pending, tried),
        tried < 6,
        edges.contains_key(unmoved(pending[0] as nat, Move::at(tried as int)) as usize),
    ensures
        searching(edges, routes, done, pending, tried + 1),
{
}

/// Where the board that the next rotation leads from is no key yet, it becomes one,
/// with the route through the board that is explored, and waits last in line.
proof fn lemma_found_new(
    edges: Map<usize, Edge>,
    routes: Map<usize, Seq<Move>>,
    done: Set<usize>,
    pending: Seq<usize>,
    tried: nat,
)
    requires
        searching(edges, routes, done, pending, tried),
        tried < 6,
        !edges.contains_key(unmoved(pending[0] as nat, Move::at(tried as int)) as usize),
    ensures
        ({
            let m = Move::at(tried as int);
            let found = unmoved(pending[0] as nat, m) as usize;
            searching(
                edges.insert(found, Edge { to: pending[0], label: Some(m) }),
                routes.insert(found, seq![m] + routes[pending[0]]),
                done,
                pending.push(found),
                tried + 1,
            )
        }),
{
    let known = pending[0];
    let m = Move::at(tried as int);
    let found = unmoved(known as nat, m) as usize;
    let edges2 = edges.insert(found, Edge { to: known, label: Some(m) });
    let pending2 = pending.push(found);
    lemma_moved_inverse(known as nat, m);
    lemma_moved_configuration(known as nat, m);
    lemma_replay_first(found as nat, m, routes[known]);
    assert forall|key: usize| #[trigger] edges2.contains_key(key) implies done.contains(key)
        || pending2.contains(key) by {
        if key == found {
            assert(pending2[pending.len() as int] == found);
        } else if !done.contains(key) {
            let i = choose|i: int| 0 <= i < pending.len() && pending[i] == key;
            assert(pending2[i] == key);
        }
    }
}

/// Once all six rotations are done with, the board that was explored is explored in
/// full and the search turns to the next one pending, if there is one.
proof fn lemma_explored(
    edges: Map<usize, Edge>,
    routes: Map<usize, Seq<Move>>,
    done: Set<usize>,
    pending: Seq<usize>,
)
    requires
        searching(edges, routes, done, pending, 6),
    ensures
        between(edges, routes, done.insert(pending[0]), pending.drop_first()),
        !done.contains(pending[0]),
        pending[0] < 1000000000,
{
    let known = pending[0];
    let done2 = done.insert(known);
    let pending2 = pending.drop_first();
    assert forall|key: usize| #[trigger] edges.contains_key(key) implies done2.contains(key)
        || pending2.contains(key) by {
        if !done.contains(key) && key != known {
            let i = choose|i: int| 0 <= i < pending.len() && pending[i] == key;
            assert(pending2[i - 1] == key);
        }
    }
}

/// When nothing is pending, every configuration that a route takes to the goal is a
/// key, and its own route ranks no higher than that one.
proof fn lemma_finished_covers(
    edges: Map<usize, Edge>,
    routes: Map<usize, Seq<Move>>,
    done: Set<usize>,
    key: nat,
    route: Seq<Move>,
)
    requires
        finished(edges, routes, done),
        solves(key, route),
    ensures
        edges.contains_key(key as usize),
        rank(routes[key as usize]) <= rank(route),
    decreases route.len(),
{
    if route.len() > 0 {
        let m = route[0];
        let rest = route.drop_first();
        lemma_replay_first(key, m, rest);
        lemma_moved_inverse(key, m);
        lemma_finished_covers(edges, routes, done, moved(key, m), rest);
    }
}

/// When nothing is pending, the edges are the state graph.
proof fn lemma_finished_is_tree(
    edges: Map<usize, Edge>,
    routes: Map<usize, Seq<Move>>,
    done: Set<usize>,
)
    requires
        finished(edges, routes, done),
    ensures
        edges == shortest_path_tree(),
{
    let tree = shortest_path_tree();
    assert forall|key: usize| edges.contains_key(key) <==> tree.contains_key(key) by {
        if solvable(key as nat) {
            let route = choose|route: Seq<Move>| solves(key as nat, route);
            lemma_finished_covers(edges, routes, done, key as nat, route);
        }
    }
    assert forall|key: usize| #[trigger] edges.contains_key(key) implies edges[key] == tree[key] by {
        assert forall|other: Seq<Move>| solves(key as nat, other) implies rank(routes[key])
            <= rank(other) by {
            lemma_finished_covers(edges, routes, done, key as nat, other);
        }
        lemma_best_exists(key as nat, routes[key]);
        lemma_best_unique(key as nat, routes[key], best_route(key as nat));
    }
}

/// Every state graph is the same graph: building it again changes no key and no edge,
/// so every configuration keeps its route and its distance.
pub proof fn lemma_rebuilding_changes_nothing(first: StateGraph, second: StateGraph)
    requires
        first@ == shortest_path_tree(),
        second@ == shortest_path_tree(),
    ensures
        first@ == second@,
{
}

/// The edge of a solvable configuration other than the goal holds a rotation; it
/// leads to the board that this rotation makes, which is solvable and exactly one
/// rotation closer to the goal.
pub proof fn lemma_edge_leads_closer(key: usize)
    requires
        solvable(key as nat),
        key != GOAL,
    ensures
        edge_toward_goal(key).label is Some,
        edge_toward_goal(key).to == moved(key as nat, edge_toward_goal(key).label->0),
        solvable(edge_toward_goal(key).to as nat),
        best_route(key as nat).len() == best_route(edge_toward_goal(key).to as nat).len() + 1,
{
    lemma_best_route_rest(key as nat);
    lemma_moved_inverse(key as nat, best_route(key as nat)[0]);
}

/// Builds the state graph by exploring, breadth first and backward from the goal,
/// the boards from which one rotation leads to a board already found. A board keeps
/// the edge with which it was first found.
pub fn build_state_graph() -> (graph: StateGraph)
    ensures
        graph@ == shortest_path_tree(),
{
    let mut edges: HashMap<usize, Edge> = HashMap::new();
    edges.insert(GOAL, Edge::new());
    let mut queue: VecDeque<usize> = VecDeque::new();
    queue.push_back(GOAL);
    let ghost mut routes = Map::<usize, Seq<Move>>::empty().insert(GOAL, Seq::<Move>::empty());
    let ghost mut done = Set::<usize>::empty();
    proof {
        lemma_search_starts(edges@, routes);
        lemma_bounded_set(done, 1000000000);
    }
    while queue.len() > 0
        invariant
            between(edges@, routes, done, queue@),
            done.finite(),
            done.len() <= 1000000000,
            forall|key: usize| done.contains(key) ==> key < 1000000000,
        decreases 1000000000 - done.len(),
    {
        let ghost waiting = queue@;
        let known = queue.pop_front().unwrap();
        assert(waiting =~= seq![known] + queue@);
        let found_from = predecessors(known);
        let mut tried: usize = 0;
        while tried < 6
            invariant
                tried <= 6,
                searching(edges@, routes, done, seq![known] + queue@, tried as nat),
                found_from@.len() == 6,
                forall|k: int|
                    0 <= k < 6 ==> found_from@[k] == (
                        unmoved(known as nat, Move::at(k)) as usize,
                        Move::at(k),
                    ),
            decreases 6 - tried,
        {
            let (found, m) = found_from[tried];
            let ghost pending = seq![known] + queue@;
            if !edges.contains_key(&found) {
                proof {
                    lemma_found_new(edges@, routes, done, pending, tried as nat);
                    routes = routes.insert(found, seq![m] + routes[known]);
                }
                edges.insert(found, Edge { to: known, label: Some(m) });
                queue.push_back(found);
            } else {
                proof {
                    lemma_found_before(edges@, routes, done, pending, tried as nat);
                }
            }
            tried += 1;
        }
        proof {
            let pending = seq![known] + queue@;
            assert(pending.drop_first() =~= queue@);
            lemma_explored(edges@, routes, done, pending);
            done = done.insert(known);
            lemma_bounded_set(done, 1000000000);
        }
    }
    proof {
        lemma_finished_is_tree(edges@, routes, done);
    }
    StateGraph { edges }
}

} // verus!
