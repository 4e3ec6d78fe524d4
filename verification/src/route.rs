//! Routes: sequences of rotations, what they lead to, and which of them is the best.

use crate::board::{digit, is_configuration, unpack, GOAL};
use crate::moves::{lemma_moved_configuration, moved, Move};
use vstd::prelude::*;
use vstd::string::StringExecFns;

verus! {

/// The board reached from `key` by making the rotations of `route` in order.
pub open spec fn replay(key: nat, route: Seq<Move>) -> nat
    decreases route.len(),
{
    if route.len() == 0 {
        key
    } else {
        replay(moved(key, route[0]), route.drop_first())
    }
}

/// `route` takes the configuration `key` to the goal.
pub open spec fn solves(key: nat, route: Seq<Move>) -> bool {
    is_configuration(key) && replay(key, route) == GOAL
}

/// Some route takes the configuration `key` to the goal.
pub open spec fn solvable(key: nat) -> bool {
    exists|route: Seq<Move>| solves(key, route)
}

/// `count` is the least number of rotations that take `key` to the goal.
pub open spec fn is_distance(key: nat, count: nat) -> bool {
    &&& exists|route: Seq<Move>| solves(key, route) && route.len() == count
    &&& forall|route: Seq<Move>| solves(key, route) ==> count <= route.len()
}

/// The rank of a route. A shorter route has the lower rank. Of two routes of one
/// length, the lower rank goes to the one whose last rotation comes earlier in the
/// order `H1`, `H2`, `H3`, `V3`, `V2`, `V1`; where the last rotations agree, the
/// rotations before them decide in the same way, and so on toward the first.
pub open spec fn rank(route: Seq<Move>) -> nat
    decreases route.len(),
{
    if route.len() == 0 {
        1
    } else {
        6 * rank(route.drop_first()) + route[0].ordinal()
    }
}

/// `route` takes `key` to the goal and no route that does so has a lower rank.
pub open spec fn is_best(key: nat, route: Seq<Move>) -> bool {
    &&& solves(key, route)
    &&& forall|other: Seq<Move>| solves(key, other) ==> rank(route) <= rank(other)
}

/// The route of least rank that takes `key` to the goal, where `key` is solvable.
pub open spec fn best_route(key: nat) -> Seq<Move> {
    choose|route: Seq<Move>| is_best(key, route)
}

/// The names of the rotations of a route, one after the other.
pub open spec fn labels(route: Seq<Move>) -> Seq<char>
    decreases route.len(),
{
    if route.len() == 0 {
        Seq::<char>::empty()
    } else {
        labels(route.drop_last()) + route.last().spec_label()
    }
}

/// Writes a route down as the names of its rotations, one after the other.
pub fn route_labels(route: &Vec<Move>) -> (text: String)
    ensures
        text@ == labels(route@),
{
    let mut text = String::new();
    let mut at: usize = 0;
    while at < route.len()
        invariant
            at <= route@.len(),
            text@ == labels(route@.take(at as int)),
        decreases route@.len() - at,
    {
        proof {
            assert(route@.take(at + 1).drop_last() =~= route@.take(at as int));
        }
        text.append(route[at].label());
        at += 1;
    }
    proof {
        assert(route@.take(at as int) =~= route@);
    }
    text
}

/// The least rank of a route of the given length: 6 to the power of the length.
pub open spec fn least_rank(len: nat) -> nat
    decreases len,
{
    if len == 0 {
        1
    } else {
        6 * least_rank((len - 1) as nat)
    }
}

/// The goal is a configuration.
pub proof fn lemma_goal_is_configuration()
    ensures
        is_configuration(GOAL as nat),
{
    reveal_with_fuel(digit, 9);
    let cells = unpack(GOAL as nat);
    assert(cells[0] == 1 && cells[1] == 2 && cells[2] == 3);
    assert(cells[3] == 4 && cells[4] == 5 && cells[5] == 6);
    assert(cells[6] == 7 && cells[7] == 8 && cells[8] == 9);
}

/// Replaying a route that starts with `m` is replaying the rest from the board that
/// `m` leads to.
pub proof fn lemma_replay_first(key: nat, m: Move, rest: Seq<Move>)
    ensures
        replay(key, seq![m] + rest) == replay(moved(key, m), rest),
        rank(seq![m] + rest) == 6 * rank(rest) + m.ordinal(),
        is_configuration(key) ==> (solves(key, seq![m] + rest) <==> solves(moved(key, m), rest)),
{
    let route = seq![m] + rest;
    assert(route.drop_first() =~= rest);
    if is_configuration(key) {
        lemma_moved_configuration(key, m);
    }
}

/// The rank of a route lies between the least rank of its length and twice that.
pub proof fn lemma_rank_bounds(route: Seq<Move>)
    ensures
        least_rank(route.len()) <= rank(route) < 2 * least_rank(route.len()),
    decreases route.len(),
{
    if route.len() > 0 {
        lemma_rank_bounds(route.drop_first());
    }
}

/// The least rank of a longer length is at least twice that of a shorter one.
pub proof fn lemma_least_rank_grows(shorter: nat, longer: nat)
    requires
        shorter < longer,
    ensures
        2 * least_rank(shorter) <= least_rank(longer),
    decreases longer,
{
    if shorter + 1 < longer {
        lemma_least_rank_grows(shorter, (longer - 1) as nat);
    }
}

/// A route that ranks no higher than another is no longer than it.
pub proof fn lemma_rank_orders_length(a: Seq<Move>, b: Seq<Move>)
    requires
        rank(a) <= rank(b),
    ensures
        a.len() <= b.len(),
{
    lemma_rank_bounds(a);
    lemma_rank_bounds(b);
    if b.len() < a.len() {
        lemma_least_rank_grows(b.len(), a.len());
    }
}

/// Two routes of one rank are the same route.
pub proof fn lemma_rank_injective(a: Seq<Move>, b: Seq<Move>)
    requires
        rank(a) == rank(b),
    ensures
        a == b,
    decreases a.len(),
{
    lemma_rank_bounds(a);
    lemma_rank_bounds(b);
    if a.len() == 0 || b.len() == 0 {
        assert(a.len() == 0 && b.len() == 0) by {
            if a.len() > 0 {
                lemma_rank_bounds(a.drop_first());
            }
            if b.len() > 0 {
                lemma_rank_bounds(b.drop_first());
            }
        }
    } else {
        lemma_rank_injective(a.drop_first(), b.drop_first());
        assert(a =~= seq![a[0]] + a.drop_first());
    }
}

/// A configuration has at most one best route.
pub proof fn lemma_best_unique(key: nat, a: Seq<Move>, b: Seq<Move>)
    requires
        is_best(key, a),
        is_best(key, b),
    ensures
        a == b,
{
    lemma_rank_injective(a, b);
}

/// A solvable configuration has a best route, and `best_route` is it.
pub proof fn lemma_best_exists(key: nat, route: Seq<Move>)
    requires
        solves(key, route),
    ensures
        is_best(key, best_route(key)),
    decreases rank(route),
{
    if !is_best(key, route) {
        let other = choose|other: Seq<Move>| solves(key, other) && rank(other) < rank(route);
        lemma_best_exists(key, other);
    }
}

/// The best route from the goal is the empty one.
pub proof fn lemma_best_route_of_goal()
    ensures
        is_best(GOAL as nat, Seq::<Move>::empty()),
        best_route(GOAL as nat) == Seq::<Move>::empty(),
{
    lemma_goal_is_configuration();
    let empty = Seq::<Move>::empty();
    assert forall|other: Seq<Move>| solves(GOAL as nat, other) implies rank(empty) <= rank(other) by {
        lemma_rank_bounds(other);
    }
    lemma_best_exists(GOAL as nat, empty);
    lemma_best_unique(GOAL as nat, empty, best_route(GOAL as nat));
}

/// The best route from a solvable configuration other than the goal has a first
/// rotation, and what follows it is the best route from the board that it leads to.
pub proof fn lemma_best_route_rest(key: nat)
    requires
        solvable(key),
        key != GOAL,
    ensures
        best_route(key).len() > 0,
        is_best(moved(key, best_route(key)[0]), best_route(key).drop_first()),
        best_route(moved(key, best_route(key)[0])) == best_route(key).drop_first(),
{
    let witness = choose|route: Seq<Move>| solves(key, route);
    lemma_best_exists(key, witness);
    let route = best_route(key);
    let m = route[0];
    let rest = route.drop_first();
    let next = moved(key, m);
    lemma_replay_first(key, m, rest);
    assert forall|other: Seq<Move>| solves(next, other) implies rank(rest) <= rank(other) by {
        lemma_replay_first(key, m, other);
    }
    lemma_best_exists(next, rest);
    lemma_best_unique(next, rest, best_route(next));
}

/// The best route is as short as a route to the goal can be.
pub proof fn lemma_best_route_is_shortest(key: nat)
    requires
        solvable(key),
    ensures
        is_distance(key, best_route(key).len()),
{
    let witness = choose|route: Seq<Move>| solves(key, route);
    lemma_best_exists(key, witness);
    let best = best_route(key);
    assert forall|route: Seq<Move>| solves(key, route) implies best.len() <= route.len() by {
        lemma_rank_orders_length(best, route);
    }
}

} // verus!
