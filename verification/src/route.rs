use vstd::prelude::*;
use crate::api::{cell_of, Cell};
use crate::grid::Terrain;
use crate::path::{Move, PathNode};
use crate::ranking::{least_route, lemma_least_exists, lemma_least_is_best};

verus! {

/// The cell reached from `start` by making `moves` in order.
pub open spec fn endpoint(start: Cell, moves: Seq<Move>) -> Cell
    decreases moves.len(),
{
    if moves.len() == 0 {
        start
    } else {
        moves.last().step(endpoint(start, moves.drop_last()))
    }
}

/// Every move of `moves`, made in order from `start`, leads onto a traversable cell.
/// Nothing is asked of `start` itself.
pub open spec fn passable(t: Terrain, start: Cell, moves: Seq<Move>) -> bool
    decreases moves.len(),
{
    moves.len() == 0 || (passable(t, start, moves.drop_last()) && t.traversable(
        endpoint(start, moves),
    ))
}

/// `moves` leads from `start` to `goal` over traversable cells.
pub open spec fn is_route(t: Terrain, start: Cell, goal: Cell, moves: Seq<Move>) -> bool {
    passable(t, start, moves) && endpoint(start, moves) == goal
}

/// Some route leads from `start` to `goal`.
pub open spec fn reachable(t: Terrain, start: Cell, goal: Cell) -> bool {
    exists|moves: Seq<Move>| is_route(t, start, goal, moves)
}

/// `a` comes no later than `b` in dictionary order, moves compared by their rank:
/// the two agree up to some place, where `a` ends or has the move of lower rank.
pub open spec fn precedes(a: Seq<Move>, b: Seq<Move>) -> bool {
    exists|i: int|
        0 <= i <= a.len() && i <= b.len() && #[trigger] a.take(i) == b.take(i) && (i == a.len() || (i
            < b.len() && a[i].rank() < b[i].rank()))
}

/// `moves` is the route from `start` to `goal` that the search settles on: no route
/// is shorter, and among the routes of its length it comes first in dictionary order.
pub open spec fn is_best_route(t: Terrain, start: Cell, goal: Cell, moves: Seq<Move>) -> bool {
    &&& is_route(t, start, goal, moves)
    &&& forall|other: Seq<Move>| #[trigger]
        is_route(t, start, goal, other) ==> moves.len() <= other.len() && (moves.len()
            == other.len() ==> precedes(moves, other))
}

/// The best route from `start` to `goal`, where `goal` can be reached.
pub open spec fn best_route(t: Terrain, start: Cell, goal: Cell) -> Seq<Move> {
    choose|moves: Seq<Move>| is_best_route(t, start, goal, moves)
}

/// The path that `moves` describes from `start`: the cells passed, each with the
/// move that leaves it, and the last with none.
pub open spec fn trace(start: Cell, moves: Seq<Move>) -> Seq<PathNode> {
    Seq::new(
        moves.len() + 1,
        |i: int|
            PathNode {
                coords: (
                    endpoint(start, moves.take(i)).0 as u32,
                    endpoint(start, moves.take(i)).1 as u32,
                ),
                next_move: if i < moves.len() {
                    Some(moves[i])
                } else {
                    None
                },
            },
    )
}

/// Two sequences of equal length that each precede the other are the same.
pub proof fn lemma_precedes_antisymmetric(a: Seq<Move>, b: Seq<Move>)
    requires
        a.len() == b.len(),
        precedes(a, b),
        precedes(b, a),
    ensures
        a == b,
{
    let i = choose|i: int|
        0 <= i <= a.len() && i <= b.len() && #[trigger] a.take(i) == b.take(i) && (i == a.len() || (i
            < b.len() && a[i].rank() < b[i].rank()));
    let j = choose|j: int|
        0 <= j <= b.len() && j <= a.len() && #[trigger] b.take(j) == a.take(j) && (j == b.len() || (j
            < a.len() && b[j].rank() < a[j].rank()));
    if i == a.len() {
        assert(a.take(i) =~= a);
        assert(b.take(i) =~= b);
    } else if j == b.len() {
        assert(a.take(j) =~= a);
        assert(b.take(j) =~= b);
    } else if i < j {
        assert(b.take(j)[i] == a.take(j)[i]);
    } else if j < i {
        assert(a.take(i)[j] == b.take(i)[j]);
    }
}

/// There is at most one best route between two cells.
pub proof fn lemma_best_route_unique(t: Terrain, start: Cell, goal: Cell, a: Seq<Move>, b: Seq<Move>)
    requires
        is_best_route(t, start, goal, a),
        is_best_route(t, start, goal, b),
    ensures
        a == b,
{
    assert(is_route(t, start, goal, a));
    assert(is_route(t, start, goal, b));
    lemma_precedes_antisymmetric(a, b);
}

/// Where `goal` can be reached from `start`, `best_route` names the best route, and
/// every best route is that one.
pub proof fn lemma_best_route_is(t: Terrain, start: Cell, goal: Cell, moves: Seq<Move>)
    requires
        is_best_route(t, start, goal, moves),
    ensures
        reachable(t, start, goal),
        best_route(t, start, goal) == moves,
{
    lemma_best_route_unique(t, start, goal, moves, best_route(t, start, goal));
}

/// The route of no moves leads from a cell to itself, whatever the terrain.
pub proof fn lemma_empty_route(t: Terrain, start: Cell)
    ensures
        is_route(t, start, start, Seq::<Move>::empty()),
        is_best_route(t, start, start, Seq::<Move>::empty()),
{
    let none = Seq::<Move>::empty();
    assert forall|other: Seq<Move>| #[trigger] is_route(t, start, start, other) implies none.len()
        <= other.len() && (none.len() == other.len() ==> precedes(none, other)) by {
        if other.len() == 0 {
            assert(none.take(0) == other.take(0));
        }
    }
}

/// A route extended by one move onto a traversable cell is a route to that cell.
pub proof fn lemma_route_push(t: Terrain, start: Cell, goal: Cell, moves: Seq<Move>, mv: Move)
    requires
        is_route(t, start, goal, moves),
        t.traversable(mv.step(goal)),
    ensures
        is_route(t, start, mv.step(goal), moves.push(mv)),
{
    assert(moves.push(mv).drop_last() =~= moves);
}

/// Every cell that a route passes after its start lies inside the terrain, and so
/// does its end where its start does.
pub proof fn lemma_route_in_bounds(t: Terrain, start: Cell, moves: Seq<Move>, i: int)
    requires
        passable(t, start, moves),
        t.in_bounds(start),
        0 <= i <= moves.len(),
    ensures
        passable(t, start, moves.take(i)),
        t.in_bounds(endpoint(start, moves.take(i))),
    decreases moves.len(),
{
    if i == moves.len() {
        assert(moves.take(i) =~= moves);
    } else {
        assert(moves.drop_last().take(i) =~= moves.take(i));
        lemma_route_in_bounds(t, start, moves.drop_last(), i);
    }
}

/// Where `goal` can be reached from `start`, there is a best route between them,
/// and `best_route` names it.
pub proof fn lemma_best_route_exists(t: Terrain, start: Cell, goal: Cell)
    requires
        reachable(t, start, goal),
    ensures
        is_best_route(t, start, goal, best_route(t, start, goal)),
{
    let some = choose|moves: Seq<Move>| is_route(t, start, goal, moves);
    lemma_least_exists(t, start, goal, some);
    let least = choose|least: Seq<Move>| least_route(t, start, goal, least);
    lemma_least_is_best(t, start, goal, least);
}

/// No route is shorter than the best route.
pub proof fn lemma_best_route_is_shortest(t: Terrain, start: Cell, goal: Cell, other: Seq<Move>)
    requires
        is_route(t, start, goal, other),
    ensures
        best_route(t, start, goal).len() <= other.len(),
{
    lemma_best_route_exists(t, start, goal);
}

/// The best route from a cell to itself has no moves, and its path is that cell alone.
pub proof fn lemma_best_route_to_self(t: Terrain, start: (u32, u32))
    ensures
        best_route(t, cell_of(start), cell_of(start)) == Seq::<Move>::empty(),
        trace(cell_of(start), best_route(t, cell_of(start), cell_of(start))) == seq![
            (PathNode { coords: start, next_move: None }),
        ],
{
    lemma_empty_route(t, cell_of(start));
    lemma_best_route_is(t, cell_of(start), cell_of(start), Seq::<Move>::empty());
    assert(trace(cell_of(start), Seq::<Move>::empty()) =~= seq![
        (PathNode { coords: start, next_move: None }),
    ]);
}

} // verus!
