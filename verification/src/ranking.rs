use vstd::prelude::*;
use crate::api::Cell;
use crate::grid::Terrain;
use crate::path::Move;
use crate::route::{is_best_route, is_route, precedes};

verus! {

/// The place of `moves` among all sequences of moves when shorter ones come first
/// and those of one length stand in dictionary order: the empty sequence has
/// place 0, and the four extensions of a sequence follow each other directly.
pub open spec fn route_key(moves: Seq<Move>) -> int
    decreases moves.len(),
{
    if moves.len() == 0 {
        0
    } else {
        4 * route_key(moves.drop_last()) + 1 + moves.last().rank()
    }
}

/// The place of the first sequence of `n` moves.
pub open spec fn first_key(n: nat) -> int
    decreases n,
{
    if n == 0 {
        0
    } else {
        4 * first_key((n - 1) as nat) + 1
    }
}

/// The place of an extended sequence, from the place of the sequence it extends.
pub proof fn lemma_key_push(moves: Seq<Move>, mv: Move)
    ensures
        route_key(moves.push(mv)) == 4 * route_key(moves) + 1 + mv.rank(),
{
    assert(moves.push(mv).drop_last() =~= moves);
}

/// The sequences of one length have the places from that of the first of them up
/// to four times that.
pub proof fn lemma_key_range(moves: Seq<Move>)
    ensures
        0 <= first_key(moves.len()) <= route_key(moves) <= 4 * first_key(moves.len()),
    decreases moves.len(),
{
    if moves.len() > 0 {
        lemma_key_range(moves.drop_last());
    }
}

/// The first place of a length lies behind every place of a shorter length.
pub proof fn lemma_first_key_grows(n: nat, k: nat)
    requires
        n < k,
    ensures
        0 <= 4 * first_key(n) < first_key(k),
    decreases k,
{
    if n + 1 < k {
        lemma_first_key_grows(n, (k - 1) as nat);
    } else {
        lemma_key_range(Seq::new(n, |i: int| Move::Right));
    }
}

/// A sequence that has no later place than another is no longer than it.
pub proof fn lemma_key_orders_length(a: Seq<Move>, b: Seq<Move>)
    requires
        route_key(a) <= route_key(b),
    ensures
        a.len() <= b.len(),
{
    lemma_key_range(a);
    lemma_key_range(b);
    if b.len() < a.len() {
        lemma_first_key_grows(b.len(), a.len());
    }
}

/// Two sequences of one length that have the same place are the same.
pub proof fn lemma_key_injective(a: Seq<Move>, b: Seq<Move>)
    requires
        a.len() == b.len(),
        route_key(a) == route_key(b),
    ensures
        a == b,
    decreases a.len(),
{
    if a.len() == 0 {
        assert(a =~= b);
    } else {
        lemma_key_injective(a.drop_last(), b.drop_last());
        assert(a =~= a.drop_last().push(a.last()));
        assert(b =~= b.drop_last().push(b.last()));
    }
}

/// Of two sequences of one length, the one with the earlier place comes first in
/// dictionary order.
pub proof fn lemma_key_orders_equal_length(a: Seq<Move>, b: Seq<Move>)
    requires
        a.len() == b.len(),
        route_key(a) <= route_key(b),
    ensures
        precedes(a, b),
    decreases a.len(),
{
    if a.len() == 0 {
        assert(a.take(0) =~= b.take(0));
    } else {
        let a0 = a.drop_last();
        let b0 = b.drop_last();
        if route_key(a0) == route_key(b0) {
            lemma_key_injective(a0, b0);
            let n = a0.len() as int;
            assert(a.take(n) =~= a0);
            assert(b.take(n) =~= b0);
            if a.last().rank() == b.last().rank() {
                assert(a.take(n + 1) =~= a);
                assert(b.take(n + 1) =~= b);
                assert(a =~= b);
            }
        } else {
            lemma_key_orders_equal_length(a0, b0);
            let i = choose|i: int|
                0 <= i <= a0.len() && i <= b0.len() && #[trigger] a0.take(i) == b0.take(i) && (i
                    == a0.len() || (i < b0.len() && a0[i].rank() < b0[i].rank()));
            if i == a0.len() {
                assert(a0.take(i) =~= a0);
                assert(b0.take(i) =~= b0);
            }
            assert(a.take(i) =~= a0.take(i));
            assert(b.take(i) =~= b0.take(i));
        }
    }
}

/// `moves` is a route from `start` to `goal`, and no route between them has an
/// earlier place.
pub open spec fn least_route(t: Terrain, start: Cell, goal: Cell, moves: Seq<Move>) -> bool {
    &&& is_route(t, start, goal, moves)
    &&& forall|other: Seq<Move>| #[trigger]
        is_route(t, start, goal, other) ==> route_key(moves) <= route_key(other)
}

/// A route of the earliest place is a best route: none is shorter, and among those
/// of its length it comes first in dictionary order.
pub proof fn lemma_least_is_best(t: Terrain, start: Cell, goal: Cell, moves: Seq<Move>)
    requires
        least_route(t, start, goal, moves),
    ensures
        is_best_route(t, start, goal, moves),
{
    assert forall|other: Seq<Move>| #[trigger] is_route(t, start, goal, other) implies moves.len()
        <= other.len() && (moves.len() == other.len() ==> precedes(moves, other)) by {
        lemma_key_orders_length(moves, other);
        if moves.len() == other.len() {
            lemma_key_orders_equal_length(moves, other);
        }
    }
}

/// Where a route leads from `start` to `goal`, one of the routes between them has
/// the earliest place.
pub proof fn lemma_least_exists(t: Terrain, start: Cell, goal: Cell, moves: Seq<Move>)
    requires
        is_route(t, start, goal, moves),
    ensures
        exists|least: Seq<Move>| least_route(t, start, goal, least),
    decreases route_key(moves),
{
    lemma_key_range(moves);
    if exists|other: Seq<Move>|
        is_route(t, start, goal, other) && route_key(other) < route_key(moves) {
        let other = choose|other: Seq<Move>|
            is_route(t, start, goal, other) && route_key(other) < route_key(moves);
        lemma_key_range(other);
        lemma_least_exists(t, start, goal, other);
    } else {
        assert(least_route(t, start, goal, moves));
    }
}

} // verus!
