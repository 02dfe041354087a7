//
// Snake endpoint handlers.
//
use vstd::prelude::*;

pub mod api;
mod frontier;
pub mod grid;
pub mod path;
mod ranking;
pub mod route;
mod search;
pub mod utils;

use crate::api::{Cell, Coords, MoveResponse, SnakeConfig, StartResponse};
use crate::grid::Grid;
use crate::path::{shortest_path_to, Move};
use crate::route::{best_route, reachable};

verus! {

/// `body` with every run of equal neighbours reduced to its first segment.
pub open spec fn collapse(body: Seq<Coords>) -> Seq<Coords>
    decreases body.len(),
{
    if body.len() <= 1 {
        body
    } else if body[body.len() - 1] == body[body.len() - 2] {
        collapse(body.drop_last())
    } else {
        collapse(body.drop_last()).push(body.last())
    }
}

/// A collapsed body begins and ends where the body does, is no longer than it, and
/// is empty only where the body is.
pub proof fn lemma_collapse_ends(body: Seq<Coords>)
    requires
        body.len() > 0,
    ensures
        0 < collapse(body).len() <= body.len(),
        collapse(body)[0] == body[0],
        collapse(body).last() == body.last(),
    decreases body.len(),
{
    if body.len() > 1 {
        lemma_collapse_ends(body.drop_last());
    }
}

/// No two neighbours in a collapsed body are equal.
pub proof fn lemma_collapse_no_repeats(body: Seq<Coords>, i: int)
    requires
        0 < i < collapse(body).len(),
    ensures
        collapse(body)[i] != collapse(body)[i - 1],
    decreases body.len(),
{
    if body.len() > 1 {
        let rest = body.drop_last();
        lemma_collapse_ends(rest);
        if body[body.len() - 1] == body[body.len() - 2] {
            lemma_collapse_no_repeats(rest, i);
        } else if i < collapse(rest).len() {
            lemma_collapse_no_repeats(rest, i);
        }
    }
}

/// The move that the snake makes on a turn. A snake whose collapsed body has three
/// segments or more follows the best route from its head to its tail where there is
/// one; every other snake makes the first safe move from its head.
pub open spec fn decision(config: SnakeConfig) -> Move {
    let body = collapse(config.you.body@);
    let terrain = config.board.survey();
    let head = body[0]@;
    let tail = body.last()@;
    if body.len() >= 3 && reachable(terrain, head, tail) {
        best_route(terrain, head, tail)[0]
    } else {
        terrain.first_safe_move(head)
    }
}

/// The turn can be decided: the board and the snake to move are valid, and a snake
/// whose collapsed body has three segments or more does not have its head on its
/// tail.
pub open spec fn playable(config: SnakeConfig) -> bool {
    &&& config.valid()
    &&& collapse(config.you.body@).len() >= 3 ==> collapse(config.you.body@)[0]@ != collapse(
        config.you.body@,
    ).last()@
}

/// Answers the start of a game with the snake's looks.
pub fn handle_start(_config: SnakeConfig) -> (response: StartResponse)
    ensures
        response.color@ == "#FF0000"@,
        response.headType@ == "beluga"@,
        response.tailType@ == "hook"@,
{
    StartResponse { color: "#FF0000", headType: "beluga", tailType: "hook" }
}

/// Answers a turn with the name of the move that `decision` gives.
pub fn handle_move(config: SnakeConfig) -> (response: MoveResponse)
    requires
        playable(config),
    ensures
        response.direction@ == decision(config).name(),
        response.shout@ == "Shooooot!"@,
{
    // Remove duplicates from body. This might happen at the beginning of the game,
    // where we're sent 3 of the same sets of coordinates.
    let body = dedup(&config.you.body);
    proof {
        lemma_collapse_ends(config.you.body@);
    }

    // Chase your tail!
    let head = body[0];
    let tail = body[body.len() - 1];

    let map = Grid::new(&config);

    let move_val = if body.len() < 3 {
        // Special case where head and tail are the same node (should only be
        // first move). Just try and find a direction that won't kill you.
        map.find_safe_move()
    } else {
        // Try to find your tail
        match shortest_path_to(&map, (head.x, head.y), (tail.x, tail.y)) {
            Some(path) => {
                // We've already checked that the head and tail are not the same node,
                // so we should have more than one node in our path
                proof {
                    lemma_first_node(
                        config.board.survey(),
                        head@,
                        tail@,
                        best_route(config.board.survey(), head@, tail@),
                    );
                }
                match path[0].next_move {
                    Some(first) => first,
                    None => Move::Left,
                }
            },
            None => {
                // No way to find your tail, so just go somewhere safe
                map.find_safe_move()
            },
        }
    };

    MoveResponse { direction: move_val.to_string(), shout: "Shooooot!" }
}

/// Takes note of the end of a game; there is nothing to do.
pub fn handle_end(_config: SnakeConfig) {
}

/// Whether the turn can be decided; `handle_move` is for the configurations that
/// pass.
pub fn is_playable(config: &SnakeConfig) -> (ok: bool)
    ensures
        ok == playable(*config),
{
    let board = &config.board;
    assert((board.width as u64) * (board.height as u64) <= u64::MAX) by (nonlinear_arith)
        requires
            board.width <= u32::MAX,
            board.height <= u32::MAX,
    ;
    let cells: u64 = (board.width as u64) * (board.height as u64);
    if cells > usize::MAX as u64 {
        return false;
    }
    if !all_on_board(&board.food, board.width, board.height) {
        return false;
    }
    let mut i: usize = 0;
    while i < board.snakes.len()
        invariant
            0 <= i <= board.snakes@.len(),
            *board == config.board,
            forall|k: int, j: int|
                0 <= k < i && 0 <= j < board.snakes@[k].body@.len() ==> board.in_bounds(
                    (#[trigger] board.snakes@[k].body@[j])@,
                ),
        decreases board.snakes@.len() - i,
    {
        if !all_on_board(&board.snakes[i].body, board.width, board.height) {
            proof {
                let body = board.snakes@[i as int].body@;
                let j = choose|j: int|
                    0 <= j < body.len() && !(0 <= (#[trigger] body[j])@.0 < board.width && 0
                        <= body[j]@.1 < board.height);
                assert(!board.in_bounds(board.snakes@[i as int].body@[j]@));
            }
            return false;
        }
        i = i + 1;
    }
    if config.you.body.len() == 0 {
        return false;
    }
    if !all_on_board(&config.you.body, board.width, board.height) {
        return false;
    }
    let body = dedup(&config.you.body);
    proof {
        lemma_collapse_ends(config.you.body@);
    }
    if body.len() >= 3 {
        let head = body[0];
        let tail = body[body.len() - 1];
        if head.x == tail.x && head.y == tail.y {
            return false;
        }
    }
    true
}

/// Every coordinate of `cells` lies on a board `width` wide and `height` high.
fn all_on_board(cells: &Vec<Coords>, width: u32, height: u32) -> (ok: bool)
    ensures
        ok == forall|i: int|
            0 <= i < cells@.len() ==> 0 <= (#[trigger] cells@[i])@.0 < width && 0 <= cells@[i]@.1
                < height,
{
    let mut i: usize = 0;
    while i < cells.len()
        invariant
            0 <= i <= cells@.len(),
            forall|k: int|
                0 <= k < i ==> 0 <= (#[trigger] cells@[k])@.0 < width && 0 <= cells@[k]@.1 < height,
        decreases cells@.len() - i,
    {
        if cells[i].x >= width || cells[i].y >= height {
            return false;
        }
        i = i + 1;
    }
    true
}

/// Removes consecutive repeated segments from a body, keeping the first of each
/// run.
fn dedup(body: &Vec<Coords>) -> (out: Vec<Coords>)
    ensures
        out@ == collapse(body@),
{
    let mut out: Vec<Coords> = Vec::new();
    let mut i: usize = 0;
    while i < body.len()
        invariant
            0 <= i <= body@.len(),
            out@ == collapse(body@.take(i as int)),
        decreases body@.len() - i,
    {
        proof {
            assert(body@.take(i + 1).drop_last() =~= body@.take(i as int));
        }
        if i == 0 || !(body[i - 1] == body[i]) {
            out.push(body[i]);
        }
        i = i + 1;
    }
    assert(body@.take(body@.len() as int) =~= body@);
    out
}

/// The path of a best route between two different cells begins with a node that
/// carries the route's first move.
proof fn lemma_first_node(t: crate::grid::Terrain, start: Cell, goal: Cell, moves: Seq<Move>)
    requires
        crate::route::is_best_route(t, start, goal, moves),
        start != goal,
    ensures
        moves.len() > 0,
        crate::route::trace(start, moves)[0].next_move == Some(moves[0]),
{
}

} // verus!
