use vstd::prelude::*;
use vstd::relations::injective_on;
use vstd::set_lib::{lemma_int_range, lemma_len_subset, lemma_map_size, set_int_range};
use crate::api::{cell_of, Cell};
use crate::frontier::Entry;
use crate::grid::Terrain;
use crate::path::Move;
use crate::ranking::{least_route, lemma_key_push, lemma_key_range, route_key};
use crate::route::{endpoint, is_route, lemma_route_push, passable};
use crate::utils::{
    flat_index, lemma_flat_index_in_range, lemma_flat_index_injective, TwoDimensionalMap,
};

verus! {

/// What a breadth-first search knows at one moment.
pub struct Search {
    /// The cells that have been taken from the frontier once.
    pub visited: Set<Cell>,
    /// For each visited cell, the cell from which it was reached.
    pub parent: Map<Cell, Cell>,
    /// For each visited cell, the moves that lead to it from the start.
    pub routes: Map<Cell, Seq<Move>>,
    /// The records in the frontier, oldest first.
    pub queue: Seq<Entry>,
    /// For each record in the frontier, the moves that lead to its cell.
    pub cands: Seq<Seq<Move>>,
    /// The place of the moves of the record taken last; -1 before the first.
    pub last_key: int,
}

/// The cell that a record stands for.
pub open spec fn entry_cell(e: Entry) -> Cell {
    (e.0 as int, e.1 as int)
}

/// The cell from which a record's cell was reached.
pub open spec fn entry_from(e: Entry) -> Cell {
    (e.3 as int, e.4 as int)
}

/// What holds of a visited cell.
pub open spec fn seen_ok(t: Terrain, start: Cell, st: Search, c: Cell) -> bool {
    &&& t.in_bounds(c)
    &&& least_route(t, start, c, st.routes[c])
    &&& route_key(st.routes[c]) <= st.last_key
    &&& st.routes[c].len() < st.visited.len()
    &&& st.routes[c].len() > 0 ==> {
        &&& st.visited.contains(st.parent[c])
        &&& st.routes[st.parent[c]] == st.routes[c].drop_last()
    }
}

/// What holds of the record at place `k` of the frontier.
pub open spec fn entry_ok(t: Terrain, start: Cell, st: Search, k: int) -> bool {
    &&& is_route(t, start, entry_cell(st.queue[k]), st.cands[k])
    &&& st.cands[k].len() == st.queue[k].2
    &&& st.last_key < route_key(st.cands[k])
    &&& st.cands[k].len() > 0 ==> {
        &&& st.visited.contains(entry_from(st.queue[k]))
        &&& st.routes[entry_from(st.queue[k])] == st.cands[k].drop_last()
    }
}

/// The step from the visited cell `c` by `mv` has been looked after: its end is
/// visited, or a record for it waits in the frontier.
pub open spec fn covered(st: Search, c: Cell, mv: Move) -> bool {
    st.visited.contains(mv.step(c)) || exists|k: int|
        0 <= k < st.cands.len() && #[trigger] st.cands[k] == st.routes[c].push(mv)
}

/// The state of a search from `start` while the cell `v` is being expanded and the
/// moves of rank below `r` have been tried from it. With `r` at 4 nothing is left
/// to try, and this is the state between two records.
pub open spec fn inv_upto(t: Terrain, start: Cell, st: Search, v: Cell, r: int) -> bool {
    &&& t.in_bounds(start)
    &&& st.visited.finite()
    &&& st.cands.len() == st.queue.len()
    &&& st.last_key >= -1
    &&& st.last_key < 0 ==> st.visited == Set::<Cell>::empty() && st.cands == seq![
        Seq::<Move>::empty(),
    ]
    &&& st.last_key >= 0 ==> st.visited.contains(start) && st.routes[start] == Seq::<Move>::empty()
    &&& forall|c: Cell| st.visited.contains(c) ==> #[trigger] seen_ok(t, start, st, c)
    &&& forall|k: int| 0 <= k < st.queue.len() ==> #[trigger] entry_ok(t, start, st, k)
    &&& forall|i: int, j: int|
        0 <= i < j < st.cands.len() ==> route_key(#[trigger] st.cands[i]) < route_key(
            #[trigger] st.cands[j],
        )
    &&& forall|c: Cell, mv: Move|
        st.visited.contains(c) && t.traversable(mv.step(c)) && !(c == v && mv.rank() >= r)
            ==> #[trigger] covered(st, c, mv)
    &&& r < 4 ==> {
        &&& st.visited.contains(v)
        &&& route_key(st.routes[v]) == st.last_key
        &&& forall|k: int|
            0 <= k < st.cands.len() ==> route_key(#[trigger] st.cands[k]) <= 4 * st.last_key + r
    }
}

/// The state of a search from `start` between two records.
pub open spec fn inv(t: Terrain, start: Cell, st: Search) -> bool {
    inv_upto(t, start, st, start, 4)
}

/// The search before its first record is taken: only the start waits.
pub open spec fn start_state(first: Entry) -> Search {
    Search {
        visited: Set::empty(),
        parent: Map::empty(),
        routes: Map::empty(),
        queue: seq![first],
        cands: seq![Seq::<Move>::empty()],
        last_key: -1,
    }
}

/// The search after the oldest record was taken and found to stand for a visited cell.
pub open spec fn skip(st: Search) -> Search {
    Search {
        queue: st.queue.drop_first(),
        cands: st.cands.drop_first(),
        last_key: route_key(st.cands[0]),
        ..st
    }
}

/// The search after the oldest record was taken and its cell, not visited before, was
/// marked.
pub open spec fn visit(st: Search) -> Search {
    Search {
        visited: st.visited.insert(entry_cell(st.queue[0])),
        parent: st.parent.insert(entry_cell(st.queue[0]), entry_from(st.queue[0])),
        routes: st.routes.insert(entry_cell(st.queue[0]), st.cands[0]),
        queue: st.queue.drop_first(),
        cands: st.cands.drop_first(),
        last_key: route_key(st.cands[0]),
    }
}

/// The search after a record was put behind the others.
pub open spec fn enqueue(st: Search, e: Entry, moves: Seq<Move>) -> Search {
    Search { queue: st.queue.push(e), cands: st.cands.push(moves), ..st }
}

/// The table of marks holds a mark for exactly the visited cells.
pub open spec fn marks_agree(st: Search, t: Terrain, seen: &TwoDimensionalMap<bool>) -> bool {
    &&& seen.wf()
    &&& seen.width() == t.width
    &&& seen.height() == t.height
    &&& forall|x: int, y: int|
        t.in_bounds((x, y)) ==> #[trigger] seen.at(x, y) == st.visited.contains((x, y))
}

/// The table of predecessors holds, for each visited cell, the cell it was reached
/// from.
pub open spec fn links_agree(st: Search, t: Terrain, prev: &TwoDimensionalMap<(u32, u32)>) -> bool {
    &&& prev.wf()
    &&& prev.width() == t.width
    &&& prev.height() == t.height
    &&& forall|x: int, y: int|
        st.visited.contains((x, y)) ==> st.parent[(x, y)] == cell_of(#[trigger] prev.at(x, y))
}

/// Following the table of predecessors back from `goal` undoes `moves`, last move
/// first, and ends on `start`.
pub open spec fn retraces(
    prev: &TwoDimensionalMap<(u32, u32)>,
    start: Cell,
    goal: Cell,
    moves: Seq<Move>,
) -> bool
    decreases moves.len(),
{
    if moves.len() == 0 {
        goal == start
    } else {
        let from = cell_of(prev.at(goal.0, goal.1));
        moves.last().step(from) == goal && retraces(prev, start, from, moves.drop_last())
    }
}

/// Before the first record is taken the search is in order.
pub proof fn lemma_start(t: Terrain, start: Cell, first: Entry)
    requires
        t.in_bounds(start),
        entry_cell(first) == start,
        first.2 == 0,
    ensures
        inv(t, start, start_state(first)),
{
    let st = start_state(first);
    assert(entry_ok(t, start, st, 0));
}

/// Every route whose place lies before all places in the frontier ends on a
/// visited cell, and the route recorded there has no later place.
pub proof fn lemma_route_seen(t: Terrain, start: Cell, st: Search, moves: Seq<Move>, bound: int)
    requires
        inv(t, start, st),
        st.last_key >= 0,
        passable(t, start, moves),
        route_key(moves) < bound,
        forall|k: int| 0 <= k < st.cands.len() ==> bound <= route_key(#[trigger] st.cands[k]),
    ensures
        st.visited.contains(endpoint(start, moves)),
        route_key(st.routes[endpoint(start, moves)]) <= route_key(moves),
    decreases moves.len(),
{
    if moves.len() > 0 {
        let m0 = moves.drop_last();
        let a = moves.last();
        lemma_key_range(m0);
        lemma_route_seen(t, start, st, m0, bound);
        let c0 = endpoint(start, m0);
        let c = endpoint(start, moves);
        assert(seen_ok(t, start, st, c0));
        assert(covered(st, c0, a));
        if st.visited.contains(c) {
            assert(seen_ok(t, start, st, c));
            assert(is_route(t, start, c, moves));
        } else {
            let k = choose|k: int|
                0 <= k < st.cands.len() && #[trigger] st.cands[k] == st.routes[c0].push(a);
            lemma_key_push(st.routes[c0], a);
            assert(false);
        }
    }
}

/// The oldest record of the frontier, where its cell is not visited, carries the
/// route of the earliest place to that cell.
pub proof fn lemma_front_least(t: Terrain, start: Cell, st: Search)
    requires
        inv(t, start, st),
        st.queue.len() > 0,
        !st.visited.contains(entry_cell(st.queue[0])),
    ensures
        least_route(t, start, entry_cell(st.queue[0]), st.cands[0]),
{
    let v = entry_cell(st.queue[0]);
    let front = st.cands[0];
    assert(entry_ok(t, start, st, 0));
    assert forall|other: Seq<Move>| #[trigger] is_route(t, start, v, other) implies route_key(front)
        <= route_key(other) by {
        lemma_key_range(other);
        if st.last_key < 0 {
            assert(front =~= Seq::<Move>::empty());
        } else if route_key(other) < route_key(front) {
            assert forall|k: int| 0 <= k < st.cands.len() implies route_key(front) <= route_key(
                #[trigger] st.cands[k],
            ) by {
                if k > 0 {
                    assert(route_key(st.cands[0]) < route_key(st.cands[k]));
                }
            }
            lemma_route_seen(t, start, st, other, route_key(front));
        }
    }
}

/// Taking the oldest record, where its cell is visited already, leaves the search in
/// order.
pub proof fn lemma_skip(t: Terrain, start: Cell, st: Search)
    requires
        inv(t, start, st),
        st.queue.len() > 0,
        st.visited.contains(entry_cell(st.queue[0])),
    ensures
        inv(t, start, skip(st)),
{
    let nx = skip(st);
    assert(entry_ok(t, start, st, 0));
    lemma_key_range(st.cands[0]);
    assert forall|c: Cell| nx.visited.contains(c) implies #[trigger] seen_ok(t, start, nx, c) by {
        assert(seen_ok(t, start, st, c));
    }
    assert forall|k: int| 0 <= k < nx.queue.len() implies #[trigger] entry_ok(t, start, nx, k) by {
        assert(entry_ok(t, start, st, k + 1));
        assert(route_key(st.cands[0]) < route_key(st.cands[k + 1]));
    }
    assert forall|i: int, j: int| 0 <= i < j < nx.cands.len() implies route_key(
        #[trigger] nx.cands[i],
    ) < route_key(#[trigger] nx.cands[j]) by {
        assert(route_key(st.cands[i + 1]) < route_key(st.cands[j + 1]));
    }
    assert forall|c: Cell, mv: Move|
        nx.visited.contains(c) && t.traversable(mv.step(c)) && !(c == start && mv.rank()
            >= 4) implies #[trigger] covered(nx, c, mv) by {
        assert(covered(st, c, mv));
        if !st.visited.contains(mv.step(c)) {
            let k = choose|k: int|
                0 <= k < st.cands.len() && #[trigger] st.cands[k] == st.routes[c].push(mv);
            assert(seen_ok(t, start, st, c));
            if k == 0 {
                assert(st.routes[c].push(mv).drop_last() =~= st.routes[c]);
                assert(false);
            } else {
                assert(nx.cands[k - 1] == nx.routes[c].push(mv));
            }
        }
    }
}

/// Taking the oldest record, where its cell is not visited yet, and marking that
/// cell leaves the search in order, with that cell to expand.
pub proof fn lemma_visit(t: Terrain, start: Cell, st: Search)
    requires
        inv(t, start, st),
        st.queue.len() > 0,
        !st.visited.contains(entry_cell(st.queue[0])),
    ensures
        inv_upto(t, start, visit(st), entry_cell(st.queue[0]), 0),
        least_route(t, start, entry_cell(st.queue[0]), st.cands[0]),
{
    let nx = visit(st);
    let v = entry_cell(st.queue[0]);
    let p = entry_from(st.queue[0]);
    let front = st.cands[0];
    lemma_front_least(t, start, st);
    assert(entry_ok(t, start, st, 0));
    lemma_key_range(front);
    if st.last_key < 0 {
        assert(front =~= Seq::<Move>::empty());
    }
    assert forall|c: Cell| nx.visited.contains(c) implies #[trigger] seen_ok(t, start, nx, c) by {
        if c == v {
            if front.len() > 0 {
                assert(seen_ok(t, start, st, p));
            }
        } else {
            assert(seen_ok(t, start, st, c));
        }
    }
    assert forall|k: int| 0 <= k < nx.queue.len() implies #[trigger] entry_ok(t, start, nx, k) by {
        assert(entry_ok(t, start, st, k + 1));
        assert(route_key(st.cands[0]) < route_key(st.cands[k + 1]));
    }
    assert forall|i: int, j: int| 0 <= i < j < nx.cands.len() implies route_key(
        #[trigger] nx.cands[i],
    ) < route_key(#[trigger] nx.cands[j]) by {
        assert(route_key(st.cands[i + 1]) < route_key(st.cands[j + 1]));
    }
    assert forall|c: Cell, mv: Move|
        nx.visited.contains(c) && t.traversable(mv.step(c)) && !(c == v && mv.rank()
            >= 0) implies #[trigger] covered(nx, c, mv) by {
        assert(covered(st, c, mv));
        if !st.visited.contains(mv.step(c)) {
            let k = choose|k: int|
                0 <= k < st.cands.len() && #[trigger] st.cands[k] == st.routes[c].push(mv);
            assert(seen_ok(t, start, st, c));
            if k == 0 {
                assert(st.routes[c].push(mv).drop_last() =~= st.routes[c]);
            } else {
                assert(nx.cands[k - 1] == nx.routes[c].push(mv));
            }
        }
    }
    assert forall|k: int| 0 <= k < nx.cands.len() implies route_key(#[trigger] nx.cands[k]) <= 4
        * nx.last_key + 0 by {
        assert(entry_ok(t, start, st, k + 1));
        let cand = st.cands[k + 1];
        if cand.len() > 0 {
            assert(seen_ok(t, start, st, entry_from(st.queue[k + 1])));
        }
    }
}

/// While a cell is expanded, a move that leads off the terrain, onto a snake or onto
/// a visited cell needs no record.
pub proof fn lemma_probe_skip(t: Terrain, start: Cell, st: Search, v: Cell, mv: Move)
    requires
        inv_upto(t, start, st, v, mv.rank()),
        !t.traversable(mv.step(v)) || st.visited.contains(mv.step(v)),
    ensures
        inv_upto(t, start, st, v, mv.rank() + 1),
{
    assert forall|c: Cell, m: Move|
        st.visited.contains(c) && t.traversable(m.step(c)) && !(c == v && m.rank() >= mv.rank()
            + 1) implies #[trigger] covered(st, c, m) by {
        if c == v && m.rank() == mv.rank() {
            assert(m == mv);
        }
    }
}

/// While a cell is expanded, a record for a traversable neighbour that is not
/// visited goes behind the others.
pub proof fn lemma_probe_push(t: Terrain, start: Cell, st: Search, v: Cell, mv: Move, e: Entry)
    requires
        inv_upto(t, start, st, v, mv.rank()),
        t.traversable(mv.step(v)),
        entry_cell(e) == mv.step(v),
        entry_from(e) == v,
        e.2 == st.routes[v].len() + 1,
    ensures
        inv_upto(t, start, enqueue(st, e, st.routes[v].push(mv)), v, mv.rank() + 1),
{
    let moves = st.routes[v].push(mv);
    let nx = enqueue(st, e, moves);
    let n = st.queue.len() as int;
    assert(seen_ok(t, start, st, v));
    lemma_route_push(t, start, v, st.routes[v], mv);
    lemma_key_push(st.routes[v], mv);
    lemma_key_range(st.routes[v]);
    assert(moves.drop_last() =~= st.routes[v]);
    assert forall|c: Cell| nx.visited.contains(c) implies #[trigger] seen_ok(t, start, nx, c) by {
        assert(seen_ok(t, start, st, c));
    }
    assert forall|k: int| 0 <= k < nx.queue.len() implies #[trigger] entry_ok(t, start, nx, k) by {
        if k < n {
            assert(entry_ok(t, start, st, k));
        }
    }
    assert forall|i: int, j: int| 0 <= i < j < nx.cands.len() implies route_key(
        #[trigger] nx.cands[i],
    ) < route_key(#[trigger] nx.cands[j]) by {
        if j < n {
            assert(route_key(st.cands[i]) < route_key(st.cands[j]));
        } else {
            assert(route_key(st.cands[i]) <= 4 * st.last_key + mv.rank());
        }
    }
    assert forall|c: Cell, m: Move|
        nx.visited.contains(c) && t.traversable(m.step(c)) && !(c == v && m.rank() >= mv.rank()
            + 1) implies #[trigger] covered(nx, c, m) by {
        if c == v && m.rank() == mv.rank() {
            assert(m == mv);
            assert(nx.cands[n] == nx.routes[c].push(m));
        } else {
            assert(covered(st, c, m));
            if !st.visited.contains(m.step(c)) {
                let k = choose|k: int|
                    0 <= k < st.cands.len() && #[trigger] st.cands[k] == st.routes[c].push(m);
                assert(nx.cands[k] == nx.routes[c].push(m));
            }
        }
    }
    if mv.rank() + 1 < 4 {
        assert forall|k: int| 0 <= k < nx.cands.len() implies route_key(#[trigger] nx.cands[k])
            <= 4 * nx.last_key + (mv.rank() + 1) by {
            if k < n {
                assert(route_key(st.cands[k]) <= 4 * st.last_key + mv.rank());
            }
        }
    }
}

/// When all four moves have been tried from a cell, the search is in order again.
pub proof fn lemma_expanded(t: Terrain, start: Cell, st: Search, v: Cell)
    requires
        inv_upto(t, start, st, v, 4),
    ensures
        inv(t, start, st),
{
    assert forall|c: Cell, mv: Move|
        st.visited.contains(c) && t.traversable(mv.step(c)) && !(c == start && mv.rank()
            >= 4) implies #[trigger] covered(st, c, mv) by {
        assert(mv.rank() < 4);
    }
}

/// When the frontier is empty, every cell that a route leads to is visited.
pub proof fn lemma_exhausted(t: Terrain, start: Cell, st: Search, goal: Cell)
    requires
        inv(t, start, st),
        st.queue.len() == 0,
        !st.visited.contains(goal),
    ensures
        forall|moves: Seq<Move>| !is_route(t, start, goal, moves),
{
    assert forall|moves: Seq<Move>| !is_route(t, start, goal, moves) by {
        if is_route(t, start, goal, moves) {
            lemma_route_seen(t, start, st, moves, route_key(moves) + 1);
        }
    }
}

/// A finite set of cells of a terrain has no more members than the terrain has cells.
pub proof fn lemma_count(t: Terrain, cells: Set<Cell>)
    requires
        cells.finite(),
        0 <= t.width,
        0 <= t.height,
        forall|c: Cell| cells.contains(c) ==> t.in_bounds(c),
    ensures
        cells.len() <= t.width * t.height,
{
    let f = |c: Cell| flat_index(c.0, c.1, t.width);
    let image = cells.map(f);
    let all = set_int_range(0, t.width * t.height);
    assert(0 <= t.width * t.height) by (nonlinear_arith)
        requires
            0 <= t.width,
            0 <= t.height,
    ;
    assert(injective_on(f, cells)) by {
        assert forall|a: Cell, b: Cell|
            cells.contains(a) && cells.contains(b) && #[trigger] f(a) == #[trigger] f(b) implies a
            == b by {
            lemma_flat_index_injective(a.0, a.1, b.0, b.1, t.width);
        }
    }
    lemma_map_size(cells, image, f);
    assert forall|i: int| image.contains(i) implies all.contains(i) by {
        let c = choose|c: Cell| cells.contains(c) && i == f(c);
        lemma_flat_index_in_range(c.0, c.1, t.width, t.height);
    }
    lemma_int_range(0, t.width * t.height);
    lemma_len_subset(image, all);
}

/// What the table of predecessors undoes is a way from `start` to `goal`.
pub proof fn lemma_retraces_endpoint(
    prev: &TwoDimensionalMap<(u32, u32)>,
    start: Cell,
    goal: Cell,
    moves: Seq<Move>,
)
    requires
        retraces(prev, start, goal, moves),
    ensures
        endpoint(start, moves) == goal,
    decreases moves.len(),
{
    if moves.len() > 0 {
        lemma_retraces_endpoint(
            prev,
            start,
            cell_of(prev.at(goal.0, goal.1)),
            moves.drop_last(),
        );
    }
}

/// The table of predecessors leads from every visited cell back along the route
/// recorded for it.
pub proof fn lemma_visited_retraces(
    t: Terrain,
    start: Cell,
    st: Search,
    v: Cell,
    r: int,
    prev: &TwoDimensionalMap<(u32, u32)>,
    c: Cell,
)
    requires
        inv_upto(t, start, st, v, r),
        links_agree(st, t, prev),
        st.visited.contains(c),
    ensures
        retraces(prev, start, c, st.routes[c]),
    decreases st.routes[c].len(),
{
    assert(seen_ok(t, start, st, c));
    if st.routes[c].len() > 0 {
        let from = st.parent[c];
        assert(from == cell_of(prev.at(c.0, c.1)));
        assert(seen_ok(t, start, st, from));
        lemma_visited_retraces(t, start, st, v, r, prev, from);
    }
}

/// The cell of the oldest record lies inside the terrain.
pub proof fn lemma_front_in_bounds(t: Terrain, start: Cell, st: Search)
    requires
        inv(t, start, st),
        st.queue.len() > 0,
    ensures
        t.in_bounds(entry_cell(st.queue[0])),
        st.cands[0].len() == st.queue[0].2,
{
    assert(entry_ok(t, start, st, 0));
}

/// While a cell is expanded, the route recorded for it is shorter than the number
/// of visited cells.
pub proof fn lemma_expanding(t: Terrain, start: Cell, st: Search, v: Cell, r: int)
    requires
        inv_upto(t, start, st, v, r),
        st.visited.contains(v),
    ensures
        t.in_bounds(v),
        st.routes[v].len() < st.visited.len(),
        is_route(t, start, v, st.routes[v]),
{
    assert(seen_ok(t, start, st, v));
}

/// A search has visited no more cells than the terrain has.
pub proof fn lemma_visited_count(t: Terrain, start: Cell, st: Search, v: Cell, r: int)
    requires
        inv_upto(t, start, st, v, r),
    ensures
        st.visited.len() <= t.width * t.height,
{
    assert forall|c: Cell| st.visited.contains(c) implies t.in_bounds(c) by {
        assert(seen_ok(t, start, st, c));
    }
    lemma_count(t, st.visited);
}

/// Marking the cell of the oldest record in both tables keeps them in step with the
/// search that visits it.
pub proof fn lemma_visit_tables(
    t: Terrain,
    start: Cell,
    st: Search,
    seen: &TwoDimensionalMap<bool>,
    prev: &TwoDimensionalMap<(u32, u32)>,
    seen_after: &TwoDimensionalMap<bool>,
    prev_after: &TwoDimensionalMap<(u32, u32)>,
)
    requires
        inv(t, start, st),
        st.queue.len() > 0,
        marks_agree(st, t, seen),
        links_agree(st, t, prev),
        seen.same_except(seen_after, st.queue[0].0 as int, st.queue[0].1 as int),
        prev.same_except(prev_after, st.queue[0].0 as int, st.queue[0].1 as int),
        seen_after.at(st.queue[0].0 as int, st.queue[0].1 as int),
        prev_after.at(st.queue[0].0 as int, st.queue[0].1 as int) == (st.queue[0].3, st.queue[0].4),
    ensures
        marks_agree(visit(st), t, seen_after),
        links_agree(visit(st), t, prev_after),
{
    let nx = visit(st);
    let v = entry_cell(st.queue[0]);
    assert forall|x: int, y: int| nx.visited.contains((x, y)) implies nx.parent[(x, y)] == cell_of(
        #[trigger] prev_after.at(x, y),
    ) by {
        if (x, y) != v {
            assert(seen_ok(t, start, st, (x, y)));
            assert(st.parent[(x, y)] == cell_of(prev.at(x, y)));
        }
    }
    assert forall|x: int, y: int| t.in_bounds((x, y)) implies #[trigger] seen_after.at(x, y)
        == nx.visited.contains((x, y)) by {
        if (x, y) != v {
            assert(seen.at(x, y) == st.visited.contains((x, y)));
        }
    }
}

} // verus!
