use vstd::prelude::*;
use crate::api::{cell_of, Cell};
use crate::frontier::{
    frontier_add, frontier_items, frontier_new, frontier_remove, frontier_size, Entry,
};
use crate::grid::{BoardSpace, Grid};
use crate::ranking::{least_route, lemma_least_is_best};
use crate::route::{
    best_route, endpoint, is_best_route, lemma_best_route_is, lemma_best_route_to_self,
    lemma_empty_route, lemma_route_in_bounds, passable, reachable, trace,
};
use crate::search::{
    enqueue, inv, inv_upto, lemma_exhausted, lemma_expanded, lemma_expanding,
    lemma_front_in_bounds, lemma_probe_push, lemma_probe_skip, lemma_retraces_endpoint, lemma_skip,
    lemma_start, lemma_visit, lemma_visit_tables, lemma_visited_count, lemma_visited_retraces,
    links_agree, marks_agree, retraces, skip, start_state, visit, Search,
};
use crate::utils::TwoDimensionalMap;

verus! {

/// The four moves a snake can make.
#[derive(Debug, PartialEq, Eq, Structural, Clone, Copy)]
pub enum Move {
    Up,
    Down,
    Left,
    Right,
}

impl Move {
    /// The place of this move in the fixed order in which moves are tried:
    /// right, left, up, down.
    pub open spec fn rank(self) -> int {
        match self {
            Move::Right => 0,
            Move::Left => 1,
            Move::Up => 2,
            Move::Down => 3,
        }
    }

    /// The cell reached from `from` by this move.
    pub open spec fn step(self, from: Cell) -> Cell {
        match self {
            Move::Up => (from.0, from.1 - 1),
            Move::Down => (from.0, from.1 + 1),
            Move::Left => (from.0 - 1, from.1),
            Move::Right => (from.0 + 1, from.1),
        }
    }

    /// The name under which this move is sent to the server.
    pub open spec fn name(self) -> Seq<char> {
        match self {
            Move::Up => "up"@,
            Move::Down => "down"@,
            Move::Left => "left"@,
            Move::Right => "right"@,
        }
    }

    /// The name of this move, as the server expects it.
    pub fn to_string(&self) -> (s: &'static str)
        ensures
            s@ == self.name(),
    {
        match self {
            Move::Up => "up",
            Move::Down => "down",
            Move::Left => "left",
            Move::Right => "right",
        }
    }
}

/// One cell of a path, with the move that leads from it to the next cell.
pub struct PathNode {
    /// The cell, as (x, y).
    pub coords: (u32, u32),
    /// The move to the next cell of the path; `None` at the path's last cell.
    pub next_move: Option<Move>,
}

/// Performs a breadth-first search trying to find the shortest path from a source node (x,y) to
/// a target node (x,y).
///
/// If the target node is accessible from the start node, returns the number of moves
/// that lead to it and the table of predecessors from which the moves can be read
/// backwards. Otherwise returns None.
fn bfs_to(map: &Grid, start_coords: (u32, u32), target_coords: (u32, u32)) -> (found: Option<
    (usize, TwoDimensionalMap<(u32, u32)>, Ghost<Seq<Move>>),
>)
    requires
        map.wf(),
        map@.in_bounds(cell_of(start_coords)),
        map@.in_bounds(cell_of(target_coords)),
    ensures
        match found {
            Some((dist, prev, route)) => {
                &&& least_route(map@, cell_of(start_coords), cell_of(target_coords), route@)
                &&& route@.len() == dist
                &&& dist < usize::MAX
                &&& prev.wf()
                &&& prev.width() == map@.width
                &&& prev.height() == map@.height
                &&& retraces(&prev, cell_of(start_coords), cell_of(target_coords), route@)
            },
            None => !reachable(map@, cell_of(start_coords), cell_of(target_coords)),
        },
{
    proof {
        map.lemma_wf();
        map.lemma_extent();
    }
    let ghost t = map@;
    let ghost s = cell_of(start_coords);
    let ghost goal = cell_of(target_coords);

    let mut q = frontier_new();
    let mut traversed: TwoDimensionalMap<bool> = TwoDimensionalMap::new(
        map.width as usize,
        map.height as usize,
    );
    let mut prev: TwoDimensionalMap<(u32, u32)> = TwoDimensionalMap::new(
        map.width as usize,
        map.height as usize,
    );

    // Add start node to the queue
    let first: Entry = (start_coords.0, start_coords.1, 0, start_coords.0, start_coords.1);
    frontier_add(&mut q, first);
    let ghost mut st = start_state(first);
    proof {
        lemma_start(t, s, first);
        assert(frontier_items(q) =~= st.queue);
    }

    while frontier_size(&q) > 0
        invariant
            map.wf(),
            t == map@,
            s == cell_of(start_coords),
            goal == cell_of(target_coords),
            t.width == map.width,
            t.height == map.height,
            t.width * t.height <= usize::MAX,
            t.in_bounds(goal),
            inv(t, s, st),
            frontier_items(q) == st.queue,
            marks_agree(st, t, &traversed),
            links_agree(st, t, &prev),
            !st.visited.contains(goal),
        decreases t.width * t.height - st.visited.len(), st.queue.len(),
    {
        proof {
            lemma_front_in_bounds(t, s, st);
            lemma_visited_count(t, s, st, s, 4);
        }
        let cur_node = match frontier_remove(&mut q) {
            Some(entry) => entry,
            None => {
                // The frontier held a record a moment ago: this does not happen.
                return None;
            },
        };
        let x: u32 = cur_node.0;
        let y: u32 = cur_node.1;
        let dist: usize = cur_node.2;

        // Have we seen this node before?
        if traversed[(x as usize, y as usize)] {
            proof {
                lemma_skip(t, s, st);
                st = skip(st);
            }
        } else {
            // Now we have!
            let ghost seen_before = traversed;
            let ghost prev_before = prev;
            traversed.set((x as usize, y as usize), true);
            prev.set((x as usize, y as usize), (cur_node.3, cur_node.4));
            proof {
                lemma_visit_tables(t, s, st, &seen_before, &prev_before, &traversed, &prev);
                lemma_visit(t, s, st);
                st = visit(st);
                lemma_visited_count(t, s, st, (x as int, y as int), 0);
                lemma_expanding(t, s, st, (x as int, y as int), 0);
            }

            // Have we found our target node?
            if x == target_coords.0 && y == target_coords.1 {
                proof {
                    lemma_visited_retraces(t, s, st, goal, 0, &prev, goal);
                }
                return Some((dist, prev, Ghost(st.routes[goal])));
            }
            // Examine neighbors, and add to the queue if they are valid nodes

            // Right
            let next = enqueue_if_open(
                map,
                &traversed,
                &mut q,
                (x + 1, y),
                (x, y),
                dist + 1,
                Ghost(Move::Right),
                Ghost(st),
                Ghost(s),
            );
            proof {
                st = next@;
            }

            // Left
            if x != 0 {
                let next = enqueue_if_open(
                    map,
                    &traversed,
                    &mut q,
                    (x - 1, y),
                    (x, y),
                    dist + 1,
                    Ghost(Move::Left),
                    Ghost(st),
                    Ghost(s),
                );
                proof {
                    st = next@;
                }
            } else {
                proof {
                    lemma_probe_skip(t, s, st, (x as int, y as int), Move::Left);
                }
            }

            // Up
            if y != 0 {
                let next = enqueue_if_open(
                    map,
                    &traversed,
                    &mut q,
                    (x, y - 1),
                    (x, y),
                    dist + 1,
                    Ghost(Move::Up),
                    Ghost(st),
                    Ghost(s),
                );
                proof {
                    st = next@;
                }
            } else {
                proof {
                    lemma_probe_skip(t, s, st, (x as int, y as int), Move::Up);
                }
            }

            // Down
            let next = enqueue_if_open(
                map,
                &traversed,
                &mut q,
                (x, y + 1),
                (x, y),
                dist + 1,
                Ghost(Move::Down),
                Ghost(st),
                Ghost(s),
            );
            proof {
                st = next@;
                lemma_expanded(t, s, st, (x as int, y as int));
            }
        }
    }

    // If we reached the end of the loop, target node is inaccessible
    proof {
        lemma_exhausted(t, s, st, goal);
    }
    None
}

/// Puts a record for `node`, reached from `from` by the move `mv`, behind the others
/// where `node` can be traversed and has not been visited.
fn enqueue_if_open(
    map: &Grid,
    traversed: &TwoDimensionalMap<bool>,
    q: &mut queues::Queue<Entry>,
    node: (u32, u32),
    from: (u32, u32),
    dist: usize,
    Ghost(mv): Ghost<Move>,
    Ghost(st): Ghost<Search>,
    Ghost(s): Ghost<Cell>,
) -> (next: Ghost<Search>)
    requires
        map.wf(),
        inv_upto(map@, s, st, cell_of(from), mv.rank()),
        st.visited.contains(cell_of(from)),
        marks_agree(st, map@, traversed),
        frontier_items(*old(q)) == st.queue,
        cell_of(node) == mv.step(cell_of(from)),
        dist == st.routes[cell_of(from)].len() + 1,
    ensures
        inv_upto(map@, s, next@, cell_of(from), mv.rank() + 1),
        frontier_items(*final(q)) == next@.queue,
        next@.visited == st.visited,
        next@.parent == st.parent,
        next@.routes == st.routes,
{
    if is_valid_node(map, node) && !traversed[(node.0 as usize, node.1 as usize)] {
        let entry: Entry = (node.0, node.1, dist, from.0, from.1);
        frontier_add(q, entry);
        proof {
            lemma_probe_push(map@, s, st, cell_of(from), mv, entry);
        }
        Ghost(enqueue(st, entry, st.routes[cell_of(from)].push(mv)))
    } else {
        proof {
            lemma_probe_skip(map@, s, st, cell_of(from), mv);
        }
        Ghost(st)
    }
}

/// Returns true if the provided coordinates can be traversed on the map.
fn is_valid_node(map: &Grid, coords: (u32, u32)) -> (valid: bool)
    requires
        map.wf(),
    ensures
        valid == map@.traversable(cell_of(coords)),
{
    proof {
        map.lemma_extent();
    }
    if coords.0 >= map.width {
        return false;
    }
    if coords.1 >= map.height {
        return false;
    }
    if map.at(coords.0, coords.1) == BoardSpace::SNAKE {
        return false;
    }
    true
}

/// Gets a path from the source node to the target node: the path of the best route
/// between them, or `None` where the target cannot be reached. A path from a cell to
/// itself has that cell as its only node.
pub fn shortest_path_to(map: &Grid, start: (u32, u32), target: (u32, u32)) -> (path: Option<
    Vec<PathNode>,
>)
    requires
        map.wf(),
        map@.in_bounds(cell_of(start)),
        map@.in_bounds(cell_of(target)),
    ensures
        path.is_some() <==> reachable(map@, cell_of(start), cell_of(target)),
        path matches Some(nodes) ==> {
            &&& is_best_route(
                map@,
                cell_of(start),
                cell_of(target),
                best_route(map@, cell_of(start), cell_of(target)),
            )
            &&& nodes@ == trace(cell_of(start), best_route(map@, cell_of(start), cell_of(target)))
        },
        start == target ==> (path matches Some(nodes) && nodes@ == seq![
            (PathNode { coords: start, next_move: None }),
        ]),
{
    let ghost t = map@;
    let ghost s = cell_of(start);
    let ghost goal = cell_of(target);
    proof {
        map.lemma_wf();
    }

    // Run BFS - is there a path to the target?
    let found = match bfs_to(map, start, target) {
        Some(found) => found,
        None => {
            proof {
                lemma_empty_route(t, s);
            }
            return None;
        },
    };
    let dist: usize = found.0;
    let prev = found.1;
    let ghost route = found.2@;
    proof {
        lemma_least_is_best(t, s, goal, route);
        lemma_best_route_is(t, s, goal, route);
        if start == target {
            lemma_best_route_to_self(t, start);
        }
        assert(route.take(dist as int) =~= route);
    }

    // Follow path backwards until we reach the source node.
    // Total required space for the path should be equal to the distance of the path.
    let mut path: Vec<PathNode> = Vec::with_capacity(dist + 1);
    let mut cur: (u32, u32) = target;
    let mut idx: usize = 0;
    loop
        invariant_except_break
            idx <= dist,
            path@.len() == idx,
            cell_of(cur) == endpoint(s, route.take(dist - idx)),
            retraces(&prev, s, cell_of(cur), route.take(dist - idx)),
            forall|j: int| 0 <= j < idx ==> path@[j] == trace(s, route)[dist - j],
        invariant
            dist == route.len(),
            dist < usize::MAX,
            passable(t, s, route),
            t.in_bounds(s),
            t.width <= u32::MAX,
            t.height <= u32::MAX,
            prev.wf(),
            prev.width() == t.width,
            prev.height() == t.height,
        ensures
            path@.len() == dist + 1,
            forall|j: int| 0 <= j <= dist ==> path@[j] == trace(s, route)[dist - j],
        decreases dist - idx,
    {
        let ghost k = dist - idx;
        proof {
            lemma_route_in_bounds(t, s, route, k);
        }

        // Determine next move
        let mut next_move: Option<Move> = None;
        if idx > 0 {
            // Determine the required move from the current node to the next one in the path
            let next_node = &path[idx - 1];
            proof {
                lemma_route_in_bounds(t, s, route, k + 1);
                assert(route.take(k + 1).drop_last() =~= route.take(k));
                assert(path@[idx - 1] == trace(s, route)[k + 1]);
            }

            if cur.0 > next_node.coords.0 {
                next_move = Some(Move::Left);
            } else if cur.0 < next_node.coords.0 {
                next_move = Some(Move::Right);
            } else if cur.1 > next_node.coords.1 {
                next_move = Some(Move::Up);
            } else if cur.1 < next_node.coords.1 {
                next_move = Some(Move::Down);
            }
        }
        path.push(PathNode { coords: cur, next_move: next_move });
        assert(path@[idx as int] == trace(s, route)[k]);

        if idx == dist {
            break ;
        }
        proof {
            assert(route.take(k).drop_last() =~= route.take(k - 1));
            lemma_retraces_endpoint(
                &prev,
                s,
                cell_of(prev.at(cur.0 as int, cur.1 as int)),
                route.take(k - 1),
            );
        }
        cur = prev[(cur.0 as usize, cur.1 as usize)];
        idx = idx + 1;
    }

    let path = reversed(path);
    assert(path@ =~= trace(s, route));
    Some(path)
}

/// The nodes of `nodes` in the opposite order.
fn reversed(nodes: Vec<PathNode>) -> (turned: Vec<PathNode>)
    ensures
        turned@ == nodes@.reverse(),
{
    let ghost all = nodes@;
    let mut rest = nodes;
    let mut turned: Vec<PathNode> = Vec::with_capacity(rest.len());
    while rest.len() > 0
        invariant
            rest@.len() + turned@.len() == all.len(),
            forall|j: int| 0 <= j < rest@.len() ==> rest@[j] == all[j],
            forall|j: int| 0 <= j < turned@.len() ==> turned@[j] == all[all.len() - 1 - j],
        decreases rest@.len(),
    {
        match rest.pop() {
            Some(node) => {
                turned.push(node);
            },
            None => {},
        }
    }
    assert(turned@ =~= all.reverse());
    turned
}

} // verus!
