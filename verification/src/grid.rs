use vstd::prelude::*;
use crate::api::{cell_of, covered_by, lies_on, Board, Cell, Coords, SnakeConfig};
use crate::path::Move;
use crate::utils::TwoDimensionalMap;

verus! {

/// What a cell of the board holds.
#[derive(PartialEq, Eq, Structural, Clone, Copy, Debug)]
pub enum BoardSpace {
    EMPTY,
    SNAKE,
    FOOD,
}

impl Default for BoardSpace {
    /// A cell holds nothing until something is written to it.
    fn default() -> (s: BoardSpace)
        ensures
            s == BoardSpace::EMPTY,
    {
        BoardSpace::EMPTY
    }
}

/// The mathematical content of a grid: its extent and the state of each of its cells.
pub struct Terrain {
    pub width: int,
    pub height: int,
    pub cells: Map<Cell, BoardSpace>,
}

impl Terrain {
    /// `cell` lies inside the grid.
    pub open spec fn in_bounds(self, cell: Cell) -> bool {
        0 <= cell.0 < self.width && 0 <= cell.1 < self.height
    }

    /// A snake may move onto `cell`: it lies inside the grid and no body segment is on it.
    pub open spec fn traversable(self, cell: Cell) -> bool {
        self.in_bounds(cell) && self.cells[cell] != BoardSpace::SNAKE
    }

    /// The first of right, left, up, down that leads from `from` onto a traversable
    /// cell; left where none does.
    pub open spec fn first_safe_move(self, from: Cell) -> Move {
        if self.traversable(Move::Right.step(from)) {
            Move::Right
        } else if self.traversable(Move::Left.step(from)) {
            Move::Left
        } else if self.traversable(Move::Up.step(from)) {
            Move::Up
        } else if self.traversable(Move::Down.step(from)) {
            Move::Down
        } else {
            Move::Left
        }
    }
}

impl Board {
    /// What the board shows on `cell`: a body segment hides food, food hides nothing.
    pub open spec fn state_of(&self, cell: Cell) -> BoardSpace {
        if self.has_body(cell) {
            BoardSpace::SNAKE
        } else if self.has_food(cell) {
            BoardSpace::FOOD
        } else {
            BoardSpace::EMPTY
        }
    }

    /// The terrain that this board describes.
    pub open spec fn survey(&self) -> Terrain {
        Terrain {
            width: self.width as int,
            height: self.height as int,
            cells: Map::new(|c: Cell| self.in_bounds(c), |c: Cell| self.state_of(c)),
        }
    }
}

/// Writes `state` to every cell that `cells` lists and leaves the others as they were.
fn paint(vals: &mut TwoDimensionalMap<BoardSpace>, cells: &Vec<Coords>, state: BoardSpace)
    requires
        old(vals).wf(),
        forall|i: int| 0 <= i < cells@.len() ==> old(vals).in_bounds((#[trigger] cells@[i])@.0, cells@[i]@.1),
    ensures
        final(vals).wf(),
        final(vals).width() == old(vals).width(),
        final(vals).height() == old(vals).height(),
        forall|x: int, y: int|
            old(vals).in_bounds(x, y) ==> #[trigger] final(vals).at(x, y) == if lies_on(cells@, (x, y)) {
                state
            } else {
                old(vals).at(x, y)
            },
{
    let mut i: usize = 0;
    while i < cells.len()
        invariant
            0 <= i <= cells@.len(),
            vals.wf(),
            vals.width() == old(vals).width(),
            vals.height() == old(vals).height(),
            forall|k: int| 0 <= k < cells@.len() ==> old(vals).in_bounds((#[trigger] cells@[k])@.0, cells@[k]@.1),
            forall|x: int, y: int|
                old(vals).in_bounds(x, y) ==> #[trigger] vals.at(x, y) == if lies_on(
                    cells@.take(i as int),
                    (x, y),
                ) {
                    state
                } else {
                    old(vals).at(x, y)
                },
        decreases cells@.len() - i,
    {
        let c = cells[i];
        let ghost before = *vals;
        vals.set((c.x as usize, c.y as usize), state);
        proof {
            let done = cells@.take(i as int);
            let more = cells@.take(i + 1);
            assert forall|x: int, y: int| old(vals).in_bounds(x, y) implies #[trigger] vals.at(x, y)
                == if lies_on(more, (x, y)) {
                state
            } else {
                old(vals).at(x, y)
            } by {
                if lies_on(done, (x, y)) {
                    let k = choose|k: int| 0 <= k < done.len() && (#[trigger] done[k])@ == (x, y);
                    assert(more[k]@ == (x, y));
                }
                if x == c.x && y == c.y {
                    assert(more[i as int]@ == (x, y));
                } else {
                    assert(vals.at(x, y) == before.at(x, y));
                    if lies_on(more, (x, y)) {
                        let k = choose|k: int| 0 <= k < more.len() && (#[trigger] more[k])@ == (x, y);
                        assert(done[k]@ == (x, y));
                    }
                }
            }
        }
        i = i + 1;
    }
    assert(cells@.take(cells@.len() as int) =~= cells@);
}

/// The occupancy of one turn's board, cell by cell, with the place of the head of
/// the snake that is to move.
pub struct Grid {
    pub width: u32,
    pub height: u32,
    pub vals: TwoDimensionalMap<BoardSpace>,
    /// Location of your snake's head.
    pub you_head: (u32, u32),
}

impl View for Grid {
    type V = Terrain;

    closed spec fn view(&self) -> Terrain {
        Terrain {
            width: self.width as int,
            height: self.height as int,
            cells: Map::new(
                |c: Cell| 0 <= c.0 < self.width && 0 <= c.1 < self.height,
                |c: Cell| self.vals.at(c.0, c.1),
            ),
        }
    }
}

impl Grid {
    /// The cell table has the grid's extent, and the head lies on the grid.
    pub closed spec fn wf(&self) -> bool {
        &&& self.vals.wf()
        &&& self.vals.width() == self.width
        &&& self.vals.height() == self.height
        &&& self.you_head.0 < self.width
        &&& self.you_head.1 < self.height
    }

    /// The cell of the head of the snake that is to move.
    pub closed spec fn head(&self) -> Cell {
        (self.you_head.0 as int, self.you_head.1 as int)
    }

    /// A well-formed grid holds a state for exactly the cells inside it, has its head
    /// inside it, and has no more cells than a `usize` can count.
    pub proof fn lemma_wf(&self)
        requires
            self.wf(),
        ensures
            0 <= self@.width <= u32::MAX,
            0 <= self@.height <= u32::MAX,
            self@.in_bounds(self.head()),
            self@.width * self@.height <= usize::MAX,
            forall|c: Cell| self@.cells.dom().contains(c) <==> self@.in_bounds(c),
    {
        self.vals.lemma_capacity();
    }

    /// The fields give the extent of the grid and the place of the head.
    pub proof fn lemma_extent(&self)
        ensures
            self@.width == self.width,
            self@.height == self.height,
            self.head() == cell_of(self.you_head),
    {
    }

    /// Builds the grid of a turn: food is written first, then every snake's body,
    /// so that a body segment hides food reported on the same cell.
    pub fn new(config: &SnakeConfig) -> (g: Grid)
        requires
            config.valid(),
        ensures
            g.wf(),
            g@ == config.board.survey(),
            g.head() == config.you.body@[0]@,
            g.width == config.board.width,
            g.height == config.board.height,
    {
        let board = &config.board;

        let mut vals: TwoDimensionalMap<BoardSpace> = TwoDimensionalMap::new(
            board.width as usize,
            board.height as usize,
        );

        // Add food first, then snakes
        paint(&mut vals, &board.food, BoardSpace::FOOD);

        let mut i: usize = 0;
        while i < board.snakes.len()
            invariant
                0 <= i <= board.snakes@.len(),
                board.valid(),
                vals.wf(),
                vals.width() == board.width,
                vals.height() == board.height,
                forall|x: int, y: int|
                    board.in_bounds((x, y)) ==> #[trigger] vals.at(x, y) == if covered_by(
                        board.snakes@.take(i as int),
                        (x, y),
                    ) {
                        BoardSpace::SNAKE
                    } else if board.has_food((x, y)) {
                        BoardSpace::FOOD
                    } else {
                        BoardSpace::EMPTY
                    },
            decreases board.snakes@.len() - i,
        {
            let ghost before = vals;
            paint(&mut vals, &board.snakes[i].body, BoardSpace::SNAKE);
            proof {
                let done = board.snakes@.take(i as int);
                let more = board.snakes@.take(i + 1);
                assert forall|x: int, y: int| board.in_bounds((x, y)) implies #[trigger] vals.at(x, y)
                    == if covered_by(more, (x, y)) {
                    BoardSpace::SNAKE
                } else if board.has_food((x, y)) {
                    BoardSpace::FOOD
                } else {
                    BoardSpace::EMPTY
                } by {
                    if covered_by(done, (x, y)) {
                        let k = choose|k: int| 0 <= k < done.len() && (#[trigger] done[k]).covers((x, y));
                        assert(more[k].covers((x, y)));
                    }
                    if lies_on(board.snakes@[i as int].body@, (x, y)) {
                        assert(more[i as int].covers((x, y)));
                    } else if covered_by(more, (x, y)) {
                        let k = choose|k: int| 0 <= k < more.len() && (#[trigger] more[k]).covers((x, y));
                        assert(done[k].covers((x, y)));
                    }
                }
            }
            i = i + 1;
        }
        assert(board.snakes@.take(board.snakes@.len() as int) =~= board.snakes@);

        let g = Grid {
            width: board.width,
            height: board.height,
            vals: vals,
            you_head: (config.you.body[0].x, config.you.body[0].y),
        };
        assert(g@.cells =~= board.survey().cells);
        g
    }

    /// The state of the cell at column `x` of row `y`, which must lie inside the grid.
    pub fn at(&self, x: u32, y: u32) -> (s: BoardSpace)
        requires
            self.wf(),
            self@.in_bounds((x as int, y as int)),
        ensures
            s == self@.cells[(x as int, y as int)],
    {
        self.vals[(x as usize, y as usize)]
    }

    /// Whether or not moving a given direction is safe (not a snake and not out
    /// of bounds).
    pub fn is_safe_move(&self, move_req: Move) -> (safe: bool)
        requires
            self.wf(),
        ensures
            safe == self@.traversable(move_req.step(self.head())),
    {
        let head = &self.you_head;

        match move_req {
            Move::Up => head.1 != 0 && self.is_safe_node((head.0, head.1 - 1)),
            Move::Down => head.1 + 1 < self.height && self.is_safe_node((head.0, head.1 + 1)),
            Move::Left => head.0 != 0 && self.is_safe_node((head.0 - 1, head.1)),
            Move::Right => head.0 + 1 < self.width && self.is_safe_node((head.0 + 1, head.1)),
        }
    }

    /// Whether a snake may move onto `coords`: inside the grid and free of snakes.
    pub fn is_safe_node(&self, coords: (u32, u32)) -> (safe: bool)
        requires
            self.wf(),
        ensures
            safe == self@.traversable((coords.0 as int, coords.1 as int)),
    {
        if coords.0 >= self.width {
            return false;
        }
        if coords.1 >= self.height {
            return false;
        }
        if self.at(coords.0, coords.1) == BoardSpace::SNAKE {
            return false;
        }
        true
    }

    /// Find any move that won't (immediately) kill you
    pub fn find_safe_move(&self) -> (m: Move)
        requires
            self.wf(),
        ensures
            m == self@.first_safe_move(self.head()),
    {
        // No point in returning an option here. If there's no safe moves then
        // admit defeat and go left.
        let mut move_val = Move::Left;

        if self.is_safe_move(Move::Right) {
            move_val = Move::Right;
        } else if self.is_safe_move(Move::Left) {
            move_val = Move::Left;
        } else if self.is_safe_move(Move::Up) {
            move_val = Move::Up;
        } else if self.is_safe_move(Move::Down) {
            move_val = Move::Down;
        }
        move_val
    }
}

/// In the grid of a board whose food lies on no body segment, a cell holds food
/// exactly where food is reported, a snake exactly where a body segment lies, and
/// nothing everywhere else.
pub proof fn lemma_cells_of_disjoint_board(grid: Grid, board: Board, cell: Cell)
    requires
        grid@ == board.survey(),
        board.in_bounds(cell),
        forall|c: Cell| !(board.has_food(c) && board.has_body(c)),
    ensures
        grid@.cells[cell] == BoardSpace::FOOD <==> board.has_food(cell),
        grid@.cells[cell] == BoardSpace::SNAKE <==> board.has_body(cell),
        grid@.cells[cell] == BoardSpace::EMPTY <==> !board.has_food(cell) && !board.has_body(cell),
{
}

/// In the grid of a board that reports food and a body segment on one cell, that
/// cell holds the snake.
pub proof fn lemma_body_hides_food(grid: Grid, board: Board, cell: Cell)
    requires
        grid@ == board.survey(),
        board.in_bounds(cell),
        board.has_food(cell),
        board.has_body(cell),
    ensures
        grid@.cells[cell] == BoardSpace::SNAKE,
{
}

} // verus!
