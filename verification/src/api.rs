use vstd::prelude::*;

verus! {

/// A cell of the spatial model: column, then row, as mathematical integers.
pub type Cell = (int, int);

/// The cell that a pair of coordinates names.
pub open spec fn cell_of(coords: (u32, u32)) -> Cell {
    (coords.0 as int, coords.1 as int)
}

/// The game a request belongs to.
pub struct Game {
    pub id: String,
}

impl Default for Game {
    /// A game without an id.
    fn default() -> (g: Game)
        ensures
            g.id@ == Seq::<char>::empty(),
    {
        Game { id: String::new() }
    }
}

/// A board coordinate: `x` grows to the right, `y` grows downward.
#[derive(PartialEq, Eq, Structural, Clone, Copy, Debug)]
pub struct Coords {
    pub x: u32,
    pub y: u32,
}

impl View for Coords {
    type V = Cell;

    open spec fn view(&self) -> Cell {
        (self.x as int, self.y as int)
    }
}

/// Some element of `cells` lies on `cell`.
pub open spec fn lies_on(cells: Seq<Coords>, cell: Cell) -> bool {
    exists|i: int| 0 <= i < cells.len() && (#[trigger] cells[i])@ == cell
}

/// Some snake of `snakes` has a body segment on `cell`.
pub open spec fn covered_by(snakes: Seq<Snake>, cell: Cell) -> bool {
    exists|i: int| 0 <= i < snakes.len() && (#[trigger] snakes[i]).covers(cell)
}

/// One snake on the board; `body` lists its segments head first.
pub struct Snake {
    pub id: String,
    pub name: String,
    pub health: u8,
    pub body: Vec<Coords>,
    pub shout: String,
}

impl Snake {
    /// Some segment of the body lies on `cell`.
    pub open spec fn covers(&self, cell: Cell) -> bool {
        lies_on(self.body@, cell)
    }
}

impl Default for Snake {
    /// A full-health snake of one segment in the top-left corner.
    fn default() -> (s: Snake)
        ensures
            s.id@ == "snake_id"@,
            s.name@ == "Snekky Snek"@,
            s.health == 100,
            s.body@ == seq![Coords { x: 0, y: 0 }],
            s.shout@ == "I am snek!"@,
    {
        let mut body: Vec<Coords> = Vec::new();
        body.push(Coords { x: 0, y: 0 });
        assert(body@ =~= seq![Coords { x: 0, y: 0 }]);
        Snake {
            id: "snake_id".to_owned(),
            name: "Snekky Snek".to_owned(),
            health: 100,
            body: body,
            shout: "I am snek!".to_owned(),
        }
    }
}

/// The board of one turn: its size, the food on it and every snake.
pub struct Board {
    pub height: u32,
    pub width: u32,
    pub food: Vec<Coords>,
    pub snakes: Vec<Snake>,
}

impl Board {
    /// `cell` lies on the board.
    pub open spec fn in_bounds(&self, cell: Cell) -> bool {
        0 <= cell.0 < self.width && 0 <= cell.1 < self.height
    }

    /// Food is reported on `cell`.
    pub open spec fn has_food(&self, cell: Cell) -> bool {
        lies_on(self.food@, cell)
    }

    /// Some snake has a body segment on `cell`.
    pub open spec fn has_body(&self, cell: Cell) -> bool {
        covered_by(self.snakes@, cell)
    }

    /// Every food item and every body segment lies on the board, and the board's
    /// cells can be counted in a `usize`.
    pub open spec fn valid(&self) -> bool {
        &&& self.width * self.height <= usize::MAX
        &&& forall|i: int| 0 <= i < self.food@.len() ==> self.in_bounds((#[trigger] self.food@[i])@)
        &&& forall|i: int, j: int|
            0 <= i < self.snakes@.len() && 0 <= j < self.snakes@[i].body@.len() ==> self.in_bounds(
                (#[trigger] self.snakes@[i].body@[j])@,
            )
    }
}

impl Default for Board {
    /// An empty board of no extent.
    fn default() -> (b: Board)
        ensures
            b.height == 0,
            b.width == 0,
            b.food@.len() == 0,
            b.snakes@.len() == 0,
    {
        Board { height: 0, width: 0, food: Vec::new(), snakes: Vec::new() }
    }
}

/// Everything the server sends with a request: the game, the turn, the board and
/// the snake that is to move.
pub struct SnakeConfig {
    pub game: Game,
    pub turn: u32,
    pub board: Board,
    pub you: Snake,
}

impl SnakeConfig {
    /// The board is valid and the snake to move has a body that lies on it.
    pub open spec fn valid(&self) -> bool {
        &&& self.board.valid()
        &&& self.you.body@.len() > 0
        &&& forall|i: int|
            0 <= i < self.you.body@.len() ==> self.board.in_bounds((#[trigger] self.you.body@[i])@)
    }
}

impl Default for SnakeConfig {
    /// Turn zero on an empty board, with the default snake to move.
    fn default() -> (c: SnakeConfig)
        ensures
            c.game.id@ == Seq::<char>::empty(),
            c.turn == 0,
            c.board.height == 0,
            c.board.width == 0,
            c.board.food@.len() == 0,
            c.board.snakes@.len() == 0,
            c.you.id@ == "snake_id"@,
            c.you.name@ == "Snekky Snek"@,
            c.you.health == 100,
            c.you.body@ == seq![Coords { x: 0, y: 0 }],
            c.you.shout@ == "I am snek!"@,
    {
        SnakeConfig {
            game: Default::default(),
            turn: 0,
            board: Default::default(),
            you: Default::default(),
        }
    }
}

/// How the snake presents itself when a game starts.
#[allow(non_snake_case)]
pub struct StartResponse {
    pub color: &'static str,
    pub headType: &'static str,
    pub tailType: &'static str,
}

/// The answer to a turn: the direction to move in, by name, and a shout.
pub struct MoveResponse {
    pub direction: &'static str,
    pub shout: &'static str,
}

} // verus!
