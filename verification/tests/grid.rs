use snake::api::{Board, Coords, Snake, SnakeConfig};
use snake::grid::{BoardSpace, Grid};
use snake::path::Move;

fn config(width: u32, height: u32, food: Vec<(u32, u32)>, snakes: Vec<Vec<(u32, u32)>>, you: Vec<(u32, u32)>) -> SnakeConfig {
    SnakeConfig {
        board: Board {
            width,
            height,
            food: food.into_iter().map(|(x, y)| Coords { x, y }).collect(),
            snakes: snakes
                .into_iter()
                .map(|body| Snake {
                    body: body.into_iter().map(|(x, y)| Coords { x, y }).collect(),
                    ..Default::default()
                })
                .collect(),
        },
        you: Snake {
            body: you.into_iter().map(|(x, y)| Coords { x, y }).collect(),
            ..Default::default()
        },
        ..Default::default()
    }
}

#[test]
fn populates_food_and_snakes() {
    // Construct dummy board
    let config = SnakeConfig {
        board: Board {
            width: 25,
            height: 20,
            snakes: vec![Snake {
                body: vec![
                    Coords { x: 1, y: 1 },
                    Coords { x: 1, y: 2 },
                    Coords { x: 2, y: 2 },
                ],
                ..Default::default()
            }],
            food: vec![Coords { x: 22, y: 18 }, Coords { x: 5, y: 2 }],
        },
        ..Default::default()
    };

    let map = Grid::new(&config);
    let board = &config.board;

    // Food should be placed on the map at the correct location
    for coords in board.food.iter() {
        assert_eq!(map.at(coords.x, coords.y), BoardSpace::FOOD)
    }

    // Snake should be placed in correct location
    for snake in board.snakes.iter() {
        for coords in snake.body.iter() {
            assert_eq!(map.at(coords.x, coords.y), BoardSpace::SNAKE)
        }
    }
}

#[test]
fn cells_of_a_board_without_overlap() {
    let food = vec![(4, 0), (0, 2)];
    let bodies = vec![vec![(1, 1), (2, 1)], vec![(4, 2), (4, 2), (3, 2)]];
    let cfg = config(5, 3, food.clone(), bodies.clone(), vec![(1, 1)]);
    let map = Grid::new(&cfg);
    assert_eq!(map.width, 5);
    assert_eq!(map.height, 3);
    for y in 0..3u32 {
        for x in 0..5u32 {
            let expected = if bodies.iter().any(|b| b.contains(&(x, y))) {
                BoardSpace::SNAKE
            } else if food.contains(&(x, y)) {
                BoardSpace::FOOD
            } else {
                BoardSpace::EMPTY
            };
            assert_eq!(map.at(x, y), expected);
        }
    }
}

#[test]
fn body_segment_hides_food() {
    let cfg = config(4, 4, vec![(2, 2), (3, 3)], vec![vec![(2, 2), (2, 3)]], vec![(2, 2)]);
    let map = Grid::new(&cfg);
    assert_eq!(map.at(2, 2), BoardSpace::SNAKE);
    assert_eq!(map.at(2, 3), BoardSpace::SNAKE);
    assert_eq!(map.at(3, 3), BoardSpace::FOOD);
    assert_eq!(map.at(0, 0), BoardSpace::EMPTY);
}

#[test]
fn the_snake_to_move_is_not_drawn_unless_listed() {
    let cfg = config(3, 3, vec![], vec![], vec![(1, 1)]);
    let map = Grid::new(&cfg);
    assert_eq!(map.at(1, 1), BoardSpace::EMPTY);
}

#[test]
fn default_board_space_is_empty() {
    assert_eq!(BoardSpace::default(), BoardSpace::EMPTY);
}

#[test]
fn safe_node_is_inside_and_free_of_snakes() {
    let cfg = config(3, 2, vec![(0, 1)], vec![vec![(1, 0)]], vec![(0, 0)]);
    let map = Grid::new(&cfg);
    assert!(map.is_safe_node((0, 0)));
    assert!(map.is_safe_node((0, 1)));
    assert!(!map.is_safe_node((1, 0)));
    assert!(map.is_safe_node((2, 1)));
    assert!(!map.is_safe_node((3, 0)));
    assert!(!map.is_safe_node((0, 2)));
    assert!(!map.is_safe_node((u32::MAX, u32::MAX)));
}

#[test]
fn safe_moves_from_a_corner() {
    let cfg = config(3, 3, vec![], vec![], vec![(0, 0)]);
    let map = Grid::new(&cfg);
    assert!(map.is_safe_move(Move::Right));
    assert!(map.is_safe_move(Move::Down));
    assert!(!map.is_safe_move(Move::Left));
    assert!(!map.is_safe_move(Move::Up));
    assert_eq!(map.find_safe_move(), Move::Right);
}

#[test]
fn safe_moves_from_the_far_corner() {
    let cfg = config(3, 3, vec![], vec![], vec![(2, 2)]);
    let map = Grid::new(&cfg);
    assert!(!map.is_safe_move(Move::Right));
    assert!(!map.is_safe_move(Move::Down));
    assert!(map.is_safe_move(Move::Left));
    assert!(map.is_safe_move(Move::Up));
    assert_eq!(map.find_safe_move(), Move::Left);
}

#[test]
fn first_safe_move_follows_the_probe_order() {
    // Right blocked, left open.
    let cfg = config(3, 3, vec![], vec![vec![(2, 1)]], vec![(1, 1)]);
    assert_eq!(Grid::new(&cfg).find_safe_move(), Move::Left);
    // Right and left blocked, up open.
    let cfg = config(3, 3, vec![], vec![vec![(2, 1), (0, 1)]], vec![(1, 1)]);
    assert_eq!(Grid::new(&cfg).find_safe_move(), Move::Up);
    // Only down open.
    let cfg = config(3, 3, vec![], vec![vec![(2, 1), (0, 1), (1, 0)]], vec![(1, 1)]);
    assert_eq!(Grid::new(&cfg).find_safe_move(), Move::Down);
    // Food is safe to move onto.
    let cfg = config(3, 3, vec![(2, 1)], vec![], vec![(1, 1)]);
    assert_eq!(Grid::new(&cfg).find_safe_move(), Move::Right);
}

#[test]
fn no_safe_move_goes_left() {
    let cfg = config(3, 3, vec![], vec![vec![(2, 1), (0, 1), (1, 0), (1, 2)]], vec![(1, 1)]);
    let map = Grid::new(&cfg);
    assert!(!map.is_safe_move(Move::Right));
    assert!(!map.is_safe_move(Move::Left));
    assert!(!map.is_safe_move(Move::Up));
    assert!(!map.is_safe_move(Move::Down));
    assert_eq!(map.find_safe_move(), Move::Left);
    // A board of one cell leaves no move either.
    let cfg = config(1, 1, vec![], vec![], vec![(0, 0)]);
    assert_eq!(Grid::new(&cfg).find_safe_move(), Move::Left);
}
