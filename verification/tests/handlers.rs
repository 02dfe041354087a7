use snake::api::{Board, Coords, Game, Snake, SnakeConfig};
use snake::{handle_end, handle_move, handle_start, is_playable};

fn coords(cells: &[(u32, u32)]) -> Vec<Coords> {
    cells.iter().map(|&(x, y)| Coords { x, y }).collect()
}

fn turn(width: u32, height: u32, others: &[&[(u32, u32)]], you: &[(u32, u32)]) -> SnakeConfig {
    let mut snakes: Vec<Snake> = others
        .iter()
        .map(|body| Snake { body: coords(body), ..Default::default() })
        .collect();
    snakes.push(Snake { body: coords(you), ..Default::default() });
    SnakeConfig {
        board: Board { width, height, food: vec![], snakes },
        you: Snake { body: coords(you), ..Default::default() },
        ..Default::default()
    }
}

#[test]
fn start_response_is_fixed() {
    let response = handle_start(SnakeConfig::default());
    assert_eq!(response.color, "#FF0000");
    assert_eq!(response.headType, "beluga");
    assert_eq!(response.tailType, "hook");
}

#[test]
fn end_takes_any_configuration() {
    handle_end(SnakeConfig::default());
}

#[test]
fn default_values() {
    let snake = Snake::default();
    assert_eq!(snake.id, "snake_id");
    assert_eq!(snake.name, "Snekky Snek");
    assert_eq!(snake.health, 100);
    assert_eq!(snake.body, vec![Coords { x: 0, y: 0 }]);
    assert_eq!(snake.shout, "I am snek!");
    assert_eq!(Game::default().id, "");
    let board = Board::default();
    assert_eq!((board.width, board.height), (0, 0));
    assert!(board.food.is_empty());
    assert!(board.snakes.is_empty());
    let config = SnakeConfig::default();
    assert_eq!(config.turn, 0);
    assert_eq!(config.you.body, vec![Coords { x: 0, y: 0 }]);
}

#[test]
fn single_segment_in_the_corner_goes_right() {
    // The snake is not listed on the board: the board is otherwise empty.
    let config = SnakeConfig {
        board: Board { width: 11, height: 11, food: vec![], snakes: vec![] },
        you: Snake { body: coords(&[(0, 0)]), ..Default::default() },
        ..Default::default()
    };
    assert!(is_playable(&config));
    let response = handle_move(config);
    assert_eq!(response.direction, "right");
    assert_eq!(response.shout, "Shooooot!");
}

#[test]
fn stacked_segments_collapse_to_one() {
    let config = turn(11, 11, &[], &[(0, 0), (0, 0), (0, 0)]);
    assert!(is_playable(&config));
    assert_eq!(handle_move(config).direction, "right");
    let config = turn(11, 11, &[], &[(10, 10), (10, 10), (10, 10)]);
    assert_eq!(handle_move(config).direction, "left");
}

#[test]
fn two_segments_make_the_first_safe_move() {
    // The neck is to the right of the head.
    let config = turn(5, 5, &[], &[(2, 2), (3, 2), (3, 2)]);
    assert_eq!(handle_move(config).direction, "left");
    // The neck is to the left of the head.
    let config = turn(5, 5, &[], &[(2, 2), (1, 2)]);
    assert_eq!(handle_move(config).direction, "right");
}

#[test]
fn long_snake_chases_its_tail() {
    // H at (2,2), body over (2,1), tail at (1,1): the tail is a body segment and
    // cannot be reached, so the snake makes the first safe move.
    let config = turn(5, 5, &[], &[(2, 2), (2, 1), (1, 1)]);
    assert!(is_playable(&config));
    assert_eq!(handle_move(config).direction, "right");
}

#[test]
fn long_snake_follows_the_path_where_the_tail_is_free() {
    // The snake to move is not drawn on the board here, so its tail can be reached.
    let config = SnakeConfig {
        board: Board { width: 5, height: 5, food: vec![], snakes: vec![] },
        you: Snake { body: coords(&[(2, 2), (2, 1), (1, 1)]), ..Default::default() },
        ..Default::default()
    };
    // Two routes of two moves lead from (2,2) to (1,1): left then up comes first.
    assert_eq!(handle_move(config).direction, "left");
    let config = SnakeConfig {
        board: Board { width: 5, height: 5, food: vec![], snakes: vec![] },
        you: Snake { body: coords(&[(0, 0), (0, 1), (0, 2), (0, 3)]), ..Default::default() },
        ..Default::default()
    };
    assert_eq!(handle_move(config).direction, "down");
    let config = SnakeConfig {
        board: Board {
            width: 5,
            height: 5,
            food: vec![],
            snakes: vec![Snake { body: coords(&[(1, 2), (1, 3)]), ..Default::default() }],
        },
        you: Snake { body: coords(&[(2, 2), (2, 1), (0, 2)]), ..Default::default() },
        ..Default::default()
    };
    // (1,2) is taken: the ways round it have four moves, and the one that starts
    // to the left does not exist.
    assert_eq!(handle_move(config).direction, "up");
}

#[test]
fn unreachable_tail_falls_back_to_the_first_safe_move() {
    // The tail at (0,0) is walled off by another snake.
    let wall: &[(u32, u32)] = &[(1, 0), (1, 1), (0, 1)];
    let config = SnakeConfig {
        board: Board {
            width: 5,
            height: 5,
            food: vec![],
            snakes: vec![Snake { body: coords(wall), ..Default::default() }],
        },
        you: Snake { body: coords(&[(4, 4), (3, 3), (0, 0)]), ..Default::default() },
        ..Default::default()
    };
    assert!(is_playable(&config));
    // From (4,4) right is off the board, left is free.
    assert_eq!(handle_move(config).direction, "left");

    // The same fallback as a short body gets on the same board.
    let short = SnakeConfig {
        board: Board {
            width: 5,
            height: 5,
            food: vec![],
            snakes: vec![Snake { body: coords(wall), ..Default::default() }],
        },
        you: Snake { body: coords(&[(4, 4)]), ..Default::default() },
        ..Default::default()
    };
    assert_eq!(handle_move(short).direction, "left");
}

#[test]
fn boxed_in_snake_goes_left() {
    let config = turn(3, 3, &[&[(1, 0), (0, 1), (2, 1), (1, 2)]], &[(1, 1)]);
    assert!(is_playable(&config));
    assert_eq!(handle_move(config).direction, "left");
}

#[test]
fn configurations_that_cannot_be_played() {
    // No body.
    let config = turn(5, 5, &[], &[]);
    assert!(!is_playable(&config));
    // Head off the board.
    let config = turn(5, 5, &[], &[(5, 0)]);
    assert!(!is_playable(&config));
    // Food off the board.
    let mut config = turn(5, 5, &[], &[(0, 0)]);
    config.board.food = coords(&[(0, 5)]);
    assert!(!is_playable(&config));
    // Another snake off the board.
    let config = turn(5, 5, &[&[(1, 1), (7, 1)]], &[(0, 0)]);
    assert!(!is_playable(&config));
    // Head on tail with a body between them.
    let config = turn(5, 5, &[], &[(1, 1), (1, 2), (1, 1)]);
    assert!(!is_playable(&config));
    // The default configuration has a snake on a board of no extent.
    assert!(!is_playable(&SnakeConfig::default()));
    // Head on tail is fine once the body collapses to fewer than three segments.
    let config = turn(5, 5, &[], &[(1, 1), (1, 1), (1, 2), (1, 2)]);
    assert!(is_playable(&config));
}
