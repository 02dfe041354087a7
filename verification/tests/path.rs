use snake::api::{Board, Coords, Snake, SnakeConfig};
use snake::grid::Grid;
use snake::path::{shortest_path_to, Move, PathNode};

fn grid(width: u32, height: u32, snakes: Vec<Vec<(u32, u32)>>) -> Grid {
    Grid::new(&SnakeConfig {
        board: Board {
            width,
            height,
            food: vec![],
            snakes: snakes
                .into_iter()
                .map(|body| Snake {
                    body: body.into_iter().map(|(x, y)| Coords { x, y }).collect(),
                    ..Default::default()
                })
                .collect(),
        },
        ..Default::default()
    })
}

fn cells(path: &Vec<PathNode>) -> Vec<(u32, u32)> {
    path.iter().map(|n| n.coords).collect()
}

fn moves(path: &Vec<PathNode>) -> Vec<Option<Move>> {
    path.iter().map(|n| n.next_move).collect()
}

#[test]
fn bfs_finds_target_node() {
    // Board state:
    //   - H - - - -
    //   - S - - - -
    //   - S - - - -
    //   T S - - - -
    //   - - Y - - -
    //
    // We should be able to reach the target node (T) from our current
    // position (Y).

    let map = Grid::new(&SnakeConfig {
        board: Board {
            width: 6,
            height: 5,
            food: vec![],
            snakes: vec![Snake {
                body: vec![
                    Coords { x: 1, y: 0 },
                    Coords { x: 1, y: 1 },
                    Coords { x: 1, y: 2 },
                    Coords { x: 1, y: 3 },
                ],
                ..Default::default()
            }],
        },
        ..Default::default()
    });

    // Should be able to reach node
    let path = shortest_path_to(&map, (2, 4), (0, 3));
    assert!(path.is_some());

    // Path should be (2, 4), (1, 4), (0, 4), (0, 3)
    let path = path.unwrap();
    assert_eq!(path[0].coords, (2, 4));
    assert_eq!(path[0].next_move, Some(Move::Left));
    assert_eq!(path[1].coords, (1, 4));
    assert_eq!(path[1].next_move, Some(Move::Left));
    assert_eq!(path[2].coords, (0, 4));
    assert_eq!(path[2].next_move, Some(Move::Up));
    assert_eq!(path[3].coords, (0, 3));
    assert_eq!(path[3].next_move, None);
}

#[test]
fn bfs_determines_target_node_inaccessible() {
    // Board state:
    //   - H - - - -
    //   - S - - - -
    //   - S - - - -
    //   T S - - - -
    //   - S Y - - -
    //
    // The BFS algorithm should determine that that target node is inaccessible
    // from the source.

    let map = Grid::new(&SnakeConfig {
        board: Board {
            width: 6,
            height: 5,
            food: vec![],
            snakes: vec![Snake {
                body: vec![
                    Coords { x: 1, y: 0 },
                    Coords { x: 1, y: 1 },
                    Coords { x: 1, y: 2 },
                    Coords { x: 1, y: 3 },
                    Coords { x: 1, y: 4 },
                ],
                ..Default::default()
            }],
        },
        ..Default::default()
    });

    // Should be able to reach node
    let path = shortest_path_to(&map, (2, 4), (0, 3));
    assert!(path.is_none());
}

#[test]
fn bfs_handles_short_path() {
    // BFS algorithm should be able to handle a short (1-node) path

    let map = Grid::new(&SnakeConfig {
        board: Board { width: 20, height: 20, food: vec![], snakes: vec![] },
        ..Default::default()
    });

    let path = shortest_path_to(&map, (0, 0), (0, 1));
    assert!(path.is_some());

    // Path should include source node and target node
    let path = path.unwrap();
    assert_eq!(path[0].coords, (0, 0));
    assert_eq!(path[0].next_move, Some(Move::Down));
    assert_eq!(path[1].coords, (0, 1));
    assert!(path[1].next_move.is_none());
}

#[test]
fn bfs_handles_no_path() {
    // In the strange case where the source and target node are the
    // same, the BFS algorithm should return a path with only the source node.

    let map = Grid::new(&SnakeConfig {
        board: Board { width: 20, height: 20, food: vec![], snakes: vec![] },
        ..Default::default()
    });

    let path = shortest_path_to(&map, (0, 0), (0, 0));
    assert!(path.is_some());

    // Path should include source node and target node
    let path = path.unwrap();
    assert_eq!(path[0].coords, (0, 0));
    assert!(path[0].next_move.is_none());
}

#[test]
fn path_to_self_has_one_node() {
    let map = grid(20, 20, vec![]);
    let path = shortest_path_to(&map, (0, 0), (0, 0)).unwrap();
    assert_eq!(path.len(), 1);
    let map = grid(4, 3, vec![vec![(2, 1)]]);
    for y in 0..3u32 {
        for x in 0..4u32 {
            // The start is never asked to be traversable.
            let path = shortest_path_to(&map, (x, y), (x, y)).unwrap();
            assert_eq!(cells(&path), vec![(x, y)]);
            assert_eq!(moves(&path), vec![None]);
        }
    }
}

#[test]
fn path_length_is_the_number_of_steps() {
    let map = grid(20, 20, vec![]);
    for &(tx, ty) in &[(0u32, 1u32), (5, 0), (7, 9), (19, 19), (0, 19)] {
        let path = shortest_path_to(&map, (0, 0), (tx, ty)).unwrap();
        assert_eq!(path.len() as u32, tx + ty + 1);
        assert_eq!(path[0].coords, (0, 0));
        assert_eq!(path[path.len() - 1].coords, (tx, ty));
        assert_eq!(path[path.len() - 1].next_move, None);
    }
}

#[test]
fn every_node_leads_to_the_next() {
    let map = grid(6, 5, vec![vec![(1, 0), (1, 1), (1, 2), (1, 3)], vec![(3, 4), (3, 3), (3, 2)]]);
    let path = shortest_path_to(&map, (0, 0), (5, 4)).unwrap();
    // Four steps down, two right, three up, two right, three down, one right.
    assert_eq!(path.len(), 16);
    for i in 0..path.len() - 1 {
        let (x, y) = path[i].coords;
        let next = match path[i].next_move {
            Some(Move::Right) => (x + 1, y),
            Some(Move::Left) => (x - 1, y),
            Some(Move::Up) => (x, y - 1),
            Some(Move::Down) => (x, y + 1),
            None => panic!("a node before the last carries no move"),
        };
        assert_eq!(path[i + 1].coords, next);
        assert!(map.is_safe_node(next));
    }
}

#[test]
fn equal_paths_are_told_apart_by_probe_order() {
    let map = grid(5, 5, vec![]);
    // Right is tried before down.
    let path = shortest_path_to(&map, (0, 0), (1, 1)).unwrap();
    assert_eq!(cells(&path), vec![(0, 0), (1, 0), (1, 1)]);
    assert_eq!(moves(&path), vec![Some(Move::Right), Some(Move::Down), None]);
    // Left is tried before up.
    let path = shortest_path_to(&map, (2, 2), (1, 1)).unwrap();
    assert_eq!(cells(&path), vec![(2, 2), (1, 2), (1, 1)]);
    assert_eq!(moves(&path), vec![Some(Move::Left), Some(Move::Up), None]);
    // Right is tried before up.
    let path = shortest_path_to(&map, (2, 2), (4, 0)).unwrap();
    assert_eq!(
        moves(&path),
        vec![Some(Move::Right), Some(Move::Right), Some(Move::Up), Some(Move::Up), None]
    );
    // Left is tried before down.
    let path = shortest_path_to(&map, (2, 2), (0, 4)).unwrap();
    assert_eq!(
        moves(&path),
        vec![Some(Move::Left), Some(Move::Left), Some(Move::Down), Some(Move::Down), None]
    );
}

#[test]
fn target_on_a_snake_cannot_be_reached() {
    let map = grid(3, 3, vec![vec![(2, 2)]]);
    assert!(shortest_path_to(&map, (0, 0), (2, 2)).is_none());
}

#[test]
fn start_on_a_snake_can_be_left() {
    let map = grid(3, 1, vec![vec![(0, 0)]]);
    let path = shortest_path_to(&map, (0, 0), (2, 0)).unwrap();
    assert_eq!(cells(&path), vec![(0, 0), (1, 0), (2, 0)]);
}

#[test]
fn enclosed_target_cannot_be_reached() {
    let map = grid(5, 5, vec![vec![(2, 1), (1, 2), (3, 2), (2, 3)]]);
    assert!(shortest_path_to(&map, (0, 0), (2, 2)).is_none());
    assert!(shortest_path_to(&map, (2, 2), (0, 0)).is_none());
    assert!(shortest_path_to(&map, (0, 0), (4, 4)).is_some());
}

#[test]
fn move_names() {
    assert_eq!(Move::Up.to_string(), "up");
    assert_eq!(Move::Down.to_string(), "down");
    assert_eq!(Move::Left.to_string(), "left");
    assert_eq!(Move::Right.to_string(), "right");
}
