use survival::dijkstra::Mode;
use survival::model::{Creeper, Ferris, Game, GameState, Location, Status};

#[test]
fn get_adjacent_vertices_happy_path() {
    let game = Game {
        moves: vec![],
        rows: 10,
        columns: 10,
        target: Location { x: 0, y: 0 },
        status: Status::Idle,
    };
    let adjacent_vertices = game.get_adjacent_vertices((5, 5), &game.target, &Mode::Ferris);
    let expected_vertices = vec![
        (4, 4),
        (5, 4),
        (6, 4),
        (4, 5),
        (6, 5),
        (4, 6),
        (5, 6),
        (6, 6),
    ];
    assert_eq!(adjacent_vertices, expected_vertices);
}

#[test]
fn get_adjacent_vertices_top_left() {
    let game = Game {
        moves: vec![],
        rows: 10,
        columns: 10,
        target: Location { x: 0, y: 0 },
        status: Status::Idle,
    };
    let adjacent_vertices = game.get_adjacent_vertices((0, 0), &game.target, &Mode::Ferris);
    let expected_vertices = vec![(1, 0), (0, 1), (1, 1)];
    assert_eq!(adjacent_vertices, expected_vertices);
}

#[test]
fn get_adjacent_vertices_bottom_right() {
    let game = Game {
        moves: vec![],
        rows: 10,
        columns: 10,
        target: Location { x: 0, y: 0 },
        status: Status::Idle,
    };
    let adjacent_vertices = game.get_adjacent_vertices((9, 9), &game.target, &Mode::Ferris);
    let expected_vertices = vec![(8, 8), (9, 8), (8, 9)];
    assert_eq!(adjacent_vertices, expected_vertices);
}

#[test]
fn get_adjacent_vertices_with_creepers() {
    let game = Game {
        moves: vec![GameState {
            creepers: vec![Creeper {
                location: Location { x: 5, y: 4 },
            }],
            ferris: Ferris {
                location: Location { x: 1, y: 1 },
                path: vec![],
            },
        }],
        rows: 10,
        columns: 10,
        target: Location { x: 0, y: 0 },
        status: Status::Idle,
    };
    let adjacent_vertices = game.get_adjacent_vertices((5, 5), &game.target, &Mode::Ferris);
    // the threat at (5,4) excludes its whole 3x3 zone: only the right-hand
    // column of neighbors survives
    let expected_vertices = vec![(4, 6), (5, 6), (6, 6)];
    assert_eq!(adjacent_vertices, expected_vertices);
}
