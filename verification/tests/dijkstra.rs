use survival::dijkstra::{Dijkstra, Mode, SearchError};
use survival::model::{Creeper, Ferris, Game, GameState, Location, Status};

#[test]
fn dijkstra_happy_path() {
    let game = Game {
        moves: vec![GameState {
            creepers: vec![],
            ferris: Ferris {
                location: Location { x: 0, y: 0 },
                path: vec![],
            },
        }],
        rows: 4,
        columns: 4,
        target: Location { x: 0, y: 3 },
        status: Status::Idle,
    };
    let origin = &game.moves.last().unwrap().ferris.location;
    let target = &game.target;
    let shortest_path = Dijkstra::run(&game, origin, target, &Mode::Ferris).unwrap();
    let expected_shortest_path = vec![
        Location { x: 0, y: 1 },
        Location { x: 0, y: 2 },
        Location { x: 0, y: 3 },
    ];
    assert_eq!(shortest_path, expected_shortest_path);
}

#[test]
fn dijkstra_4_by_4() {
    let game = Game {
        moves: vec![GameState {
            creepers: vec![],
            ferris: Ferris {
                location: Location { x: 0, y: 0 },
                path: vec![],
            },
        }],
        rows: 4,
        columns: 4,
        target: Location { x: 3, y: 3 },
        status: Status::Idle,
    };
    let origin = &game.moves.last().unwrap().ferris.location;
    let target = &game.target;
    let shortest_path = Dijkstra::run(&game, origin, target, &Mode::Ferris).unwrap();
    let expected_shortest_path = vec![
        Location { x: 1, y: 1 },
        Location { x: 2, y: 2 },
        Location { x: 3, y: 3 },
    ];
    assert_eq!(shortest_path, expected_shortest_path);
}

#[test]
fn dijkstra_8_by_8() {
    let game = Game {
        moves: vec![GameState {
            creepers: vec![],
            ferris: Ferris {
                location: Location { x: 2, y: 2 },
                path: vec![],
            },
        }],
        rows: 8,
        columns: 8,
        target: Location { x: 7, y: 7 },
        status: Status::Idle,
    };
    let origin = &game.moves.last().unwrap().ferris.location;
    let target = &game.target;
    let shortest_path = Dijkstra::run(&game, origin, target, &Mode::Ferris).unwrap();
    let expected_shortest_path = vec![
        Location { x: 3, y: 3 },
        Location { x: 4, y: 4 },
        Location { x: 5, y: 5 },
        Location { x: 6, y: 6 },
        Location { x: 7, y: 7 },
    ];
    assert_eq!(shortest_path, expected_shortest_path);
}

#[test]
fn dijkstra_8_by_8_with_creeper() {
    let game = Game {
        moves: vec![GameState {
            creepers: vec![Creeper {
                location: Location { x: 4, y: 4 },
            }],
            ferris: Ferris {
                location: Location { x: 2, y: 2 },
                path: vec![],
            },
        }],
        rows: 8,
        columns: 8,
        target: Location { x: 7, y: 7 },
        status: Status::Idle,
    };
    let ferris_location = &game.moves.last().unwrap().ferris.location;
    let target = &game.target;
    let shortest_path = Dijkstra::run(&game, ferris_location, target, &Mode::Ferris).unwrap();
    let expected_shortest_path = vec![
        Location { x: 3, y: 1 },
        Location { x: 4, y: 1 },
        Location { x: 5, y: 2 },
        Location { x: 6, y: 3 },
        Location { x: 7, y: 4 },
        Location { x: 7, y: 5 },
        Location { x: 7, y: 6 },
        Location { x: 7, y: 7 },
    ];

    assert_eq!(shortest_path, expected_shortest_path);
    let creeper_path = Dijkstra::run(
        &game,
        &game
            .moves
            .last()
            .unwrap()
            .creepers
            .first()
            .unwrap()
            .location,
        &ferris_location,
        &Mode::Creeper,
    )
    .unwrap();
    assert_eq!(
        creeper_path,
        vec![Location { x: 3, y: 3 }, Location { x: 2, y: 2 }]
    );
}

#[test]
fn dijkstra_4_by_4_creeper_on_home() {
    let game = Game {
        moves: vec![GameState {
            creepers: vec![Creeper {
                location: Location { x: 3, y: 3 },
            }],
            ferris: Ferris {
                location: Location { x: 0, y: 0 },
                path: vec![],
            },
        }],
        rows: 4,
        columns: 4,
        target: Location { x: 3, y: 3 },
        status: Status::Idle,
    };
    let origin = &game.moves.last().unwrap().ferris.location;
    let target = &game.target;
    // the threat sits on the target, so its 3x3 exclusion zone seals every
    // approach: only the target cell itself is exempt, and no admitted
    // neighbor can reach it
    let result = Dijkstra::run(&game, origin, target, &Mode::Ferris);
    assert_eq!(result, Err(SearchError::Unreachable));
}

#[test]
fn dijkstra_12_by_24() {
    let game = Game {
        moves: vec![GameState {
            creepers: vec![Creeper {
                location: Location { x: 0, y: 9 },
            }],
            ferris: Ferris {
                location: Location { x: 4, y: 3 },
                path: vec![],
            },
        }],
        rows: 24,
        columns: 12,
        target: Location { x: 5, y: 5 },
        status: Status::Idle,
    };
    let origin = &game.moves.last().unwrap().ferris.location;
    let target = &game.target;
    let shortest_path = Dijkstra::run(&game, origin, target, &Mode::Creeper).unwrap();
    let expected_shortest_path = vec![Location { x: 5, y: 4 }, Location { x: 5, y: 5 }];
    assert_eq!(shortest_path, expected_shortest_path);
}
