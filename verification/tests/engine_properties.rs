use survival::dijkstra::{Dijkstra, Mode, SearchError};
use survival::model::{Creeper, Ferris, Game, GameState, Location, Status};

fn threat_free_game(rows: i32, columns: i32, origin: Location, target: Location) -> Game {
    Game {
        moves: vec![GameState {
            creepers: vec![],
            ferris: Ferris {
                location: origin,
                path: vec![],
            },
        }],
        rows,
        columns,
        target,
        status: Status::Idle,
    }
}

#[test]
fn empty_route_when_origin_is_target() {
    let game = threat_free_game(4, 4, Location { x: 2, y: 2 }, Location { x: 2, y: 2 });
    let path = Dijkstra::run(
        &game,
        &Location { x: 2, y: 2 },
        &Location { x: 2, y: 2 },
        &Mode::Ferris,
    )
    .unwrap();
    assert_eq!(path, Vec::<Location>::new());
}

#[test]
fn pursuer_route_length_is_king_move_distance() {
    // 6x6 grid, (0,0) to (5,2): five steps.
    let game = threat_free_game(6, 6, Location { x: 0, y: 0 }, Location { x: 5, y: 2 });
    let path = Dijkstra::run(
        &game,
        &Location { x: 0, y: 0 },
        &Location { x: 5, y: 2 },
        &Mode::Creeper,
    )
    .unwrap();
    assert_eq!(path.len(), 5);
    assert_eq!(path.last(), Some(&Location { x: 5, y: 2 }));

    // 7x4 grid, (0,0) to (6,3): six steps.
    let game = threat_free_game(7, 4, Location { x: 0, y: 0 }, Location { x: 6, y: 3 });
    let path = Dijkstra::run(
        &game,
        &Location { x: 0, y: 0 },
        &Location { x: 6, y: 3 },
        &Mode::Creeper,
    )
    .unwrap();
    assert_eq!(
        path,
        vec![
            Location { x: 1, y: 1 },
            Location { x: 2, y: 2 },
            Location { x: 3, y: 3 },
            Location { x: 4, y: 3 },
            Location { x: 5, y: 3 },
            Location { x: 6, y: 3 },
        ]
    );
}

#[test]
fn evader_route_avoids_threat_zones() {
    let threat = Location { x: 4, y: 4 };
    let origin = Location { x: 2, y: 2 };
    let target = Location { x: 7, y: 7 };
    let game = Game {
        moves: vec![GameState {
            creepers: vec![Creeper { location: threat }],
            ferris: Ferris {
                location: origin,
                path: vec![],
            },
        }],
        rows: 8,
        columns: 8,
        target,
        status: Status::Idle,
    };
    let path = Dijkstra::run(&game, &origin, &target, &Mode::Ferris).unwrap();
    for cell in &path {
        let in_zone = (cell.x - threat.x).abs() <= 1 && (cell.y - threat.y).abs() <= 1;
        assert!(!in_zone || *cell == target || *cell == origin);
    }
}

#[test]
fn recorded_costs_are_cumulative() {
    // Each reached cell carries the least cumulative edge cost of any
    // admitted walk from the origin, and its predecessor accounts for it.
    let origin = Location { x: 0, y: 0 };
    let target = Location { x: 3, y: 3 };
    let game = threat_free_game(4, 4, origin, target);
    let table = Dijkstra::build_distance_table(&game, &origin, &target, &Mode::Ferris);
    assert_eq!(table.len(), 16);
    // origin: cost zero, its own predecessor
    assert_eq!(table[0].distance, Some(0));
    assert_eq!(table[0].last_vertex, Some((0, 0)));
    // (1,1): one step of round(1000 * sqrt(8)) = 2828, from the origin
    assert_eq!(table[5].distance, Some(2828));
    assert_eq!(table[5].last_vertex, Some((0, 0)));
    // (2,2): 2828 + round(1000 * sqrt(2)) = 4242, from (1,1)
    assert_eq!(table[10].distance, Some(2828 + 1414));
    assert_eq!(table[10].last_vertex, Some((1, 1)));
    // the target adds a zero-cost step from (2,2)
    assert_eq!(table[15].distance, Some(4242));
    assert_eq!(table[15].last_vertex, Some((2, 2)));
    // (0,3): cheapest cumulative approach comes through (1,2)
    assert_eq!(table[3].distance, Some(8064));
    assert_eq!(table[3].last_vertex, Some((1, 2)));
}

#[test]
fn identical_inputs_give_identical_tables_and_routes() {
    let origin = Location { x: 2, y: 2 };
    let target = Location { x: 7, y: 7 };
    let game = Game {
        moves: vec![GameState {
            creepers: vec![Creeper {
                location: Location { x: 4, y: 4 },
            }],
            ferris: Ferris {
                location: origin,
                path: vec![],
            },
        }],
        rows: 8,
        columns: 8,
        target,
        status: Status::Idle,
    };
    let t1 = Dijkstra::build_distance_table(&game, &origin, &target, &Mode::Ferris);
    let t2 = Dijkstra::build_distance_table(&game, &origin, &target, &Mode::Ferris);
    assert_eq!(t1, t2);
    let r1 = Dijkstra::run(&game, &origin, &target, &Mode::Ferris);
    let r2 = Dijkstra::run(&game, &origin, &target, &Mode::Ferris);
    assert_eq!(r1, r2);
}

#[test]
fn enclosed_origin_is_unreachable() {
    // Threats on every neighbor of the origin wall the evader in; the
    // origin and the target themselves are free cells.
    let origin = Location { x: 0, y: 0 };
    let target = Location { x: 4, y: 4 };
    let game = Game {
        moves: vec![GameState {
            creepers: vec![
                Creeper {
                    location: Location { x: 0, y: 1 },
                },
                Creeper {
                    location: Location { x: 1, y: 0 },
                },
                Creeper {
                    location: Location { x: 1, y: 1 },
                },
            ],
            ferris: Ferris {
                location: origin,
                path: vec![],
            },
        }],
        rows: 5,
        columns: 5,
        target,
        status: Status::Idle,
    };
    let result = Dijkstra::run(&game, &origin, &target, &Mode::Ferris);
    assert_eq!(result, Err(SearchError::Unreachable));
}

#[test]
fn evader_threads_between_two_threats() {
    let origin = Location { x: 0, y: 0 };
    let target = Location { x: 9, y: 9 };
    let game = Game {
        moves: vec![GameState {
            creepers: vec![
                Creeper {
                    location: Location { x: 5, y: 5 },
                },
                Creeper {
                    location: Location { x: 2, y: 7 },
                },
            ],
            ferris: Ferris {
                location: origin,
                path: vec![],
            },
        }],
        rows: 10,
        columns: 10,
        target,
        status: Status::Idle,
    };
    let path = Dijkstra::run(&game, &origin, &target, &Mode::Ferris).unwrap();
    let expected: Vec<Location> = [
        (1, 1),
        (2, 2),
        (3, 2),
        (4, 2),
        (5, 2),
        (6, 3),
        (7, 4),
        (8, 5),
        (9, 6),
        (9, 7),
        (9, 8),
        (9, 9),
    ]
    .iter()
    .map(|&(x, y)| Location { x, y })
    .collect();
    assert_eq!(path, expected);
}

#[test]
fn zone_walled_target_is_unreachable() {
    // One threat in the middle column of a narrow grid: its 3x3 zone walls
    // the target off, while the origin and the target themselves stand
    // outside every zone.
    let origin = Location { x: 1, y: 0 };
    let target = Location { x: 1, y: 4 };
    let game = Game {
        moves: vec![GameState {
            creepers: vec![Creeper {
                location: Location { x: 1, y: 2 },
            }],
            ferris: Ferris {
                location: origin,
                path: vec![],
            },
        }],
        rows: 3,
        columns: 5,
        target,
        status: Status::Idle,
    };
    let result = Dijkstra::run(&game, &origin, &target, &Mode::Ferris);
    assert_eq!(result, Err(SearchError::Unreachable));
}

#[test]
fn off_grid_origin_is_rejected() {
    let game = threat_free_game(4, 4, Location { x: 0, y: 0 }, Location { x: 3, y: 3 });
    let result = Dijkstra::run(
        &game,
        &Location { x: 5, y: 5 },
        &Location { x: 3, y: 3 },
        &Mode::Ferris,
    );
    assert_eq!(result, Err(SearchError::InvalidRequest));
}

#[test]
fn off_grid_target_is_rejected() {
    let game = threat_free_game(4, 4, Location { x: 0, y: 0 }, Location { x: 3, y: 3 });
    let result = Dijkstra::run(
        &game,
        &Location { x: 0, y: 0 },
        &Location { x: 0, y: -1 },
        &Mode::Creeper,
    );
    assert_eq!(result, Err(SearchError::InvalidRequest));
}
