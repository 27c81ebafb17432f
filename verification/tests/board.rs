use survival::dijkstra::Mode;
use survival::model::{Creeper, Direction, Ferris, Game, GameState, Location, Status};

#[test]
fn location_id_and_from() {
    let l = Location::from(3, 7);
    assert_eq!(l, Location { x: 3, y: 7 });
    assert_eq!(l.id(), (3, 7));
}

#[test]
fn move_direction_steps_and_clips() {
    let l = Location { x: 2, y: 2 };
    assert_eq!(l.move_direction(Direction::Up, 5, 5), Location { x: 2, y: 1 });
    assert_eq!(l.move_direction(Direction::Down, 5, 5), Location { x: 2, y: 3 });
    assert_eq!(l.move_direction(Direction::Left, 5, 5), Location { x: 1, y: 2 });
    assert_eq!(l.move_direction(Direction::Right, 5, 5), Location { x: 3, y: 2 });

    let top_left = Location { x: 0, y: 0 };
    assert_eq!(top_left.move_direction(Direction::Up, 5, 5), top_left);
    assert_eq!(top_left.move_direction(Direction::Left, 5, 5), top_left);
    let bottom_right = Location { x: 4, y: 4 };
    assert_eq!(bottom_right.move_direction(Direction::Down, 5, 5), bottom_right);
    assert_eq!(bottom_right.move_direction(Direction::Right, 5, 5), bottom_right);
}

#[test]
fn adjacency_on_a_single_row() {
    let game = Game {
        moves: vec![],
        rows: 1,
        columns: 10,
        target: Location { x: 0, y: 0 },
        status: Status::Idle,
    };
    let adjacent = game.get_adjacent_vertices((0, 5), &game.target, &Mode::Ferris);
    assert_eq!(adjacent, vec![(0, 4), (0, 6)]);
}

fn one_state_game(creepers: Vec<Location>, ferris: Location, target: Location) -> Game {
    Game {
        moves: vec![GameState {
            creepers: creepers
                .into_iter()
                .map(|location| Creeper { location })
                .collect(),
            ferris: Ferris {
                location: ferris,
                path: vec![],
            },
        }],
        rows: 8,
        columns: 8,
        target,
        status: Status::Playing,
    }
}

#[test]
fn validate_status_reports_win() {
    let mut game = one_state_game(
        vec![Location { x: 4, y: 4 }],
        Location { x: 7, y: 7 },
        Location { x: 7, y: 7 },
    );
    game.validate_status();
    assert_eq!(game.status, Status::Won);
}

#[test]
fn validate_status_reports_loss() {
    let mut game = one_state_game(
        vec![Location { x: 3, y: 3 }],
        Location { x: 3, y: 3 },
        Location { x: 7, y: 7 },
    );
    game.validate_status();
    assert_eq!(game.status, Status::Lost);
}

#[test]
fn validate_status_keeps_status_otherwise() {
    let mut game = one_state_game(
        vec![Location { x: 4, y: 4 }],
        Location { x: 2, y: 2 },
        Location { x: 7, y: 7 },
    );
    game.validate_status();
    assert_eq!(game.status, Status::Playing);
}

#[test]
fn init_spawns_and_routes() {
    let game = Game::init_with_creepers(
        4,
        4,
        vec![Location { x: 3, y: 0 }],
        Location { x: 0, y: 0 },
        Location { x: 3, y: 3 },
    );
    assert_eq!(game.status, Status::Idle);
    assert_eq!(game.moves.len(), 1);
    let state = &game.moves[0];
    assert_eq!(state.creepers, vec![Creeper { location: Location { x: 3, y: 0 } }]);
    assert_eq!(state.ferris.location, Location { x: 0, y: 0 });
    assert_eq!(
        state.ferris.path,
        vec![
            Location { x: 1, y: 1 },
            Location { x: 2, y: 2 },
            Location { x: 3, y: 3 },
        ]
    );
}

#[test]
fn tick_moves_threats_on_even_ticks() {
    let game = one_state_game(
        vec![Location { x: 4, y: 4 }],
        Location { x: 2, y: 2 },
        Location { x: 7, y: 7 },
    );
    let after = game.tick(0);
    assert_eq!(after.moves.len(), 2);
    let state = after.moves.last().unwrap();
    // the threat stepped toward the agent along its own route
    assert_eq!(state.creepers, vec![Creeper { location: Location { x: 3, y: 3 } }]);
    // the agent stepped along its route toward the target
    assert_eq!(state.ferris.location, Location { x: 3, y: 1 });
    assert_eq!(state.ferris.path.len(), 8);
    assert_eq!(after.status, Status::Playing);
}

#[test]
fn tick_keeps_threats_on_odd_ticks() {
    let game = one_state_game(
        vec![Location { x: 4, y: 4 }],
        Location { x: 2, y: 2 },
        Location { x: 7, y: 7 },
    );
    let after = game.tick(1);
    let state = after.moves.last().unwrap();
    assert_eq!(state.creepers, vec![Creeper { location: Location { x: 4, y: 4 } }]);
    assert_eq!(state.ferris.location, Location { x: 3, y: 1 });
}

#[test]
fn tick_does_nothing_unless_playing() {
    let mut game = one_state_game(vec![], Location { x: 2, y: 2 }, Location { x: 7, y: 7 });
    game.status = Status::Idle;
    let after = game.tick(0);
    assert_eq!(after.moves.len(), 1);
    assert_eq!(after.status, Status::Idle);
    assert_eq!(after.moves[0].ferris.location, Location { x: 2, y: 2 });
}

#[test]
fn move_ferris_starts_and_steps() {
    let mut game = one_state_game(vec![], Location { x: 0, y: 0 }, Location { x: 3, y: 3 });
    game.status = Status::Idle;
    game.rows = 4;
    game.columns = 4;
    let after = game.move_ferris(Direction::Right);
    assert_eq!(after.status, Status::Playing);
    assert_eq!(after.moves.len(), 2);
    let state = after.moves.last().unwrap();
    assert_eq!(state.ferris.location, Location { x: 1, y: 0 });
    assert_eq!(
        state.ferris.path,
        vec![
            Location { x: 2, y: 1 },
            Location { x: 3, y: 2 },
            Location { x: 3, y: 3 },
        ]
    );
}

#[test]
fn move_ferris_onto_target_wins() {
    let mut game = one_state_game(vec![], Location { x: 3, y: 2 }, Location { x: 3, y: 3 });
    game.rows = 4;
    game.columns = 4;
    let after = game.move_ferris(Direction::Down);
    assert_eq!(after.status, Status::Won);
    let state = after.moves.last().unwrap();
    assert_eq!(state.ferris.location, Location { x: 3, y: 3 });
    assert_eq!(state.ferris.path, Vec::<Location>::new());
}

#[test]
fn move_ferris_ignored_after_game_over() {
    let mut game = one_state_game(vec![], Location { x: 1, y: 1 }, Location { x: 3, y: 3 });
    game.status = Status::Lost;
    let after = game.move_ferris(Direction::Down);
    assert_eq!(after.status, Status::Lost);
    assert_eq!(after.moves.len(), 1);
    assert_eq!(after.moves[0].ferris.location, Location { x: 1, y: 1 });
}
