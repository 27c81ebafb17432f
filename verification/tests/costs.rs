use survival::dijkstra::Mode;
use survival::model::{Creeper, Ferris, Game, GameState, Location, Status};

fn game_with_creepers(rows: i32, columns: i32, creepers: Vec<Location>) -> Game {
    Game {
        moves: vec![GameState {
            creepers: creepers
                .into_iter()
                .map(|location| Creeper { location })
                .collect(),
            ferris: Ferris {
                location: Location { x: 0, y: 0 },
                path: vec![],
            },
        }],
        rows,
        columns,
        target: Location { x: 0, y: 0 },
        status: Status::Idle,
    }
}

#[test]
fn base_cost_rounds_scaled_euclidean_distance() {
    let game = game_with_creepers(4, 4, vec![]);
    // distance sqrt(13): 1000 * 3.60555... rounds to 3606
    let cost = game.get_weighted_edge((0, 0), (0, 1), &Location { x: 3, y: 3 }, &Mode::Creeper);
    assert_eq!(cost, 3606);
    // distance sqrt(2): 1000 * 1.41421... rounds to 1414
    let cost = game.get_weighted_edge((1, 1), (2, 2), &Location { x: 3, y: 3 }, &Mode::Creeper);
    assert_eq!(cost, 1414);
    // on the target the cost is zero
    let cost = game.get_weighted_edge((2, 2), (3, 3), &Location { x: 3, y: 3 }, &Mode::Creeper);
    assert_eq!(cost, 0);
}

#[test]
fn evader_cost_adds_threat_repulsion() {
    // threat one cell away: full repulsion 10000 on top of the base 2828
    let game = game_with_creepers(4, 4, vec![Location { x: 1, y: 2 }]);
    let cost = game.get_weighted_edge((0, 0), (1, 1), &Location { x: 3, y: 3 }, &Mode::Ferris);
    assert_eq!(cost, 12828);

    // threat on the cell itself counts as distance one
    let game = game_with_creepers(4, 4, vec![Location { x: 0, y: 0 }]);
    let cost = game.get_weighted_edge((0, 1), (0, 0), &Location { x: 3, y: 3 }, &Mode::Ferris);
    assert_eq!(cost, 14243);

    // threat at distance sqrt(8): 10000 / 2.82842... rounds up to 3536
    let game = game_with_creepers(8, 8, vec![Location { x: 4, y: 4 }]);
    let cost = game.get_weighted_edge((1, 1), (2, 2), &Location { x: 3, y: 3 }, &Mode::Ferris);
    assert_eq!(cost, 1414 + 3536);
}

#[test]
fn pursuer_cost_ignores_threats() {
    let with_threat = game_with_creepers(8, 8, vec![Location { x: 2, y: 3 }]);
    let without = game_with_creepers(8, 8, vec![]);
    let target = Location { x: 7, y: 7 };
    for cell in [(2, 2), (3, 4), (0, 7)] {
        assert_eq!(
            with_threat.get_weighted_edge((0, 0), cell, &target, &Mode::Creeper),
            without.get_weighted_edge((0, 0), cell, &target, &Mode::Creeper),
        );
    }
}
