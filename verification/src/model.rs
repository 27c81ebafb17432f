//! The game board: cells, agents, the adjacency rule and the edge cost
//! used by the distance-table builder.

use vstd::prelude::*;

use crate::arith::{
    isqrt64, isqrt_spec, lemma_isqrt_le, lemma_isqrt_monotone, lemma_isqrt_spec_bounds,
    lemma_isqrt_square,
};
use crate::dijkstra::{
    lemma_run_congruent, lemma_run_path_on_grid, spec_run, Dijkstra, Mode, SearchError,
};
use vstd::arithmetic::div_mod::{
    lemma_div_is_ordered, lemma_div_multiples_vanish, lemma_div_pos_is_pos,
};

verus! {

/// A cell identity: `(row, column)`.
pub type VertexId = (i32, i32);

/// The largest accepted number of rows or columns.  Grids are small; this
/// bound keeps every edge cost and every accumulated route cost (a sum of
/// up to `MAX_DIM * MAX_DIM` edge costs) well inside `i32`.
pub const MAX_DIM: i32 = 100;

/// The largest value `edge_cost` can take on a well-formed grid:
/// `round(1000 * sqrt(2 * (MAX_DIM - 1)^2))` plus the largest repulsion
/// penalty, `10000`.
pub const MAX_EDGE: i32 = 150017;

/// A grid position; `x` is the row, `y` is the column.
#[derive(Clone, Copy, Debug, PartialEq, Eq, Structural)]
pub struct Location {
    pub x: i32,
    pub y: i32,
}

/// A move request for the pursued agent.
pub enum Direction {
    Up,
    Down,
    Left,
    Right,
}

/// Where a game stands.
#[derive(Clone, Copy, Debug, PartialEq, Eq, Structural)]
pub enum Status {
    Idle,
    Won,
    Lost,
    Playing,
}

impl Status {
    /// The status as display text.
    pub fn text(&self) -> (r: &'static str)
        ensures
            r@ == (match self {
                Status::Idle => "Idle"@,
                Status::Won => "Won"@,
                Status::Lost => "Lost"@,
                Status::Playing => "Playing"@,
            }),
    {
        match self {
            Status::Idle => "Idle",
            Status::Won => "Won",
            Status::Lost => "Lost",
            Status::Playing => "Playing",
        }
    }
}

/// The events a running game reacts to.
pub enum GameEvents {
    InitGameWithCreepers(i16, i32, i32),
    Tick(i16),
    MoveFerris(Direction),
}

/// A threat cell.
#[derive(Clone, Debug, PartialEq)]
pub struct Creeper {
    pub location: Location,
}

/// The pursued agent: its position and its latest computed route.
#[derive(Clone, Debug, PartialEq)]
pub struct Ferris {
    pub location: Location,
    pub path: Vec<Location>,
}

/// One snapshot of all agents.
#[derive(Clone, Debug, PartialEq)]
pub struct GameState {
    pub creepers: Vec<Creeper>,
    pub ferris: Ferris,
}

/// A whole game: the history of snapshots, the grid, the target cell and
/// the current status.
#[derive(Clone, Debug, PartialEq)]
pub struct Game {
    pub moves: Vec<GameState>,
    pub rows: i32,
    pub columns: i32,
    pub target: Location,
    pub status: Status,
}

impl Location {
    /// The location lies on a `rows` by `columns` grid.
    pub open spec fn in_bounds(self, rows: int, columns: int) -> bool {
        0 <= (self.x as int) < rows && 0 <= (self.y as int) < columns
    }

    /// Where a move request leads: one step in the given direction, unless
    /// that would leave the `width` by `height` grid, in which case the
    /// location is unchanged.
    pub open spec fn spec_move_direction(self, direction: Direction, width: int, height: int) -> Location {
        match direction {
            Direction::Up => if self.y as int > 0 {
                Location { x: self.x, y: (self.y - 1) as i32 }
            } else {
                self
            },
            Direction::Left => if self.x as int > 0 {
                Location { x: (self.x - 1) as i32, y: self.y }
            } else {
                self
            },
            Direction::Right => if (self.x as int) < width - 1 {
                Location { x: (self.x + 1) as i32, y: self.y }
            } else {
                self
            },
            Direction::Down => if (self.y as int) < height - 1 {
                Location { x: self.x, y: (self.y + 1) as i32 }
            } else {
                self
            },
        }
    }

    /// This location's cell identity.
    pub fn id(&self) -> (r: VertexId)
        ensures
            r == (self.x, self.y),
    {
        (self.x, self.y)
    }

    /// Builds a location from a row and a column.
    pub fn from(x: i32, y: i32) -> (r: Location)
        ensures
            r == (Location { x, y }),
    {
        Location { x, y }
    }

    /// Moves one step in the given direction, staying on the grid.
    pub fn move_direction(&self, direction: Direction, width: i32, height: i32) -> (r: Location)
        requires
            0 <= width,
            0 <= height,
            self.x < i32::MAX,
            self.y < i32::MAX,
        ensures
            r == self.spec_move_direction(direction, width as int, height as int),
    {
        match direction {
            Direction::Up => {
                if self.y > 0 {
                    Location { x: self.x, y: self.y - 1 }
                } else {
                    *self
                }
            },
            Direction::Left => {
                if self.x > 0 {
                    Location { x: self.x - 1, y: self.y }
                } else {
                    *self
                }
            },
            Direction::Right => {
                if self.x < width - 1 {
                    Location { x: self.x + 1, y: self.y }
                } else {
                    *self
                }
            },
            Direction::Down => {
                if self.y < height - 1 {
                    Location { x: self.x, y: self.y + 1 }
                } else {
                    *self
                }
            },
        }
    }
}

/// The cell identity lies on a `rows` by `columns` grid.
pub open spec fn vid_in_bounds(v: VertexId, rows: int, columns: int) -> bool {
    0 <= (v.0 as int) < rows && 0 <= (v.1 as int) < columns
}

/// Builds a cell identity from mathematical coordinates.
pub open spec fn vid(r: int, c: int) -> VertexId {
    (r as i32, c as i32)
}

/// One snapshot is well formed when every agent lies on the grid.
pub open spec fn state_wf(s: GameState, rows: int, columns: int) -> bool {
    &&& s.ferris.location.in_bounds(rows, columns)
    &&& forall|i: int|
        0 <= i < s.creepers@.len() ==> (#[trigger] s.creepers@[i]).location.in_bounds(rows, columns)
}

impl Game {
    /// A well-formed game: a non-degenerate, bounded grid, a target on the
    /// grid, and every recorded snapshot on the grid.
    pub open spec fn wf(self) -> bool {
        &&& 1 <= (self.rows as int) <= (MAX_DIM as int)
        &&& 1 <= (self.columns as int) <= (MAX_DIM as int)
        &&& self.target.in_bounds(self.rows as int, self.columns as int)
        &&& forall|i: int|
            0 <= i < self.moves@.len() ==> state_wf(
                #[trigger] self.moves@[i],
                self.rows as int,
                self.columns as int,
            )
    }

    /// The threat cells of the latest snapshot (none when no snapshot exists).
    pub open spec fn creepers_seq(self) -> Seq<Creeper> {
        if self.moves@.len() > 0 {
            self.moves@.last().creepers@
        } else {
            Seq::<Creeper>::empty()
        }
    }

    /// The pursued agent's position in the latest snapshot, defaulting to
    /// the top-left corner when no snapshot exists.
    pub open spec fn ferris_loc(self) -> Location {
        if self.moves@.len() > 0 {
            self.moves@.last().ferris.location
        } else {
            Location { x: 0, y: 0 }
        }
    }
}

/// Cell `v` lies inside the exclusion zone of some threat in `creepers`:
/// the 3-by-3 block centered on the threat (each coordinate within one).
pub open spec fn creeper_zone_at(creepers: Seq<Creeper>, v: VertexId) -> bool {
    exists|i: int|
        0 <= i < creepers.len() && -1 <= ((#[trigger] creepers[i]).location.x as int) - (
        v.0 as int) <= 1 && -1 <= (creepers[i].location.y as int) - (v.1 as int) <= 1
}

/// The exclusion rule: a candidate cell is kept unless it lies inside some
/// threat's 3-by-3 exclusion zone; the target cell and the pursued agent's
/// own cell are always kept.
pub open spec fn vertex_admitted(
    creepers: Seq<Creeper>,
    v: VertexId,
    target: Location,
    ferris_location: Location,
) -> bool {
    ||| !creeper_zone_at(creepers, v)
    ||| (Location { x: v.0, y: v.1 }) == target
    ||| (Location { x: v.0, y: v.1 }) == ferris_location
}

/// Appends `v` when `cond` holds and the exclusion rule admits it.
pub open spec fn push_candidate(
    s: Seq<VertexId>,
    cond: bool,
    creepers: Seq<Creeper>,
    v: VertexId,
    target: Location,
    ferris_location: Location,
) -> Seq<VertexId> {
    if cond && vertex_admitted(creepers, v, target, ferris_location) {
        s.push(v)
    } else {
        s
    }
}

/// Appends `value` to `vector` if it lies in no threat's 3-by-3 exclusion
/// zone, or if it is the target cell or the pursued agent's own cell.
pub fn insert_adjacent_vertex(
    vector: &mut Vec<VertexId>,
    value: VertexId,
    creepers: &Vec<Creeper>,
    target: &Location,
    ferris_location: &Location,
)
    ensures
        final(vector)@ == (if vertex_admitted(creepers@, value, *target, *ferris_location) {
            old(vector)@.push(value)
        } else {
            old(vector)@
        }),
{
    let (row, column) = value;
    let location = Location::from(row, column);
    let mut found = false;
    let mut i: usize = 0;
    while i < creepers.len()
        invariant
            0 <= i <= creepers@.len(),
            found == creeper_zone_at(creepers@.take(i as int), value),
            value == (row, column),
        decreases creepers@.len() - i,
    {
        let dx = (creepers[i].location.x as i64) - (row as i64);
        let dy = (creepers[i].location.y as i64) - (column as i64);
        if -1 <= dx && dx <= 1 && -1 <= dy && dy <= 1 {
            found = true;
            proof {
                assert(creepers@.take(i as int + 1)[i as int] == creepers@[i as int]);
            }
        }
        proof {
            if creeper_zone_at(creepers@.take(i as int), value) {
                let j = choose|j: int|
                    0 <= j < i && -1 <= ((#[trigger] creepers@.take(i as int)[j]).location.x
                        as int) - (value.0 as int) <= 1 && -1 <= (creepers@.take(
                        i as int,
                    )[j].location.y as int) - (value.1 as int) <= 1;
                assert(creepers@.take(i as int + 1)[j] == creepers@[j]);
            }
            if !found && !creeper_zone_at(creepers@.take(i as int + 1), value) {
            }
        }
        i += 1;
    }
    proof {
        assert(creepers@.take(creepers@.len() as int) == creepers@);
    }
    if !found || location == *target || location == *ferris_location {
        vector.push(value);
    }
}

impl Game {
    /// The fixed-order neighbor list of `vertex_id`: the king-move neighbors
    /// that lie on the grid, scanned left column top to bottom, then the
    /// center column, then the right column, each filtered by the exclusion
    /// rule (no filtering in `Creeper` mode).
    /// The threat cells the exclusion rule filters by: none in `Creeper`
    /// mode, the latest snapshot's threats otherwise.
    pub open spec fn mode_creepers(self, mode: Mode) -> Seq<Creeper> {
        if mode == Mode::Creeper {
            Seq::<Creeper>::empty()
        } else {
            self.creepers_seq()
        }
    }

    pub open spec fn adjacent_spec(self, vertex_id: VertexId, target: Location, mode: Mode) -> Seq<
        VertexId,
    > {
        let cs = self.mode_creepers(mode);
        let f = self.ferris_loc();
        let r = vertex_id.0 as int;
        let c = vertex_id.1 as int;
        let rows = self.rows as int;
        let cols = self.columns as int;
        let s0 = Seq::<VertexId>::empty();
        let s1 = push_candidate(s0, c > 0 && r > 0, cs, vid(r - 1, c - 1), target, f);
        let s2 = push_candidate(s1, c > 0, cs, vid(r, c - 1), target, f);
        let s3 = push_candidate(s2, c > 0 && r < rows - 1, cs, vid(r + 1, c - 1), target, f);
        let s4 = push_candidate(s3, r > 0, cs, vid(r - 1, c), target, f);
        let s5 = push_candidate(s4, r < rows - 1, cs, vid(r + 1, c), target, f);
        let s6 = push_candidate(s5, c < cols - 1 && r > 0, cs, vid(r - 1, c + 1), target, f);
        let s7 = push_candidate(s6, c < cols - 1, cs, vid(r, c + 1), target, f);
        push_candidate(s7, c < cols - 1 && r < rows - 1, cs, vid(r + 1, c + 1), target, f)
    }

    /// Enumerates the admitted neighbors of `vertex_id` in the fixed scan
    /// order.
    pub fn get_adjacent_vertices(&self, vertex_id: VertexId, target: &Location, mode: &Mode) -> (r:
        Vec<VertexId>)
        requires
            self.wf(),
            vid_in_bounds(vertex_id, self.rows as int, self.columns as int),
        ensures
            r@ == self.adjacent_spec(vertex_id, *target, *mode),
    {
        let (row, column) = vertex_id;
        let mut vertices: Vec<VertexId> = Vec::new();
        let empty: Vec<Creeper> = Vec::new();
        let use_empty = matches!(mode, Mode::Creeper) || self.moves.len() == 0;
        let creepers: &Vec<Creeper> = if use_empty {
            &empty
        } else {
            &self.moves[self.moves.len() - 1].creepers
        };
        let ferris_location = if self.moves.len() > 0 {
            self.moves[self.moves.len() - 1].ferris.location
        } else {
            Location { x: 0, y: 0 }
        };
        proof {
            assert(creepers@ == (if *mode == Mode::Creeper {
                Seq::<Creeper>::empty()
            } else {
                self.creepers_seq()
            }));
            assert(ferris_location == self.ferris_loc());
        }
        // left column
        if column > 0 {
            if row > 0 {
                insert_adjacent_vertex(
                    &mut vertices,
                    (row - 1, column - 1),
                    creepers,
                    target,
                    &ferris_location,
                );
            }
            insert_adjacent_vertex(
                &mut vertices,
                (row, column - 1),
                creepers,
                target,
                &ferris_location,
            );
            if row < self.rows - 1 {
                insert_adjacent_vertex(
                    &mut vertices,
                    (row + 1, column - 1),
                    creepers,
                    target,
                    &ferris_location,
                );
            }
        }
        // center column
        if row > 0 {
            insert_adjacent_vertex(
                &mut vertices,
                (row - 1, column),
                creepers,
                target,
                &ferris_location,
            );
        }
        if row < self.rows - 1 {
            insert_adjacent_vertex(
                &mut vertices,
                (row + 1, column),
                creepers,
                target,
                &ferris_location,
            );
        }
        // right column
        if column < self.columns - 1 {
            if row > 0 {
                insert_adjacent_vertex(
                    &mut vertices,
                    (row - 1, column + 1),
                    creepers,
                    target,
                    &ferris_location,
                );
            }
            insert_adjacent_vertex(
                &mut vertices,
                (row, column + 1),
                creepers,
                target,
                &ferris_location,
            );
            if row < self.rows - 1 {
                insert_adjacent_vertex(
                    &mut vertices,
                    (row + 1, column + 1),
                    creepers,
                    target,
                    &ferris_location,
                );
            }
        }
        vertices
    }
}

/// Every cell the neighbor enumerator returns lies on the grid.
pub proof fn lemma_adjacent_spec_in_bounds(g: Game, vertex_id: VertexId, target: Location, mode: Mode)
    requires
        g.wf(),
        vid_in_bounds(vertex_id, g.rows as int, g.columns as int),
    ensures
        forall|k: int|
            0 <= k < g.adjacent_spec(vertex_id, target, mode).len() ==> vid_in_bounds(
                #[trigger] g.adjacent_spec(vertex_id, target, mode)[k],
                g.rows as int,
                g.columns as int,
            ),
{
}

/// Cells `a` and `b` are distinct and one king move apart: each
/// coordinate differs by at most one.
pub open spec fn king_adj(a: VertexId, b: VertexId) -> bool {
    &&& a != b
    &&& -1 <= (a.0 as int) - (b.0 as int) <= 1
    &&& -1 <= (a.1 as int) - (b.1 as int) <= 1
}

/// Every cell the neighbor enumerator returns is one king move away.
#[verifier::rlimit(50)]
pub proof fn lemma_adjacent_spec_king(g: Game, vertex_id: VertexId, target: Location, mode: Mode)
    requires
        vid_in_bounds(vertex_id, g.rows as int, g.columns as int),
    ensures
        forall|k: int|
            0 <= k < g.adjacent_spec(vertex_id, target, mode).len() ==> king_adj(
                vertex_id,
                #[trigger] g.adjacent_spec(vertex_id, target, mode)[k],
            ),
{
}

/// Every cell the neighbor enumerator returns passed the exclusion rule.
pub proof fn lemma_adjacent_spec_admitted(g: Game, vertex_id: VertexId, target: Location, mode: Mode)
    ensures
        forall|k: int|
            0 <= k < g.adjacent_spec(vertex_id, target, mode).len() ==> vertex_admitted(
                g.mode_creepers(mode),
                #[trigger] g.adjacent_spec(vertex_id, target, mode)[k],
                target,
                g.ferris_loc(),
            ),
{
}


/// Squared Euclidean distance between the cells `(ax, ay)` and `(bx, by)`.
pub open spec fn sq_dist(ax: int, ay: int, bx: int, by: int) -> int {
    (ax - bx) * (ax - bx) + (ay - by) * (ay - by)
}

/// The nearest integer to `1000 * sqrt(sq)`, computed exactly over integers:
/// `round(sqrt(N))` equals `(isqrt(4 * N) + 1) / 2`, with `N == 1000000 * sq`.
pub open spec fn base_cost(sq: int) -> int {
    ((isqrt_spec((4000000 * sq) as nat) + 1) / 2) as int
}

/// The smallest squared distance from cell `v` to any threat in `creepers`.
pub open spec fn min_creeper_sq_dist(creepers: Seq<Creeper>, v: VertexId) -> int
    decreases creepers.len(),
{
    if creepers.len() == 0 {
        0
    } else if creepers.len() == 1 {
        sq_dist(
            creepers[0].location.x as int,
            creepers[0].location.y as int,
            v.0 as int,
            v.1 as int,
        )
    } else {
        let m = min_creeper_sq_dist(creepers.drop_last(), v);
        let d = sq_dist(
            creepers.last().location.x as int,
            creepers.last().location.y as int,
            v.0 as int,
            v.1 as int,
        );
        if d < m {
            d
        } else {
            m
        }
    }
}

/// The repulsion penalty for the smallest squared threat distance `sq`: the
/// nearest integer to `10000 / sqrt(sq)`, with `sq == 0` treated as distance
/// one (so the penalty is `10000`).
pub open spec fn repulsion_cost(sq: int) -> int {
    if sq == 0 {
        10000
    } else {
        ((isqrt_spec((400000000 * sq) as nat) as int) / sq + 1) / 2
    }
}

/// The cost of stepping onto `neighbor`: the scaled Euclidean distance to
/// the target, plus, in `Ferris` mode with at least one threat present, the
/// repulsion penalty for the nearest threat.
pub open spec fn edge_cost(g: Game, neighbor: VertexId, target: Location, mode: Mode) -> int {
    base_cost(sq_dist(target.x as int, target.y as int, neighbor.0 as int, neighbor.1 as int)) + (
    if mode == Mode::Ferris && g.creepers_seq().len() > 0 {
        repulsion_cost(min_creeper_sq_dist(g.creepers_seq(), neighbor))
    } else {
        0
    })
}

/// A squared distance is never negative.
pub proof fn lemma_sq_dist_nonneg(ax: int, ay: int, bx: int, by: int)
    ensures
        sq_dist(ax, ay, bx, by) >= 0,
{
    assert((ax - bx) * (ax - bx) >= 0 && (ay - by) * (ay - by) >= 0) by (nonlinear_arith);
}

/// On a bounded grid the squared distance between two cells is bounded.
pub proof fn lemma_sq_dist_bounds(ax: int, ay: int, bx: int, by: int)
    requires
        0 <= ax < 100,
        0 <= ay < 100,
        0 <= bx < 100,
        0 <= by < 100,
    ensures
        0 <= sq_dist(ax, ay, bx, by) <= 19602,
{
    assert(0 <= (ax - bx) * (ax - bx) <= 9801) by (nonlinear_arith)
        requires -99 <= ax - bx <= 99;
    assert(0 <= (ay - by) * (ay - by) <= 9801) by (nonlinear_arith)
        requires -99 <= ay - by <= 99;
}

/// The smallest squared threat distance is never negative.
pub proof fn lemma_min_creeper_sq_dist_nonneg(creepers: Seq<Creeper>, v: VertexId)
    ensures
        min_creeper_sq_dist(creepers, v) >= 0,
    decreases creepers.len(),
{
    if creepers.len() == 0 {
    } else if creepers.len() == 1 {
        lemma_sq_dist_nonneg(
            creepers[0].location.x as int,
            creepers[0].location.y as int,
            v.0 as int,
            v.1 as int,
        );
    } else {
        lemma_min_creeper_sq_dist_nonneg(creepers.drop_last(), v);
        lemma_sq_dist_nonneg(
            creepers.last().location.x as int,
            creepers.last().location.y as int,
            v.0 as int,
            v.1 as int,
        );
    }
}

/// The repulsion penalty always lies between `0` and `10000`.
pub proof fn lemma_repulsion_cost_le(sq: int)
    requires
        sq >= 0,
    ensures
        0 <= repulsion_cost(sq) <= 10000,
{
    if sq == 0 {
    } else {
        let n = (400000000 * sq) as nat;
        let q = isqrt_spec(n) as int;
        lemma_isqrt_spec_bounds(n);
        assert(400000000 * sq <= (20000 * sq) * (20000 * sq)) by (nonlinear_arith)
            requires sq >= 1;
        lemma_isqrt_square((20000 * sq) as nat);
        lemma_isqrt_monotone(n, ((20000 * sq) * (20000 * sq)) as nat);
        assert(q <= 20000 * sq);
        lemma_div_pos_is_pos(q, sq);
        lemma_div_is_ordered(q, 20000 * sq, sq);
        lemma_div_multiples_vanish(20000, sq);
        assert(q / sq <= 20000);
        lemma_div_pos_is_pos(q / sq + 1, 2);
        lemma_div_is_ordered(q / sq + 1, 20001, 2);
    }
}

/// The base cost is bounded on any grid whose sides stay within `MAX_DIM`.
pub proof fn lemma_base_cost_le(sq: int)
    requires
        0 <= sq <= 19602,
    ensures
        0 <= base_cost(sq) <= 140007,
{
    let n = (4000000 * sq) as nat;
    assert(4000000 * sq < 280015 * 280015) by (nonlinear_arith)
        requires 0 <= sq <= 19602;
    lemma_isqrt_le(n, 280014);
    lemma_isqrt_spec_bounds(n);
}

/// On a well-formed game the edge cost is bounded: it fits `i32` with room
/// for a whole route of them.
pub proof fn lemma_edge_cost_bounds(g: Game, neighbor: VertexId, target: Location, mode: Mode)
    requires
        g.wf(),
        vid_in_bounds(neighbor, g.rows as int, g.columns as int),
        target.in_bounds(g.rows as int, g.columns as int),
    ensures
        0 <= edge_cost(g, neighbor, target, mode) <= MAX_EDGE as int,
{
    let sq = sq_dist(target.x as int, target.y as int, neighbor.0 as int, neighbor.1 as int);
    lemma_sq_dist_bounds(target.x as int, target.y as int, neighbor.0 as int, neighbor.1 as int);
    lemma_base_cost_le(sq);
    if mode == Mode::Ferris && g.creepers_seq().len() > 0 {
        lemma_min_creeper_sq_dist_nonneg(g.creepers_seq(), neighbor);
        lemma_repulsion_cost_le(min_creeper_sq_dist(g.creepers_seq(), neighbor));
    }
}

/// Only the target itself costs nothing to step onto.
pub proof fn lemma_edge_cost_zero(g: Game, neighbor: VertexId, target: Location, mode: Mode)
    requires
        edge_cost(g, neighbor, target, mode) == 0,
    ensures
        neighbor == ((target.x, target.y)),
{
    let sq = sq_dist(target.x as int, target.y as int, neighbor.0 as int, neighbor.1 as int);
    lemma_sq_dist_nonneg(target.x as int, target.y as int, neighbor.0 as int, neighbor.1 as int);
    if mode == Mode::Ferris && g.creepers_seq().len() > 0 {
        lemma_min_creeper_sq_dist_nonneg(g.creepers_seq(), neighbor);
        lemma_repulsion_cost_le(min_creeper_sq_dist(g.creepers_seq(), neighbor));
    }
    assert(base_cost(sq) == 0);
    let m = (4000000 * sq) as nat;
    lemma_isqrt_spec_bounds(m);
    if isqrt_spec(m) >= 1 {
        assert((isqrt_spec(m) + 1) / 2 >= 1);
        assert(false);
    }
    assert(m < 1) by (nonlinear_arith)
        requires isqrt_spec(m) == 0 && m < (isqrt_spec(m) + 1) * (isqrt_spec(m) + 1);
    assert(sq == 0);
    assert((target.x as int - neighbor.0 as int) * (target.x as int - neighbor.0 as int) == 0
        ==> target.x as int == neighbor.0 as int) by (nonlinear_arith);
    assert((target.y as int - neighbor.1 as int) * (target.y as int - neighbor.1 as int) == 0
        ==> target.y as int == neighbor.1 as int) by (nonlinear_arith);
    assert((target.x as int - neighbor.0 as int) * (target.x as int - neighbor.0 as int) >= 0
        && (target.y as int - neighbor.1 as int) * (target.y as int - neighbor.1 as int) >= 0)
        by (nonlinear_arith);
}

/// The edge cost is never negative, whatever the inputs.
pub proof fn lemma_edge_cost_nonneg(g: Game, neighbor: VertexId, target: Location, mode: Mode)
    ensures
        edge_cost(g, neighbor, target, mode) >= 0,
{
    let sq = sq_dist(target.x as int, target.y as int, neighbor.0 as int, neighbor.1 as int);
    lemma_sq_dist_nonneg(target.x as int, target.y as int, neighbor.0 as int, neighbor.1 as int);
    assert(base_cost(sq) >= 0);
    if mode == Mode::Ferris && g.creepers_seq().len() > 0 {
        lemma_min_creeper_sq_dist_nonneg(g.creepers_seq(), neighbor);
        lemma_repulsion_cost_le(min_creeper_sq_dist(g.creepers_seq(), neighbor));
    }
}

impl Game {
    /// The weight of moving onto `neighbor` while heading for `target`.
    #[verifier::loop_isolation(false)]
    pub fn get_weighted_edge(
        &self,
        _current_vertex: VertexId,
        neighbor: VertexId,
        target: &Location,
        mode: &Mode,
    ) -> (r: i32)
        requires
            self.wf(),
            vid_in_bounds(neighbor, self.rows as int, self.columns as int),
            target.in_bounds(self.rows as int, self.columns as int),
            *mode == Mode::Ferris ==> self.moves@.len() > 0,
        ensures
            r as int == edge_cost(*self, neighbor, *target, *mode),
            0 <= r <= MAX_EDGE,
    {
        let (row, column) = neighbor;
        let ghost sqd = sq_dist(target.x as int, target.y as int, row as int, column as int);
        let dx = (target.x as i64) - (row as i64);
        let dy = (target.y as i64) - (column as i64);
        proof {
            assert(0 <= dx * dx <= 9801 && 0 <= dy * dy <= 9801) by (nonlinear_arith)
                requires -99 <= dx <= 99 && -99 <= dy <= 99;
        }
        let d2 = (dx * dx + dy * dy) as u64;
        proof {
            assert(d2 as int == sqd);
            assert(0 <= sqd <= 19602);
        }
        let s = isqrt64(4_000_000 * d2);
        let base_wide = (s + 1) / 2;
        proof {
            lemma_base_cost_le(sqd);
            assert((4_000_000 * d2) as nat == (4000000 * sqd) as nat);
            assert(base_wide as int == base_cost(sqd));
        }
        let mut cost = base_wide as i32;
        let ghost mode_val = *mode;
        if matches!(mode, Mode::Ferris) {
            let last = self.moves.len() - 1;
            proof {
                assert(state_wf(self.moves@[last as int], self.rows as int, self.columns as int));
            }
            let creepers = &self.moves[last].creepers;
            proof {
                assert(creepers@ == self.creepers_seq());
            }
            if creepers.len() > 0 {
                let c0 = &creepers[0];
                let cdx = (c0.location.x as i64) - (row as i64);
                let cdy = (c0.location.y as i64) - (column as i64);
                proof {
                    assert(0 <= cdx * cdx <= 9801 && 0 <= cdy * cdy <= 9801)
                        by (nonlinear_arith)
                        requires -99 <= cdx <= 99 && -99 <= cdy <= 99;
                }
                let mut nmin = (cdx * cdx + cdy * cdy) as u64;
                proof {
                    assert(creepers@.take(1) =~= seq![creepers@[0]]);
                    assert(nmin as int == min_creeper_sq_dist(creepers@.take(1), neighbor));
                }
                let mut i: usize = 1;
                while i < creepers.len()
                    invariant
                        1 <= i <= creepers@.len(),
                        nmin as int == min_creeper_sq_dist(creepers@.take(i as int), neighbor),
                        nmin <= 19602,
                    decreases creepers@.len() - i,
                {
                    let c = &creepers[i];
                    let edx = (c.location.x as i64) - (row as i64);
                    let edy = (c.location.y as i64) - (column as i64);
                    proof {
                        assert(0 <= edx * edx <= 9801 && 0 <= edy * edy <= 9801)
                            by (nonlinear_arith)
                            requires -99 <= edx <= 99 && -99 <= edy <= 99;
                    }
                    let d = (edx * edx + edy * edy) as u64;
                    proof {
                        assert(creepers@.take(i as int + 1).drop_last() =~= creepers@.take(
                            i as int,
                        ));
                        assert(creepers@.take(i as int + 1).last() == creepers@[i as int]);
                    }
                    if d < nmin {
                        nmin = d;
                    }
                    i += 1;
                }
                proof {
                    assert(creepers@.take(creepers@.len() as int) =~= creepers@);
                    assert(nmin as int == min_creeper_sq_dist(self.creepers_seq(), neighbor));
                }
                let rep: i32 = if nmin == 0 {
                    10000
                } else {
                    let s2 = isqrt64(400_000_000 * nmin);
                    proof {
                        lemma_repulsion_cost_le(nmin as int);
                        lemma_div_pos_is_pos(s2 as int, nmin as int);
                        assert((400_000_000 * nmin) as nat == (400000000 * (nmin as int)) as nat);
                    }
                    ((s2 / nmin + 1) / 2) as i32
                };
                proof {
                    lemma_repulsion_cost_le(nmin as int);
                    assert(rep as int == repulsion_cost(nmin as int));
                }
                cost = cost + rep;
            }
        }
        proof {
            assert(cost as int == edge_cost(*self, neighbor, *target, mode_val));
        }
        cost
    }

    /// The status the game should show: `Won` when the pursued agent stands
    /// on the target, otherwise `Lost` when a threat stands on the agent,
    /// otherwise unchanged.  With no recorded snapshot nothing changes.
    pub open spec fn spec_validate_status(g: Game) -> Status {
        if g.moves@.len() == 0 {
            g.status
        } else {
            let st = g.moves@.last();
            status_after_check(g.target, st.ferris.location, st.creepers@, g.status)
        }
    }

    /// Re-derives the game status from the latest snapshot.
    #[verifier::loop_isolation(false)]
    pub fn validate_status(&mut self)
        ensures
            final(self).status == Game::spec_validate_status(*old(self)),
            final(self).moves == old(self).moves,
            final(self).rows == old(self).rows,
            final(self).columns == old(self).columns,
            final(self).target == old(self).target,
    {
        if self.moves.len() == 0 {
            return ;
        }
        let last = self.moves.len() - 1;
        let ferris_location = self.moves[last].ferris.location;
        if self.target == ferris_location {
            self.status = Status::Won;
            return ;
        }
        let mut i: usize = 0;
        let mut lost = false;
        while i < self.moves[last].creepers.len()
            invariant
                0 <= i <= self.moves@[last as int].creepers@.len(),
                lost == exists|j: int|
                    0 <= j < i && (#[trigger] self.moves@[last as int].creepers@[j]).location
                        == ferris_location,
            decreases self.moves@[last as int].creepers@.len() - i,
        {
            if self.moves[last].creepers[i].location == ferris_location {
                lost = true;
            }
            i += 1;
        }
        if lost {
            self.status = Status::Lost;
        }
    }
}

/// Two games agree on everything the search reads: the grid, the latest
/// threat cells, and the pursued agent's cell.  Recorded histories and
/// routes play no role in a search.
pub open spec fn nav_eq(g1: Game, g2: Game) -> bool {
    &&& g1.rows == g2.rows
    &&& g1.columns == g2.columns
    &&& g1.creepers_seq() == g2.creepers_seq()
    &&& g1.ferris_loc() == g2.ferris_loc()
}

/// The edge cost reads only what `nav_eq` fixes.
pub proof fn lemma_edge_cost_congruent(
    g1: Game,
    g2: Game,
    neighbor: VertexId,
    target: Location,
    mode: Mode,
)
    requires
        nav_eq(g1, g2),
    ensures
        edge_cost(g1, neighbor, target, mode) == edge_cost(g2, neighbor, target, mode),
{
}

/// The neighbor enumerator reads only what `nav_eq` fixes.
pub proof fn lemma_adjacent_spec_congruent(
    g1: Game,
    g2: Game,
    vertex_id: VertexId,
    target: Location,
    mode: Mode,
)
    requires
        nav_eq(g1, g2),
    ensures
        g1.adjacent_spec(vertex_id, target, mode) == g2.adjacent_spec(vertex_id, target, mode),
{
    assert(g1.mode_creepers(mode) == g2.mode_creepers(mode));
}

/// The win/lose check over one snapshot: `Won` when the pursued agent
/// stands on the target, otherwise `Lost` when a threat stands on the
/// agent, otherwise `fallback`.
pub open spec fn status_after_check(
    target: Location,
    ferris: Location,
    creepers: Seq<Creeper>,
    fallback: Status,
) -> Status {
    if target == ferris {
        Status::Won
    } else if exists|i: int| 0 <= i < creepers.len() && (#[trigger] creepers[i]).location == ferris {
        Status::Lost
    } else {
        fallback
    }
}

/// The route a search produced, or an empty route when it failed.
pub open spec fn path_of(r: Result<Seq<Location>, SearchError>) -> Seq<Location> {
    match r {
        Ok(p) => p,
        Err(_) => Seq::<Location>::empty(),
    }
}

/// The first step of a produced route, or `l` itself when there is none.
pub open spec fn stepped_location(l: Location, r: Result<Seq<Location>, SearchError>) -> Location {
    match r {
        Ok(p) => if p.len() > 0 {
            p[0]
        } else {
            l
        },
        Err(_) => l,
    }
}

/// Where a threat moves on a tick: one step along its route toward the
/// pursued agent, or nowhere when no route was found.
pub open spec fn moved_creeper(g: Game, c: Creeper, pursued: Location) -> Creeper {
    Creeper { location: stepped_location(c.location, spec_run(g, c.location, pursued, Mode::Creeper)) }
}

/// Two snapshots carry the same data (element for element).
pub open spec fn state_equiv(a: GameState, b: GameState) -> bool {
    &&& a.creepers@ == b.creepers@
    &&& a.ferris.location == b.ferris.location
    &&& a.ferris.path@ == b.ferris.path@
}

/// Copies a route.
fn clone_locations(v: &Vec<Location>) -> (r: Vec<Location>)
    ensures
        r@ == v@,
{
    let mut r: Vec<Location> = Vec::new();
    let mut i: usize = 0;
    while i < v.len()
        invariant
            i <= v@.len(),
            r@ == v@.take(i as int),
        decreases v@.len() - i,
    {
        r.push(v[i]);
        proof {
            assert(v@.take(i as int + 1) =~= v@.take(i as int).push(v@[i as int]));
        }
        i += 1;
    }
    proof {
        assert(v@.take(v@.len() as int) =~= v@);
    }
    r
}

/// Copies a threat list.
fn clone_creepers(v: &Vec<Creeper>) -> (r: Vec<Creeper>)
    ensures
        r@ == v@,
{
    let mut r: Vec<Creeper> = Vec::new();
    let mut i: usize = 0;
    while i < v.len()
        invariant
            i <= v@.len(),
            r@ == v@.take(i as int),
        decreases v@.len() - i,
    {
        r.push(Creeper { location: v[i].location });
        proof {
            assert((Creeper { location: v@[i as int].location }) == v@[i as int]);
            assert(v@.take(i as int + 1) =~= v@.take(i as int).push(v@[i as int]));
        }
        i += 1;
    }
    proof {
        assert(v@.take(v@.len() as int) =~= v@);
    }
    r
}

/// Copies one snapshot.
fn clone_state(st: &GameState) -> (r: GameState)
    ensures
        state_equiv(r, *st),
{
    GameState {
        creepers: clone_creepers(&st.creepers),
        ferris: Ferris { location: st.ferris.location, path: clone_locations(&st.ferris.path) },
    }
}

/// Copies a history of snapshots.
fn clone_states(v: &Vec<GameState>) -> (r: Vec<GameState>)
    ensures
        r@.len() == v@.len(),
        forall|i: int| 0 <= i < v@.len() ==> state_equiv(#[trigger] r@[i], v@[i]),
{
    let mut r: Vec<GameState> = Vec::new();
    let mut i: usize = 0;
    while i < v.len()
        invariant
            i <= v@.len(),
            r@.len() == i,
            forall|j: int| 0 <= j < i ==> state_equiv(#[trigger] r@[j], v@[j]),
        decreases v@.len() - i,
    {
        let c = clone_state(&v[i]);
        r.push(c);
        i += 1;
    }
    r
}

impl Game {
    /// Starts a fresh game on a `rows` by `columns` grid from already
    /// chosen spawn cells, computes the pursued agent's first route, and
    /// derives the starting status.
    #[verifier::loop_isolation(false)]
    pub fn init_with_creepers(
        rows: i32,
        columns: i32,
        creeper_locations: Vec<Location>,
        ferris_location: Location,
        target: Location,
    ) -> (g: Game)
        requires
            1 <= (rows as int) <= (MAX_DIM as int),
            1 <= (columns as int) <= (MAX_DIM as int),
            target.in_bounds(rows as int, columns as int),
            ferris_location.in_bounds(rows as int, columns as int),
            forall|i: int|
                0 <= i < creeper_locations@.len() ==> (#[trigger] creeper_locations@[i]).in_bounds(
                    rows as int,
                    columns as int,
                ),
        ensures
            g.wf(),
            g.rows == rows,
            g.columns == columns,
            g.target == target,
            g.moves@.len() == 1,
            g.moves@[0].creepers@ == creeper_locations@.map_values(
                |l: Location| Creeper { location: l },
            ),
            g.moves@[0].ferris.location == ferris_location,
            g.moves@[0].ferris.path@ == path_of(spec_run(g, ferris_location, target, Mode::Ferris)),
            g.status == status_after_check(
                target,
                ferris_location,
                g.moves@[0].creepers@,
                Status::Idle,
            ),
    {
        let ghost fmap = |l: Location| Creeper { location: l };
        let mut creepers: Vec<Creeper> = Vec::new();
        let mut i: usize = 0;
        while i < creeper_locations.len()
            invariant
                i <= creeper_locations@.len(),
                creepers@ == creeper_locations@.take(i as int).map_values(fmap),
            decreases creeper_locations@.len() - i,
        {
            creepers.push(Creeper { location: creeper_locations[i] });
            proof {
                assert((Creeper { location: creeper_locations@[i as int] }) == fmap(
                    creeper_locations@[i as int],
                ));
                assert(creeper_locations@.take(i as int + 1).map_values(fmap)
                    =~= creeper_locations@.take(i as int).map_values(fmap).push(
                    fmap(creeper_locations@[i as int]),
                ));
            }
            i += 1;
        }
        proof {
            assert(creeper_locations@.take(creeper_locations@.len() as int)
                =~= creeper_locations@);
        }
        let ferris = Ferris { location: ferris_location, path: Vec::new() };
        let mut moves: Vec<GameState> = Vec::new();
        moves.push(GameState { creepers, ferris });
        let mut game = Game { moves, rows, columns, target, status: Status::Idle };
        proof {
            assert forall|j: int| 0 <= j < game.moves@.len() implies state_wf(
                #[trigger] game.moves@[j],
                rows as int,
                columns as int,
            ) by {
                assert forall|k: int|
                    0 <= k < game.moves@[j].creepers@.len() implies (#[trigger] game.moves@[
                    j].creepers@[k]).location.in_bounds(rows as int, columns as int) by {
                    assert(game.moves@[j].creepers@[k] == fmap(creeper_locations@[k]));
                }
            }
            assert(game.wf());
        }
        let ghost g0 = game;
        let res = Dijkstra::run(&game, &ferris_location, &target, &Mode::Ferris);
        let path_vec: Vec<Location> = match res {
            Ok(p) => p,
            Err(_) => Vec::new(),
        };
        proof {
            assert(path_vec@ == path_of(spec_run(g0, ferris_location, target, Mode::Ferris)));
        }
        let st = game.moves.remove(0);
        let st2 = GameState {
            creepers: st.creepers,
            ferris: Ferris { location: st.ferris.location, path: path_vec },
        };
        game.moves.push(st2);
        game.validate_status();
        proof {
            assert(nav_eq(g0, game));
            lemma_run_congruent(g0, game, ferris_location, target, Mode::Ferris);
        }
        game
    }

    /// One simulation step: on even ticks every threat takes one step along
    /// its route toward the pursued agent; the agent takes one step along
    /// its route toward the target; the new snapshot joins the history and
    /// the status is re-derived.  Both routes are computed against the
    /// snapshot the tick started from.  Outside `Playing` nothing happens.
    #[verifier::loop_isolation(false)]
    pub fn tick(&self, tick: i16) -> (g: Game)
        requires
            self.wf(),
            self.moves@.len() > 0,
            0 <= tick,
        ensures
            g.wf(),
            g.rows == self.rows,
            g.columns == self.columns,
            g.target == self.target,
            self.status != Status::Playing ==> (g.status == self.status && g.moves@.len()
                == self.moves@.len() && (forall|i: int|
                0 <= i < g.moves@.len() ==> state_equiv(#[trigger] g.moves@[i], self.moves@[i]))),
            self.status == Status::Playing ==> ({
                let fres = spec_run(*self, self.ferris_loc(), self.target, Mode::Ferris);
                &&& g.moves@.len() == self.moves@.len() + 1
                &&& (forall|i: int|
                    0 <= i < self.moves@.len() ==> state_equiv(
                        #[trigger] g.moves@[i],
                        self.moves@[i],
                    ))
                &&& g.moves@.last().creepers@ == (if tick as int % 2 == 0 {
                    self.creepers_seq().map_values(
                        |c: Creeper| moved_creeper(*self, c, self.ferris_loc()),
                    )
                } else {
                    self.creepers_seq()
                })
                &&& g.moves@.last().ferris.location == stepped_location(self.ferris_loc(), fres)
                &&& g.moves@.last().ferris.path@ == path_of(fres)
                &&& g.status == status_after_check(
                    self.target,
                    g.moves@.last().ferris.location,
                    g.moves@.last().creepers@,
                    Status::Playing,
                )
            }),
    {
        if !(self.status == Status::Playing) {
            return Game {
                moves: clone_states(&self.moves),
                rows: self.rows,
                columns: self.columns,
                target: self.target,
                status: self.status,
            };
        }
        let last_idx = self.moves.len() - 1;
        let floc = self.moves[last_idx].ferris.location;
        proof {
            assert(floc == self.ferris_loc());
            assert(state_wf(self.moves@[last_idx as int], self.rows as int, self.columns as int));
        }
        let ghost cmap = |c: Creeper| moved_creeper(*self, c, self.ferris_loc());
        let old_creepers = &self.moves[last_idx].creepers;
        let new_creepers: Vec<Creeper> = if tick % 2 == 0 {
            let mut nc: Vec<Creeper> = Vec::new();
            let mut i: usize = 0;
            while i < old_creepers.len()
                invariant
                    i <= old_creepers@.len(),
                    old_creepers@ == self.creepers_seq(),
                    nc@ == self.creepers_seq().take(i as int).map_values(cmap),
                    forall|j: int|
                        0 <= j < i ==> (#[trigger] nc@[j]).location.in_bounds(
                            self.rows as int,
                            self.columns as int,
                        ),
                decreases old_creepers@.len() - i,
            {
                let c = &old_creepers[i];
                let r = Dijkstra::run(self, &c.location, &floc, &Mode::Creeper);
                proof {
                    lemma_run_path_on_grid(*self, c.location, floc, Mode::Creeper);
                }
                let nloc = match r {
                    Ok(p) => if p.len() > 0 {
                        p[0]
                    } else {
                        c.location
                    },
                    Err(_) => c.location,
                };
                nc.push(Creeper { location: nloc });
                proof {
                    assert((Creeper { location: nloc }) == cmap(self.creepers_seq()[i as int]));
                    assert(self.creepers_seq().take(i as int + 1).map_values(cmap)
                        =~= self.creepers_seq().take(i as int).map_values(cmap).push(
                        cmap(self.creepers_seq()[i as int]),
                    ));
                }
                i += 1;
            }
            proof {
                assert(self.creepers_seq().take(self.creepers_seq().len() as int)
                    =~= self.creepers_seq());
            }
            nc
        } else {
            clone_creepers(old_creepers)
        };
        let fres = Dijkstra::run(self, &floc, &self.target, &Mode::Ferris);
        proof {
            lemma_run_path_on_grid(*self, floc, self.target, Mode::Ferris);
        }
        let (new_floc, new_path): (Location, Vec<Location>) = match fres {
            Ok(p) => {
                proof {
                    if p@.len() > 0 {
                        match spec_run(*self, floc, self.target, Mode::Ferris) {
                            Ok(q) => {
                                assert(q == p@);
                                assert(q[0].in_bounds(self.rows as int, self.columns as int));
                            },
                            Err(_) => {
                                assert(false);
                            },
                        }
                    }
                }
                if p.len() > 0 {
                    let l = p[0];
                    (l, p)
                } else {
                    (floc, p)
                }
            },
            Err(_) => (floc, Vec::new()),
        };
        proof {
            assert(new_floc.in_bounds(self.rows as int, self.columns as int));
            assert forall|k: int| 0 <= k < new_creepers@.len() implies (
            #[trigger] new_creepers@[k]).location.in_bounds(
                self.rows as int,
                self.columns as int,
            ) by {
                if !(tick as int % 2 == 0) {
                    assert(new_creepers@[k] == self.moves@[last_idx as int].creepers@[k]);
                }
            }
        }
        let mut moves = clone_states(&self.moves);
        moves.push(
            GameState {
                creepers: new_creepers,
                ferris: Ferris { location: new_floc, path: new_path },
            },
        );
        let mut g = Game {
            moves,
            rows: self.rows,
            columns: self.columns,
            target: self.target,
            status: Status::Playing,
        };
        g.validate_status();
        proof {
            assert forall|j: int| 0 <= j < g.moves@.len() implies state_wf(
                #[trigger] g.moves@[j],
                self.rows as int,
                self.columns as int,
            ) by {
                if j < self.moves@.len() {
                    assert(state_equiv(g.moves@[j], self.moves@[j]));
                    assert(state_wf(self.moves@[j], self.rows as int, self.columns as int));
                }
            }
        }
        g
    }

    /// Moves the pursued agent one step in `direction` (clipped to the
    /// grid), recomputes its route, appends the new snapshot, and
    /// re-derives the status; reaching the target wins at once.  An `Idle`
    /// game starts `Playing`; a finished game is returned unchanged.
    #[verifier::loop_isolation(false)]
    pub fn move_ferris(&self, direction: Direction) -> (g: Game)
        requires
            self.wf(),
            self.moves@.len() > 0,
        ensures
            g.wf(),
            g.rows == self.rows,
            g.columns == self.columns,
            g.target == self.target,
            (self.status != Status::Playing && self.status != Status::Idle) ==> (g.status
                == self.status && g.moves@.len() == self.moves@.len() && (forall|i: int|
                0 <= i < g.moves@.len() ==> state_equiv(#[trigger] g.moves@[i], self.moves@[i]))),
            (self.status == Status::Playing || self.status == Status::Idle) ==> ({
                let newloc = self.ferris_loc().spec_move_direction(
                    direction,
                    self.rows as int,
                    self.columns as int,
                );
                let started = if self.status == Status::Idle {
                    Status::Playing
                } else {
                    self.status
                };
                let gated = if self.target == newloc {
                    Status::Won
                } else {
                    started
                };
                &&& g.moves@.len() == self.moves@.len() + 1
                &&& (forall|i: int|
                    0 <= i < self.moves@.len() ==> state_equiv(
                        #[trigger] g.moves@[i],
                        self.moves@[i],
                    ))
                &&& g.moves@.last().creepers@ == self.creepers_seq()
                &&& g.moves@.last().ferris.location == newloc
                &&& g.moves@.last().ferris.path@ == path_of(
                    spec_run(*self, newloc, self.target, Mode::Ferris),
                )
                &&& g.status == status_after_check(
                    self.target,
                    newloc,
                    self.creepers_seq(),
                    gated,
                )
            }),
    {
        if !(self.status == Status::Playing || self.status == Status::Idle) {
            return Game {
                moves: clone_states(&self.moves),
                rows: self.rows,
                columns: self.columns,
                target: self.target,
                status: self.status,
            };
        }
        let mut status = self.status;
        if status == Status::Idle {
            status = Status::Playing;
        }
        let last_idx = self.moves.len() - 1;
        proof {
            assert(state_wf(self.moves@[last_idx as int], self.rows as int, self.columns as int));
        }
        let cur = self.moves[last_idx].ferris.location;
        let newloc = cur.move_direction(direction, self.rows, self.columns);
        proof {
            assert(newloc.in_bounds(self.rows as int, self.columns as int));
        }
        let res = Dijkstra::run(self, &newloc, &self.target, &Mode::Ferris);
        let path: Vec<Location> = match res {
            Ok(p) => p,
            Err(_) => Vec::new(),
        };
        if self.target == newloc {
            status = Status::Won;
        }
        let creepers = clone_creepers(&self.moves[last_idx].creepers);
        let mut moves = clone_states(&self.moves);
        moves.push(GameState { creepers, ferris: Ferris { location: newloc, path } });
        let mut g = Game {
            moves,
            rows: self.rows,
            columns: self.columns,
            target: self.target,
            status,
        };
        g.validate_status();
        proof {
            assert forall|j: int| 0 <= j < g.moves@.len() implies state_wf(
                #[trigger] g.moves@[j],
                self.rows as int,
                self.columns as int,
            ) by {
                if j < self.moves@.len() {
                    assert(state_equiv(g.moves@[j], self.moves@[j]));
                    assert(state_wf(self.moves@[j], self.rows as int, self.columns as int));
                }
            }
        }
        g
    }
}

} // verus!
