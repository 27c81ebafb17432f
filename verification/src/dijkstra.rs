//! The distance-table builder and path reconstruction.
//!
//! `Dijkstra::run` is deterministic: its result equals the mathematical
//! model `spec_run`, a pure function of the inputs.  The model mirrors the
//! executable code step by step: a frontier kept in insertion order, the
//! first entry of least tentative cost extracted each round, and each
//! admitted neighbor relaxed in the fixed scan order.

use vstd::prelude::*;

use vstd::set_lib::{lemma_int_range, lemma_len_subset, set_int_range};

use crate::model::{
    creeper_zone_at, edge_cost, king_adj, lemma_adjacent_spec_admitted, lemma_adjacent_spec_congruent,
    lemma_adjacent_spec_in_bounds, lemma_adjacent_spec_king, lemma_edge_cost_bounds,
    lemma_edge_cost_congruent, lemma_edge_cost_nonneg, lemma_edge_cost_zero, nav_eq,
    vertex_admitted, vid_in_bounds, Game, Location, VertexId, MAX_EDGE,
};

verus! {

/// What is known about one cell: its best cost so far and the cell the
/// search reached it from.  `None` means the cell was never reached.
#[derive(Clone, Copy, Debug, PartialEq, Eq)]
pub struct DistanceInfo {
    pub distance: Option<i32>,
    pub last_vertex: Option<VertexId>,
}

impl Default for DistanceInfo {
    /// An unvisited cell: no cost, no predecessor.
    fn default() -> (r: Self)
        ensures
            r == (DistanceInfo { distance: None, last_vertex: None }),
    {
        DistanceInfo { distance: None, last_vertex: None }
    }
}

/// A frontier entry: a cell and its tentative cost.
#[derive(Clone, Copy, PartialEq, Eq, Hash)]
pub struct VertexInfo {
    pub vertex: VertexId,
    pub distance: i32,
}

/// Navigation mode: `Creeper` chases the target directly, ignoring threats;
/// `Ferris` avoids threat cells and is penalized for passing near them.
#[derive(Clone, Copy, PartialEq, Eq, Structural)]
pub enum Mode {
    Creeper,
    Ferris,
}

/// Why a search gave no route.
#[derive(Clone, Copy, Debug, PartialEq, Eq, Structural)]
pub enum SearchError {
    /// The origin or the target lies outside the grid, or a looked-up cell
    /// was missing while walking predecessors.
    InvalidRequest,
    /// The search settled every reachable cell without reaching the target.
    Unreachable,
}

/// The search state: the distance table (one entry per cell, row-major),
/// the frontier in insertion order, and the cells reached so far in the
/// order they were first reached.
pub ghost struct SearchState {
    pub table: Seq<DistanceInfo>,
    pub queue: Seq<VertexInfo>,
    pub disc: Seq<int>,
}

/// Row-major index of cell `v` on a grid with `columns` columns.
pub open spec fn flat_id(v: VertexId, columns: int) -> int {
    (v.0 as int) * columns + (v.1 as int)
}

/// `flat_id` stays within the table of a `rows` by `columns` grid.
pub proof fn lemma_flat_id_range(v: VertexId, rows: int, columns: int)
    requires
        vid_in_bounds(v, rows, columns),
    ensures
        0 <= flat_id(v, columns) < rows * columns,
{
    assert(0 <= (v.0 as int) * columns + (v.1 as int) < rows * columns) by (nonlinear_arith)
        requires
            0 <= (v.0 as int) <= rows - 1 && 0 <= (v.1 as int) < columns;
}

/// Distinct cells have distinct row-major indices.
pub proof fn lemma_flat_id_injective(a: VertexId, b: VertexId, rows: int, columns: int)
    requires
        vid_in_bounds(a, rows, columns),
        vid_in_bounds(b, rows, columns),
        flat_id(a, columns) == flat_id(b, columns),
    ensures
        a == b,
{
    assert(a.0 as int == b.0 as int && a.1 as int == b.1 as int) by (nonlinear_arith)
        requires
            0 <= (a.1 as int) < columns && 0 <= (b.1 as int) < columns && (a.0 as int) * columns
                + (a.1 as int) == (b.0 as int) * columns + (b.1 as int);
}

/// The frontier without any entry for cell `v`, order otherwise kept.
pub open spec fn queue_without(q: Seq<VertexInfo>, v: VertexId) -> Seq<VertexInfo>
    decreases q.len(),
{
    if q.len() == 0 {
        Seq::<VertexInfo>::empty()
    } else {
        let rest = queue_without(q.drop_last(), v);
        if q.last().vertex == v {
            rest
        } else {
            rest.push(q.last())
        }
    }
}

/// Dropping entries never lengthens the frontier.
pub proof fn lemma_queue_without_len(q: Seq<VertexInfo>, v: VertexId)
    ensures
        queue_without(q, v).len() <= q.len(),
    decreases q.len(),
{
    if q.len() > 0 {
        lemma_queue_without_len(q.drop_last(), v);
    }
}

/// A cell's termination potential: an unreached cell outranks every
/// reached one, and among reached cells a strictly smaller recorded cost
/// means a strictly smaller potential.
pub open spec fn phi(di: DistanceInfo) -> nat {
    match di.distance {
        None => 0x1_0000_0001nat,
        Some(d) => ((d as int) - (i32::MIN as int)) as nat,
    }
}

/// The summed potential of the whole table.
pub open spec fn sum_phi(t: Seq<DistanceInfo>) -> nat
    decreases t.len(),
{
    if t.len() == 0 {
        0
    } else {
        sum_phi(t.drop_last()) + phi(t.last())
    }
}

/// Lowering one cell's potential lowers the summed potential.
pub proof fn lemma_sum_phi_update(t: Seq<DistanceInfo>, i: int, di: DistanceInfo)
    requires
        0 <= i < t.len(),
        phi(di) < phi(t[i]),
    ensures
        sum_phi(t.update(i, di)) < sum_phi(t),
    decreases t.len(),
{
    let u = t.update(i, di);
    if i == t.len() - 1 {
        assert(u.drop_last() =~= t.drop_last());
        assert(u.last() == di);
    } else {
        assert(u.drop_last() =~= t.drop_last().update(i, di));
        assert(u.last() == t.last());
        lemma_sum_phi_update(t.drop_last(), i, di);
    }
}

/// The termination measure of the search: every relaxation strictly lowers
/// some cell's potential while adding at most one net frontier entry, and
/// every extraction shortens the frontier.
pub open spec fn measure(s: SearchState) -> nat {
    2 * sum_phi(s.table) + s.queue.len()
}

/// The index of the first frontier entry with the least tentative cost.
pub open spec fn min_index(q: Seq<VertexInfo>) -> int
    decreases q.len(),
{
    if q.len() <= 1 {
        0
    } else {
        let j = min_index(q.drop_last());
        if q[j].distance <= q.last().distance {
            j
        } else {
            q.len() - 1
        }
    }
}

/// `min_index` always points into the frontier.
pub proof fn lemma_min_index_range(q: Seq<VertexInfo>)
    requires
        q.len() >= 1,
    ensures
        0 <= min_index(q) < q.len(),
    decreases q.len(),
{
    if q.len() > 1 {
        lemma_min_index_range(q.drop_last());
    }
}

/// Records cost `cand` for `neighbor` with predecessor `current`,
/// reinserts it into the frontier dropping any stale entry, and sets the
/// discovery log to `disc`.
pub open spec fn relax_update(
    s: SearchState,
    i: int,
    neighbor: VertexId,
    current: VertexId,
    cand: i32,
    disc: Seq<int>,
) -> SearchState {
    SearchState {
        table: s.table.update(
            i,
            DistanceInfo { distance: Some(cand), last_vertex: Some(current) },
        ),
        queue: queue_without(s.queue, neighbor).push(
            VertexInfo { vertex: neighbor, distance: cand },
        ),
        disc: disc,
    }
}

/// One relaxation: the candidate cost is the extracted cell's cost
/// `cur_cost` plus the edge cost of stepping onto the neighbor; the record
/// is updated when the neighbor is unreached or the candidate strictly
/// improves on its recorded cost.  Only a first discovery extends the
/// discovery log.
pub open spec fn relax_one(
    g: Game,
    target: Location,
    mode: Mode,
    s: SearchState,
    current: VertexId,
    cur_cost: int,
    neighbor: VertexId,
) -> SearchState {
    let i = flat_id(neighbor, g.columns as int);
    if 0 <= i < s.table.len() {
        let e = edge_cost(g, neighbor, target, mode);
        let cand = (cur_cost + e) as i32;
        match s.table[i].distance {
            None => relax_update(s, i, neighbor, current, cand, s.disc.push(i)),
            Some(d) => if d > cand {
                relax_update(s, i, neighbor, current, cand, s.disc)
            } else {
                s
            },
        }
    } else {
        s
    }
}

/// Relaxes a list of neighbors in order.
pub open spec fn relax_all(
    g: Game,
    target: Location,
    mode: Mode,
    s: SearchState,
    current: VertexId,
    cur_cost: int,
    nbs: Seq<VertexId>,
) -> SearchState
    decreases nbs.len(),
{
    if nbs.len() == 0 {
        s
    } else {
        relax_one(
            g,
            target,
            mode,
            relax_all(g, target, mode, s, current, cur_cost, nbs.drop_last()),
            current,
            cur_cost,
            nbs.last(),
        )
    }
}

/// One relaxation never raises the measure.
pub proof fn lemma_relax_one_measure(
    g: Game,
    target: Location,
    mode: Mode,
    s: SearchState,
    current: VertexId,
    cur_cost: int,
    neighbor: VertexId,
)
    ensures
        measure(relax_one(g, target, mode, s, current, cur_cost, neighbor)) <= measure(s),
{
    let i = flat_id(neighbor, g.columns as int);
    if 0 <= i < s.table.len() {
        let e = edge_cost(g, neighbor, target, mode);
        let cand = (cur_cost + e) as i32;
        let di = DistanceInfo { distance: Some(cand), last_vertex: Some(current) };
        match s.table[i].distance {
            None => {
                lemma_sum_phi_update(s.table, i, di);
                lemma_queue_without_len(s.queue, neighbor);
            },
            Some(d) => {
                if d > cand {
                    lemma_sum_phi_update(s.table, i, di);
                    lemma_queue_without_len(s.queue, neighbor);
                }
            },
        }
    }
}

/// Relaxing a whole neighbor list never raises the measure.
pub proof fn lemma_relax_all_measure(
    g: Game,
    target: Location,
    mode: Mode,
    s: SearchState,
    current: VertexId,
    cur_cost: int,
    nbs: Seq<VertexId>,
)
    ensures
        measure(relax_all(g, target, mode, s, current, cur_cost, nbs)) <= measure(s),
    decreases nbs.len(),
{
    if nbs.len() > 0 {
        lemma_relax_all_measure(g, target, mode, s, current, cur_cost, nbs.drop_last());
        lemma_relax_one_measure(
            g,
            target,
            mode,
            relax_all(g, target, mode, s, current, cur_cost, nbs.drop_last()),
            current,
            cur_cost,
            nbs.last(),
        );
    }
}

/// The whole search: while the frontier is non-empty, extract the first
/// entry of least cost and relax its admitted neighbors.
pub open spec fn search_loop(g: Game, target: Location, mode: Mode, s: SearchState) -> SearchState
    decreases measure(s),
    via search_loop_decreases
{
    if s.queue.len() == 0 {
        s
    } else {
        let j = min_index(s.queue);
        let current = s.queue[j].vertex;
        let cur_cost = s.queue[j].distance as int;
        let s1 = SearchState { table: s.table, queue: s.queue.remove(j), disc: s.disc };
        search_loop(
            g,
            target,
            mode,
            relax_all(g, target, mode, s1, current, cur_cost, g.adjacent_spec(current, target, mode)),
        )
    }
}

#[via_fn]
proof fn search_loop_decreases(g: Game, target: Location, mode: Mode, s: SearchState) {
    if s.queue.len() > 0 {
        let j = min_index(s.queue);
        let current = s.queue[j].vertex;
        let cur_cost = s.queue[j].distance as int;
        lemma_min_index_range(s.queue);
        let s1 = SearchState { table: s.table, queue: s.queue.remove(j), disc: s.disc };
        assert(measure(s1) + 1 == measure(s));
        lemma_relax_all_measure(
            g,
            target,
            mode,
            s1,
            current,
            cur_cost,
            g.adjacent_spec(current, target, mode),
        );
    }
}

/// The table entry each cell starts from: unreached everywhere, except the
/// origin, which starts at cost zero with itself as predecessor.
pub open spec fn init_entry(g: Game, origin: Location, k: int) -> DistanceInfo {
    if k == flat_id((origin.x, origin.y), g.columns as int) {
        DistanceInfo { distance: Some(0), last_vertex: Some((origin.x, origin.y)) }
    } else {
        DistanceInfo { distance: None, last_vertex: None }
    }
}

/// The state the search starts from.
pub open spec fn init_state(g: Game, origin: Location) -> SearchState {
    SearchState {
        table: Seq::new(
            ((g.rows as int) * (g.columns as int)) as nat,
            |k: int| init_entry(g, origin, k),
        ),
        queue: seq![VertexInfo { vertex: (origin.x, origin.y), distance: 0 }],
        disc: seq![flat_id((origin.x, origin.y), g.columns as int)],
    }
}

/// The finished distance table, as a pure function of the inputs.
pub open spec fn spec_distance_table(
    g: Game,
    origin: Location,
    target: Location,
    mode: Mode,
) -> Seq<DistanceInfo> {
    search_loop(g, target, mode, init_state(g, origin)).table
}

/// Walks predecessor links from `cur` back to the origin and returns the
/// route in forward order (ending at `cur`).  `None` when a link is missing
/// or the walk does not reach the origin within `fuel` steps.
pub open spec fn backtrack(
    table: Seq<DistanceInfo>,
    columns: int,
    origin: Location,
    cur: VertexId,
    fuel: nat,
) -> Option<Seq<Location>>
    decreases fuel,
{
    if fuel == 0 {
        None
    } else {
        match table[flat_id(cur, columns)].last_vertex {
            None => None,
            Some(p) => if p == (origin.x, origin.y) {
                Some(seq![Location { x: cur.0, y: cur.1 }])
            } else {
                match backtrack(table, columns, origin, p, (fuel - 1) as nat) {
                    None => None,
                    Some(pre) => Some(pre.push(Location { x: cur.0, y: cur.1 })),
                }
            },
        }
    }
}

/// What `Dijkstra::run` returns, as a pure function of the inputs: reject
/// an off-grid origin or target; an empty route when the origin is the
/// target; otherwise build the table and walk predecessors back from the
/// target, reporting `Unreachable` when the target was never reached.
pub open spec fn spec_run(g: Game, origin: Location, target: Location, mode: Mode) -> Result<
    Seq<Location>,
    SearchError,
> {
    if !origin.in_bounds(g.rows as int, g.columns as int) || !target.in_bounds(
        g.rows as int,
        g.columns as int,
    ) {
        Err(SearchError::InvalidRequest)
    } else if origin == target {
        Ok(Seq::<Location>::empty())
    } else {
        let table = spec_distance_table(g, origin, target, mode);
        match table[flat_id((target.x, target.y), g.columns as int)].last_vertex {
            None => Err(SearchError::Unreachable),
            Some(_) => match backtrack(
                table,
                g.columns as int,
                origin,
                (target.x, target.y),
                ((g.rows as int) * (g.columns as int)) as nat,
            ) {
                None => Err(SearchError::InvalidRequest),
                Some(p) => Ok(p),
            },
        }
    }
}

/// Every cell the state mentions lies on the grid: frontier vertices and
/// every predecessor stored in the table.
pub open spec fn sstate_wf(s: SearchState, rows: int, columns: int) -> bool {
    &&& forall|k: int|
        0 <= k < s.queue.len() ==> vid_in_bounds((#[trigger] s.queue[k]).vertex, rows, columns)
    &&& forall|k: int|
        0 <= k < s.table.len() ==> (match (#[trigger] s.table[k]).last_vertex {
            Some(p) => vid_in_bounds(p, rows, columns),
            None => true,
        })
}

/// Dropping entries keeps every remaining frontier vertex on the grid.
pub proof fn lemma_queue_without_wf(q: Seq<VertexInfo>, v: VertexId, rows: int, columns: int)
    requires
        forall|k: int| 0 <= k < q.len() ==> vid_in_bounds((#[trigger] q[k]).vertex, rows, columns),
    ensures
        forall|k: int|
            0 <= k < queue_without(q, v).len() ==> vid_in_bounds(
                (#[trigger] queue_without(q, v)[k]).vertex,
                rows,
                columns,
            ),
    decreases q.len(),
{
    if q.len() > 0 {
        assert(forall|k: int|
            0 <= k < q.drop_last().len() ==> vid_in_bounds(
                (#[trigger] q.drop_last()[k]).vertex,
                rows,
                columns,
            ));
        lemma_queue_without_wf(q.drop_last(), v, rows, columns);
        let rest = queue_without(q.drop_last(), v);
        assert(q.last() == q[q.len() - 1]);
        if q.last().vertex != v {
            assert forall|k: int| 0 <= k < rest.push(q.last()).len() implies vid_in_bounds(
                (#[trigger] rest.push(q.last())[k]).vertex,
                rows,
                columns,
            ) by {
                if k < rest.len() {
                    assert(rest.push(q.last())[k] == rest[k]);
                } else {
                    assert(rest.push(q.last())[k] == q.last());
                }
            }
        }
    }
}

/// One relaxation keeps the state on the grid and the table length fixed.
pub proof fn lemma_relax_one_wf(
    g: Game,
    target: Location,
    mode: Mode,
    s: SearchState,
    current: VertexId,
    cur_cost: int,
    neighbor: VertexId,
)
    requires
        sstate_wf(s, g.rows as int, g.columns as int),
        vid_in_bounds(current, g.rows as int, g.columns as int),
        vid_in_bounds(neighbor, g.rows as int, g.columns as int),
    ensures
        sstate_wf(
            relax_one(g, target, mode, s, current, cur_cost, neighbor),
            g.rows as int,
            g.columns as int,
        ),
        relax_one(g, target, mode, s, current, cur_cost, neighbor).table.len() == s.table.len(),
{
    lemma_queue_without_wf(s.queue, neighbor, g.rows as int, g.columns as int);
}

/// Relaxing a list of on-grid neighbors keeps the state on the grid.
pub proof fn lemma_relax_all_wf(
    g: Game,
    target: Location,
    mode: Mode,
    s: SearchState,
    current: VertexId,
    cur_cost: int,
    nbs: Seq<VertexId>,
)
    requires
        sstate_wf(s, g.rows as int, g.columns as int),
        vid_in_bounds(current, g.rows as int, g.columns as int),
        forall|k: int|
            0 <= k < nbs.len() ==> vid_in_bounds(#[trigger] nbs[k], g.rows as int, g.columns as int),
    ensures
        sstate_wf(
            relax_all(g, target, mode, s, current, cur_cost, nbs),
            g.rows as int,
            g.columns as int,
        ),
        relax_all(g, target, mode, s, current, cur_cost, nbs).table.len() == s.table.len(),
    decreases nbs.len(),
{
    if nbs.len() > 0 {
        assert(forall|k: int|
            0 <= k < nbs.drop_last().len() ==> vid_in_bounds(
                #[trigger] nbs.drop_last()[k],
                g.rows as int,
                g.columns as int,
            ));
        lemma_relax_all_wf(g, target, mode, s, current, cur_cost, nbs.drop_last());
        lemma_relax_one_wf(
            g,
            target,
            mode,
            relax_all(g, target, mode, s, current, cur_cost, nbs.drop_last()),
            current,
            cur_cost,
            nbs.last(),
        );
    }
}

/// The whole search keeps the state on the grid and the table length fixed.
pub proof fn lemma_search_loop_wf(g: Game, target: Location, mode: Mode, s: SearchState)
    requires
        g.wf(),
        sstate_wf(s, g.rows as int, g.columns as int),
    ensures
        sstate_wf(search_loop(g, target, mode, s), g.rows as int, g.columns as int),
        search_loop(g, target, mode, s).table.len() == s.table.len(),
    decreases measure(s),
{
    if s.queue.len() > 0 {
        let j = min_index(s.queue);
        lemma_min_index_range(s.queue);
        let current = s.queue[j].vertex;
        let cur_cost = s.queue[j].distance as int;
        let s1 = SearchState { table: s.table, queue: s.queue.remove(j), disc: s.disc };
        assert(forall|k: int|
            0 <= k < s1.queue.len() ==> vid_in_bounds(
                (#[trigger] s1.queue[k]).vertex,
                g.rows as int,
                g.columns as int,
            ));
        let nbs = g.adjacent_spec(current, target, mode);
        lemma_adjacent_spec_in_bounds(g, current, target, mode);
        lemma_relax_all_wf(g, target, mode, s1, current, cur_cost, nbs);
        lemma_relax_all_measure(g, target, mode, s1, current, cur_cost, nbs);
        lemma_search_loop_wf(
            g,
            target,
            mode,
            relax_all(g, target, mode, s1, current, cur_cost, nbs),
        );
    }
}

/// Replaces the frontier with the same entries minus any entry for `v`,
/// order kept.
#[verifier::loop_isolation(false)]
fn remove_vertex(queue: &mut Vec<VertexInfo>, v: VertexId)
    ensures
        final(queue)@ == queue_without(old(queue)@, v),
{
    let mut out: Vec<VertexInfo> = Vec::new();
    let mut i: usize = 0;
    while i < queue.len()
        invariant
            i <= queue@.len(),
            queue@ == old(queue)@,
            out@ == queue_without(queue@.take(i as int), v),
        decreases queue@.len() - i,
    {
        proof {
            assert(queue@.take(i as int + 1).drop_last() =~= queue@.take(i as int));
            assert(queue@.take(i as int + 1).last() == queue@[i as int]);
        }
        let e = queue[i];
        if !(e.vertex.0 == v.0 && e.vertex.1 == v.1) {
            out.push(e);
        }
        i += 1;
    }
    proof {
        assert(queue@.take(queue@.len() as int) =~= queue@);
    }
    *queue = out;
}

/// Relaxes every listed neighbor of the freshly extracted cell `current`
/// (whose recorded cost is `cur_dist`), updating the table and the
/// frontier exactly as the model does.
#[verifier::loop_isolation(false)]
#[verifier::rlimit(100)]
fn relax_neighbors(
    game: &Game,
    Ghost(origin): Ghost<Location>,
    target: &Location,
    mode: &Mode,
    table: &mut Vec<DistanceInfo>,
    queue: &mut Vec<VertexInfo>,
    current: VertexId,
    cur_dist: i32,
    neighbors: &Vec<VertexId>,
    Ghost(st_in): Ghost<SearchState>,
) -> (st_out: Ghost<SearchState>)
    requires
        game.wf(),
        origin.in_bounds(game.rows as int, game.columns as int),
        target.in_bounds(game.rows as int, game.columns as int),
        *mode == Mode::Ferris ==> game.moves@.len() > 0,
        st_in.table == old(table)@,
        st_in.queue == old(queue)@,
        old(table)@.len() == (game.rows as int) * (game.columns as int),
        sstate_wf(st_in, game.rows as int, game.columns as int),
        disc_inv(*game, origin, st_in),
        pred_cost_inv(*game, origin, *target, *mode, st_in.table),
        vid_in_bounds(current, game.rows as int, game.columns as int),
        st_in.table[flat_id(current, game.columns as int)].distance == Some(cur_dist),
        neighbors@ == game.adjacent_spec(current, *target, *mode),
    ensures
        st_out@ == relax_all(
            *game,
            *target,
            *mode,
            st_in,
            current,
            cur_dist as int,
            neighbors@,
        ),
        st_out@.table == final(table)@,
        st_out@.queue == final(queue)@,
        final(table)@.len() == old(table)@.len(),
        sstate_wf(st_out@, game.rows as int, game.columns as int),
        disc_inv(*game, origin, st_out@),
        pred_cost_inv(*game, origin, *target, *mode, st_out@.table),
{
    let ghost cur_cost = cur_dist as int;
    let ghost n = (game.rows as int) * (game.columns as int);
    let ghost s_pop = st_in;
    let ghost mut st = st_in;
    let rows_us = game.rows as usize;
    let cols_us = game.columns as usize;
    proof {
        lemma_adjacent_spec_in_bounds(*game, current, *target, *mode);
        lemma_adjacent_spec_king(*game, current, *target, *mode);
    }
    let mut j: usize = 0;
    while j < neighbors.len()
        invariant
            j <= neighbors@.len(),
            st == relax_all(
                *game,
                *target,
                *mode,
                s_pop,
                current,
                cur_cost,
                neighbors@.take(j as int),
            ),
            st.table == table@,
            st.queue == queue@,
            table@.len() == n,
            sstate_wf(st, game.rows as int, game.columns as int),
            disc_inv(*game, origin, st),
            pred_cost_inv(*game, origin, *target, *mode, st.table),
            st.table[flat_id(current, game.columns as int)].distance == Some(cur_dist),
        decreases neighbors@.len() - j,
    {
        let nb = neighbors[j];
        proof {
            lemma_flat_id_range(nb, game.rows as int, game.columns as int);
            lemma_flat_id_range(current, game.rows as int, game.columns as int);
            assert(neighbors@.take(j as int + 1).drop_last() =~= neighbors@.take(j as int));
            assert(neighbors@.take(j as int + 1).last() == neighbors@[j as int]);
            reveal(disc_inv);
            lemma_disc_len_le(st.disc, n);
            assert((game.rows as int) * (game.columns as int) <= 10000) by (nonlinear_arith)
                requires 1 <= (game.rows as int) <= 100 && 1 <= (game.columns as int) <= 100;
            assert(st.disc.len() * (MAX_EDGE as int) <= 10000 * (MAX_EDGE as int));
            assert(0 <= cur_dist && cur_dist as int <= 10000 * (MAX_EDGE as int));
        }
        let idx = (nb.0 as usize) * cols_us + (nb.1 as usize);
        let edge = game.get_weighted_edge(current, nb, target, mode);
        let candidate: i32 = cur_dist + edge;
        let dcur = table[idx].distance;
        if dcur.is_none() || dcur.unwrap() > candidate {
            table[idx] = DistanceInfo { distance: Some(candidate), last_vertex: Some(current) };
            remove_vertex(&mut *queue, nb);
            queue.push(VertexInfo { vertex: nb, distance: candidate });
        }
        proof {
            assert(game.adjacent_spec(current, *target, *mode).contains(nb)) by {
                assert(game.adjacent_spec(current, *target, *mode)[j as int] == nb);
            }
            lemma_relax_one_wf(*game, *target, *mode, st, current, cur_cost, nb);
            lemma_relax_one_costs(*game, origin, *target, *mode, st, current, cur_cost, nb);
            lemma_relax_one_pred_cost(*game, origin, *target, *mode, st, current, cur_cost, nb);
            st = relax_one(*game, *target, *mode, st, current, cur_cost, nb);
            assert(st.table == table@);
            assert(st.queue == queue@);
        }
        j += 1;
    }
    proof {
        assert(neighbors@.take(neighbors@.len() as int) =~= neighbors@);
    }
    Ghost(st)
}

/// The path engine.
pub struct Dijkstra {}

impl Dijkstra {
    /// Builds the full distance table for the grid: every cell's best-known
    /// cost and predecessor after the search has drained its frontier.  The
    /// result equals the mathematical model `spec_distance_table`.
    #[verifier::loop_isolation(false)]
    #[verifier::rlimit(100)]
    pub fn build_distance_table(
        game: &Game,
        origin: &Location,
        target: &Location,
        mode: &Mode,
    ) -> (r: Vec<DistanceInfo>)
        requires
            game.wf(),
            origin.in_bounds(game.rows as int, game.columns as int),
            target.in_bounds(game.rows as int, game.columns as int),
            *mode == Mode::Ferris ==> game.moves@.len() > 0,
        ensures
            r@ == spec_distance_table(*game, *origin, *target, *mode),
            r@.len() == (game.rows as int) * (game.columns as int),
    {
        let rows_us = game.rows as usize;
        let cols_us = game.columns as usize;
        proof {
            assert(rows_us * cols_us <= 100000000) by (nonlinear_arith)
                requires rows_us <= 10000 && cols_us <= 10000;
        }
        let n = rows_us * cols_us;
        proof {
            lemma_flat_id_range((origin.x, origin.y), game.rows as int, game.columns as int);
        }
        let origin_idx = (origin.x as usize) * cols_us + (origin.y as usize);
        let mut table: Vec<DistanceInfo> = Vec::new();
        let mut i: usize = 0;
        while i < n
            invariant
                i <= n,
                table@.len() == i,
                forall|k: int| 0 <= k < i ==> table@[k] == init_entry(*game, *origin, k),
            decreases n - i,
        {
            if i == origin_idx {
                table.push(
                    DistanceInfo {
                        distance: Some(0),
                        last_vertex: Some((origin.x, origin.y)),
                    },
                );
            } else {
                table.push(DistanceInfo::default());
            }
            i += 1;
        }
        let mut queue: Vec<VertexInfo> = Vec::new();
        queue.push(VertexInfo { vertex: (origin.x, origin.y), distance: 0 });
        let ghost mut st = init_state(*game, *origin);
        proof {
            assert(table@ =~= st.table);
            assert(queue@ =~= st.queue);
            lemma_init_state_invs(*game, *origin, *target, *mode);
        }
        while queue.len() > 0
            invariant
                st.table == table@,
                st.queue == queue@,
                table@.len() == n,
                n as int == (game.rows as int) * (game.columns as int),
                search_loop(*game, *target, *mode, st) == search_loop(
                    *game,
                    *target,
                    *mode,
                    init_state(*game, *origin),
                ),
                sstate_wf(st, game.rows as int, game.columns as int),
                disc_inv(*game, *origin, st),
                pred_cost_inv(*game, *origin, *target, *mode, st.table),
            decreases measure(st),
        {
            let ghost st0 = st;
            let mut best: usize = 0;
            let mut k: usize = 1;
            while k < queue.len()
                invariant
                    1 <= k <= queue@.len(),
                    best < k,
                    best as int == min_index(queue@.take(k as int)),
                decreases queue@.len() - k,
            {
                proof {
                    assert(queue@.take(k as int + 1).drop_last() =~= queue@.take(k as int));
                    assert(queue@.take(k as int + 1).last() == queue@[k as int]);
                }
                if queue[k].distance < queue[best].distance {
                    best = k;
                }
                k += 1;
            }
            proof {
                assert(queue@.take(queue@.len() as int) =~= queue@);
                assert(best as int == min_index(queue@));
                lemma_min_index_range(queue@);
            }
            let vi = queue.remove(best);
            let current = vi.vertex;
            let ghost cur_cost = vi.distance as int;
            proof {
                reveal(disc_inv);
                st = SearchState {
                    table: st.table,
                    queue: st.queue.remove(best as int),
                    disc: st.disc,
                };
                assert forall|q: int| 0 <= q < st.queue.len() implies vid_in_bounds(
                    (#[trigger] st.queue[q]).vertex,
                    game.rows as int,
                    game.columns as int,
                ) && 0 <= flat_id(st.queue[q].vertex, game.columns as int) < n && st.table[flat_id(
                    st.queue[q].vertex,
                    game.columns as int,
                )].distance == Some(st.queue[q].distance) by {
                    if q < best {
                        assert(st.queue[q] == st0.queue[q]);
                    } else {
                        assert(st.queue[q] == st0.queue[q + 1]);
                    }
                }
                assert(disc_inv(*game, *origin, st));
                assert(sstate_wf(st, game.rows as int, game.columns as int));
                assert(st.table[flat_id(current, game.columns as int)].distance == Some(
                    vi.distance,
                ));
            }
            let ghost s_pop = st;
            let neighbors = game.get_adjacent_vertices(current, target, mode);
            let st_out = relax_neighbors(
                game,
                Ghost(*origin),
                target,
                mode,
                &mut table,
                &mut queue,
                current,
                vi.distance,
                &neighbors,
                Ghost(st),
            );
            proof {
                st = st_out@;
                assert(st == relax_all(*game, *target, *mode, s_pop, current, cur_cost, neighbors@));
                assert(search_loop(*game, *target, *mode, st0) == search_loop(
                    *game,
                    *target,
                    *mode,
                    st,
                ));
                lemma_relax_all_measure(*game, *target, *mode, s_pop, current, cur_cost, neighbors@);
            }
        }
        proof {
            assert(search_loop(*game, *target, *mode, st) == st);
        }
        table
    }

    /// Computes the route from `origin` to `target` under `mode`.
    ///
    /// The result equals the mathematical model `spec_run`: identical
    /// inputs always give the identical route or the identical error.  An
    /// off-grid origin or target gives `InvalidRequest`; a target the
    /// search never reached gives `Unreachable`; the route is empty exactly
    /// when the origin is the target.
    #[verifier::loop_isolation(false)]
    pub fn run(
        game: &Game,
        origin: &Location,
        target: &Location,
        mode: &Mode,
    ) -> (r: Result<Vec<Location>, SearchError>)
        requires
            game.wf(),
            *mode == Mode::Ferris ==> game.moves@.len() > 0,
        ensures
            (match r {
                Ok(v) => spec_run(*game, *origin, *target, *mode) == Ok::<
                    Seq<Location>,
                    SearchError,
                >(v@),
                Err(e) => spec_run(*game, *origin, *target, *mode) == Err::<
                    Seq<Location>,
                    SearchError,
                >(e),
            }),
            (origin.in_bounds(game.rows as int, game.columns as int) && target.in_bounds(
                game.rows as int,
                game.columns as int,
            ) && *origin == *target) ==> (r matches Ok(v) && v@ == Seq::<Location>::empty()),
            (!origin.in_bounds(game.rows as int, game.columns as int) || !target.in_bounds(
                game.rows as int,
                game.columns as int,
            )) ==> r == Err::<Vec<Location>, SearchError>(SearchError::InvalidRequest),
            (r == Err::<Vec<Location>, SearchError>(SearchError::Unreachable)) <==> (
            origin.in_bounds(game.rows as int, game.columns as int) && target.in_bounds(
                game.rows as int,
                game.columns as int,
            ) && *origin != *target && spec_distance_table(*game, *origin, *target, *mode)[
                flat_id((target.x, target.y), game.columns as int)
            ].last_vertex is None),
            (r is Ok) <==> (origin.in_bounds(game.rows as int, game.columns as int)
                && target.in_bounds(game.rows as int, game.columns as int) && (*origin == *target
                || spec_distance_table(*game, *origin, *target, *mode)[
                    flat_id((target.x, target.y), game.columns as int)
                ].last_vertex is Some)),
            (r == Err::<Vec<Location>, SearchError>(SearchError::InvalidRequest)) <==> !(
            origin.in_bounds(game.rows as int, game.columns as int) && target.in_bounds(
                game.rows as int,
                game.columns as int,
            )),
    {
        proof {
            lemma_run_success_characterized(*game, *origin, *target, *mode);
        }
        if origin.x < 0 || origin.x >= game.rows || origin.y < 0 || origin.y >= game.columns
            || target.x < 0 || target.x >= game.rows || target.y < 0 || target.y
            >= game.columns {
            return Err(SearchError::InvalidRequest);
        }
        if origin.x == target.x && origin.y == target.y {
            proof {
                assert(*origin == *target);
            }
            return Ok(Vec::new());
        }
        let table = Dijkstra::build_distance_table(game, origin, target, mode);
        let ghost tbl = table@;
        proof {
            let init = init_state(*game, *origin);
            assert forall|k: int| 0 <= k < init.table.len() implies (match (#[trigger] init.table[k]).last_vertex {
                Some(p) => vid_in_bounds(p, game.rows as int, game.columns as int),
                None => true,
            }) by {
                assert(init.table[k] == init_entry(*game, *origin, k));
            }
            assert(sstate_wf(init, game.rows as int, game.columns as int));
            lemma_search_loop_wf(*game, *target, *mode, init);
            assert(forall|k: int|
                0 <= k < tbl.len() ==> (match (#[trigger] tbl[k]).last_vertex {
                    Some(p) => vid_in_bounds(p, game.rows as int, game.columns as int),
                    None => true,
                }));
        }
        let cols_us = game.columns as usize;
        let t_id: VertexId = (target.x, target.y);
        proof {
            assert((game.rows as int) * (game.columns as int) <= 100000000) by (nonlinear_arith)
                requires 1 <= (game.rows as int) <= 10000 && 1 <= (game.columns as int) <= 10000;
            lemma_flat_id_range(t_id, game.rows as int, game.columns as int);
        }
        let t_idx = (target.x as usize) * cols_us + (target.y as usize);
        if table[t_idx].last_vertex.is_none() {
            return Err(SearchError::Unreachable);
        }
        proof {
            assert((game.rows as usize) * cols_us <= 100000000) by (nonlinear_arith)
                requires (game.rows as usize) <= 10000 && cols_us <= 10000;
        }
        let n = (game.rows as usize) * cols_us;
        let origin_id: VertexId = (origin.x, origin.y);
        let mut stack: Vec<Location> = Vec::new();
        let mut cur: VertexId = t_id;
        let mut fuel: usize = n;
        let ghost full = backtrack(tbl, game.columns as int, *origin, t_id, n as nat);
        proof {
            let q0 = backtrack(tbl, game.columns as int, *origin, cur, fuel as nat);
            if q0 is Some {
                assert(q0->0 + stack@.reverse() =~= q0->0);
            }
        }
        loop
            invariant
                table@ == tbl,
                tbl.len() == n,
                vid_in_bounds(cur, game.rows as int, game.columns as int),
                fuel <= n,
                full == (match backtrack(tbl, game.columns as int, *origin, cur, fuel as nat) {
                    None => None::<Seq<Location>>,
                    Some(q) => Some(q + stack@.reverse()),
                }),
            decreases fuel,
        {
            if fuel == 0 {
                return Err(SearchError::InvalidRequest);
            }
            let ghost fuel0 = fuel as nat;
            fuel = fuel - 1;
            proof {
                lemma_flat_id_range(cur, game.rows as int, game.columns as int);
            }
            let idx = (cur.0 as usize) * cols_us + (cur.1 as usize);
            let pred = table[idx].last_vertex;
            match pred {
                None => {
                    return Err(SearchError::InvalidRequest);
                },
                Some(p) => {
                    let here = Location { x: cur.0, y: cur.1 };
                    let ghost stack0 = stack@;
                    stack.push(here);
                    proof {
                        assert(stack@.reverse() =~= seq![here] + stack0.reverse());
                    }
                    if p.0 == origin_id.0 && p.1 == origin_id.1 {
                        proof {
                            assert(p == (origin.x, origin.y));
                            assert(backtrack(tbl, game.columns as int, *origin, cur, fuel0)
                                == Some(seq![here]));
                            assert(seq![here] + stack0.reverse() =~= stack@.reverse());
                            assert(full == Some(stack@.reverse()));
                        }
                        break;
                    }
                    proof {
                        assert(p != (origin.x, origin.y));
                        let sub = backtrack(tbl, game.columns as int, *origin, p, fuel as nat);
                        if sub is Some {
                            assert(backtrack(tbl, game.columns as int, *origin, cur, fuel0)
                                == Some(sub->0.push(here)));
                            assert(sub->0.push(here) + stack0.reverse() =~= sub->0
                                + stack@.reverse());
                        } else {
                            assert(backtrack(tbl, game.columns as int, *origin, cur, fuel0)
                                is None);
                        }
                    }
                    cur = p;
                },
            }
        }
        let ghost stack_final = stack@;
        let mut path: Vec<Location> = Vec::new();
        while stack.len() > 0
            invariant
                path@ + stack@.reverse() == stack_final.reverse(),
            decreases stack@.len(),
        {
            let ghost stack1 = stack@;
            let l = stack.pop().unwrap();
            path.push(l);
            proof {
                assert(stack@ =~= stack1.drop_last());
                assert(stack1.reverse() =~= seq![l] + stack@.reverse());
                assert(path@ + stack@.reverse() =~= stack_final.reverse());
            }
        }
        proof {
            assert(stack@.reverse() =~= Seq::<Location>::empty());
            assert(path@ =~= path@ + stack@.reverse());
            assert(full == Some(path@));
        }
        Ok(path)
    }
}

/// One relaxation keeps every reached cell reached and never raises a
/// recorded cost.
pub proof fn lemma_relax_one_monotone(
    g: Game,
    target: Location,
    mode: Mode,
    s: SearchState,
    current: VertexId,
    cur_cost: int,
    neighbor: VertexId,
    i: int,
)
    requires
        0 <= i < s.table.len(),
        s.table[i].distance is Some,
    ensures
        relax_one(g, target, mode, s, current, cur_cost, neighbor).table[i].distance is Some,
        (match (
            s.table[i].distance,
            relax_one(g, target, mode, s, current, cur_cost, neighbor).table[i].distance,
        ) {
            (Some(d), Some(d2)) => d2 <= d,
            _ => false,
        }),
{
}

/// Relaxing a neighbor list keeps every reached cell reached and never
/// raises a recorded cost.
pub proof fn lemma_relax_all_monotone(
    g: Game,
    target: Location,
    mode: Mode,
    s: SearchState,
    current: VertexId,
    cur_cost: int,
    nbs: Seq<VertexId>,
    i: int,
)
    requires
        0 <= i < s.table.len(),
        s.table[i].distance is Some,
    ensures
        relax_all(g, target, mode, s, current, cur_cost, nbs).table[i].distance is Some,
        (match (
            s.table[i].distance,
            relax_all(g, target, mode, s, current, cur_cost, nbs).table[i].distance,
        ) {
            (Some(d), Some(d2)) => d2 <= d,
            _ => false,
        }),
        relax_all(g, target, mode, s, current, cur_cost, nbs).table.len() == s.table.len(),
    decreases nbs.len(),
{
    if nbs.len() > 0 {
        lemma_relax_all_monotone(g, target, mode, s, current, cur_cost, nbs.drop_last(), i);
        lemma_relax_one_monotone(
            g,
            target,
            mode,
            relax_all(g, target, mode, s, current, cur_cost, nbs.drop_last()),
            current,
            cur_cost,
            nbs.last(),
            i,
        );
    }
}

/// A cell's recorded cost only ever decreases across relaxations: once a
/// cell is reached it stays reached, and no step of the whole search ever
/// raises its recorded cost.
pub proof fn lemma_recorded_cost_monotone(
    g: Game,
    target: Location,
    mode: Mode,
    s: SearchState,
    i: int,
)
    requires
        0 <= i < s.table.len(),
        s.table[i].distance is Some,
    ensures
        search_loop(g, target, mode, s).table[i].distance is Some,
        (match (s.table[i].distance, search_loop(g, target, mode, s).table[i].distance) {
            (Some(d), Some(d2)) => d2 <= d,
            _ => false,
        }),
    decreases measure(s),
{
    if s.queue.len() > 0 {
        let j = min_index(s.queue);
        lemma_min_index_range(s.queue);
        let current = s.queue[j].vertex;
        let cur_cost = s.queue[j].distance as int;
        let s1 = SearchState { table: s.table, queue: s.queue.remove(j), disc: s.disc };
        let nbs = g.adjacent_spec(current, target, mode);
        lemma_relax_all_monotone(g, target, mode, s1, current, cur_cost, nbs, i);
        lemma_relax_all_measure(g, target, mode, s1, current, cur_cost, nbs);
        lemma_recorded_cost_monotone(
            g,
            target,
            mode,
            relax_all(g, target, mode, s1, current, cur_cost, nbs),
            i,
        );
    }
}

/// Two searches over identical inputs build identical distance tables:
/// the table is a pure function of the game, origin, target and mode.
pub proof fn lemma_distance_table_deterministic(
    g: Game,
    origin: Location,
    target: Location,
    mode: Mode,
    t1: Seq<DistanceInfo>,
    t2: Seq<DistanceInfo>,
)
    requires
        t1 == spec_distance_table(g, origin, target, mode),
        t2 == spec_distance_table(g, origin, target, mode),
    ensures
        t1 == t2,
{
}

/// Two runs over identical inputs reconstruct identical routes (or fail
/// with identical errors): the result is a pure function of the inputs.
pub proof fn lemma_run_deterministic(
    g: Game,
    origin: Location,
    target: Location,
    mode: Mode,
    r1: Result<Seq<Location>, SearchError>,
    r2: Result<Seq<Location>, SearchError>,
)
    requires
        r1 == spec_run(g, origin, target, mode),
        r2 == spec_run(g, origin, target, mode),
    ensures
        r1 == r2,
{
}

/// Bookkeeping that holds of every table the search produces: a cell has a
/// recorded cost exactly when it has a predecessor, and every reached cell
/// other than the origin passed the exclusion rule.
pub open spec fn table_inv_admitted(
    g: Game,
    origin: Location,
    target: Location,
    mode: Mode,
    t: Seq<DistanceInfo>,
) -> bool {
    &&& forall|k: int|
        0 <= k < t.len() ==> ((#[trigger] t[k]).distance is Some <==> t[k].last_vertex is Some)
    &&& forall|k: int|
        0 <= k < t.len() && (#[trigger] t[k]).last_vertex is Some && k != flat_id(
            (origin.x, origin.y),
            g.columns as int,
        ) ==> (match t[k].last_vertex {
            Some(p) => exists|v: VertexId|
                #[trigger] flat_id(v, g.columns as int) == k && vid_in_bounds(
                    v,
                    g.rows as int,
                    g.columns as int,
                ) && vertex_admitted(g.mode_creepers(mode), v, target, g.ferris_loc())
                    && king_adj(p, v),
            None => false,
        })
}

/// One relaxation records costs only for cells the exclusion rule admits.
pub proof fn lemma_relax_one_admitted(
    g: Game,
    origin: Location,
    target: Location,
    mode: Mode,
    s: SearchState,
    current: VertexId,
    cur_cost: int,
    neighbor: VertexId,
)
    requires
        table_inv_admitted(g, origin, target, mode, s.table),
        vid_in_bounds(neighbor, g.rows as int, g.columns as int),
        vertex_admitted(g.mode_creepers(mode), neighbor, target, g.ferris_loc()),
        king_adj(current, neighbor),
    ensures
        table_inv_admitted(
            g,
            origin,
            target,
            mode,
            relax_one(g, target, mode, s, current, cur_cost, neighbor).table,
        ),
{
    let i = flat_id(neighbor, g.columns as int);
    let t2 = relax_one(g, target, mode, s, current, cur_cost, neighbor).table;
    let e = edge_cost(g, neighbor, target, mode);
    let cand = (cur_cost + e) as i32;
    let updated = 0 <= i < s.table.len() && (match s.table[i].distance {
        None => true,
        Some(d) => d > cand,
    });
    if updated {
        assert(t2 == s.table.update(
            i,
            DistanceInfo { distance: Some(cand), last_vertex: Some(current) },
        ));
        assert forall|k: int|
            0 <= k < t2.len() && (#[trigger] t2[k]).last_vertex is Some && k != flat_id(
                (origin.x, origin.y),
                g.columns as int,
            ) implies (match t2[k].last_vertex {
            Some(p) => exists|v: VertexId|
                #[trigger] flat_id(v, g.columns as int) == k && vid_in_bounds(
                    v,
                    g.rows as int,
                    g.columns as int,
                ) && vertex_admitted(g.mode_creepers(mode), v, target, g.ferris_loc())
                    && king_adj(p, v),
            None => false,
        }) by {
            if k == i {
                assert(flat_id(neighbor, g.columns as int) == k && vid_in_bounds(
                    neighbor,
                    g.rows as int,
                    g.columns as int,
                ) && vertex_admitted(g.mode_creepers(mode), neighbor, target, g.ferris_loc())
                    && king_adj(current, neighbor));
            } else {
                assert(t2[k] == s.table[k]);
            }
        }
    }
}

/// Relaxing an admitted neighbor list keeps the bookkeeping.
pub proof fn lemma_relax_all_admitted(
    g: Game,
    origin: Location,
    target: Location,
    mode: Mode,
    s: SearchState,
    current: VertexId,
    cur_cost: int,
    nbs: Seq<VertexId>,
)
    requires
        table_inv_admitted(g, origin, target, mode, s.table),
        forall|k: int|
            0 <= k < nbs.len() ==> vid_in_bounds(#[trigger] nbs[k], g.rows as int, g.columns as int),
        forall|k: int|
            0 <= k < nbs.len() ==> vertex_admitted(
                g.mode_creepers(mode),
                #[trigger] nbs[k],
                target,
                g.ferris_loc(),
            ),
        forall|k: int| 0 <= k < nbs.len() ==> king_adj(current, #[trigger] nbs[k]),
    ensures
        table_inv_admitted(
            g,
            origin,
            target,
            mode,
            relax_all(g, target, mode, s, current, cur_cost, nbs).table,
        ),
    decreases nbs.len(),
{
    if nbs.len() > 0 {
        assert(forall|k: int|
            0 <= k < nbs.drop_last().len() ==> #[trigger] nbs.drop_last()[k] == nbs[k]);
        lemma_relax_all_admitted(g, origin, target, mode, s, current, cur_cost, nbs.drop_last());
        lemma_relax_one_admitted(
            g,
            origin,
            target,
            mode,
            relax_all(g, target, mode, s, current, cur_cost, nbs.drop_last()),
            current,
            cur_cost,
            nbs.last(),
        );
    }
}

/// The whole search keeps the bookkeeping.
pub proof fn lemma_search_loop_admitted(
    g: Game,
    origin: Location,
    target: Location,
    mode: Mode,
    s: SearchState,
)
    requires
        g.wf(),
        sstate_wf(s, g.rows as int, g.columns as int),
        table_inv_admitted(g, origin, target, mode, s.table),
    ensures
        table_inv_admitted(g, origin, target, mode, search_loop(g, target, mode, s).table),
    decreases measure(s),
{
    if s.queue.len() > 0 {
        let j = min_index(s.queue);
        lemma_min_index_range(s.queue);
        let current = s.queue[j].vertex;
        let cur_cost = s.queue[j].distance as int;
        let s1 = SearchState { table: s.table, queue: s.queue.remove(j), disc: s.disc };
        assert(forall|k: int|
            0 <= k < s1.queue.len() ==> vid_in_bounds(
                (#[trigger] s1.queue[k]).vertex,
                g.rows as int,
                g.columns as int,
            ));
        let nbs = g.adjacent_spec(current, target, mode);
        lemma_adjacent_spec_in_bounds(g, current, target, mode);
        lemma_adjacent_spec_admitted(g, current, target, mode);
        lemma_adjacent_spec_king(g, current, target, mode);
        lemma_relax_all_wf(g, target, mode, s1, current, cur_cost, nbs);
        lemma_relax_all_admitted(g, origin, target, mode, s1, current, cur_cost, nbs);
        lemma_relax_all_measure(g, target, mode, s1, current, cur_cost, nbs);
        lemma_search_loop_admitted(
            g,
            origin,
            target,
            mode,
            relax_all(g, target, mode, s1, current, cur_cost, nbs),
        );
    }
}

/// Every cell a predecessor walk yields passed the exclusion rule: it is
/// not a threat cell, unless it is the target or the pursued agent's cell.
pub proof fn lemma_backtrack_cells_admitted(
    g: Game,
    origin: Location,
    target: Location,
    mode: Mode,
    tbl: Seq<DistanceInfo>,
    cur: VertexId,
    fuel: nat,
)
    requires
        g.wf(),
        origin.in_bounds(g.rows as int, g.columns as int),
        table_inv_admitted(g, origin, target, mode, tbl),
        tbl.len() == (g.rows as int) * (g.columns as int),
        forall|k: int|
            0 <= k < tbl.len() ==> (match (#[trigger] tbl[k]).last_vertex {
                Some(p) => vid_in_bounds(p, g.rows as int, g.columns as int),
                None => true,
            }),
        vid_in_bounds(cur, g.rows as int, g.columns as int),
        cur != (origin.x, origin.y),
    ensures
        (match backtrack(tbl, g.columns as int, origin, cur, fuel) {
            Some(q) => {
                &&& forall|j: int|
                    0 <= j < q.len() ==> vertex_admitted(
                        g.mode_creepers(mode),
                        ((#[trigger] q[j]).x, q[j].y),
                        target,
                        g.ferris_loc(),
                    )
                &&& q.len() >= 1
                &&& q[q.len() - 1] == (Location { x: cur.0, y: cur.1 })
                &&& king_adj((origin.x, origin.y), (q[0].x, q[0].y))
                &&& forall|j: int|
                    0 <= j < q.len() - 1 ==> king_adj(
                        ((#[trigger] q[j]).x, q[j].y),
                        (q[j + 1].x, q[j + 1].y),
                    )
            },
            None => true,
        }),
    decreases fuel,
{
    if fuel > 0 {
        let i = flat_id(cur, g.columns as int);
        lemma_flat_id_range(cur, g.rows as int, g.columns as int);
        match tbl[i].last_vertex {
            None => {},
            Some(p) => {
                lemma_flat_id_range((origin.x, origin.y), g.rows as int, g.columns as int);
                if i == flat_id((origin.x, origin.y), g.columns as int) {
                    lemma_flat_id_injective(
                        cur,
                        (origin.x, origin.y),
                        g.rows as int,
                        g.columns as int,
                    );
                    assert(false);
                }
                assert(tbl[i].distance is Some);
                let v = choose|v: VertexId|
                    #[trigger] flat_id(v, g.columns as int) == i && vid_in_bounds(
                        v,
                        g.rows as int,
                        g.columns as int,
                    ) && vertex_admitted(g.mode_creepers(mode), v, target, g.ferris_loc())
                        && king_adj(p, v);
                lemma_flat_id_injective(v, cur, g.rows as int, g.columns as int);
                assert(vertex_admitted(g.mode_creepers(mode), cur, target, g.ferris_loc()));
                assert(king_adj(p, cur));
                let here = Location { x: cur.0, y: cur.1 };
                if p == (origin.x, origin.y) {
                } else {
                    lemma_backtrack_cells_admitted(
                        g,
                        origin,
                        target,
                        mode,
                        tbl,
                        p,
                        (fuel - 1) as nat,
                    );
                    match backtrack(tbl, g.columns as int, origin, p, (fuel - 1) as nat) {
                        None => {},
                        Some(pre) => {
                            let q = pre.push(here);
                            assert forall|j: int| 0 <= j < q.len() implies vertex_admitted(
                                g.mode_creepers(mode),
                                ((#[trigger] q[j]).x, q[j].y),
                                target,
                                g.ferris_loc(),
                            ) by {
                                if j < pre.len() {
                                    assert(q[j] == pre[j]);
                                } else {
                                    assert(q[j] == here);
                                }
                            }
                            assert(pre[pre.len() - 1] == (Location { x: p.0, y: p.1 }));
                            assert(((pre[pre.len() - 1].x, pre[pre.len() - 1].y)) == p);
                            assert forall|j: int| 0 <= j < q.len() - 1 implies king_adj(
                                ((#[trigger] q[j]).x, q[j].y),
                                (q[j + 1].x, q[j + 1].y),
                            ) by {
                                if j < pre.len() - 1 {
                                    assert(q[j] == pre[j] && q[j + 1] == pre[j + 1]);
                                } else {
                                    assert(q[j] == pre[pre.len() - 1] && q[j + 1] == here);
                                }
                            }
                            assert(q[0] == pre[0]);
                        },
                    }
                }
            },
        }
    }
}

/// The evader's route avoids every threat's exclusion zone: in `Ferris`
/// mode no cell of a returned route lies inside the 3-by-3 block centered
/// on a threat, unless that cell is the target or the pursued agent's own
/// (current) cell.
pub proof fn lemma_evader_path_avoids_threats(
    g: Game,
    origin: Location,
    target: Location,
    p: Seq<Location>,
)
    requires
        g.wf(),
        spec_run(g, origin, target, Mode::Ferris) == Ok::<Seq<Location>, SearchError>(p),
    ensures
        forall|j: int|
            0 <= j < p.len() ==> (!creeper_zone_at(g.creepers_seq(), ((#[trigger] p[j]).x, p[j].y))
                || p[j] == target || p[j] == g.ferris_loc()),
{
    let mode = Mode::Ferris;
    if origin == target {
    } else {
        let init = init_state(g, origin);
        let tbl = spec_distance_table(g, origin, target, mode);
        assert forall|k: int| 0 <= k < init.table.len() implies (match (#[trigger] init.table[k]).last_vertex {
            Some(q) => vid_in_bounds(q, g.rows as int, g.columns as int),
            None => true,
        }) && ((#[trigger] init.table[k]).distance is Some <==> init.table[k].last_vertex
            is Some) by {
            assert(init.table[k] == init_entry(g, origin, k));
        }
        assert(sstate_wf(init, g.rows as int, g.columns as int));
        assert(table_inv_admitted(g, origin, target, mode, init.table));
        lemma_search_loop_wf(g, target, mode, init);
        lemma_search_loop_admitted(g, origin, target, mode, init);
        lemma_backtrack_cells_admitted(
            g,
            origin,
            target,
            mode,
            tbl,
            (target.x, target.y),
            ((g.rows as int) * (g.columns as int)) as nat,
        );
        assert(g.mode_creepers(mode) == g.creepers_seq());
        assert forall|j: int| 0 <= j < p.len() implies (!creeper_zone_at(
            g.creepers_seq(),
            ((#[trigger] p[j]).x, p[j].y),
        ) || p[j] == target || p[j] == g.ferris_loc()) by {
            assert(vertex_admitted(g.mode_creepers(mode), (p[j].x, p[j].y), target, g.ferris_loc()));
            assert((Location { x: p[j].x, y: p[j].y }) == p[j]);
        }
    }
}

/// Bookkeeping the search maintains: the discovery log `disc` lists each
/// reached cell exactly once, in the order it was first reached; a cell
/// has a recorded cost exactly when it has a predecessor; recorded costs
/// are non-negative and grow by at most one largest edge per discovery;
/// and every frontier entry carries exactly the cost its cell's table
/// record shows.
#[verifier::opaque]
pub open spec fn disc_inv(g: Game, origin: Location, s: SearchState) -> bool {
    let cols = g.columns as int;
    let n = (g.rows as int) * (g.columns as int);
    &&& s.table.len() == n
    &&& s.disc.no_duplicates()
    &&& forall|j: int| 0 <= j < s.disc.len() ==> 0 <= #[trigger] s.disc[j] < n
    &&& forall|k: int|
        0 <= k < n ==> ((#[trigger] s.table[k]).distance is Some <==> s.disc.contains(k))
    &&& forall|k: int|
        0 <= k < n ==> ((#[trigger] s.table[k]).distance is Some <==> s.table[k].last_vertex
            is Some)
    &&& forall|k: int|
        0 <= k < n ==> (match (#[trigger] s.table[k]).distance {
            Some(d) => 0 <= d && d as int <= s.disc.len() * (MAX_EDGE as int),
            None => true,
        })
    &&& forall|q: int|
        0 <= q < s.queue.len() ==> vid_in_bounds(
            (#[trigger] s.queue[q]).vertex,
            g.rows as int,
            g.columns as int,
        ) && 0 <= flat_id(s.queue[q].vertex, cols) < n && s.table[flat_id(
            s.queue[q].vertex,
            cols,
        )].distance == Some(s.queue[q].distance)
}

/// Every reached cell other than the origin is costed consistently with
/// its predecessor link: the predecessor is reached, and its recorded cost
/// plus the edge onto the cell is no more than the cell's recorded cost
/// (the predecessor's own cost may have improved since the link was
/// written).
#[verifier::opaque]
pub open spec fn pred_cost_inv(
    g: Game,
    origin: Location,
    target: Location,
    mode: Mode,
    t: Seq<DistanceInfo>,
) -> bool {
    let cols = g.columns as int;
    forall|k: int|
        0 <= k < t.len() && (#[trigger] t[k]).last_vertex is Some && k != flat_id(
            (origin.x, origin.y),
            cols,
        ) ==> (match t[k].last_vertex {
            Some(p) => 0 <= flat_id(p, cols) < t.len() && exists|v: VertexId|
                #[trigger] flat_id(v, cols) == k && vid_in_bounds(
                    v,
                    g.rows as int,
                    g.columns as int,
                ) && p != v && g.adjacent_spec(p, target, mode).contains(v) && (match (
                    t[flat_id(p, cols)].distance,
                    t[k].distance,
                ) {
                    (Some(pv), Some(kv)) => pv as int + edge_cost(g, v, target, mode)
                        <= kv as int,
                    _ => false,
                }),
            None => false,
        })
}

/// Every entry of the filtered frontier is an entry of the frontier, and
/// none of them is for the dropped cell.
pub proof fn lemma_queue_without_entries(q: Seq<VertexInfo>, v: VertexId)
    ensures
        forall|j: int|
            0 <= j < queue_without(q, v).len() ==> exists|j0: int|
                0 <= j0 < q.len() && #[trigger] queue_without(q, v)[j] == q[j0],
        forall|j: int|
            0 <= j < queue_without(q, v).len() ==> (#[trigger] queue_without(q, v)[j]).vertex != v,
    decreases q.len(),
{
    if q.len() > 0 {
        lemma_queue_without_entries(q.drop_last(), v);
        let rest = queue_without(q.drop_last(), v);
        assert forall|j: int| 0 <= j < queue_without(q, v).len() implies (exists|j0: int|
            0 <= j0 < q.len() && #[trigger] queue_without(q, v)[j] == q[j0]) && queue_without(
            q,
            v,
        )[j].vertex != v by {
            if q.last().vertex == v {
                let j0 = choose|j0: int|
                    0 <= j0 < q.drop_last().len() && #[trigger] rest[j] == q.drop_last()[j0];
                assert(queue_without(q, v)[j] == q[j0]);
            } else {
                if j < rest.len() {
                    let j0 = choose|j0: int|
                        0 <= j0 < q.drop_last().len() && #[trigger] rest[j] == q.drop_last()[j0];
                    assert(queue_without(q, v)[j] == q[j0]);
                } else {
                    assert(queue_without(q, v)[j] == q[q.len() - 1]);
                }
            }
        }
    }
}

/// A duplicate-free sequence of indices below `n` has at most `n` entries.
pub proof fn lemma_disc_len_le(disc: Seq<int>, n: int)
    requires
        0 <= n,
        disc.no_duplicates(),
        forall|j: int| 0 <= j < disc.len() ==> 0 <= #[trigger] disc[j] < n,
    ensures
        disc.len() <= n,
{
    disc.unique_seq_to_set();
    lemma_int_range(0, n);
    assert forall|x: int| disc.to_set().contains(x) implies set_int_range(0, n).contains(x) by {
        let j = choose|j: int| 0 <= j < disc.len() && disc[j] == x;
    }
    assert(disc.to_set().subset_of(set_int_range(0, n)));
    lemma_len_subset(disc.to_set(), set_int_range(0, n));
}

/// The starting state satisfies all the search bookkeeping.
pub proof fn lemma_init_state_invs(g: Game, origin: Location, target: Location, mode: Mode)
    requires
        g.wf(),
        origin.in_bounds(g.rows as int, g.columns as int),
    ensures
        sstate_wf(init_state(g, origin), g.rows as int, g.columns as int),
        disc_inv(g, origin, init_state(g, origin)),
        pred_cost_inv(g, origin, target, mode, init_state(g, origin).table),
        table_inv_admitted(g, origin, target, mode, init_state(g, origin).table),
        fixed_inv(g, target, mode, init_state(g, origin)),
{
    reveal(disc_inv);
    reveal(pred_cost_inv);
    let init = init_state(g, origin);
    let cols = g.columns as int;
    let of = flat_id((origin.x, origin.y), cols);
    lemma_flat_id_range((origin.x, origin.y), g.rows as int, cols);
    assert forall|k: int| 0 <= k < init.table.len() implies (match (#[trigger] init.table[k]).last_vertex {
        Some(q) => vid_in_bounds(q, g.rows as int, g.columns as int),
        None => true,
    }) && ((#[trigger] init.table[k]).distance is Some <==> init.table[k].last_vertex is Some)
        && ((#[trigger] init.table[k]).distance is Some <==> init.disc.contains(k)) && (match (
        #[trigger] init.table[k]).distance {
        Some(d) => 0 <= d && d as int <= init.disc.len() * (MAX_EDGE as int),
        None => true,
    }) by {
        assert(init.table[k] == init_entry(g, origin, k));
        if k == of {
            assert(init.disc[0] == of);
        } else {
            if init.disc.contains(k) {
                let j2 = choose|j2: int| 0 <= j2 < init.disc.len() && init.disc[j2] == k;
            }
        }
    }
    assert(sstate_wf(init, g.rows as int, g.columns as int));
    assert(disc_inv(g, origin, init));
    assert(pred_cost_inv(g, origin, target, mode, init.table));
    assert(table_inv_admitted(g, origin, target, mode, init.table));
    assert(fixed_inv(g, target, mode, init)) by {
        reveal(fixed_inv);
        assert forall|u: VertexId, j: int|
            vid_in_bounds(u, g.rows as int, g.columns as int) && 0 <= flat_id(u, cols)
                < init.table.len() && init.table[flat_id(u, cols)].distance is Some && !queued(
                init,
                u,
            ) && 0 <= j < g.adjacent_spec(u, target, mode).len() implies step_relaxed(
            g,
            target,
            mode,
            init.table,
            u,
            #[trigger] g.adjacent_spec(u, target, mode)[j],
        ) by {
            assert(init.table[flat_id(u, cols)] == init_entry(g, origin, flat_id(u, cols)));
            if flat_id(u, cols) == of {
                assert(init.queue[0].vertex == (origin.x, origin.y));
                lemma_flat_id_injective(u, (origin.x, origin.y), g.rows as int, cols);
                assert(queued(init, u));
                assert(false);
            }
        }
    }
}

/// One relaxation keeps the discovery bookkeeping and never touches the
/// extracted cell's own record.
#[verifier::rlimit(100)]
pub proof fn lemma_relax_one_costs(
    g: Game,
    origin: Location,
    target: Location,
    mode: Mode,
    s: SearchState,
    current: VertexId,
    cur_cost: int,
    neighbor: VertexId,
)
    requires
        g.wf(),
        target.in_bounds(g.rows as int, g.columns as int),
        disc_inv(g, origin, s),
        vid_in_bounds(current, g.rows as int, g.columns as int),
        vid_in_bounds(neighbor, g.rows as int, g.columns as int),
        king_adj(current, neighbor),
        (match s.table[flat_id(current, g.columns as int)].distance {
            Some(cc) => cc as int == cur_cost,
            None => false,
        }),
    ensures
        disc_inv(g, origin, relax_one(g, target, mode, s, current, cur_cost, neighbor)),
        relax_one(g, target, mode, s, current, cur_cost, neighbor).table[flat_id(
            current,
            g.columns as int,
        )] == s.table[flat_id(current, g.columns as int)],
        s.disc.len() <= relax_one(g, target, mode, s, current, cur_cost, neighbor).disc.len(),
{
    reveal(disc_inv);
    let cols = g.columns as int;
    let rows = g.rows as int;
    let n = rows * cols;
    let of = flat_id((origin.x, origin.y), cols);
    let i = flat_id(neighbor, cols);
    let fc = flat_id(current, cols);
    lemma_flat_id_range(neighbor, rows, cols);
    lemma_flat_id_range(current, rows, cols);
    if i == fc {
        lemma_flat_id_injective(neighbor, current, rows, cols);
        assert(false);
    }
    lemma_edge_cost_bounds(g, neighbor, target, mode);
    let e = edge_cost(g, neighbor, target, mode);
    lemma_disc_len_le(s.disc, n);
    assert(rows * cols <= 10000) by (nonlinear_arith)
        requires 1 <= rows <= 100 && 1 <= cols <= 100;
    assert(0 <= cur_cost && cur_cost <= s.disc.len() * (MAX_EDGE as int));
    assert(s.disc.len() * (MAX_EDGE as int) <= 10000 * (MAX_EDGE as int));
    let cand = (cur_cost + e) as i32;
    assert(cand as int == cur_cost + e);
    let s2 = relax_one(g, target, mode, s, current, cur_cost, neighbor);
    let updated = match s.table[i].distance {
        None => true,
        Some(d) => d > cand,
    };
    if updated {
        assert(s2.table == s.table.update(
            i,
            DistanceInfo { distance: Some(cand), last_vertex: Some(current) },
        ));
        // the frontier after the stale entry is dropped and the new one added
        lemma_queue_without_entries(s.queue, neighbor);
        let qw = queue_without(s.queue, neighbor);
        assert forall|q: int| 0 <= q < s2.queue.len() implies vid_in_bounds(
            (#[trigger] s2.queue[q]).vertex,
            rows,
            cols,
        ) && 0 <= flat_id(s2.queue[q].vertex, cols) < n && s2.table[flat_id(
            s2.queue[q].vertex,
            cols,
        )].distance == Some(s2.queue[q].distance) by {
            if q < qw.len() {
                assert(s2.queue[q] == qw[q]);
                let j0 = choose|j0: int| 0 <= j0 < s.queue.len() && #[trigger] qw[q] == s.queue[j0];
                let f = flat_id(s.queue[j0].vertex, cols);
                if f == i {
                    lemma_flat_id_injective(s.queue[j0].vertex, neighbor, rows, cols);
                    assert(false);
                }
                assert(s2.table[f] == s.table[f]);
            } else {
                assert(s2.queue[q].vertex == neighbor);
            }
        }
        match s.table[i].distance {
            None => {
                // a first discovery: the log grows by this cell
                assert(!s.disc.contains(i));
                let d2 = s.disc.push(i);
                assert(s2.disc == d2);
                assert forall|j1: int, j2: int| 0 <= j1 < j2 < d2.len() implies d2[j1] != d2[j2] by {
                    if j2 == d2.len() - 1 {
                        assert(d2[j1] == s.disc[j1]);
                        if d2[j1] == i {
                            assert(s.disc.contains(i));
                        }
                    }
                }
                assert(d2.no_duplicates());
                assert forall|k: int| 0 <= k < n implies ((#[trigger] s2.table[k]).distance
                    is Some <==> d2.contains(k)) by {
                    if k == i {
                        assert(d2[d2.len() - 1] == i);
                    } else {
                        assert(s2.table[k] == s.table[k]);
                        if d2.contains(k) {
                            let j = choose|j: int| 0 <= j < d2.len() && d2[j] == k;
                            assert(j < s.disc.len() && s.disc[j] == k);
                        } else {
                            if s.disc.contains(k) {
                                let j = choose|j: int| 0 <= j < s.disc.len() && s.disc[j] == k;
                                assert(d2[j] == k);
                            }
                        }
                    }
                }
                assert forall|k: int| 0 <= k < n implies (match (#[trigger] s2.table[k]).distance {
                    Some(d) => 0 <= d && d as int <= d2.len() * (MAX_EDGE as int),
                    None => true,
                }) by {
                    assert(d2.len() * (MAX_EDGE as int) == s.disc.len() * (MAX_EDGE as int)
                        + (MAX_EDGE as int));
                    if k != i {
                        assert(s2.table[k] == s.table[k]);
                    }
                }
            },
            Some(d) => {
                // a strict improvement: the log is unchanged
                assert(s2.disc == s.disc);
                assert forall|k: int| 0 <= k < n implies ((#[trigger] s2.table[k]).distance
                    is Some <==> s.disc.contains(k)) by {
                    if k != i {
                        assert(s2.table[k] == s.table[k]);
                    }
                }
                assert forall|k: int| 0 <= k < n implies (match (#[trigger] s2.table[k]).distance {
                    Some(d3) => 0 <= d3 && d3 as int <= s.disc.len() * (MAX_EDGE as int),
                    None => true,
                }) by {
                    if k != i {
                        assert(s2.table[k] == s.table[k]);
                    }
                }
            },
        }
    }
}

/// One relaxation keeps the predecessor-cost bookkeeping.
#[verifier::rlimit(100)]
pub proof fn lemma_relax_one_pred_cost(
    g: Game,
    origin: Location,
    target: Location,
    mode: Mode,
    s: SearchState,
    current: VertexId,
    cur_cost: int,
    neighbor: VertexId,
)
    requires
        g.wf(),
        target.in_bounds(g.rows as int, g.columns as int),
        disc_inv(g, origin, s),
        pred_cost_inv(g, origin, target, mode, s.table),
        vid_in_bounds(current, g.rows as int, g.columns as int),
        vid_in_bounds(neighbor, g.rows as int, g.columns as int),
        king_adj(current, neighbor),
        g.adjacent_spec(current, target, mode).contains(neighbor),
        (match s.table[flat_id(current, g.columns as int)].distance {
            Some(cc) => cc as int == cur_cost,
            None => false,
        }),
    ensures
        pred_cost_inv(
            g,
            origin,
            target,
            mode,
            relax_one(g, target, mode, s, current, cur_cost, neighbor).table,
        ),
{
    reveal(disc_inv);
    reveal(pred_cost_inv);
    let cols = g.columns as int;
    let rows = g.rows as int;
    let n = rows * cols;
    let of = flat_id((origin.x, origin.y), cols);
    let i = flat_id(neighbor, cols);
    let fc = flat_id(current, cols);
    lemma_flat_id_range(neighbor, rows, cols);
    lemma_flat_id_range(current, rows, cols);
    if i == fc {
        lemma_flat_id_injective(neighbor, current, rows, cols);
        assert(false);
    }
    lemma_edge_cost_bounds(g, neighbor, target, mode);
    let e = edge_cost(g, neighbor, target, mode);
    lemma_disc_len_le(s.disc, n);
    assert(rows * cols <= 10000) by (nonlinear_arith)
        requires 1 <= rows <= 100 && 1 <= cols <= 100;
    assert(0 <= cur_cost && cur_cost <= s.disc.len() * (MAX_EDGE as int));
    assert(s.disc.len() * (MAX_EDGE as int) <= 10000 * (MAX_EDGE as int));
    let cand = (cur_cost + e) as i32;
    assert(cand as int == cur_cost + e);
    let s2 = relax_one(g, target, mode, s, current, cur_cost, neighbor);
    let updated = match s.table[i].distance {
        None => true,
        Some(d) => d > cand,
    };
    if updated {
        assert(s2.table == s.table.update(
            i,
            DistanceInfo { distance: Some(cand), last_vertex: Some(current) },
        ));
        assert forall|k: int|
            0 <= k < s2.table.len() && (#[trigger] s2.table[k]).last_vertex is Some && k != of
                implies (match s2.table[k].last_vertex {
            Some(p) => 0 <= flat_id(p, cols) < s2.table.len() && exists|v: VertexId|
                #[trigger] flat_id(v, cols) == k && vid_in_bounds(v, rows, cols) && p != v
                    && g.adjacent_spec(p, target, mode).contains(v) && (match (
                    s2.table[flat_id(p, cols)].distance,
                    s2.table[k].distance,
                ) {
                    (Some(pv), Some(kv)) => pv as int + edge_cost(g, v, target, mode) <= kv as int,
                    _ => false,
                }),
            None => false,
        }) by {
            if k == i {
                assert(s2.table[fc] == s.table[fc]);
                assert(current != neighbor);
                assert(flat_id(neighbor, cols) == k && vid_in_bounds(neighbor, rows, cols)
                    && current != neighbor && g.adjacent_spec(current, target, mode).contains(
                    neighbor,
                ) && (match (s2.table[fc].distance, s2.table[k].distance) {
                    (Some(pv), Some(kv)) => pv as int + edge_cost(g, neighbor, target, mode)
                        <= kv as int,
                    _ => false,
                }));
            } else {
                assert(s2.table[k] == s.table[k]);
                match s.table[k].last_vertex {
                    Some(p) => {
                        let fp = flat_id(p, cols);
                        let v = choose|v: VertexId|
                            #[trigger] flat_id(v, cols) == k && vid_in_bounds(v, rows, cols)
                                && p != v && g.adjacent_spec(p, target, mode).contains(v)
                                && (match (s.table[fp].distance, s.table[k].distance) {
                                (Some(pv), Some(kv)) => pv as int + edge_cost(g, v, target, mode)
                                    <= kv as int,
                                _ => false,
                            });
                        if fp == i {
                            assert(s2.table[fp].distance == Some(cand));
                        } else {
                            assert(s2.table[fp] == s.table[fp]);
                        }
                        assert(flat_id(v, cols) == k && vid_in_bounds(v, rows, cols) && p != v
                            && g.adjacent_spec(p, target, mode).contains(v) && (match (
                            s2.table[fp].distance,
                            s2.table[k].distance,
                        ) {
                            (Some(pv), Some(kv)) => pv as int + edge_cost(g, v, target, mode)
                                <= kv as int,
                            _ => false,
                        }));
                    },
                    None => {},
                }
            }
        }
    }
}

/// Relaxing a neighbor list keeps the discovery and predecessor-cost
/// bookkeeping, and never touches the extracted cell's own record.
pub proof fn lemma_relax_all_costs(
    g: Game,
    origin: Location,
    target: Location,
    mode: Mode,
    s: SearchState,
    current: VertexId,
    cur_cost: int,
    nbs: Seq<VertexId>,
)
    requires
        g.wf(),
        target.in_bounds(g.rows as int, g.columns as int),
        disc_inv(g, origin, s),
        pred_cost_inv(g, origin, target, mode, s.table),
        vid_in_bounds(current, g.rows as int, g.columns as int),
        forall|k: int|
            0 <= k < nbs.len() ==> vid_in_bounds(#[trigger] nbs[k], g.rows as int, g.columns as int),
        forall|k: int| 0 <= k < nbs.len() ==> king_adj(current, #[trigger] nbs[k]),
        forall|k: int|
            0 <= k < nbs.len() ==> g.adjacent_spec(current, target, mode).contains(
                #[trigger] nbs[k],
            ),
        (match s.table[flat_id(current, g.columns as int)].distance {
            Some(cc) => cc as int == cur_cost,
            None => false,
        }),
    ensures
        disc_inv(g, origin, relax_all(g, target, mode, s, current, cur_cost, nbs)),
        pred_cost_inv(
            g,
            origin,
            target,
            mode,
            relax_all(g, target, mode, s, current, cur_cost, nbs).table,
        ),
        relax_all(g, target, mode, s, current, cur_cost, nbs).table[flat_id(
            current,
            g.columns as int,
        )] == s.table[flat_id(current, g.columns as int)],
    decreases nbs.len(),
{
    if nbs.len() > 0 {
        assert(forall|k: int|
            0 <= k < nbs.drop_last().len() ==> #[trigger] nbs.drop_last()[k] == nbs[k]);
        lemma_relax_all_costs(g, origin, target, mode, s, current, cur_cost, nbs.drop_last());
        lemma_relax_one_costs(
            g,
            origin,
            target,
            mode,
            relax_all(g, target, mode, s, current, cur_cost, nbs.drop_last()),
            current,
            cur_cost,
            nbs.last(),
        );
        lemma_relax_one_pred_cost(
            g,
            origin,
            target,
            mode,
            relax_all(g, target, mode, s, current, cur_cost, nbs.drop_last()),
            current,
            cur_cost,
            nbs.last(),
        );
    }
}

/// The whole search keeps the discovery and predecessor-cost bookkeeping.
pub proof fn lemma_search_loop_costs(
    g: Game,
    origin: Location,
    target: Location,
    mode: Mode,
    s: SearchState,
)
    requires
        g.wf(),
        target.in_bounds(g.rows as int, g.columns as int),
        disc_inv(g, origin, s),
        pred_cost_inv(g, origin, target, mode, s.table),
    ensures
        disc_inv(g, origin, search_loop(g, target, mode, s)),
        pred_cost_inv(g, origin, target, mode, search_loop(g, target, mode, s).table),
    decreases measure(s),
{
    reveal(disc_inv);
    let cols = g.columns as int;
    let n = (g.rows as int) * cols;
    if s.queue.len() > 0 {
        let j = min_index(s.queue);
        lemma_min_index_range(s.queue);
        let current = s.queue[j].vertex;
        let cur_cost = s.queue[j].distance as int;
        let s1 = SearchState { table: s.table, queue: s.queue.remove(j), disc: s.disc };
        assert forall|q: int| 0 <= q < s1.queue.len() implies vid_in_bounds(
            (#[trigger] s1.queue[q]).vertex,
            g.rows as int,
            cols,
        ) && 0 <= flat_id(s1.queue[q].vertex, cols) < n && s1.table[flat_id(
            s1.queue[q].vertex,
            cols,
        )].distance == Some(s1.queue[q].distance) by {
            if q < j {
                assert(s1.queue[q] == s.queue[q]);
            } else {
                assert(s1.queue[q] == s.queue[q + 1]);
            }
        }
        assert(disc_inv(g, origin, s1));
        let nbs = g.adjacent_spec(current, target, mode);
        lemma_adjacent_spec_in_bounds(g, current, target, mode);
        lemma_adjacent_spec_king(g, current, target, mode);
        assert forall|k: int| 0 <= k < nbs.len() implies g.adjacent_spec(
            current,
            target,
            mode,
        ).contains(#[trigger] nbs[k]) by {
            assert(g.adjacent_spec(current, target, mode)[k] == nbs[k]);
        }
        lemma_relax_all_costs(g, origin, target, mode, s1, current, cur_cost, nbs);
        lemma_relax_all_measure(g, target, mode, s1, current, cur_cost, nbs);
        lemma_search_loop_costs(
            g,
            origin,
            target,
            mode,
            relax_all(g, target, mode, s1, current, cur_cost, nbs),
        );
    }
}

/// The walking rank of a cell: twice its recorded cost, plus one for the
/// target cell.  Every predecessor link strictly lowers it: stepping onto
/// any cell but the target costs at least one, and the target's own
/// predecessor is a distinct cell of no greater cost.
pub open spec fn walk_rank(t: Seq<DistanceInfo>, tf: int, k: int) -> int {
    2 * (match t[k].distance {
        Some(d) => d as int,
        None => 0,
    }) + if k == tf {
        1int
    } else {
        0int
    }
}

/// On a table the search built, a predecessor walk started at any reached
/// cell other than the origin reaches the origin before its fuel runs out:
/// the walk's rank strictly decreases, so no cell repeats, and there are
/// no more cells than fuel.  `seen` carries the cells already walked.
#[verifier::rlimit(100)]
pub proof fn lemma_backtrack_reaches_origin(
    g: Game,
    origin: Location,
    target: Location,
    mode: Mode,
    s: SearchState,
    cur: VertexId,
    seen: Set<int>,
    fuel: nat,
)
    requires
        g.wf(),
        origin.in_bounds(g.rows as int, g.columns as int),
        target.in_bounds(g.rows as int, g.columns as int),
        disc_inv(g, origin, s),
        pred_cost_inv(g, origin, target, mode, s.table),
        forall|k: int|
            0 <= k < s.table.len() ==> (match (#[trigger] s.table[k]).last_vertex {
                Some(p) => vid_in_bounds(p, g.rows as int, g.columns as int),
                None => true,
            }),
        vid_in_bounds(cur, g.rows as int, g.columns as int),
        cur != (origin.x, origin.y),
        s.table[flat_id(cur, g.columns as int)].last_vertex is Some,
        seen.finite(),
        forall|x: int|
            #[trigger] seen.contains(x) ==> 0 <= x < s.table.len() && walk_rank(
                s.table,
                flat_id((target.x, target.y), g.columns as int),
                x,
            ) > walk_rank(
                s.table,
                flat_id((target.x, target.y), g.columns as int),
                flat_id(cur, g.columns as int),
            ),
        !seen.contains(flat_id(cur, g.columns as int)),
        fuel + seen.len() >= (g.rows as int) * (g.columns as int),
    ensures
        backtrack(s.table, g.columns as int, origin, cur, fuel) is Some,
    decreases fuel,
{
    reveal(disc_inv);
    reveal(pred_cost_inv);
    let cols = g.columns as int;
    let rows = g.rows as int;
    let n = rows * cols;
    let i = flat_id(cur, cols);
    let tf = flat_id((target.x, target.y), cols);
    lemma_flat_id_range(cur, rows, cols);
    lemma_flat_id_range((origin.x, origin.y), rows, cols);
    lemma_flat_id_range((target.x, target.y), rows, cols);
    let seen1 = seen.insert(i);
    lemma_int_range(0, n);
    assert forall|x: int| seen1.contains(x) implies set_int_range(0, n).contains(x) by {}
    lemma_len_subset(seen1, set_int_range(0, n));
    assert(seen1.len() == seen.len() + 1);
    assert(fuel >= 1);
    if i == flat_id((origin.x, origin.y), cols) {
        lemma_flat_id_injective(cur, (origin.x, origin.y), rows, cols);
        assert(false);
    }
    match s.table[i].last_vertex {
        None => {
            assert(false);
        },
        Some(p) => {
            if p == (origin.x, origin.y) {
            } else {
                let fp = flat_id(p, cols);
                let v = choose|v: VertexId|
                    #[trigger] flat_id(v, cols) == i && vid_in_bounds(v, rows, cols) && p != v
                        && g.adjacent_spec(p, target, mode).contains(v) && (match (
                        s.table[fp].distance,
                        s.table[i].distance,
                    ) {
                        (Some(pv), Some(kv)) => pv as int + edge_cost(g, v, target, mode)
                            <= kv as int,
                        _ => false,
                    });
                lemma_flat_id_injective(v, cur, rows, cols);
                let e = edge_cost(g, cur, target, mode);
                lemma_edge_cost_nonneg(g, cur, target, mode);
                assert(vid_in_bounds(p, rows, cols));
                assert(p != cur);
                // the predecessor's rank is strictly lower
                if i == tf {
                    if fp == tf {
                        lemma_flat_id_injective(p, cur, rows, cols);
                        assert(false);
                    }
                } else {
                    if e == 0 {
                        lemma_edge_cost_zero(g, cur, target, mode);
                        assert(i == tf);
                        assert(false);
                    }
                }
                assert(walk_rank(s.table, tf, fp) < walk_rank(s.table, tf, i));
                assert forall|x: int| #[trigger] seen1.contains(x) implies 0 <= x < s.table.len()
                    && walk_rank(s.table, tf, x) > walk_rank(s.table, tf, fp) by {
                    if x != i {
                        assert(seen.contains(x));
                    }
                }
                assert(!seen1.contains(fp));
                assert(s.table[fp].distance is Some);
                assert(s.table[fp].last_vertex is Some);
                lemma_backtrack_reaches_origin(
                    g,
                    origin,
                    target,
                    mode,
                    s,
                    p,
                    seen1,
                    (fuel - 1) as nat,
                );
            }
        },
    }
}

/// When success is owed: the search returns a route exactly when the origin
/// and the target lie on the grid and the target is the origin itself or a
/// cell the search reached; `InvalidRequest` comes exactly from an off-grid
/// origin or target.
#[verifier::rlimit(100)]
pub proof fn lemma_run_success_characterized(g: Game, origin: Location, target: Location, mode: Mode)
    requires
        g.wf(),
    ensures
        (spec_run(g, origin, target, mode) is Ok) <==> (origin.in_bounds(
            g.rows as int,
            g.columns as int,
        ) && target.in_bounds(g.rows as int, g.columns as int) && (origin == target
            || spec_distance_table(g, origin, target, mode)[flat_id(
            (target.x, target.y),
            g.columns as int,
        )].last_vertex is Some)),
        (spec_run(g, origin, target, mode) == Err::<Seq<Location>, SearchError>(
            SearchError::InvalidRequest,
        )) <==> !(origin.in_bounds(g.rows as int, g.columns as int) && target.in_bounds(
            g.rows as int,
            g.columns as int,
        )),
{
    let cols = g.columns as int;
    let rows = g.rows as int;
    let n = rows * cols;
    if origin.in_bounds(rows, cols) && target.in_bounds(rows, cols) && origin != target {
        reveal(disc_inv);
        let init = init_state(g, origin);
        lemma_init_state_invs(g, origin, target, mode);
        lemma_search_loop_wf(g, target, mode, init);
        lemma_search_loop_costs(g, origin, target, mode, init);
        let sf = search_loop(g, target, mode, init);
        let tbl = sf.table;
        let ti = flat_id((target.x, target.y), cols);
        lemma_flat_id_range((target.x, target.y), rows, cols);
        if tbl[ti].last_vertex is Some {
            assert((target.x, target.y) != (origin.x, origin.y));
            assert(Set::<int>::empty().finite());
            assert(Set::<int>::empty().len() == 0);
            lemma_backtrack_reaches_origin(
                g,
                origin,
                target,
                mode,
                sf,
                (target.x, target.y),
                Set::<int>::empty(),
                n as nat,
            );
        }
    }
}


/// One relaxation reads only what `nav_eq` fixes.
pub proof fn lemma_relax_one_congruent(
    g1: Game,
    g2: Game,
    target: Location,
    mode: Mode,
    s: SearchState,
    current: VertexId,
    cur_cost: int,
    neighbor: VertexId,
)
    requires
        nav_eq(g1, g2),
    ensures
        relax_one(g1, target, mode, s, current, cur_cost, neighbor) == relax_one(
            g2,
            target,
            mode,
            s,
            current,
            cur_cost,
            neighbor,
        ),
{
    lemma_edge_cost_congruent(g1, g2, neighbor, target, mode);
}

/// Relaxing a neighbor list reads only what `nav_eq` fixes.
pub proof fn lemma_relax_all_congruent(
    g1: Game,
    g2: Game,
    target: Location,
    mode: Mode,
    s: SearchState,
    current: VertexId,
    cur_cost: int,
    nbs: Seq<VertexId>,
)
    requires
        nav_eq(g1, g2),
    ensures
        relax_all(g1, target, mode, s, current, cur_cost, nbs) == relax_all(
            g2,
            target,
            mode,
            s,
            current,
            cur_cost,
            nbs,
        ),
    decreases nbs.len(),
{
    if nbs.len() > 0 {
        lemma_relax_all_congruent(g1, g2, target, mode, s, current, cur_cost, nbs.drop_last());
        lemma_relax_one_congruent(
            g1,
            g2,
            target,
            mode,
            relax_all(g1, target, mode, s, current, cur_cost, nbs.drop_last()),
            current,
            cur_cost,
            nbs.last(),
        );
    }
}

/// The whole search reads only what `nav_eq` fixes.
pub proof fn lemma_search_loop_congruent(
    g1: Game,
    g2: Game,
    target: Location,
    mode: Mode,
    s: SearchState,
)
    requires
        nav_eq(g1, g2),
    ensures
        search_loop(g1, target, mode, s) == search_loop(g2, target, mode, s),
    decreases measure(s),
{
    if s.queue.len() > 0 {
        let j = min_index(s.queue);
        lemma_min_index_range(s.queue);
        let current = s.queue[j].vertex;
        let cur_cost = s.queue[j].distance as int;
        let s1 = SearchState { table: s.table, queue: s.queue.remove(j), disc: s.disc };
        lemma_adjacent_spec_congruent(g1, g2, current, target, mode);
        let nbs = g1.adjacent_spec(current, target, mode);
        lemma_relax_all_congruent(g1, g2, target, mode, s1, current, cur_cost, nbs);
        lemma_relax_all_measure(g1, target, mode, s1, current, cur_cost, nbs);
        lemma_search_loop_congruent(
            g1,
            g2,
            target,
            mode,
            relax_all(g1, target, mode, s1, current, cur_cost, nbs),
        );
    }
}

/// The result of a search reads only what `nav_eq` fixes: recorded
/// histories and routes inside the game never influence it.
pub proof fn lemma_run_congruent(g1: Game, g2: Game, origin: Location, target: Location, mode: Mode)
    requires
        nav_eq(g1, g2),
    ensures
        spec_run(g1, origin, target, mode) == spec_run(g2, origin, target, mode),
        spec_distance_table(g1, origin, target, mode) == spec_distance_table(
            g2,
            origin,
            target,
            mode,
        ),
{
    assert(init_state(g1, origin).table =~= init_state(g2, origin).table);
    assert(init_state(g1, origin) == init_state(g2, origin));
    lemma_search_loop_congruent(g1, g2, target, mode, init_state(g1, origin));
}

/// Every cell a predecessor walk yields lies on the grid.
pub proof fn lemma_backtrack_cells_on_grid(
    g: Game,
    origin: Location,
    tbl: Seq<DistanceInfo>,
    cur: VertexId,
    fuel: nat,
)
    requires
        g.wf(),
        tbl.len() == (g.rows as int) * (g.columns as int),
        forall|k: int|
            0 <= k < tbl.len() ==> (match (#[trigger] tbl[k]).last_vertex {
                Some(p) => vid_in_bounds(p, g.rows as int, g.columns as int),
                None => true,
            }),
        vid_in_bounds(cur, g.rows as int, g.columns as int),
    ensures
        (match backtrack(tbl, g.columns as int, origin, cur, fuel) {
            Some(q) => forall|j: int|
                0 <= j < q.len() ==> (#[trigger] q[j]).in_bounds(g.rows as int, g.columns as int),
            None => true,
        }),
    decreases fuel,
{
    if fuel > 0 {
        let i = flat_id(cur, g.columns as int);
        lemma_flat_id_range(cur, g.rows as int, g.columns as int);
        match tbl[i].last_vertex {
            None => {},
            Some(p) => {
                let here = Location { x: cur.0, y: cur.1 };
                if p == (origin.x, origin.y) {
                } else {
                    lemma_backtrack_cells_on_grid(g, origin, tbl, p, (fuel - 1) as nat);
                    match backtrack(tbl, g.columns as int, origin, p, (fuel - 1) as nat) {
                        None => {},
                        Some(pre) => {
                            assert forall|j: int| 0 <= j < pre.push(here).len() implies (
                            #[trigger] pre.push(here)[j]).in_bounds(
                                g.rows as int,
                                g.columns as int,
                            ) by {
                                if j < pre.len() {
                                    assert(pre.push(here)[j] == pre[j]);
                                } else {
                                    assert(pre.push(here)[j] == here);
                                }
                            }
                        },
                    }
                }
            },
        }
    }
}

/// Every cell of a returned route lies on the grid.
pub proof fn lemma_run_path_on_grid(g: Game, origin: Location, target: Location, mode: Mode)
    requires
        g.wf(),
    ensures
        (match spec_run(g, origin, target, mode) {
            Ok(p) => forall|j: int|
                0 <= j < p.len() ==> (#[trigger] p[j]).in_bounds(g.rows as int, g.columns as int),
            Err(_) => true,
        }),
{
    if origin.in_bounds(g.rows as int, g.columns as int) && target.in_bounds(
        g.rows as int,
        g.columns as int,
    ) && origin != target {
        let init = init_state(g, origin);
        assert forall|k: int| 0 <= k < init.table.len() implies (match (#[trigger] init.table[k]).last_vertex {
            Some(q) => vid_in_bounds(q, g.rows as int, g.columns as int),
            None => true,
        }) by {
            assert(init.table[k] == init_entry(g, origin, k));
        }
        assert(sstate_wf(init, g.rows as int, g.columns as int));
        lemma_search_loop_wf(g, target, mode, init);
        lemma_backtrack_cells_on_grid(
            g,
            origin,
            spec_distance_table(g, origin, target, mode),
            (target.x, target.y),
            ((g.rows as int) * (g.columns as int)) as nat,
        );
    }
}

/// Absolute value.
pub open spec fn abs_i(x: int) -> int {
    if x < 0 {
        -x
    } else {
        x
    }
}

/// The king-move distance between two cells: the larger coordinate gap.
pub open spec fn king_dist(a: Location, b: Location) -> int {
    let dx = abs_i((a.x as int) - (b.x as int));
    let dy = abs_i((a.y as int) - (b.y as int));
    if dx < dy {
        dy
    } else {
        dx
    }
}

/// Every returned route is a king-move walk: its first cell is one king
/// move from the origin, consecutive cells are one king move apart, and
/// the last cell is the target.  The route is empty exactly when the
/// origin is the target.
pub proof fn lemma_route_is_king_walk(
    g: Game,
    origin: Location,
    target: Location,
    mode: Mode,
    p: Seq<Location>,
)
    requires
        g.wf(),
        spec_run(g, origin, target, mode) == Ok::<Seq<Location>, SearchError>(p),
    ensures
        p.len() == 0 <==> origin == target,
        p.len() >= 1 ==> p[p.len() - 1] == target,
        p.len() >= 1 ==> king_adj((origin.x, origin.y), (p[0].x, p[0].y)),
        forall|j: int|
            0 <= j < p.len() - 1 ==> king_adj(((#[trigger] p[j]).x, p[j].y), (p[j + 1].x, p[j + 1].y)),
{
    if origin == target {
    } else {
        let init = init_state(g, origin);
        let tbl = spec_distance_table(g, origin, target, mode);
        assert forall|k: int| 0 <= k < init.table.len() implies (match (#[trigger] init.table[k]).last_vertex {
            Some(q) => vid_in_bounds(q, g.rows as int, g.columns as int),
            None => true,
        }) && ((#[trigger] init.table[k]).distance is Some <==> init.table[k].last_vertex
            is Some) by {
            assert(init.table[k] == init_entry(g, origin, k));
        }
        assert(sstate_wf(init, g.rows as int, g.columns as int));
        assert(table_inv_admitted(g, origin, target, mode, init.table));
        lemma_search_loop_wf(g, target, mode, init);
        lemma_search_loop_admitted(g, origin, target, mode, init);
        lemma_backtrack_cells_admitted(
            g,
            origin,
            target,
            mode,
            tbl,
            (target.x, target.y),
            ((g.rows as int) * (g.columns as int)) as nat,
        );
        assert((Location { x: target.x, y: target.y }) == target);
    }
}

/// Along a king-move walk out of `origin`, the walker's coordinates drift
/// by at most one cell per step.
proof fn lemma_king_walk_displacement(origin: Location, p: Seq<Location>, j: int)
    requires
        p.len() >= 1,
        king_adj((origin.x, origin.y), (p[0].x, p[0].y)),
        forall|i: int|
            0 <= i < p.len() - 1 ==> king_adj(((#[trigger] p[i]).x, p[i].y), (p[i + 1].x, p[i + 1].y)),
        0 <= j < p.len(),
    ensures
        abs_i((p[j].x as int) - (origin.x as int)) <= j + 1,
        abs_i((p[j].y as int) - (origin.y as int)) <= j + 1,
    decreases j,
{
    if j > 0 {
        lemma_king_walk_displacement(origin, p, j - 1);
        assert(king_adj(((p[j - 1]).x, p[j - 1].y), (p[j].x, p[j].y)));
    }
}

/// No route beats the king-move distance: a returned route from an origin
/// to a different target has at least `king_dist(origin, target)` cells.
/// (In pursuit mode on a threat-free grid the tests show the bound is met
/// exactly.)
pub proof fn lemma_route_no_shorter_than_king_distance(
    g: Game,
    origin: Location,
    target: Location,
    mode: Mode,
    p: Seq<Location>,
)
    requires
        g.wf(),
        spec_run(g, origin, target, mode) == Ok::<Seq<Location>, SearchError>(p),
        origin != target,
    ensures
        p.len() >= king_dist(origin, target),
{
    lemma_route_is_king_walk(g, origin, target, mode, p);
    lemma_king_walk_displacement(origin, p, p.len() - 1);
    assert(p[p.len() - 1] == target);
}

/// Cell `u` has an entry on the frontier.
pub open spec fn queued(s: SearchState, u: VertexId) -> bool {
    exists|q: int| 0 <= q < s.queue.len() && (#[trigger] s.queue[q]).vertex == u
}

/// The relaxation inequality across one admitted step: both cells are
/// costed and the step's head costs no more than the tail's cost plus the
/// edge onto the head.
pub open spec fn step_relaxed(
    g: Game,
    target: Location,
    mode: Mode,
    t: Seq<DistanceInfo>,
    u: VertexId,
    v: VertexId,
) -> bool {
    let cols = g.columns as int;
    &&& 0 <= flat_id(v, cols) < t.len()
    &&& 0 <= flat_id(u, cols) < t.len()
    &&& (match (t[flat_id(u, cols)].distance, t[flat_id(v, cols)].distance) {
        (Some(du), Some(dv)) => dv as int <= du as int + edge_cost(g, v, target, mode),
        _ => false,
    })
}

/// Every reached cell that has left the frontier has every admitted
/// neighbor fully relaxed.
#[verifier::opaque]
pub open spec fn fixed_inv(g: Game, target: Location, mode: Mode, s: SearchState) -> bool {
    forall|u: VertexId, j: int|
        vid_in_bounds(u, g.rows as int, g.columns as int) && 0 <= flat_id(u, g.columns as int)
            < s.table.len() && s.table[flat_id(u, g.columns as int)].distance is Some && !queued(
            s,
            u,
        ) && 0 <= j < g.adjacent_spec(u, target, mode).len() ==> step_relaxed(
            g,
            target,
            mode,
            s.table,
            u,
            #[trigger] g.adjacent_spec(u, target, mode)[j],
        )
}

/// Dropping another cell's entries keeps a cell's entry on the frontier.
pub proof fn lemma_queue_without_keeps_others(q: Seq<VertexInfo>, v: VertexId, u: VertexId)
    requires
        u != v,
        exists|j: int| 0 <= j < q.len() && (#[trigger] q[j]).vertex == u,
    ensures
        exists|j: int|
            0 <= j < queue_without(q, v).len() && (#[trigger] queue_without(q, v)[j]).vertex == u,
    decreases q.len(),
{
    if q.len() > 0 {
        let rest = queue_without(q.drop_last(), v);
        if q.last().vertex == u {
            let qw = queue_without(q, v);
            assert(qw == rest.push(q.last()));
            assert(qw[qw.len() - 1].vertex == u);
        } else {
            let j = choose|j: int| 0 <= j < q.len() && (#[trigger] q[j]).vertex == u;
            assert((q.drop_last()[j]).vertex == u);
            lemma_queue_without_keeps_others(q.drop_last(), v, u);
            let j2 = choose|j2: int| 0 <= j2 < rest.len() && (#[trigger] rest[j2]).vertex == u;
            if q.last().vertex == v {
                assert(queue_without(q, v)[j2].vertex == u);
            } else {
                assert(queue_without(q, v)[j2] == rest[j2]);
                assert(queue_without(q, v)[j2].vertex == u);
            }
        }
    }
}

/// A cell off the frontier after one relaxation was off it before, and its
/// record did not change.
pub proof fn lemma_relax_one_settled(
    g: Game,
    target: Location,
    mode: Mode,
    s: SearchState,
    current: VertexId,
    cur_cost: int,
    neighbor: VertexId,
    u: VertexId,
)
    requires
        vid_in_bounds(neighbor, g.rows as int, g.columns as int),
        vid_in_bounds(u, g.rows as int, g.columns as int),
        s.table.len() == (g.rows as int) * (g.columns as int),
        !queued(relax_one(g, target, mode, s, current, cur_cost, neighbor), u),
    ensures
        !queued(s, u),
        relax_one(g, target, mode, s, current, cur_cost, neighbor).table[flat_id(
            u,
            g.columns as int,
        )] == s.table[flat_id(u, g.columns as int)],
{
    let cols = g.columns as int;
    let s2 = relax_one(g, target, mode, s, current, cur_cost, neighbor);
    let i = flat_id(neighbor, cols);
    lemma_flat_id_range(neighbor, g.rows as int, cols);
    let updated = 0 <= i < s.table.len() && (match s.table[i].distance {
        None => true,
        Some(d) => d > (cur_cost + edge_cost(g, neighbor, target, mode)) as i32,
    });
    if updated {
        if u == neighbor {
            assert(s2.queue[s2.queue.len() - 1].vertex == u);
            assert(queued(s2, u));
            assert(false);
        }
        lemma_flat_id_range(u, g.rows as int, cols);
        if flat_id(u, cols) == i {
            lemma_flat_id_injective(u, neighbor, g.rows as int, cols);
            assert(false);
        }
        assert(s2.table[flat_id(u, cols)] == s.table[flat_id(u, cols)]);
        if queued(s, u) {
            lemma_queue_without_keeps_others(s.queue, neighbor, u);
            let j = choose|j: int|
                0 <= j < queue_without(s.queue, neighbor).len() && (#[trigger] queue_without(
                    s.queue,
                    neighbor,
                )[j]).vertex == u;
            assert(s2.queue[j].vertex == u);
            assert(false);
        }
    }
}

/// Relaxing a neighbor list never changes the table's length.
pub proof fn lemma_relax_all_monotone_len(
    g: Game,
    target: Location,
    mode: Mode,
    s: SearchState,
    current: VertexId,
    cur_cost: int,
    nbs: Seq<VertexId>,
)
    ensures
        relax_all(g, target, mode, s, current, cur_cost, nbs).table.len() == s.table.len(),
    decreases nbs.len(),
{
    if nbs.len() > 0 {
        lemma_relax_all_monotone_len(g, target, mode, s, current, cur_cost, nbs.drop_last());
    }
}

/// A cell off the frontier after a whole neighbor list is relaxed was off
/// it before the list was relaxed, and its record did not change.
pub proof fn lemma_relax_all_settled(
    g: Game,
    target: Location,
    mode: Mode,
    s: SearchState,
    current: VertexId,
    cur_cost: int,
    nbs: Seq<VertexId>,
    u: VertexId,
)
    requires
        forall|k: int|
            0 <= k < nbs.len() ==> vid_in_bounds(#[trigger] nbs[k], g.rows as int, g.columns as int),
        vid_in_bounds(u, g.rows as int, g.columns as int),
        s.table.len() == (g.rows as int) * (g.columns as int),
        !queued(relax_all(g, target, mode, s, current, cur_cost, nbs), u),
    ensures
        !queued(s, u),
        relax_all(g, target, mode, s, current, cur_cost, nbs).table[flat_id(
            u,
            g.columns as int,
        )] == s.table[flat_id(u, g.columns as int)],
    decreases nbs.len(),
{
    if nbs.len() > 0 {
        assert(forall|k: int|
            0 <= k < nbs.drop_last().len() ==> #[trigger] nbs.drop_last()[k] == nbs[k]);
        let sm = relax_all(g, target, mode, s, current, cur_cost, nbs.drop_last());
        lemma_relax_all_monotone_len(g, target, mode, s, current, cur_cost, nbs.drop_last());
        lemma_relax_one_settled(g, target, mode, sm, current, cur_cost, nbs.last(), u);
        lemma_relax_all_settled(g, target, mode, s, current, cur_cost, nbs.drop_last(), u);
    }
}

/// After the extracted cell's whole neighbor list is relaxed, each listed
/// neighbor is reached at a cost within the extracted cell's cost plus the
/// edge onto it.
pub proof fn lemma_relax_all_covers(
    g: Game,
    target: Location,
    mode: Mode,
    s: SearchState,
    current: VertexId,
    cur_cost: int,
    nbs: Seq<VertexId>,
)
    requires
        forall|k: int|
            0 <= k < nbs.len() ==> vid_in_bounds(#[trigger] nbs[k], g.rows as int, g.columns as int),
        forall|k: int|
            0 <= k < nbs.len() ==> 0 <= cur_cost + edge_cost(g, #[trigger] nbs[k], target, mode)
                <= 0x7fff_ffff,
        s.table.len() == (g.rows as int) * (g.columns as int),
    ensures
        forall|k: int|
            0 <= k < nbs.len() ==> (match relax_all(g, target, mode, s, current, cur_cost, nbs)
                .table[flat_id(#[trigger] nbs[k], g.columns as int)].distance {
                Some(d) => d as int <= cur_cost + edge_cost(g, nbs[k], target, mode),
                None => false,
            }),
    decreases nbs.len(),
{
    let cols = g.columns as int;
    if nbs.len() > 0 {
        assert(forall|k: int|
            0 <= k < nbs.drop_last().len() ==> #[trigger] nbs.drop_last()[k] == nbs[k]);
        lemma_relax_all_covers(g, target, mode, s, current, cur_cost, nbs.drop_last());
        let sm = relax_all(g, target, mode, s, current, cur_cost, nbs.drop_last());
        lemma_relax_all_monotone_len(g, target, mode, s, current, cur_cost, nbs.drop_last());
        let s2 = relax_all(g, target, mode, s, current, cur_cost, nbs);
        let last = nbs.last();
        lemma_flat_id_range(last, g.rows as int, cols);
        assert forall|k: int| 0 <= k < nbs.len() implies (match s2.table[flat_id(
            #[trigger] nbs[k],
            cols,
        )].distance {
            Some(d) => d as int <= cur_cost + edge_cost(g, nbs[k], target, mode),
            None => false,
        }) by {
            if k < nbs.len() - 1 {
                assert(nbs.drop_last()[k] == nbs[k]);
                lemma_flat_id_range(nbs[k], g.rows as int, cols);
                lemma_relax_one_monotone(
                    g,
                    target,
                    mode,
                    sm,
                    current,
                    cur_cost,
                    last,
                    flat_id(nbs[k], cols),
                );
            } else {
                assert(nbs[k] == last);
            }
        }
    }
}

/// The whole search ends with an empty frontier and a fully relaxed table:
/// no admitted edge can improve any recorded cost.
pub proof fn lemma_search_loop_fixed(
    g: Game,
    origin: Location,
    target: Location,
    mode: Mode,
    s: SearchState,
)
    requires
        g.wf(),
        target.in_bounds(g.rows as int, g.columns as int),
        sstate_wf(s, g.rows as int, g.columns as int),
        disc_inv(g, origin, s),
        pred_cost_inv(g, origin, target, mode, s.table),
        fixed_inv(g, target, mode, s),
    ensures
        fixed_inv(g, target, mode, search_loop(g, target, mode, s)),
        search_loop(g, target, mode, s).queue.len() == 0,
        search_loop(g, target, mode, s).table.len() == s.table.len(),
    decreases measure(s),
{
    reveal(disc_inv);
    let cols = g.columns as int;
    let rows = g.rows as int;
    let n = rows * cols;
    if s.queue.len() > 0 {
        let j = min_index(s.queue);
        lemma_min_index_range(s.queue);
        let current = s.queue[j].vertex;
        let cur_cost = s.queue[j].distance as int;
        let s1 = SearchState { table: s.table, queue: s.queue.remove(j), disc: s.disc };
        assert forall|q: int| 0 <= q < s1.queue.len() implies vid_in_bounds(
            (#[trigger] s1.queue[q]).vertex,
            rows,
            cols,
        ) && 0 <= flat_id(s1.queue[q].vertex, cols) < n && s1.table[flat_id(
            s1.queue[q].vertex,
            cols,
        )].distance == Some(s1.queue[q].distance) by {
            if q < j {
                assert(s1.queue[q] == s.queue[q]);
            } else {
                assert(s1.queue[q] == s.queue[q + 1]);
            }
        }
        assert(disc_inv(g, origin, s1));
        let nbs = g.adjacent_spec(current, target, mode);
        lemma_adjacent_spec_in_bounds(g, current, target, mode);
        lemma_adjacent_spec_king(g, current, target, mode);
        lemma_flat_id_range(current, rows, cols);
        let s2 = relax_all(g, target, mode, s1, current, cur_cost, nbs);
        lemma_relax_all_wf(g, target, mode, s1, current, cur_cost, nbs);
        assert forall|k: int| 0 <= k < nbs.len() implies g.adjacent_spec(
            current,
            target,
            mode,
        ).contains(#[trigger] nbs[k]) by {
            assert(g.adjacent_spec(current, target, mode)[k] == nbs[k]);
        }
        lemma_relax_all_costs(g, origin, target, mode, s1, current, cur_cost, nbs);
        lemma_disc_len_le(s1.disc, n);
        assert(rows * cols <= 10000) by (nonlinear_arith)
            requires 1 <= rows <= 100 && 1 <= cols <= 100;
        assert(s1.disc.len() * (MAX_EDGE as int) <= 10000 * (MAX_EDGE as int));
        assert forall|k: int| 0 <= k < nbs.len() implies 0 <= cur_cost + edge_cost(
            g,
            #[trigger] nbs[k],
            target,
            mode,
        ) <= 0x7fff_ffff by {
            lemma_edge_cost_bounds(g, nbs[k], target, mode);
        }
        lemma_relax_all_covers(g, target, mode, s1, current, cur_cost, nbs);
        lemma_relax_all_monotone_len(g, target, mode, s1, current, cur_cost, nbs);
        // every settled cell of the relaxed state is fully relaxed
        assert forall|u: VertexId, jj: int|
            vid_in_bounds(u, rows, cols) && 0 <= flat_id(u, cols) < s2.table.len()
                && s2.table[flat_id(u, cols)].distance is Some && !queued(s2, u) && 0 <= jj
                < g.adjacent_spec(u, target, mode).len() implies step_relaxed(
            g,
            target,
            mode,
            s2.table,
            u,
            #[trigger] g.adjacent_spec(u, target, mode)[jj],
        ) by {
            reveal(fixed_inv);
            let v = g.adjacent_spec(u, target, mode)[jj];
            lemma_adjacent_spec_in_bounds(g, u, target, mode);
            lemma_flat_id_range(v, rows, cols);
            if u == current {
                assert(s2.table[flat_id(current, cols)] == s1.table[flat_id(current, cols)]);
                assert(v == nbs[jj]);
            } else {
                lemma_relax_all_settled(g, target, mode, s1, current, cur_cost, nbs, u);
                assert(!queued(s1, u));
                if queued(s, u) {
                    let q = choose|q: int|
                        0 <= q < s.queue.len() && (#[trigger] s.queue[q]).vertex == u;
                    if q < j {
                        assert(s1.queue[q].vertex == u);
                        assert(false);
                    } else if q > j {
                        assert(s1.queue[q - 1].vertex == u);
                        assert(false);
                    } else {
                        assert(u == current);
                        assert(false);
                    }
                }
                assert(step_relaxed(g, target, mode, s.table, u, v));
                lemma_relax_all_monotone(
                    g,
                    target,
                    mode,
                    s1,
                    current,
                    cur_cost,
                    nbs,
                    flat_id(v, cols),
                );
            }
        }
        assert(fixed_inv(g, target, mode, s2)) by {
            reveal(fixed_inv);
        }
        lemma_relax_all_measure(g, target, mode, s1, current, cur_cost, nbs);
        lemma_search_loop_fixed(g, origin, target, mode, s2);
    }
}

/// An admitted walk: it starts at the origin and each later cell is an
/// admitted neighbor of the one before it.
pub open spec fn is_walk(
    g: Game,
    origin: Location,
    target: Location,
    mode: Mode,
    w: Seq<VertexId>,
) -> bool {
    &&& w.len() >= 1
    &&& w[0] == ((origin.x, origin.y))
    &&& forall|i: int|
        0 <= i < w.len() - 1 ==> g.adjacent_spec(#[trigger] w[i], target, mode).contains(w[i + 1])
}

/// The cumulative cost of a walk: the sum of the edge costs of every cell
/// stepped onto after the origin.
pub open spec fn walk_cost(g: Game, target: Location, mode: Mode, w: Seq<VertexId>) -> int
    decreases w.len(),
{
    if w.len() <= 1 {
        0
    } else {
        walk_cost(g, target, mode, w.drop_last()) + edge_cost(g, w.last(), target, mode)
    }
}

/// Walks the finished table: every cell an admitted walk reaches was
/// reached by the search, at a recorded cost no greater than the walk's.
proof fn lemma_walk_bound(
    g: Game,
    origin: Location,
    target: Location,
    mode: Mode,
    sf: SearchState,
    w: Seq<VertexId>,
)
    requires
        g.wf(),
        origin.in_bounds(g.rows as int, g.columns as int),
        target.in_bounds(g.rows as int, g.columns as int),
        sf.table.len() == (g.rows as int) * (g.columns as int),
        disc_inv(g, origin, sf),
        fixed_inv(g, target, mode, sf),
        sf.queue.len() == 0,
        (match sf.table[flat_id((origin.x, origin.y), g.columns as int)].distance {
            Some(d) => d == 0,
            None => false,
        }),
        is_walk(g, origin, target, mode, w),
    ensures
        vid_in_bounds(w.last(), g.rows as int, g.columns as int),
        (match sf.table[flat_id(w.last(), g.columns as int)].distance {
            Some(d) => d as int <= walk_cost(g, target, mode, w),
            None => false,
        }),
    decreases w.len(),
{
    reveal(disc_inv);
    let cols = g.columns as int;
    let rows = g.rows as int;
    if w.len() == 1 {
        assert(w.last() == w[0]);
        lemma_flat_id_range((origin.x, origin.y), rows, cols);
    } else {
        let wp = w.drop_last();
        assert(wp[0] == w[0]);
        assert(forall|i: int|
            0 <= i < wp.len() - 1 ==> g.adjacent_spec(#[trigger] wp[i], target, mode).contains(
                wp[i + 1],
            )) by {
            assert(forall|i: int| 0 <= i < wp.len() ==> #[trigger] wp[i] == w[i]);
        }
        lemma_walk_bound(g, origin, target, mode, sf, wp);
        let u = wp.last();
        let v = w.last();
        assert(u == w[w.len() - 2]);
        assert(g.adjacent_spec(u, target, mode).contains(v));
        let jj = choose|jj: int|
            0 <= jj < g.adjacent_spec(u, target, mode).len() && g.adjacent_spec(u, target, mode)[jj]
                == v;
        lemma_flat_id_range(u, rows, cols);
        assert(!queued(sf, u));
        assert(step_relaxed(g, target, mode, sf.table, u, g.adjacent_spec(u, target, mode)[jj]))
            by {
            reveal(fixed_inv);
        }
        lemma_adjacent_spec_in_bounds(g, u, target, mode);
    }
}

/// The finished table records minimal cumulative costs: no admitted walk
/// from the origin reaches any cell more cheaply than the cell's recorded
/// cost — and every cell an admitted walk reaches was reached.
pub proof fn lemma_recorded_costs_minimal(
    g: Game,
    origin: Location,
    target: Location,
    mode: Mode,
    w: Seq<VertexId>,
)
    requires
        g.wf(),
        origin.in_bounds(g.rows as int, g.columns as int),
        target.in_bounds(g.rows as int, g.columns as int),
        is_walk(g, origin, target, mode, w),
    ensures
        (match spec_distance_table(g, origin, target, mode)[flat_id(
            w.last(),
            g.columns as int,
        )].distance {
            Some(d) => d as int <= walk_cost(g, target, mode, w),
            None => false,
        }),
{
    reveal(disc_inv);
    let cols = g.columns as int;
    let init = init_state(g, origin);
    let of = flat_id((origin.x, origin.y), cols);
    lemma_flat_id_range((origin.x, origin.y), g.rows as int, cols);
    lemma_init_state_invs(g, origin, target, mode);
    lemma_search_loop_costs(g, origin, target, mode, init);
    lemma_search_loop_wf(g, target, mode, init);
    lemma_search_loop_fixed(g, origin, target, mode, init);
    let sf = search_loop(g, target, mode, init);
    lemma_recorded_cost_monotone(g, target, mode, init, of);
    lemma_walk_bound(g, origin, target, mode, sf, w);
}

/// The cell identities of a route's cells.
pub open spec fn route_ids(p: Seq<Location>) -> Seq<VertexId> {
    p.map_values(|l: Location| (l.x, l.y))
}

/// A predecessor walk read off a finished table is an admitted walk out of
/// the origin whose cumulative cost is at most the end cell's recorded
/// cost.
#[verifier::rlimit(100)]
proof fn lemma_backtrack_is_walk(
    g: Game,
    origin: Location,
    target: Location,
    mode: Mode,
    s: SearchState,
    cur: VertexId,
    fuel: nat,
)
    requires
        g.wf(),
        origin.in_bounds(g.rows as int, g.columns as int),
        s.table.len() == (g.rows as int) * (g.columns as int),
        disc_inv(g, origin, s),
        pred_cost_inv(g, origin, target, mode, s.table),
        forall|k: int|
            0 <= k < s.table.len() ==> (match (#[trigger] s.table[k]).last_vertex {
                Some(p) => vid_in_bounds(p, g.rows as int, g.columns as int),
                None => true,
            }),
        vid_in_bounds(cur, g.rows as int, g.columns as int),
        cur != (origin.x, origin.y),
    ensures
        (match backtrack(s.table, g.columns as int, origin, cur, fuel) {
            Some(q) => {
                &&& q.len() >= 1
                &&& ((q[q.len() - 1].x, q[q.len() - 1].y)) == cur
                &&& is_walk(
                    g,
                    origin,
                    target,
                    mode,
                    seq![((origin.x, origin.y))] + route_ids(q),
                )
                &&& (match s.table[flat_id(cur, g.columns as int)].distance {
                    Some(d) => walk_cost(
                        g,
                        target,
                        mode,
                        seq![((origin.x, origin.y))] + route_ids(q),
                    ) <= d as int,
                    None => false,
                })
            },
            None => true,
        }),
    decreases fuel,
{
    let cols = g.columns as int;
    let rows = g.rows as int;
    let oid: VertexId = (origin.x, origin.y);
    let i = flat_id(cur, cols);
    lemma_flat_id_range(cur, rows, cols);
    lemma_flat_id_range(oid, rows, cols);
    if fuel > 0 {
        match s.table[i].last_vertex {
            None => {},
            Some(p) => {
                if i == flat_id(oid, cols) {
                    lemma_flat_id_injective(cur, oid, rows, cols);
                    assert(false);
                }
                assert(vid_in_bounds(p, rows, cols));
                assert(exists|v: VertexId|
                    #[trigger] flat_id(v, cols) == i && vid_in_bounds(v, rows, cols) && p != v
                        && g.adjacent_spec(p, target, mode).contains(v) && (match (
                        s.table[flat_id(p, cols)].distance,
                        s.table[i].distance,
                    ) {
                        (Some(pv), Some(kv)) => pv as int + edge_cost(g, v, target, mode)
                            <= kv as int,
                        _ => false,
                    })) by {
                    reveal(pred_cost_inv);
                }
                let v = choose|v: VertexId|
                    #[trigger] flat_id(v, cols) == i && vid_in_bounds(v, rows, cols) && p != v
                        && g.adjacent_spec(p, target, mode).contains(v) && (match (
                        s.table[flat_id(p, cols)].distance,
                        s.table[i].distance,
                    ) {
                        (Some(pv), Some(kv)) => pv as int + edge_cost(g, v, target, mode)
                            <= kv as int,
                        _ => false,
                    });
                lemma_flat_id_injective(v, cur, rows, cols);
                assert(g.adjacent_spec(p, target, mode).contains(cur));
                let here = Location { x: cur.0, y: cur.1 };
                if p == oid {
                    let q = seq![here];
                    assert(backtrack(s.table, cols, origin, cur, fuel) == Some(q));
                    let w = seq![oid] + route_ids(q);
                    assert(route_ids(q) =~= seq![cur]);
                    assert(w.len() == 2 && w[0] == oid && w[1] == cur);
                    assert(is_walk(g, origin, target, mode, w));
                    assert(w.drop_last() =~= seq![oid]);
                    assert(w.last() == cur);
                    assert(walk_cost(g, target, mode, seq![oid]) == 0);
                    assert(s.table[flat_id(oid, cols)].distance matches Some(d0) && d0 >= 0) by {
                        reveal(disc_inv);
                    }
                } else {
                    lemma_backtrack_is_walk(g, origin, target, mode, s, p, (fuel - 1) as nat);
                    match backtrack(s.table, cols, origin, p, (fuel - 1) as nat) {
                        None => {},
                        Some(pre) => {
                            let q = pre.push(here);
                            let wp = seq![oid] + route_ids(pre);
                            let w = seq![oid] + route_ids(q);
                            assert(route_ids(q) =~= route_ids(pre).push(cur));
                            assert(w =~= wp.push(cur));
                            assert(((pre[pre.len() - 1].x, pre[pre.len() - 1].y)) == p);
                            assert(wp[wp.len() - 1] == p);
                            assert forall|x: int| 0 <= x < w.len() - 1 implies g.adjacent_spec(
                                #[trigger] w[x],
                                target,
                                mode,
                            ).contains(w[x + 1]) by {
                                if x < wp.len() - 1 {
                                    assert(w[x] == wp[x] && w[x + 1] == wp[x + 1]);
                                } else {
                                    assert(w[x] == p && w[x + 1] == cur);
                                }
                            }
                            assert(is_walk(g, origin, target, mode, w));
                            assert(w.drop_last() =~= wp);
                            assert(w.last() == cur);
                        },
                    }
                }
            },
        }
    }
}

/// The returned route is itself an admitted walk from beside the origin to
/// the target, and no admitted walk from the origin to the target costs
/// less: the route's cumulative edge cost is minimal.
pub proof fn lemma_route_cost_minimal(
    g: Game,
    origin: Location,
    target: Location,
    mode: Mode,
    p: Seq<Location>,
    w: Seq<VertexId>,
)
    requires
        g.wf(),
        spec_run(g, origin, target, mode) == Ok::<Seq<Location>, SearchError>(p),
        origin != target,
        is_walk(g, origin, target, mode, w),
        w.last() == ((target.x, target.y)),
    ensures
        is_walk(g, origin, target, mode, seq![((origin.x, origin.y))] + route_ids(p)),
        walk_cost(g, target, mode, seq![((origin.x, origin.y))] + route_ids(p)) <= walk_cost(
            g,
            target,
            mode,
            w,
        ),
{
    let cols = g.columns as int;
    let n = (g.rows as int) * cols;
    let init = init_state(g, origin);
    lemma_init_state_invs(g, origin, target, mode);
    lemma_search_loop_wf(g, target, mode, init);
    lemma_search_loop_costs(g, origin, target, mode, init);
    let sf = search_loop(g, target, mode, init);
    lemma_backtrack_is_walk(g, origin, target, mode, sf, (target.x, target.y), n as nat);
    lemma_recorded_costs_minimal(g, origin, target, mode, w);
}

/// In the finished table every predecessor link accounts exactly for its
/// cell's cost: a reached cell other than the origin is an admitted
/// neighbor of its predecessor, and its recorded cost is the predecessor's
/// recorded cost plus the edge onto the cell.
pub proof fn lemma_pred_link_exact(
    g: Game,
    origin: Location,
    target: Location,
    mode: Mode,
    u: VertexId,
)
    requires
        g.wf(),
        origin.in_bounds(g.rows as int, g.columns as int),
        target.in_bounds(g.rows as int, g.columns as int),
        vid_in_bounds(u, g.rows as int, g.columns as int),
        u != ((origin.x, origin.y)),
        spec_distance_table(g, origin, target, mode)[flat_id(u, g.columns as int)].last_vertex
            is Some,
    ensures
        (match spec_distance_table(g, origin, target, mode)[flat_id(
            u,
            g.columns as int,
        )].last_vertex {
            Some(p) => {
                let t = spec_distance_table(g, origin, target, mode);
                &&& vid_in_bounds(p, g.rows as int, g.columns as int)
                &&& g.adjacent_spec(p, target, mode).contains(u)
                &&& (match (t[flat_id(p, g.columns as int)].distance, t[flat_id(
                    u,
                    g.columns as int,
                )].distance) {
                    (Some(pv), Some(kv)) => kv as int == pv as int + edge_cost(
                        g,
                        u,
                        target,
                        mode,
                    ),
                    _ => false,
                })
            },
            None => false,
        }),
{
    let cols = g.columns as int;
    let rows = g.rows as int;
    let init = init_state(g, origin);
    lemma_init_state_invs(g, origin, target, mode);
    lemma_search_loop_wf(g, target, mode, init);
    lemma_search_loop_costs(g, origin, target, mode, init);
    lemma_search_loop_fixed(g, origin, target, mode, init);
    let sf = search_loop(g, target, mode, init);
    let t = sf.table;
    let i = flat_id(u, cols);
    lemma_flat_id_range(u, rows, cols);
    lemma_flat_id_range((origin.x, origin.y), rows, cols);
    if i == flat_id((origin.x, origin.y), cols) {
        lemma_flat_id_injective(u, (origin.x, origin.y), rows, cols);
        assert(false);
    }
    match t[i].last_vertex {
        None => {
            assert(false);
        },
        Some(p) => {
            assert(exists|v: VertexId|
                #[trigger] flat_id(v, cols) == i && vid_in_bounds(v, rows, cols) && p != v
                    && g.adjacent_spec(p, target, mode).contains(v) && (match (
                    t[flat_id(p, cols)].distance,
                    t[i].distance,
                ) {
                    (Some(pv), Some(kv)) => pv as int + edge_cost(g, v, target, mode) <= kv as int,
                    _ => false,
                })) by {
                reveal(pred_cost_inv);
            }
            let v = choose|v: VertexId|
                #[trigger] flat_id(v, cols) == i && vid_in_bounds(v, rows, cols) && p != v
                    && g.adjacent_spec(p, target, mode).contains(v) && (match (
                    t[flat_id(p, cols)].distance,
                    t[i].distance,
                ) {
                    (Some(pv), Some(kv)) => pv as int + edge_cost(g, v, target, mode) <= kv as int,
                    _ => false,
                });
            lemma_flat_id_injective(v, u, rows, cols);
            assert(vid_in_bounds(p, rows, cols));
            // the finished table is a relaxation fixed point, so the link
            // cannot overshoot either
            let jj = choose|jj: int|
                0 <= jj < g.adjacent_spec(p, target, mode).len() && g.adjacent_spec(
                    p,
                    target,
                    mode,
                )[jj] == u;
            lemma_flat_id_range(p, rows, cols);
            assert(!queued(sf, p));
            assert(step_relaxed(g, target, mode, t, p, g.adjacent_spec(p, target, mode)[jj])) by {
                reveal(fixed_inv);
            }
        },
    }
}

} // verus!
