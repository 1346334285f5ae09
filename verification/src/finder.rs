//! The search engine: unidirectional and bidirectional weighted grid
//! search over a height-field, subject to the slope-admissibility policy,
//! with deterministic tie-breaking and lazy deletion of stale queue
//! entries.
//!
//! Costs are `u64` fixed-point values; `COST_INF` stands for positive
//! infinity and all cost sums saturate there, so no ordering ever sees an
//! undefined value.

use vstd::prelude::*;
use vstd::math::abs;
use crate::arith::{COST_INF, SCALE, SQRT2_SCALED, VAL_LIMIT, isqrt, sat_add, sat_add_spec, sqrt_floor};
use crate::config::{FieldConfig, MovementMode, RobotConfig};
use crate::grid::{DIM_LIMIT, Grid, from_index, is_valid, lemma_flat_index_bounds, to_index};
use crate::messaging::StepObserver;

verus! {

/// `cell` lies inside a `rows x cols` grid.
pub open spec fn in_bounds_cell(rows: int, cols: int, cell: (int, int)) -> bool {
    0 <= cell.0 < rows && 0 <= cell.1 < cols
}

/// The (row, column) pair of a flattened row-major index.
pub open spec fn cell_of(i: int, cols: int) -> (int, int) {
    (i / cols, i % cols)
}

/// Widens an unsigned cell to mathematical coordinates.
pub open spec fn cell_int(c: (usize, usize)) -> (int, int) {
    (c.0 as int, c.1 as int)
}

/// The slope-admissibility policy: identical cells are always mutually
/// traversable; otherwise the edge is admissible when the slope tangent
/// `dz / run` does not exceed the configured maximum tangent, where the
/// horizontal run is the pixel size, scaled by the square root of two on
/// diagonal moves. The diagonal comparison is made on squares, which is
/// exact for non-negative quantities.
pub open spec fn unblocked_spec(
    g: Grid,
    cur: (int, int),
    nxt: (int, int),
    fc: FieldConfig,
    rc: RobotConfig,
) -> bool {
    if cur == nxt {
        true
    } else {
        let dz = abs(g.at(nxt.0, nxt.1) - g.at(cur.0, cur.1)) as int;
        let run = fc.pixel_size_m * rc.max_slope_tan;
        let diagonal = cur.0 != nxt.0 && cur.1 != nxt.1;
        rc.max_slope_tan >= 0 && if diagonal {
            (dz * SCALE) * (dz * SCALE) <= 2 * run * run
        } else {
            dz * SCALE <= run
        }
    }
}

/// Decides whether the edge from `current` to `next` is slope-admissible.
pub fn is_unblocked(
    grid: &Grid,
    current: (usize, usize),
    next: (usize, usize),
    field_config: &FieldConfig,
    robot_config: &RobotConfig,
) -> (r: bool)
    requires
        grid.wf(),
        grid.values_in(-VAL_LIMIT as int, VAL_LIMIT as int),
        field_config.wf(),
        robot_config.wf(),
        in_bounds_cell(grid.rows as int, grid.cols as int, cell_int(current)),
        in_bounds_cell(grid.rows as int, grid.cols as int, cell_int(next)),
    ensures
        r == unblocked_spec(*grid, cell_int(current), cell_int(next), *field_config, *robot_config),
{
    if current.0 == next.0 && current.1 == next.1 {
        return true;
    }
    if robot_config.max_slope_tan < 0 {
        return false;
    }
    let hc = grid.get(current.0, current.1);
    let hn = grid.get(next.0, next.1);
    let dz: u64 = if hn >= hc { (hn - hc) as u64 } else { (hc - hn) as u64 };
    let tan: u64 = robot_config.max_slope_tan as u64;
    proof {
        assert(0 <= (field_config.pixel_size_m as int) * (tan as int)
            && (field_config.pixel_size_m as int) * (tan as int)
                <= (crate::config::WEIGHT_LIMIT as int) * (crate::config::WEIGHT_LIMIT as int))
            by (nonlinear_arith)
            requires
                1 <= field_config.pixel_size_m <= crate::config::WEIGHT_LIMIT,
                0 <= tan <= crate::config::WEIGHT_LIMIT
        ;
        assert(0 <= dz <= 2 * (VAL_LIMIT as int));
    }
    let run: u64 = field_config.pixel_size_m * tan;
    let lhs: u64 = dz * SCALE;
    let diagonal = current.0 != next.0 && current.1 != next.1;
    if diagonal {
        proof {
            assert((lhs as int) * (lhs as int) <= u128::MAX && 2 * (run as int) * (run as int)
                <= u128::MAX) by (nonlinear_arith)
                requires 0 <= lhs <= 2 * (VAL_LIMIT as int) * (SCALE as int), 0 <= run
                        <= (crate::config::WEIGHT_LIMIT as int) * (crate::config::WEIGHT_LIMIT as int)
            ;
        }
        (lhs as u128) * (lhs as u128) <= 2 * (run as u128) * (run as u128)
    } else {
        lhs <= run
    }
}

/// The weighted remaining-distance heuristic: the Euclidean distance from
/// a cell to the target, in fixed point (rounded down), times the
/// configured heuristic weight.
pub open spec fn heur_spec(cell: (int, int), target: (int, int), weight: int) -> int {
    let dr = cell.0 - target.0;
    let dc = cell.1 - target.1;
    (sqrt_floor(((dr * dr + dc * dc) * SCALE * SCALE) as nat) * weight) / (SCALE as int)
}

/// Computes the weighted Euclidean remaining-distance heuristic from
/// `(row, col)` to `dest`.
pub fn remaining_path(
    robot_config: &RobotConfig,
    row: usize,
    col: usize,
    dest: (usize, usize),
) -> (r: u64)
    requires
        robot_config.wf(),
        row <= DIM_LIMIT,
        col <= DIM_LIMIT,
        dest.0 <= DIM_LIMIT,
        dest.1 <= DIM_LIMIT,
    ensures
        r == heur_spec(
            cell_int((row, col)),
            cell_int(dest),
            robot_config.remaining_distance_weight as int,
        ),
{
    let dr: u64 = if row >= dest.0 { (row - dest.0) as u64 } else { (dest.0 - row) as u64 };
    let dc: u64 = if col >= dest.1 { (col - dest.1) as u64 } else { (dest.1 - col) as u64 };
    proof {
        assert((dr as int) * (dr as int) + (dc as int) * (dc as int)
            <= 2 * (DIM_LIMIT as int) * (DIM_LIMIT as int)) by (nonlinear_arith)
            requires 0 <= dr <= DIM_LIMIT, 0 <= dc <= DIM_LIMIT
        ;
    }
    let d2: u64 = dr * dr + dc * dc;
    let num: u128 = (d2 as u128) * (SCALE as u128) * (SCALE as u128);
    let dist: u64 = isqrt(num);
    proof {
        crate::arith::lemma_sqrt_floor_bounds(num as nat);
        assert(dist as int <= 2 * (DIM_LIMIT as int) * (SCALE as int)) by (nonlinear_arith)
            requires
                (dist as int) * (dist as int) <= (num as int),
                num as int <= 2 * (DIM_LIMIT as int) * (DIM_LIMIT as int) * (SCALE as int) * (SCALE as int),
                dist >= 0
        ;
        assert((dist as int) * (robot_config.remaining_distance_weight as int)
            <= 2 * (DIM_LIMIT as int) * (SCALE as int) * (crate::config::WEIGHT_LIMIT as int))
            by (nonlinear_arith)
            requires
                0 <= dist as int <= 2 * (DIM_LIMIT as int) * (SCALE as int),
                0 <= robot_config.remaining_distance_weight <= crate::config::WEIGHT_LIMIT
        ;
        assert((dist as int) * (robot_config.remaining_distance_weight as int) >= 0)
            by (nonlinear_arith)
            requires 0 <= dist, 0 <= robot_config.remaining_distance_weight
        ;
        let dri = cell_int((row, col)).0 - cell_int(dest).0;
        let dci = cell_int((row, col)).1 - cell_int(dest).1;
        assert(dri * dri == (dr as int) * (dr as int) && dci * dci == (dc as int) * (dc as int))
            by (nonlinear_arith)
            requires
                dri == cell_int((row, col)).0 - cell_int(dest).0,
                dci == cell_int((row, col)).1 - cell_int(dest).1,
                dr == abs(dri),
                dc == abs(dci)
        ;
        assert((d2 as int) * (SCALE as int) * (SCALE as int)
            == (dri * dri + dci * dci) * SCALE * SCALE) by (nonlinear_arith)
            requires d2 == dri * dri + dci * dci
        ;
    }
    let weighted: u128 = (dist as u128) * (robot_config.remaining_distance_weight as u128);
    (weighted / (SCALE as u128)) as u64
}

/// The base geometric length of a step with offset `d`: one unit for an
/// orthogonal move, the square root of two for a diagonal one.
pub open spec fn base_step(d: (int, int)) -> int {
    if d.0 != 0 && d.1 != 0 {
        SQRT2_SCALED as int
    } else {
        SCALE as int
    }
}

/// The cost-map view of an optional cost grid reference.
pub open spec fn cm_view(cm: Option<&Grid>) -> Option<Grid> {
    match cm {
        Some(g) => Some(*g),
        None => None,
    }
}

/// An optional cost map is compatible with a terrain grid: same shape,
/// non-negative bounded multipliers.
pub open spec fn cm_ok(cm: Option<Grid>, g: Grid) -> bool {
    match cm {
        Some(m) => m.rows == g.rows && m.cols == g.cols && m.wf() && m.values_in(0, VAL_LIMIT as int),
        None => true,
    }
}

/// Cost of entering `nxt` by a step with offset `d`: the base geometric
/// step times the destination cell's cost multiplier (one when no cost
/// map is supplied).
pub open spec fn step_cost_spec(cm: Option<Grid>, d: (int, int), nxt: (int, int)) -> int {
    let mult = match cm {
        Some(m) => m.at(nxt.0, nxt.1),
        None => SCALE as int,
    };
    (base_step(d) * mult) / (SCALE as int)
}

/// Total saturating cost of walking `path` in order, paying for each cell
/// entered after the first.
pub open spec fn path_cost_spec(cm: Option<Grid>, path: Seq<(usize, usize)>) -> int
    decreases path.len(),
{
    if path.len() <= 1 {
        0
    } else {
        let a = path[path.len() - 2];
        let b = path[path.len() - 1];
        sat_add_spec(
            path_cost_spec(cm, path.drop_last()),
            step_cost_spec(cm, (b.0 - a.0, b.1 - a.1), cell_int(b)),
        )
    }
}

/// Computes the total cost of a path under an optional cost map: the sum,
/// saturating at `COST_INF`, of the geometric step lengths times the
/// multiplier of each cell entered.
pub fn path_cost(path: &Vec<(usize, usize)>, cost_map: Option<&Grid>) -> (r: u64)
    requires
        match cost_map {
            Some(m) => m.wf() && m.values_in(0, VAL_LIMIT as int) && forall|i: int|
                0 <= i < path@.len() ==> in_bounds_cell(
                    m.rows as int,
                    m.cols as int,
                    cell_int(#[trigger] path@[i]),
                ),
            None => true,
        },
    ensures
        r == path_cost_spec(cm_view(cost_map), path@),
{
    let mut total: u64 = 0;
    if path.len() <= 1 {
        proof {
            if path@.len() == 1 {
                assert(path@.subrange(0, 1) =~= path@);
            } else {
                assert(path@.subrange(0, 0) =~= path@);
            }
        }
        return total;
    }
    let mut i: usize = 1;
    proof {
        assert(path_cost_spec(cm_view(cost_map), path@.subrange(0, 1)) == 0);
    }
    while i < path.len()
        invariant
            1 <= i <= path@.len(),
            total == path_cost_spec(cm_view(cost_map), path@.subrange(0, i as int)),
            match cost_map {
                Some(m) => m.wf() && m.values_in(0, VAL_LIMIT as int) && forall|k: int|
                    0 <= k < path@.len() ==> in_bounds_cell(
                        m.rows as int,
                        m.cols as int,
                        cell_int(#[trigger] path@[k]),
                    ),
                None => true,
            },
        decreases path@.len() - i,
    {
        let a = path[i - 1];
        let b = path[i];
        let diagonal = a.0 != b.0 && a.1 != b.1;
        let base: u64 = if diagonal { SQRT2_SCALED } else { SCALE };
        let mult: u64 = match cost_map {
            Some(m) => m.get(b.0, b.1) as u64,
            None => SCALE,
        };
        proof {
            assert(0 <= (base as int) * (mult as int)
                && (base as int) * (mult as int) <= (SQRT2_SCALED as int) * (VAL_LIMIT as int))
                by (nonlinear_arith)
                requires 0 <= mult <= VAL_LIMIT, SCALE <= base <= SQRT2_SCALED
            ;
        }
        let step: u64 = base * mult / SCALE;
        let new_total = sat_add(total, step);
        proof {
            let sub = path@.subrange(0, i + 1 as int);
            assert(sub.drop_last() =~= path@.subrange(0, i as int));
            assert(sub[sub.len() - 2] == a && sub[sub.len() - 1] == b);
            assert(step == step_cost_spec(cm_view(cost_map), (b.0 - a.0, b.1 - a.1), cell_int(b)));
        }
        total = new_total;
        i = i + 1;
    }
    proof {
        assert(path@.subrange(0, path@.len() as int) =~= path@);
    }
    total
}

/// No single step costs more than this: the diagonal base length times
/// the largest admissible cost multiplier.
pub const MAX_STEP_COST: u64 = 1_414_213_000_000;

/// The grid is small enough that no accumulated path cost can reach the
/// saturation point `COST_INF`, so no relaxation is ever lost to
/// saturation and the search is exhaustive.
pub open spec fn within_cost_budget(g: Grid) -> bool {
    (g.rows * g.cols + 2) * (MAX_STEP_COST as int) < COST_INF
}

/// One entry of the open set: a cell index keyed by its f-cost. Entries
/// are ordered by f-cost ascending, ties broken by the smaller cell index,
/// so the expansion order is deterministic.
#[derive(Clone, Copy)]
struct QueueNode {
    f_cost: u64,
    index: usize,
}

/// Total order on queue entries: f-cost first, cell index second.
spec fn queue_le(a: QueueNode, b: QueueNode) -> bool {
    a.f_cost < b.f_cost || (a.f_cost == b.f_cost && a.index <= b.index)
}

/// Removes and returns the least queue entry (by f-cost, then index).
fn pop_min(open: &mut Vec<QueueNode>) -> (r: QueueNode)
    requires
        old(open)@.len() > 0,
    ensures
        final(open)@.len() == old(open)@.len() - 1,
        old(open)@.contains(r),
        forall|k: int|
            0 <= k < final(open)@.len() ==> old(open)@.contains(#[trigger] final(open)@[k]),
        forall|k: int| 0 <= k < old(open)@.len() ==> queue_le(r, #[trigger] old(open)@[k]),
        exists|k: int|
            0 <= k < old(open)@.len() && old(open)@[k] == r && final(open)@ == old(
                open,
            )@.remove(k),
{
    let mut best: usize = 0;
    let mut i: usize = 1;
    while i < open.len()
        invariant
            open@.len() > 0,
            best < i,
            i <= open@.len(),
            forall|k: int| 0 <= k < i ==> queue_le(open@[best as int], #[trigger] open@[k]),
        decreases open@.len() - i,
    {
        let cand = open[i];
        let cur = open[best];
        if cand.f_cost < cur.f_cost || (cand.f_cost == cur.f_cost && cand.index < cur.index) {
            best = i;
        }
        i = i + 1;
    }
    let ghost oldv = open@;
    let r = open.remove(best);
    proof {
        oldv.remove_ensures(best as int);
        assert forall|k: int|
            0 <= k < open@.len() implies oldv.contains(#[trigger] open@[k]) by {
            if k < best {
                assert(open@[k] == oldv[k]);
            } else {
                assert(open@[k] == oldv[k + 1]);
            }
        }
    }
    r
}

/// Number of true entries in a boolean sequence.
spec fn count_trues(s: Seq<bool>) -> int
    decreases s.len(),
{
    if s.len() == 0 {
        0
    } else {
        count_trues(s.drop_last()) + if s.last() {
            1int
        } else {
            0int
        }
    }
}

/// The count of true entries never exceeds the length.
proof fn lemma_count_trues_le(s: Seq<bool>)
    ensures
        0 <= count_trues(s) <= s.len(),
    decreases s.len(),
{
    if s.len() > 0 {
        lemma_count_trues_le(s.drop_last());
    }
}

/// Flipping one false entry to true raises the count by exactly one.
proof fn lemma_count_trues_update(s: Seq<bool>, i: int)
    requires
        0 <= i < s.len(),
        !s[i],
    ensures
        count_trues(s.update(i, true)) == count_trues(s) + 1,
    decreases s.len(),
{
    let t = s.update(i, true);
    if i == s.len() - 1 {
        assert(t.drop_last() =~= s.drop_last());
    } else {
        assert(t.drop_last() =~= s.drop_last().update(i, true));
        lemma_count_trues_update(s.drop_last(), i);
        assert(t.last() == s.last());
    }
}

/// An all-false sequence has count zero.
proof fn lemma_count_trues_zero(s: Seq<bool>)
    requires
        forall|k: int| 0 <= k < s.len() ==> !s[k],
    ensures
        count_trues(s) == 0,
    decreases s.len(),
{
    if s.len() > 0 {
        lemma_count_trues_zero(s.drop_last());
    }
}

/// `cell` is an acceptable goal: inside the grid and within squared
/// Euclidean distance `tol * tol` of the target. With tolerance zero this
/// is exactly the target cell.
#[verifier::opaque]
pub open spec fn in_goal_region(
    cell: (int, int),
    target: (int, int),
    tol: int,
    rows: int,
    cols: int,
) -> bool {
    &&& in_bounds_cell(rows, cols, cell)
    &&& (cell.0 - target.0) * (cell.0 - target.0) + (cell.1 - target.1) * (cell.1 - target.1)
        <= tol * tol
}

/// Decides goal-region membership for an in-bounds cell.
fn in_goal_region_exec(
    cell: (usize, usize),
    target: (usize, usize),
    tol: usize,
    rows: usize,
    cols: usize,
) -> (r: bool)
    requires
        rows <= DIM_LIMIT,
        cols <= DIM_LIMIT,
        tol <= DIM_LIMIT,
        cell.0 < rows,
        cell.1 < cols,
        target.0 < rows,
        target.1 < cols,
    ensures
        r == in_goal_region(cell_int(cell), cell_int(target), tol as int, rows as int, cols as int),
{
    let dr: u64 = if cell.0 >= target.0 { (cell.0 - target.0) as u64 } else { (target.0 - cell.0) as u64 };
    let dc: u64 = if cell.1 >= target.1 { (cell.1 - target.1) as u64 } else { (target.1 - cell.1) as u64 };
    proof {
        reveal(in_goal_region);
        assert((dr as int) * (dr as int) + (dc as int) * (dc as int)
            <= 2 * (DIM_LIMIT as int) * (DIM_LIMIT as int)
            && (tol as int) * (tol as int) <= (DIM_LIMIT as int) * (DIM_LIMIT as int))
            by (nonlinear_arith)
            requires 0 <= dr <= DIM_LIMIT, 0 <= dc <= DIM_LIMIT, 0 <= tol <= DIM_LIMIT
        ;
        let dri = cell_int(cell).0 - cell_int(target).0;
        let dci = cell_int(cell).1 - cell_int(target).1;
        assert(dri * dri == (dr as int) * (dr as int) && dci * dci == (dc as int) * (dc as int))
            by (nonlinear_arith)
            requires dr == abs(dri), dc == abs(dci)
        ;
    }
    dr * dr + dc * dc <= (tol as u64) * (tol as u64)
}

/// The edge from cell `a` to cell `b` is one the search may link: both
/// cells are inside the grid, `b - a` is an offset of the movement mode,
/// and the edge is slope-admissible.
#[verifier::opaque]
pub open spec fn edge_ok(
    g: Grid,
    fc: FieldConfig,
    rc: RobotConfig,
    mode: MovementMode,
    a: (int, int),
    b: (int, int),
) -> bool {
    &&& in_bounds_cell(g.rows as int, g.cols as int, a)
    &&& in_bounds_cell(g.rows as int, g.cols as int, b)
    &&& mode.is_direction((b.0 - a.0, b.1 - a.1))
    &&& unblocked_spec(g, a, b, fc, rc)
}

/// A recorded blocked cell is evidence of a real rejection: it lies off
/// the grid, or some in-bounds neighbour rejected the move into it on
/// slope grounds.
#[verifier::opaque]
pub open spec fn blocked_cell_ok(
    g: Grid,
    fc: FieldConfig,
    rc: RobotConfig,
    mode: MovementMode,
    e: (int, int),
) -> bool {
    ||| !in_bounds_cell(g.rows as int, g.cols as int, e)
    ||| exists|a: (int, int)|
        in_bounds_cell(g.rows as int, g.cols as int, a)
            && #[trigger] mode.is_direction((e.0 - a.0, e.1 - a.1))
            && !unblocked_spec(g, a, e, fc, rc)
}

/// No cell occurs twice.
pub open spec fn nodup_signed(s: Seq<(isize, isize)>) -> bool {
    forall|i: int, j: int| 0 <= i < j < s.len() ==> #[trigger] s[i] != #[trigger] s[j]
}

/// The blocked-edge record is deduplicated and every entry is evidence of
/// a real rejection.
pub open spec fn blocked_ok(
    g: Grid,
    fc: FieldConfig,
    rc: RobotConfig,
    mode: MovementMode,
    s: Seq<(isize, isize)>,
) -> bool {
    &&& nodup_signed(s)
    &&& forall|k: int| 0 <= k < s.len() ==> blocked_cell_ok(g, fc, rc, mode, (#[trigger] s[k].0 as int, s[k].1 as int))
}

/// Whether a signed cell occurs in a vector of signed cells.
fn contains_signed_cell(v: &Vec<(isize, isize)>, x: (isize, isize)) -> (r: bool)
    ensures
        r == v@.contains(x),
{
    let mut i: usize = 0;
    while i < v.len()
        invariant
            i <= v@.len(),
            forall|k: int| 0 <= k < i ==> #[trigger] v@[k] != x,
        decreases v@.len() - i,
    {
        let c = v[i];
        if c.0 == x.0 && c.1 == x.1 {
            return true;
        }
        i = i + 1;
    }
    false
}

/// The executable direction list matches the movement mode's offsets.
spec fn dirs_match(dirs: Seq<(isize, isize)>, mode: MovementMode) -> bool {
    &&& dirs.len() == mode.dir_seq().len()
    &&& forall|i: int|
        0 <= i < dirs.len() ==> (#[trigger] dirs[i].0 as int, dirs[i].1 as int) == mode.dir_seq()[i]
}

/// One half of the search: its open queue, g-scores, parent links and
/// finalized set, together with ghost bookkeeping of the order in which
/// cells were finalized. The parent links over finalized cells always form
/// a forest rooted at the side's seed cells, which is what makes path
/// reconstruction terminate.
struct SideState {
    open: Vec<QueueNode>,
    g_score: Vec<u64>,
    parent: Vec<usize>,
    visited: Vec<bool>,
    num_visited: usize,
    rank: Ghost<Map<int, int>>,
}

impl SideState {
    /// The parent link of cell `i` is sound: a self-link marks a seed cell
    /// (inside the side's seed region, with zero cost), and any other link
    /// points to an earlier-finalized neighbour over an admissible edge.
    spec fn link_ok(
        self,
        i: int,
        grid: Grid,
        fc: FieldConfig,
        rc: RobotConfig,
        mode: MovementMode,
        seed_target: (int, int),
        seed_tol: int,
    ) -> bool {
        let p = self.parent@[i] as int;
        let cols = grid.cols as int;
        if p == i {
            &&& in_goal_region(cell_of(i, cols), seed_target, seed_tol, grid.rows as int, cols)
            &&& self.g_score@[i] == 0
        } else {
            &&& 0 <= p < grid.rows * grid.cols
            &&& self.visited@[p]
            &&& edge_ok(grid, fc, rc, mode, cell_of(p, cols), cell_of(i, cols))
            &&& (self.visited@[i] ==> self.rank@.contains_key(p) && self.rank@.contains_key(i)
                && self.rank@[p] < self.rank@[i])
            &&& self.rank@.contains_key(p)
            &&& self.g_score@[i] <= (self.rank@[p] + 2) * MAX_STEP_COST
        }
    }

    /// The side's invariant, relative to the grid, the configuration, and
    /// the seed region it was initialized from.
    spec fn inv(
        self,
        grid: Grid,
        fc: FieldConfig,
        rc: RobotConfig,
        mode: MovementMode,
        seed_target: (int, int),
        seed_tol: int,
    ) -> bool {
        let total = grid.rows * grid.cols;
        &&& self.g_score@.len() == total
        &&& self.parent@.len() == total
        &&& self.visited@.len() == total
        &&& self.num_visited == count_trues(self.visited@)
        &&& self.num_visited <= total
        &&& forall|k: int|
            0 <= k < self.open@.len() ==> (#[trigger] self.open@[k]).index < total
                && self.parent@[self.open@[k].index as int] != usize::MAX
        &&& forall|i: int|
            0 <= i < total && #[trigger] self.visited@[i] ==> self.parent@[i] != usize::MAX
                && self.rank@.contains_key(i) && 0 <= self.rank@[i] < self.num_visited
        &&& forall|i: int|
            0 <= i < total && #[trigger] self.parent@[i] != usize::MAX ==> self.link_ok(
                i,
                grid,
                fc,
                rc,
                mode,
                seed_target,
                seed_tol,
            )
        &&& forall|j: int|
            0 <= j < total && !self.visited@[j] && #[trigger] self.parent@[j] != usize::MAX
                ==> open_has(self.open@, j)
        &&& forall|j: int|
            0 <= j < total && #[trigger] self.parent@[j] == usize::MAX ==> self.g_score@[j]
                == COST_INF
    }

    /// Every admissible edge out of a finalized cell leads to a cell that
    /// is finalized or at least discovered (holds a parent link). Together
    /// with an empty queue this traps any admissible path inside the
    /// finalized set.
    spec fn closed_frontier(
        self,
        grid: Grid,
        fc: FieldConfig,
        rc: RobotConfig,
        mode: MovementMode,
    ) -> bool {
        forall|i: int, j: int|
            0 <= i < grid.rows * grid.cols && 0 <= j < grid.rows * grid.cols
                && self.visited@[i] && #[trigger] edge_ok(
                grid,
                fc,
                rc,
                mode,
                cell_of(i, grid.cols as int),
                cell_of(j, grid.cols as int),
            ) && !self.visited@[j] ==> self.parent@[j] != usize::MAX
    }
}

/// Some open entry names cell `j`.
spec fn open_has(s: Seq<QueueNode>, j: int) -> bool {
    exists|k: int| 0 <= k < s.len() && (#[trigger] s[k]).index == j
}

/// Index arithmetic: flattening and splitting a cell are inverse.
proof fn lemma_cell_of_index(r: int, c: int, cols: int)
    requires
        0 <= c < cols,
        0 <= r,
    ensures
        cell_of(r * cols + c, cols) == (r, c),
{
    assert((r * cols + c) / cols == r && (r * cols + c) % cols == c) by (nonlinear_arith)
        requires 0 <= c < cols, 0 <= r
    ;
}

/// What one call of `expand_side` did: it finalized one new cell, found a
/// meeting or goal cell, or drained its queue without finalizing anything.
enum ExpandOutcome {
    Stepped,
    Exhausted,
    Meeting(usize),
}

/// Lists the cells of both open queues, first queue first, preserving
/// queue order; used only to snapshot the frontier for an observer.
fn open_cells(first: &Vec<QueueNode>, second: &Vec<QueueNode>, cols: usize) -> (out: Vec<
    (usize, usize),
>)
    requires
        cols > 0,
{
    let mut out: Vec<(usize, usize)> = Vec::new();
    let mut i: usize = 0;
    while i < first.len()
        invariant
            i <= first@.len(),
            cols > 0,
        decreases first@.len() - i,
    {
        out.push(from_index(first[i].index, cols));
        i = i + 1;
    }
    let mut j: usize = 0;
    while j < second.len()
        invariant
            j <= second@.len(),
            cols > 0,
        decreases second@.len() - j,
    {
        out.push(from_index(second[j].index, cols));
        j = j + 1;
    }
    out
}

/// Records one rejected neighbour, keeping the blocked set deduplicated.
fn record_blocked(
    grid: &Grid,
    field_config: &FieldConfig,
    robot_config: &RobotConfig,
    movement_mode: MovementMode,
    blocked: &mut Vec<(isize, isize)>,
    cand: (isize, isize),
)
    requires
        blocked_ok(*grid, *field_config, *robot_config, movement_mode, old(blocked)@),
        blocked_cell_ok(
            *grid,
            *field_config,
            *robot_config,
            movement_mode,
            (cand.0 as int, cand.1 as int),
        ),
    ensures
        blocked_ok(*grid, *field_config, *robot_config, movement_mode, final(blocked)@),
{
    if !contains_signed_cell(blocked, cand) {
        let ghost oldb = blocked@;
        blocked.push(cand);
        proof {
            assert forall|i: int, j: int|
                0 <= i < j < blocked@.len() implies #[trigger] blocked@[i]
                != #[trigger] blocked@[j] by {
                if j < blocked@.len() - 1 {
                    assert(blocked@[i] == oldb[i] && blocked@[j] == oldb[j]);
                } else {
                    assert(blocked@[i] == oldb[i]);
                    assert(oldb.contains(oldb[i]));
                }
            }
        }
    }
}

/// `d` is among the first `n` offsets of the movement mode.
spec fn in_first_dirs(mode: MovementMode, n: int, d: (int, int)) -> bool {
    exists|k: int| 0 <= k < n && k < mode.dir_seq().len() && #[trigger] mode.dir_seq()[k] == d
}

/// Links one admissible, not-yet-finalized neighbour `next_idx` to the
/// finalized cell `cur`, with cost `tentative` and queue key `f`.
#[verifier::rlimit(100)]
fn relax_edge(
    grid: &Grid,
    field_config: &FieldConfig,
    robot_config: &RobotConfig,
    movement_mode: MovementMode,
    own: &mut SideState,
    cell: (usize, usize),
    cur: usize,
    nu: (usize, usize),
    next_idx: usize,
    tentative: u64,
    f: u64,
    seed_target: (usize, usize),
    seed_tol: usize,
)
    requires
        grid.wf(),
        old(own).inv(
            *grid,
            *field_config,
            *robot_config,
            movement_mode,
            cell_int(seed_target),
            seed_tol as int,
        ),
        cell.0 < grid.rows,
        cell.1 < grid.cols,
        nu.0 < grid.rows,
        nu.1 < grid.cols,
        cur == cell.0 * grid.cols + cell.1,
        next_idx == nu.0 * grid.cols + nu.1,
        old(own).visited@[cur as int],
        !old(own).visited@[next_idx as int],
        edge_ok(
            *grid,
            *field_config,
            *robot_config,
            movement_mode,
            cell_int(cell),
            cell_int(nu),
        ),
        tentative < old(own).g_score@[next_idx as int],
        old(own).rank@.contains_key(cur as int),
        tentative <= (old(own).rank@[cur as int] + 2) * MAX_STEP_COST,
    ensures
        final(own).parent@[next_idx as int] == cur,
        forall|j: int|
            0 <= j < grid.rows * grid.cols && j != next_idx
                ==> #[trigger] final(own).parent@[j] == old(own).parent@[j],
        final(own).rank@ == old(own).rank@,
        forall|j: int|
            0 <= j < grid.rows * grid.cols && j != next_idx
                ==> #[trigger] final(own).g_score@[j] == old(own).g_score@[j],
        final(own).inv(
            *grid,
            *field_config,
            *robot_config,
            movement_mode,
            cell_int(seed_target),
            seed_tol as int,
        ),
        final(own).visited@ == old(own).visited@,
        final(own).num_visited == old(own).num_visited,
        forall|i: int|
            0 <= i < grid.rows * grid.cols && old(own).parent@[i] == i
                ==> final(own).parent@[i] == i,
{
    let ghost total = grid.rows * grid.cols;
    let ghost cols = grid.cols as int;
    proof {
        grid.lemma_area_fits();
        lemma_flat_index_bounds(cell.0 as int, cell.1 as int, grid.rows as int, cols);
        lemma_flat_index_bounds(nu.0 as int, nu.1 as int, grid.rows as int, cols);
        lemma_cell_of_index(cell.0 as int, cell.1 as int, cols);
        lemma_cell_of_index(nu.0 as int, nu.1 as int, cols);
        assert(next_idx != cur) by {
            crate::grid::lemma_flat_index_injective(
                nu.0 as int,
                nu.1 as int,
                cell.0 as int,
                cell.1 as int,
                cols,
            );
        }
    }
    let ghost pre = *own;
    own.g_score[next_idx] = tentative;
    own.parent[next_idx] = cur;
    own.open.push(QueueNode { f_cost: f, index: next_idx });
    proof {
        assert forall|i: int|
            0 <= i < total && #[trigger] own.parent@[i] != usize::MAX implies own.link_ok(
            i,
            *grid,
            *field_config,
            *robot_config,
            movement_mode,
            cell_int(seed_target),
            seed_tol as int,
        ) by {
            if i == next_idx {
                assert(own.parent@[i] == cur);
                assert(own.visited@[cur as int]);
                assert(cell_of(cur as int, cols) == cell_int(cell));
                assert(cell_of(i, cols) == cell_int(nu));
            } else {
                assert(pre.parent@[i] != usize::MAX);
                assert(pre.link_ok(
                    i,
                    *grid,
                    *field_config,
                    *robot_config,
                    movement_mode,
                    cell_int(seed_target),
                    seed_tol as int,
                ));
                assert(own.g_score@[i] == pre.g_score@[i]);
            }
        }
        assert forall|i: int|
            0 <= i < total && old(own).parent@[i] == i implies own.parent@[i] == i by {
            if i == next_idx {
                assert(pre.parent@[i] == i);
                assert(pre.link_ok(
                    i,
                    *grid,
                    *field_config,
                    *robot_config,
                    movement_mode,
                    cell_int(seed_target),
                    seed_tol as int,
                ));
                assert(pre.g_score@[i] == 0);
                assert(false);
            }
        }
        assert forall|j: int|
            0 <= j < total && !own.visited@[j] && #[trigger] own.parent@[j] != usize::MAX
            implies open_has(own.open@, j) by {
            if j == next_idx {
                assert(own.open@[own.open@.len() - 1].index == j);
            } else {
                assert(pre.parent@[j] != usize::MAX);
                let k = choose|k: int|
                    0 <= k < pre.open@.len() && (#[trigger] pre.open@[k]).index == j;
                assert(own.open@[k].index == j);
            }
        }
    }
}

/// Handles one neighbour offset of the finalized cell `cell`: records an
/// off-grid or slope-rejected candidate into the blocked set, or relaxes
/// an admissible, unfinalized neighbour whenever the path through `cell`
/// improves on its best known cost. On grids within the cost budget, the
/// offset's target cell is guaranteed discovered afterwards.
#[verifier::loop_isolation(false)]
#[verifier::rlimit(100)]
fn process_direction(
    grid: &Grid,
    field_config: &FieldConfig,
    robot_config: &RobotConfig,
    movement_mode: MovementMode,
    dirs: &Vec<(isize, isize)>,
    cost_map: Option<&Grid>,
    own: &mut SideState,
    cell: (usize, usize),
    cur: usize,
    g_cur: u64,
    heur_target: (usize, usize),
    seed_target: (usize, usize),
    seed_tol: usize,
    blocked: &mut Vec<(isize, isize)>,
    di: usize,
)
    requires
        grid.wf(),
        grid.values_in(-VAL_LIMIT as int, VAL_LIMIT as int),
        field_config.wf(),
        robot_config.wf(),
        cm_ok(cm_view(cost_map), *grid),
        dirs_match(dirs@, movement_mode),
        grid.rows >= 1,
        grid.cols >= 1,
        old(own).inv(
            *grid,
            *field_config,
            *robot_config,
            movement_mode,
            cell_int(seed_target),
            seed_tol as int,
        ),
        cell.0 < grid.rows,
        cell.1 < grid.cols,
        cur == cell.0 * grid.cols + cell.1,
        old(own).visited@[cur as int],
        old(own).rank@.contains_key(cur as int),
        0 <= old(own).rank@[cur as int] < grid.rows * grid.cols,
        g_cur == old(own).g_score@[cur as int],
        g_cur <= (old(own).rank@[cur as int] + 1) * MAX_STEP_COST,
        heur_target.0 < grid.rows && heur_target.1 < grid.cols,
        blocked_ok(*grid, *field_config, *robot_config, movement_mode, old(blocked)@),
        di < dirs@.len(),
    ensures
        final(own).inv(
            *grid,
            *field_config,
            *robot_config,
            movement_mode,
            cell_int(seed_target),
            seed_tol as int,
        ),
        final(own).visited@ == old(own).visited@,
        final(own).num_visited == old(own).num_visited,
        final(own).rank@ == old(own).rank@,
        final(own).g_score@[cur as int] == old(own).g_score@[cur as int],
        forall|i: int|
            0 <= i < grid.rows * grid.cols && old(own).parent@[i] == i
                ==> final(own).parent@[i] == i,
        forall|i: int|
            0 <= i < grid.rows * grid.cols && old(own).parent@[i] != usize::MAX
                ==> #[trigger] final(own).parent@[i] != usize::MAX,
        within_cost_budget(*grid) ==> forall|j: int|
            0 <= j < grid.rows * grid.cols && #[trigger] edge_ok(
                *grid,
                *field_config,
                *robot_config,
                movement_mode,
                cell_int(cell),
                cell_of(j, grid.cols as int),
            ) && !final(own).visited@[j] && (
                cell_of(j, grid.cols as int).0 - cell.0 as int,
                cell_of(j, grid.cols as int).1 - cell.1 as int,
            ) == movement_mode.dir_seq()[di as int] ==> final(own).parent@[j] != usize::MAX,
        blocked_ok(*grid, *field_config, *robot_config, movement_mode, final(blocked)@),
{
    let ghost total = grid.rows * grid.cols;
    let cols = grid.cols;
    let rows = grid.rows;
    proof {
        grid.lemma_area_fits();
        lemma_flat_index_bounds(cell.0 as int, cell.1 as int, rows as int, cols as int);
    }
    let d = dirs[di];
    let dr = d.0;
    let dc = d.1;
    proof {
        assert(movement_mode.is_direction((dr as int, dc as int))) by {
            assert(movement_mode.dir_seq()[di as int] == (dr as int, dc as int));
        }
        crate::config::lemma_directions_nonzero(movement_mode, (dr as int, dc as int));
    }
    let nr: isize = cell.0 as isize + dr;
    let nc: isize = cell.1 as isize + dc;
    if !is_valid(nr, nc, rows, cols) {
        proof {
            reveal(blocked_cell_ok);
        }
        record_blocked(grid, field_config, robot_config, movement_mode, blocked, (nr, nc));
        proof {
            assert forall|j: int|
                0 <= j < total && #[trigger] edge_ok(
                    *grid,
                    *field_config,
                    *robot_config,
                    movement_mode,
                    cell_int(cell),
                    cell_of(j, cols as int),
                ) && (
                    cell_of(j, cols as int).0 - cell.0 as int,
                    cell_of(j, cols as int).1 - cell.1 as int,
                ) == movement_mode.dir_seq()[di as int] implies false by {
                crate::grid::lemma_from_index_in_bounds(j, rows as int, cols as int);
                assert(cell_of(j, cols as int).0 == nr as int
                    && cell_of(j, cols as int).1 == nc as int);
            }
        }
        return ;
    }
    let nu = (nr as usize, nc as usize);
    proof {
        lemma_flat_index_bounds(nu.0 as int, nu.1 as int, rows as int, cols as int);
    }
    let next_idx = to_index(nu.0, nu.1, cols);
    proof {
        lemma_cell_of_index(nu.0 as int, nu.1 as int, cols as int);
        lemma_cell_of_index(cell.0 as int, cell.1 as int, cols as int);
    }
    // The direction's target, when it exists, is exactly `next_idx`.
    proof {
        assert forall|j: int|
            0 <= j < total && (
                cell_of(j, cols as int).0 - cell.0 as int,
                cell_of(j, cols as int).1 - cell.1 as int,
            ) == movement_mode.dir_seq()[di as int] implies j == next_idx by {
            assert(cell_of(j, cols as int) == cell_int(nu));
            assert(cell_of(j, cols as int).0 * (cols as int) + cell_of(j, cols as int).1
                == j) by (nonlinear_arith)
                requires cols >= 1, 0 <= j
            ;
        }
    }
    if !is_unblocked(grid, cell, nu, field_config, robot_config) {
        proof {
            reveal(blocked_cell_ok);
            assert(blocked_cell_ok(
                *grid,
                *field_config,
                *robot_config,
                movement_mode,
                (nr as int, nc as int),
            )) by {
                assert(in_bounds_cell(rows as int, cols as int, cell_int(cell))
                    && movement_mode.is_direction((nr - cell.0 as int, nc - cell.1 as int))
                    && !unblocked_spec(
                    *grid,
                    cell_int(cell),
                    (nr as int, nc as int),
                    *field_config,
                    *robot_config,
                ));
            }
        }
        record_blocked(grid, field_config, robot_config, movement_mode, blocked, (nr, nc));
        proof {
            reveal(edge_ok);
            assert(!edge_ok(
                *grid,
                *field_config,
                *robot_config,
                movement_mode,
                cell_int(cell),
                cell_int(nu),
            ));
        }
        return ;
    }
    if own.visited[next_idx] {
        return ;
    }
    proof {
        reveal(edge_ok);
        assert(movement_mode.is_direction(
            (cell_int(nu).0 - cell_int(cell).0, cell_int(nu).1 - cell_int(cell).1),
        )) by {
            assert((cell_int(nu).0 - cell_int(cell).0, cell_int(nu).1 - cell_int(cell).1)
                == (dr as int, dc as int));
        }
    }
    relax_candidate(
        grid,
        field_config,
        robot_config,
        movement_mode,
        cost_map,
        own,
        cell,
        cur,
        nu,
        next_idx,
        g_cur,
        heur_target,
        seed_target,
        seed_tol,
    );
}

/// Considers one admissible, unfinalized neighbour `nu` of the finalized
/// cell `cell` and re-keys it whenever the path through `cell` improves
/// on its best known cost. On grids within the cost budget the neighbour
/// is guaranteed discovered afterwards.
#[verifier::rlimit(100)]
fn relax_candidate(
    grid: &Grid,
    field_config: &FieldConfig,
    robot_config: &RobotConfig,
    movement_mode: MovementMode,
    cost_map: Option<&Grid>,
    own: &mut SideState,
    cell: (usize, usize),
    cur: usize,
    nu: (usize, usize),
    next_idx: usize,
    g_cur: u64,
    heur_target: (usize, usize),
    seed_target: (usize, usize),
    seed_tol: usize,
)
    requires
        grid.wf(),
        robot_config.wf(),
        cm_ok(cm_view(cost_map), *grid),
        grid.rows >= 1,
        grid.cols >= 1,
        old(own).inv(
            *grid,
            *field_config,
            *robot_config,
            movement_mode,
            cell_int(seed_target),
            seed_tol as int,
        ),
        cell.0 < grid.rows,
        cell.1 < grid.cols,
        nu.0 < grid.rows,
        nu.1 < grid.cols,
        cur == cell.0 * grid.cols + cell.1,
        next_idx == nu.0 * grid.cols + nu.1,
        old(own).visited@[cur as int],
        !old(own).visited@[next_idx as int],
        old(own).rank@.contains_key(cur as int),
        0 <= old(own).rank@[cur as int] < grid.rows * grid.cols,
        g_cur == old(own).g_score@[cur as int],
        g_cur <= (old(own).rank@[cur as int] + 1) * MAX_STEP_COST,
        heur_target.0 < grid.rows && heur_target.1 < grid.cols,
        edge_ok(
            *grid,
            *field_config,
            *robot_config,
            movement_mode,
            cell_int(cell),
            cell_int(nu),
        ),
    ensures
        final(own).inv(
            *grid,
            *field_config,
            *robot_config,
            movement_mode,
            cell_int(seed_target),
            seed_tol as int,
        ),
        final(own).visited@ == old(own).visited@,
        final(own).num_visited == old(own).num_visited,
        final(own).rank@ == old(own).rank@,
        final(own).g_score@[cur as int] == old(own).g_score@[cur as int],
        forall|i: int|
            0 <= i < grid.rows * grid.cols && old(own).parent@[i] == i
                ==> final(own).parent@[i] == i,
        forall|i: int|
            0 <= i < grid.rows * grid.cols && old(own).parent@[i] != usize::MAX
                ==> #[trigger] final(own).parent@[i] != usize::MAX,
        within_cost_budget(*grid) ==> final(own).parent@[next_idx as int] != usize::MAX,
{
    let ghost total = grid.rows * grid.cols;
    proof {
        grid.lemma_area_fits();
        lemma_flat_index_bounds(cell.0 as int, cell.1 as int, grid.rows as int, grid.cols as int);
        lemma_flat_index_bounds(nu.0 as int, nu.1 as int, grid.rows as int, grid.cols as int);
    }
    let diagonal = cell.0 != nu.0 && cell.1 != nu.1;
    let base: u64 = if diagonal {
        SQRT2_SCALED
    } else {
        SCALE
    };
    let mult: u64 = match cost_map {
        Some(m) => m.get(nu.0, nu.1) as u64,
        None => SCALE,
    };
    proof {
        assert(0 <= (base as int) * (mult as int) && (base as int) * (mult as int)
            <= (SQRT2_SCALED as int) * (VAL_LIMIT as int)) by (nonlinear_arith)
            requires 0 <= mult <= VAL_LIMIT, SCALE <= base <= SQRT2_SCALED
        ;
    }
    let step: u64 = base * mult / SCALE;
    proof {
        assert((step as int) <= MAX_STEP_COST) by (nonlinear_arith)
            requires
                step == (base as int) * (mult as int) / (SCALE as int),
                0 <= (base as int) * (mult as int) <= (SQRT2_SCALED as int) * (
                VAL_LIMIT as int),
                SCALE == 1_000_000,
                SQRT2_SCALED == 1_414_213,
                VAL_LIMIT == 1_000_000_000_000,
                MAX_STEP_COST == 1_414_213_000_000
        ;
        if within_cost_budget(*grid) {
            // Within the budget the new tentative cost cannot saturate.
            assert(g_cur + step <= (total as int + 2) * (MAX_STEP_COST as int))
                by (nonlinear_arith)
                requires
                    g_cur <= (own.rank@[cur as int] + 1) * (MAX_STEP_COST as int),
                    own.rank@[cur as int] < total,
                    step <= MAX_STEP_COST
            ;
        }
    }
    let tentative: u64 = sat_add(g_cur, step);
    let improved = tentative < own.g_score[next_idx];
    if improved {
        let h = remaining_path(robot_config, nu.0, nu.1, heur_target);
        let f = sat_add(tentative, h);
        proof {
            assert(tentative <= (own.rank@[cur as int] + 2) * MAX_STEP_COST)
                by (nonlinear_arith)
                requires
                    tentative <= g_cur + step,
                    g_cur <= (own.rank@[cur as int] + 1) * (MAX_STEP_COST as int),
                    step <= MAX_STEP_COST
            ;
        }
        relax_edge(
            grid,
            field_config,
            robot_config,
            movement_mode,
            own,
            cell,
            cur,
            nu,
            next_idx,
            tentative,
            f,
            seed_target,
            seed_tol,
        );
        proof {
            assert(own.parent@[next_idx as int] == cur);
            assert(cur != next_idx) by {
                reveal(edge_ok);
                crate::config::lemma_directions_nonzero(
                    movement_mode,
                    (cell_int(nu).0 - cell_int(cell).0, cell_int(nu).1 - cell_int(cell).1),
                );
                crate::grid::lemma_flat_index_injective(
                    cell.0 as int,
                    cell.1 as int,
                    nu.0 as int,
                    nu.1 as int,
                    grid.cols as int,
                );
            }
        }
    } else {
        proof {
            if within_cost_budget(*grid) {
                assert(own.g_score@[next_idx as int] <= tentative);
                assert(tentative < COST_INF);
                assert(own.parent@[next_idx as int] != usize::MAX);
            }
        }
    }
}

/// Relaxes every neighbour of the finalized cell `cell`: off-grid and
/// slope-rejected neighbours go to the blocked set; an admissible,
/// not-yet-finalized neighbour is re-keyed whenever the path through
/// `cell` improves on its best known cost. On grids within the cost
/// budget, every admissible neighbour ends up discovered.
#[verifier::loop_isolation(false)]
#[verifier::rlimit(100)]
fn relax_neighbors(
    grid: &Grid,
    field_config: &FieldConfig,
    robot_config: &RobotConfig,
    movement_mode: MovementMode,
    dirs: &Vec<(isize, isize)>,
    cost_map: Option<&Grid>,
    own: &mut SideState,
    cell: (usize, usize),
    cur: usize,
    g_cur: u64,
    heur_target: (usize, usize),
    seed_target: (usize, usize),
    seed_tol: usize,
    blocked: &mut Vec<(isize, isize)>,
)
    requires
        grid.wf(),
        grid.values_in(-VAL_LIMIT as int, VAL_LIMIT as int),
        field_config.wf(),
        robot_config.wf(),
        cm_ok(cm_view(cost_map), *grid),
        dirs_match(dirs@, movement_mode),
        grid.rows >= 1,
        grid.cols >= 1,
        old(own).inv(
            *grid,
            *field_config,
            *robot_config,
            movement_mode,
            cell_int(seed_target),
            seed_tol as int,
        ),
        cell.0 < grid.rows,
        cell.1 < grid.cols,
        cur == cell.0 * grid.cols + cell.1,
        old(own).visited@[cur as int],
        g_cur == old(own).g_score@[cur as int],
        heur_target.0 < grid.rows && heur_target.1 < grid.cols,
        blocked_ok(*grid, *field_config, *robot_config, movement_mode, old(blocked)@),
    ensures
        final(own).inv(
            *grid,
            *field_config,
            *robot_config,
            movement_mode,
            cell_int(seed_target),
            seed_tol as int,
        ),
        final(own).visited@ == old(own).visited@,
        final(own).num_visited == old(own).num_visited,
        forall|i: int|
            0 <= i < grid.rows * grid.cols && old(own).parent@[i] == i
                ==> final(own).parent@[i] == i,
        forall|i: int|
            0 <= i < grid.rows * grid.cols && old(own).parent@[i] != usize::MAX
                ==> #[trigger] final(own).parent@[i] != usize::MAX,
        within_cost_budget(*grid) ==> forall|j: int|
            0 <= j < grid.rows * grid.cols && #[trigger] edge_ok(
                *grid,
                *field_config,
                *robot_config,
                movement_mode,
                cell_int(cell),
                cell_of(j, grid.cols as int),
            ) && !final(own).visited@[j] ==> final(own).parent@[j] != usize::MAX,
        blocked_ok(*grid, *field_config, *robot_config, movement_mode, final(blocked)@),
{
    let ghost total = grid.rows * grid.cols;
    let cols = grid.cols;
    let rows = grid.rows;
    proof {
        grid.lemma_area_fits();
        // The cost accumulated at `cur` is within its rank budget.
        lemma_flat_index_bounds(cell.0 as int, cell.1 as int, rows as int, cols as int);
        assert(own.visited@[cur as int]);
        assert(own.parent@[cur as int] != usize::MAX);
        assert(own.link_ok(
            cur as int,
            *grid,
            *field_config,
            *robot_config,
            movement_mode,
            cell_int(seed_target),
            seed_tol as int,
        ));
        if own.parent@[cur as int] == cur as int {
            assert(g_cur == 0);
            assert(0 <= (own.rank@[cur as int] + 1) * (MAX_STEP_COST as int))
                by (nonlinear_arith)
                requires own.rank@[cur as int] >= 0
            ;
        } else {
            let p = own.parent@[cur as int] as int;
            assert(own.rank@[p] < own.rank@[cur as int]);
            assert(g_cur <= (own.rank@[p] + 2) * MAX_STEP_COST);
            assert((own.rank@[p] + 2) * MAX_STEP_COST <= (own.rank@[cur as int] + 1) * (
            MAX_STEP_COST as int)) by (nonlinear_arith)
                requires own.rank@[p] + 1 <= own.rank@[cur as int]
            ;
        }
        assert(own.rank@[cur as int] < own.num_visited);
    }
    let ghost rank_cur = own.rank@[cur as int];
    let mut di: usize = 0;
    while di < dirs.len()
        invariant
            own.inv(
                *grid,
                *field_config,
                *robot_config,
                movement_mode,
                cell_int(seed_target),
                seed_tol as int,
            ),
            own.visited@ == old(own).visited@,
            own.num_visited == old(own).num_visited,
            own.rank@ == old(own).rank@,
            own.g_score@[cur as int] == g_cur,
            di <= dirs@.len(),
            forall|i: int|
                0 <= i < total && old(own).parent@[i] == i ==> own.parent@[i] == i,
            forall|i: int|
                0 <= i < total && old(own).parent@[i] != usize::MAX
                    ==> #[trigger] own.parent@[i] != usize::MAX,
            within_cost_budget(*grid) ==> forall|j: int|
                0 <= j < total && #[trigger] edge_ok(
                    *grid,
                    *field_config,
                    *robot_config,
                    movement_mode,
                    cell_int(cell),
                    cell_of(j, cols as int),
                ) && !own.visited@[j] && in_first_dirs(
                    movement_mode,
                    di as int,
                    (
                        cell_of(j, cols as int).0 - cell.0 as int,
                        cell_of(j, cols as int).1 - cell.1 as int,
                    ),
                ) ==> own.parent@[j] != usize::MAX,
            blocked_ok(*grid, *field_config, *robot_config, movement_mode, blocked@),
        decreases dirs@.len() - di,
    {
        let ghost prev = *own;
        process_direction(
            grid,
            field_config,
            robot_config,
            movement_mode,
            dirs,
            cost_map,
            own,
            cell,
            cur,
            g_cur,
            heur_target,
            seed_target,
            seed_tol,
            blocked,
            di,
        );
        proof {
            if within_cost_budget(*grid) {
                assert forall|j: int|
                    0 <= j < total && edge_ok(
                        *grid,
                        *field_config,
                        *robot_config,
                        movement_mode,
                        cell_int(cell),
                        cell_of(j, cols as int),
                    ) && !own.visited@[j] && in_first_dirs(
                        movement_mode,
                        di as int + 1,
                        (
                            cell_of(j, cols as int).0 - cell.0 as int,
                            cell_of(j, cols as int).1 - cell.1 as int,
                        ),
                    ) implies own.parent@[j] != usize::MAX by {
                    let off = (
                        cell_of(j, cols as int).0 - cell.0 as int,
                        cell_of(j, cols as int).1 - cell.1 as int,
                    );
                    if in_first_dirs(movement_mode, di as int, off) {
                        assert(prev.parent@[j] != usize::MAX);
                    } else {
                        let k = choose|k: int|
                            0 <= k < di as int + 1 && k < movement_mode.dir_seq().len()
                                && #[trigger] movement_mode.dir_seq()[k] == off;
                        assert(k == di as int);
                        assert(off == movement_mode.dir_seq()[di as int]);
                    }
                }
            }
        }
        di = di + 1;
    }
    proof {
        if within_cost_budget(*grid) {
            assert forall|j: int|
                0 <= j < total && #[trigger] edge_ok(
                    *grid,
                    *field_config,
                    *robot_config,
                    movement_mode,
                    cell_int(cell),
                    cell_of(j, cols as int),
                ) && !own.visited@[j] implies own.parent@[j] != usize::MAX by {
                reveal(edge_ok);
                let off = (
                    cell_of(j, cols as int).0 - cell.0 as int,
                    cell_of(j, cols as int).1 - cell.1 as int,
                );
                assert(movement_mode.is_direction(off));
                let k = choose|k: int|
                    0 <= k < movement_mode.dir_seq().len()
                        && #[trigger] movement_mode.dir_seq()[k] == off;
                assert(in_first_dirs(movement_mode, di as int, off));
            }
        }
    }
}

/// Pops entries from the side's queue until one names a cell not yet
/// finalized, and finalizes that cell. Returns the finalized cell's index
/// and coordinates, or nothing when the queue drained without finding an
/// unfinalized cell.
#[verifier::loop_isolation(false)]
#[verifier::rlimit(100)]
fn pop_and_finalize(
    grid: &Grid,
    field_config: &FieldConfig,
    robot_config: &RobotConfig,
    movement_mode: MovementMode,
    own: &mut SideState,
    seed_target: (usize, usize),
    seed_tol: usize,
) -> (r: Option<(usize, (usize, usize))>)
    requires
        grid.wf(),
        grid.rows >= 1,
        grid.cols >= 1,
        old(own).inv(
            *grid,
            *field_config,
            *robot_config,
            movement_mode,
            cell_int(seed_target),
            seed_tol as int,
        ),
    ensures
        final(own).inv(
            *grid,
            *field_config,
            *robot_config,
            movement_mode,
            cell_int(seed_target),
            seed_tol as int,
        ),
        final(own).parent@ == old(own).parent@,
        final(own).g_score@ == old(own).g_score@,
        match r {
            None => final(own).open@.len() == 0 && final(own).visited@ == old(own).visited@
                && final(own).num_visited == old(own).num_visited,
            Some((cur, cell)) => (cur as int) < grid.rows * grid.cols
                && !old(own).visited@[cur as int] && final(own).visited@ == old(
                own,
            ).visited@.update(cur as int, true) && final(own).num_visited == old(
                own,
            ).num_visited + 1 && cell_int(cell) == cell_of(cur as int, grid.cols as int)
                && cell.0 * grid.cols + cell.1 == cur && cell.0 < grid.rows && cell.1
                < grid.cols,
        },
{
    let ghost total = grid.rows * grid.cols;
    let cols = grid.cols;
    let rows = grid.rows;
    proof {
        grid.lemma_area_fits();
    }
    while !own.open.is_empty()
        invariant
            own.inv(
                *grid,
                *field_config,
                *robot_config,
                movement_mode,
                cell_int(seed_target),
                seed_tol as int,
            ),
            own.visited@ == old(own).visited@,
            own.num_visited == old(own).num_visited,
            own.parent@ == old(own).parent@,
            own.g_score@ == old(own).g_score@,
        decreases own.open@.len(),
    {
        let ghost before = own.open@;
        let node = pop_min(&mut own.open);
        let cur: usize = node.index;
        proof {
            let k = choose|k: int|
                0 <= k < before.len() && before[k] == node && own.open@ == before.remove(k);
            before.remove_ensures(k);
            assert forall|j: int|
                0 <= j < total && !own.visited@[j] && #[trigger] own.parent@[j] != usize::MAX
                    && j != node.index implies open_has(own.open@, j) by {
                let m = choose|m: int|
                    0 <= m < before.len() && (#[trigger] before[m]).index == j;
                if m < k {
                    assert(own.open@[m].index == j);
                } else if m > k {
                    assert(own.open@[m - 1].index == j);
                }
            }
        }
        if own.visited[cur] {
            continue;
        }

        // Finalize `cur`.
        let ghost visited_before = own.visited@;
        own.visited[cur] = true;
        proof {
            own.rank@ = own.rank@.insert(cur as int, own.num_visited as int);
            lemma_count_trues_update(visited_before, cur as int);
            lemma_count_trues_le(own.visited@);
        }
        own.num_visited = own.num_visited + 1;
        proof {
            assert forall|i: int|
                0 <= i < total && #[trigger] own.parent@[i] != usize::MAX implies own.link_ok(
                i,
                *grid,
                *field_config,
                *robot_config,
                movement_mode,
                cell_int(seed_target),
                seed_tol as int,
            ) by {
                assert(old(own).link_ok(
                    i,
                    *grid,
                    *field_config,
                    *robot_config,
                    movement_mode,
                    cell_int(seed_target),
                    seed_tol as int,
                ));
            }
        }
        let cell = from_index(cur, cols);
        proof {
            crate::grid::lemma_from_index_in_bounds(cur as int, rows as int, cols as int);
        }
        return Some((cur, cell));
    }
    None
}

/// Takes one expansion step: finalizes the next pending cell, tests it
/// against the side's goal region and against the other side's finalized
/// set, and otherwise relaxes its admissible neighbours, recording
/// off-grid and slope-rejected ones into the blocked set. Emits one
/// snapshot per finalized cell.
#[verifier::loop_isolation(false)]
#[verifier::rlimit(100)]
fn expand_side<O: StepObserver>(
    grid: &Grid,
    field_config: &FieldConfig,
    robot_config: &RobotConfig,
    movement_mode: MovementMode,
    dirs: &Vec<(isize, isize)>,
    cost_map: Option<&Grid>,
    own: &mut SideState,
    other_visited: &Vec<bool>,
    other_open: &Vec<QueueNode>,
    seed_target: (usize, usize),
    seed_tol: usize,
    goal_target: (usize, usize),
    goal_tol: usize,
    heur_target: (usize, usize),
    visited_union: &mut Vec<bool>,
    visited_coords: &mut Vec<(usize, usize)>,
    blocked: &mut Vec<(isize, isize)>,
    on_step: &mut O,
    step_index: &mut usize,
    own_open_first: bool,
) -> (outcome: ExpandOutcome)
    requires
        grid.wf(),
        grid.values_in(-VAL_LIMIT as int, VAL_LIMIT as int),
        field_config.wf(),
        robot_config.wf(),
        cm_ok(cm_view(cost_map), *grid),
        dirs_match(dirs@, movement_mode),
        grid.rows >= 1,
        grid.cols >= 1,
        old(own).inv(
            *grid,
            *field_config,
            *robot_config,
            movement_mode,
            cell_int(seed_target),
            seed_tol as int,
        ),
        old(own).open@.len() > 0,
        other_visited@.len() == grid.rows * grid.cols,
        seed_target.0 < grid.rows && seed_target.1 < grid.cols,
        goal_target.0 < grid.rows && goal_target.1 < grid.cols,
        heur_target.0 < grid.rows && heur_target.1 < grid.cols,
        seed_tol <= DIM_LIMIT,
        goal_tol <= DIM_LIMIT,
        old(visited_union)@.len() == grid.rows * grid.cols,
        blocked_ok(*grid, *field_config, *robot_config, movement_mode, old(blocked)@),
    ensures
        final(own).inv(
            *grid,
            *field_config,
            *robot_config,
            movement_mode,
            cell_int(seed_target),
            seed_tol as int,
        ),
        blocked_ok(*grid, *field_config, *robot_config, movement_mode, final(blocked)@),
        final(visited_union)@.len() == grid.rows * grid.cols,
        forall|i: int|
            0 <= i < grid.rows * grid.cols && old(own).parent@[i] == i
                ==> final(own).parent@[i] == i,
        forall|i: int|
            0 <= i < grid.rows * grid.cols && old(own).parent@[i] != usize::MAX
                ==> #[trigger] final(own).parent@[i] != usize::MAX,
        old(own).num_visited <= final(own).num_visited <= old(own).num_visited + 1,
        match outcome {
            ExpandOutcome::Stepped => final(own).num_visited == old(own).num_visited + 1
                && (within_cost_budget(*grid) && old(own).closed_frontier(
                *grid,
                *field_config,
                *robot_config,
                movement_mode,
            ) ==> final(own).closed_frontier(
                *grid,
                *field_config,
                *robot_config,
                movement_mode,
            )) && forall|j: int|
                0 <= j < grid.rows * grid.cols && #[trigger] final(own).visited@[j] && !old(
                    own,
                ).visited@[j] ==> !in_goal_region(
                    cell_of(j, grid.cols as int),
                    cell_int(goal_target),
                    goal_tol as int,
                    grid.rows as int,
                    grid.cols as int,
                ) && !other_visited@[j],
            ExpandOutcome::Exhausted => final(own).open@.len() == 0 && final(own).num_visited
                == old(own).num_visited && final(own).visited@ == old(own).visited@
                && (within_cost_budget(*grid) && old(own).closed_frontier(
                *grid,
                *field_config,
                *robot_config,
                movement_mode,
            ) ==> final(own).closed_frontier(
                *grid,
                *field_config,
                *robot_config,
                movement_mode,
            )),
            ExpandOutcome::Meeting(m) => (m as int) < grid.rows * grid.cols
                && final(own).visited@[m as int] && (in_goal_region(
                cell_of(m as int, grid.cols as int),
                cell_int(goal_target),
                goal_tol as int,
                grid.rows as int,
                grid.cols as int,
            ) || other_visited@[m as int]),
        },
{
    let ghost total = grid.rows * grid.cols;
    let cols = grid.cols;
    let rows = grid.rows;
    proof {
        grid.lemma_area_fits();
    }
    let ghost pre = *own;
    let popped = pop_and_finalize(
        grid,
        field_config,
        robot_config,
        movement_mode,
        own,
        seed_target,
        seed_tol,
    );
    let (cur, cell) = match popped {
        None => {
            return ExpandOutcome::Exhausted;
        },
        Some(p) => p,
    };

    // Track the union of both sides' finalized cells, for snapshots.
    if !visited_union[cur] {
        visited_union[cur] = true;
        visited_coords.push(cell);
    }

    // A cell inside the goal region ends the search.
    if in_goal_region_exec(cell, goal_target, goal_tol, rows, cols) {
        if on_step.active() {
            let buffer = if own_open_first {
                open_cells(&own.open, other_open, cols)
            } else {
                open_cells(other_open, &own.open, cols)
            };
            crate::messaging::emit_step(
                on_step,
                *step_index,
                cell,
                visited_coords,
                &buffer,
                blocked,
                true,
            );
        }
        return ExpandOutcome::Meeting(cur);
    }

    // So does a cell the other side has already finalized.
    if other_visited[cur] {
        if on_step.active() {
            let buffer = if own_open_first {
                open_cells(&own.open, other_open, cols)
            } else {
                open_cells(other_open, &own.open, cols)
            };
            crate::messaging::emit_step(
                on_step,
                *step_index,
                cell,
                visited_coords,
                &buffer,
                blocked,
                true,
            );
        }
        return ExpandOutcome::Meeting(cur);
    }

    // Relax the admissible neighbours of `cur`.
    let g_cur: u64 = own.g_score[cur];
    let ghost mid = *own;
    relax_neighbors(
        grid,
        field_config,
        robot_config,
        movement_mode,
        dirs,
        cost_map,
        own,
        cell,
        cur,
        g_cur,
        heur_target,
        seed_target,
        seed_tol,
        blocked,
    );
    proof {
        if within_cost_budget(*grid) && pre.closed_frontier(
            *grid,
            *field_config,
            *robot_config,
            movement_mode,
        ) {
            assert forall|i: int, j: int|
                0 <= i < total && 0 <= j < total && own.visited@[i] && #[trigger] edge_ok(
                    *grid,
                    *field_config,
                    *robot_config,
                    movement_mode,
                    cell_of(i, cols as int),
                    cell_of(j, cols as int),
                ) && !own.visited@[j] implies own.parent@[j] != usize::MAX by {
                if i == cur {
                    assert(cell_of(i, cols as int) == cell_int(cell));
                } else {
                    assert(pre.visited@[i]);
                    assert(!pre.visited@[j]);
                    assert(pre.parent@[j] != usize::MAX);
                    assert(mid.parent@[j] != usize::MAX);
                }
            }
        }
    }

    // One snapshot per finalized, non-terminating cell.
    if on_step.active() {
        let buffer = if own_open_first {
            open_cells(&own.open, other_open, cols)
        } else {
            open_cells(other_open, &own.open, cols)
        };
        crate::messaging::emit_step(
            on_step,
            *step_index,
            cell,
            visited_coords,
            &buffer,
            blocked,
            false,
        );
    }
    // The step counter saturates rather than wrapping around.
    if *step_index < usize::MAX {
        *step_index = *step_index + 1;
    }
    ExpandOutcome::Stepped
}

/// With pointwise no-cheaper multipliers, no path gets cheaper: the total
/// path cost is monotone in the cost map.
pub proof fn lemma_path_cost_monotone(cm1: Grid, cm2: Grid, path: Seq<(usize, usize)>)
    requires
        cm1.rows == cm2.rows,
        cm1.cols == cm2.cols,
        forall|i: int|
            0 <= i < path.len() ==> in_bounds_cell(
                cm1.rows as int,
                cm1.cols as int,
                cell_int(#[trigger] path[i]),
            ),
        forall|r: int, c: int|
            0 <= r < cm1.rows && 0 <= c < cm1.cols
                ==> #[trigger] cm1.at(r, c) <= #[trigger] cm2.at(r, c),
        cm1.values_in(0, VAL_LIMIT as int),
    ensures
        path_cost_spec(Some(cm1), path) <= path_cost_spec(Some(cm2), path),
    decreases path.len(),
{
    if path.len() > 1 {
        let a = path[path.len() - 2];
        let b = path[path.len() - 1];
        let d = (b.0 - a.0 as int, b.1 - a.1 as int);
        lemma_path_cost_monotone(cm1, cm2, path.drop_last());
        let m1 = cm1.at(b.0 as int, b.1 as int);
        let m2 = cm2.at(b.0 as int, b.1 as int);
        assert(base_step(d) * m1 <= base_step(d) * m2) by (nonlinear_arith)
            requires m1 <= m2, base_step(d) >= 0
        ;
        assert((base_step(d) * m1) / (SCALE as int) <= (base_step(d) * m2) / (SCALE as int))
            by (nonlinear_arith)
            requires base_step(d) * m1 <= base_step(d) * m2, SCALE >= 1
        ;
    }
}

/// Increasing the slope-penalty weight, with everything else unchanged,
/// never decreases the cost of any path: the cost model is pointwise
/// monotone in the weight, and path costs are monotone in the cost map.
pub proof fn lemma_path_cost_monotone_in_weight(
    hm: Grid,
    fc: FieldConfig,
    rc1: RobotConfig,
    rc2: RobotConfig,
    cm1: Grid,
    cm2: Grid,
    path: Seq<(usize, usize)>,
)
    requires
        rc1.max_slope_tan == rc2.max_slope_tan,
        rc1.slope_cost_weight <= rc2.slope_cost_weight,
        cm1.rows == hm.rows && cm1.cols == hm.cols,
        cm2.rows == hm.rows && cm2.cols == hm.cols,
        cm1.values_in(0, VAL_LIMIT as int),
        forall|r: int, c: int|
            0 <= r < hm.rows && 0 <= c < hm.cols
                ==> #[trigger] cm1.at(r, c) == crate::convert::cost_cell(hm, fc, rc1, r, c),
        forall|r: int, c: int|
            0 <= r < hm.rows && 0 <= c < hm.cols
                ==> #[trigger] cm2.at(r, c) == crate::convert::cost_cell(hm, fc, rc2, r, c),
        forall|i: int|
            0 <= i < path.len() ==> in_bounds_cell(
                hm.rows as int,
                hm.cols as int,
                cell_int(#[trigger] path[i]),
            ),
    ensures
        path_cost_spec(Some(cm1), path) <= path_cost_spec(Some(cm2), path),
{
    assert forall|r: int, c: int|
        0 <= r < cm1.rows && 0 <= c < cm1.cols
            implies #[trigger] cm1.at(r, c) <= #[trigger] cm2.at(r, c) by {
        crate::convert::lemma_cost_cell_monotone_in_weight(hm, fc, rc1, rc2, r, c);
    }
    lemma_path_cost_monotone(cm1, cm2, path);
}

/// Admissible edges are two-way: the offset set is closed under negation
/// and the slope rule reads only the absolute height difference.
proof fn lemma_edge_ok_symmetric(
    g: Grid,
    fc: FieldConfig,
    rc: RobotConfig,
    mode: MovementMode,
    a: (int, int),
    b: (int, int),
)
    requires
        edge_ok(g, fc, rc, mode, a, b),
    ensures
        edge_ok(g, fc, rc, mode, b, a),
{
    reveal(edge_ok);
    crate::config::lemma_directions_symmetric(mode, (b.0 - a.0, b.1 - a.1));
    assert((a.0 - b.0, a.1 - b.1) == (-(b.0 - a.0), -(b.1 - a.1)));
}

/// Every consecutive pair of path cells is joined by an admissible edge of
/// the movement mode.
pub open spec fn valid_step_path(
    g: Grid,
    fc: FieldConfig,
    rc: RobotConfig,
    mode: MovementMode,
    path: Seq<(usize, usize)>,
) -> bool {
    forall|i: int|
        0 <= i < path.len() - 1 ==> edge_ok(
            g,
            fc,
            rc,
            mode,
            cell_int(#[trigger] path[i]),
            cell_int(path[i + 1]),
        )
}

/// The effective goal tolerance of a search: the configured tolerance for
/// the bidirectional variant, the exact destination otherwise.
pub open spec fn effective_tolerance(rc: RobotConfig, bidirectional: bool) -> int {
    if bidirectional {
        rc.end_tolerance_px as int
    } else {
        0
    }
}

/// Every cell of the path lies inside the grid.
pub open spec fn path_in_bounds(g: Grid, path: Seq<(usize, usize)>) -> bool {
    forall|i: int|
        0 <= i < path.len() ==> in_bounds_cell(
            g.rows as int,
            g.cols as int,
            cell_int(#[trigger] path[i]),
        )
}

/// A fresh, empty search side over `total` cells: nothing visited, no
/// parent links, an empty queue, and every cost at infinity.
fn new_side(total: usize) -> (s: SideState)
    ensures
        s.open@.len() == 0,
        s.g_score@.len() == total,
        s.parent@.len() == total,
        s.visited@.len() == total,
        s.num_visited == 0,
        forall|i: int| 0 <= i < total ==> #[trigger] s.parent@[i] == usize::MAX,
        forall|i: int| 0 <= i < total ==> !(#[trigger] s.visited@[i]),
        forall|i: int| 0 <= i < total ==> #[trigger] s.g_score@[i] == COST_INF,
{
    let s = SideState {
        open: Vec::new(),
        g_score: vec![COST_INF; total],
        parent: vec![usize::MAX; total],
        visited: vec![false; total],
        num_visited: 0,
        rank: Ghost(Map::empty()),
    };
    proof {
        lemma_count_trues_zero(s.visited@);
    }
    s
}

/// Seeds `cell` into a side: zero cost, a self parent link, and one open
/// entry keyed by the heuristic towards `heur_target`.
fn seed_cell(
    grid: &Grid,
    field_config: &FieldConfig,
    robot_config: &RobotConfig,
    movement_mode: MovementMode,
    own: &mut SideState,
    cell: (usize, usize),
    seed_target: (usize, usize),
    seed_tol: usize,
    heur_target: (usize, usize),
)
    requires
        grid.wf(),
        robot_config.wf(),
        old(own).inv(
            *grid,
            *field_config,
            *robot_config,
            movement_mode,
            cell_int(seed_target),
            seed_tol as int,
        ),
        cell.0 < grid.rows,
        cell.1 < grid.cols,
        heur_target.0 < grid.rows && heur_target.1 < grid.cols,
        in_goal_region(
            cell_int(cell),
            cell_int(seed_target),
            seed_tol as int,
            grid.rows as int,
            grid.cols as int,
        ),
    ensures
        final(own).inv(
            *grid,
            *field_config,
            *robot_config,
            movement_mode,
            cell_int(seed_target),
            seed_tol as int,
        ),
        final(own).visited@ == old(own).visited@,
        final(own).num_visited == old(own).num_visited,
        final(own).parent@ == old(own).parent@.update(
            (cell.0 * grid.cols + cell.1) as int,
            (cell.0 * grid.cols + cell.1) as usize,
        ),
        final(own).open@.len() == old(own).open@.len() + 1,
{
    let ghost cols = grid.cols as int;
    proof {
        grid.lemma_area_fits();
        lemma_flat_index_bounds(cell.0 as int, cell.1 as int, grid.rows as int, cols);
        lemma_cell_of_index(cell.0 as int, cell.1 as int, cols);
    }
    let idx = to_index(cell.0, cell.1, grid.cols);
    let ghost pre = *own;
    own.g_score[idx] = 0;
    own.parent[idx] = idx;
    let h = remaining_path(robot_config, cell.0, cell.1, heur_target);
    own.open.push(QueueNode { f_cost: h, index: idx });
    proof {
        let total = grid.rows * grid.cols;
        assert forall|i: int|
            0 <= i < total && #[trigger] own.parent@[i] != usize::MAX implies own.link_ok(
            i,
            *grid,
            *field_config,
            *robot_config,
            movement_mode,
            cell_int(seed_target),
            seed_tol as int,
        ) by {
            if i == idx {
                assert(cell_of(i, cols) == cell_int(cell));
            } else {
                assert(pre.parent@[i] != usize::MAX);
                assert(pre.link_ok(
                    i,
                    *grid,
                    *field_config,
                    *robot_config,
                    movement_mode,
                    cell_int(seed_target),
                    seed_tol as int,
                ));
                if pre.parent@[i] == i {
                } else {
                    assert(own.g_score@[i] == pre.g_score@[i]);
                }
            }
        }
        assert forall|j: int|
            0 <= j < grid.rows * grid.cols && !own.visited@[j] && #[trigger] own.parent@[j]
                != usize::MAX implies open_has(own.open@, j) by {
            if j == idx {
                assert(own.open@[own.open@.len() - 1].index == j);
            } else {
                assert(pre.parent@[j] != usize::MAX);
                let k = choose|k: int|
                    0 <= k < pre.open@.len() && (#[trigger] pre.open@[k]).index == j;
                assert(own.open@[k].index == j);
            }
        }
    }
}

/// Walks the forward parent chain from the meeting cell back to the start
/// and returns the path from the start to the meeting cell.
#[verifier::loop_isolation(false)]
#[verifier::rlimit(100)]
fn walk_forward(
    fwd: &SideState,
    grid: &Grid,
    field_config: &FieldConfig,
    robot_config: &RobotConfig,
    movement_mode: MovementMode,
    start: (usize, usize),
    start_idx: usize,
    m: usize,
) -> (p: Vec<(usize, usize)>)
    requires
        grid.wf(),
        grid.rows >= 1,
        grid.cols >= 1,
        fwd.inv(*grid, *field_config, *robot_config, movement_mode, cell_int(start), 0),
        start.0 < grid.rows,
        start.1 < grid.cols,
        start_idx == start.0 * grid.cols + start.1,
        (m as int) < grid.rows * grid.cols,
        m == start_idx || fwd.visited@[m as int],
    ensures
        p@.len() >= 1,
        p@[0] == start,
        cell_int(p@.last()) == cell_of(m as int, grid.cols as int),
        valid_step_path(*grid, *field_config, *robot_config, movement_mode, p@),
        path_in_bounds(*grid, p@),
{
    let ghost total = grid.rows * grid.cols;
    let ghost cols_int = grid.cols as int;
    let cols = grid.cols;
    proof {
        grid.lemma_area_fits();
        lemma_flat_index_bounds(start.0 as int, start.1 as int, grid.rows as int, cols_int);
        lemma_cell_of_index(start.0 as int, start.1 as int, cols_int);
    }
    let mut chain: Vec<(usize, usize)> = Vec::new();
    let mut node_idx: usize = m;
    while node_idx != start_idx
        invariant
            (node_idx as int) < total,
            node_idx == start_idx || fwd.visited@[node_idx as int],
            chain@.len() == 0 ==> node_idx == m,
            chain@.len() > 0 ==> cell_int(chain@[0]) == cell_of(m as int, cols_int),
            chain@.len() > 0 ==> edge_ok(
                *grid,
                *field_config,
                *robot_config,
                movement_mode,
                cell_of(node_idx as int, cols_int),
                cell_int(chain@.last()),
            ),
            forall|k: int|
                0 <= k < chain@.len() - 1 ==> edge_ok(
                    *grid,
                    *field_config,
                    *robot_config,
                    movement_mode,
                    cell_int(#[trigger] chain@[k + 1]),
                    cell_int(chain@[k]),
                ),
            forall|k: int|
                0 <= k < chain@.len() ==> in_bounds_cell(
                    grid.rows as int,
                    grid.cols as int,
                    cell_int(#[trigger] chain@[k]),
                ),
        decreases (if fwd.visited@[node_idx as int] {
            fwd.rank@[node_idx as int] + 1
        } else {
            0int
        }),
    {
        proof {
            crate::grid::lemma_from_index_in_bounds(
                node_idx as int,
                grid.rows as int,
                cols_int,
            );
        }
        let cellv = from_index(node_idx, cols);
        chain.push(cellv);
        let parent = fwd.parent[node_idx];
        proof {
            assert(fwd.visited@[node_idx as int]);
            assert(fwd.parent@[node_idx as int] != usize::MAX);
            assert(fwd.link_ok(
                node_idx as int,
                *grid,
                *field_config,
                *robot_config,
                movement_mode,
                cell_int(start),
                0,
            ));
            if parent == node_idx {
                // A forward seed is exactly the start cell.
                reveal(in_goal_region);
                let c = cell_of(node_idx as int, cols_int);
                let s = cell_int(start);
                assert((c.0 - s.0) * (c.0 - s.0) + (c.1 - s.1) * (c.1 - s.1) <= 0);
                assert((c.0 - s.0) * (c.0 - s.0) >= 0 && (c.1 - s.1) * (c.1 - s.1) >= 0)
                    by (nonlinear_arith)
                ;
                assert((c.0 - s.0) * (c.0 - s.0) == 0 ==> c.0 == s.0) by (nonlinear_arith);
                assert((c.1 - s.1) * (c.1 - s.1) == 0 ==> c.1 == s.1) by (nonlinear_arith);
                assert(c == s);
                assert((node_idx as int) / cols_int * cols_int + (node_idx as int) % cols_int
                    == node_idx as int) by (nonlinear_arith)
                    requires cols_int > 0, node_idx >= 0
                ;
                assert(node_idx == start_idx);
                assert(false);
            }
        }
        node_idx = parent;
    }
    let mut p: Vec<(usize, usize)> = Vec::new();
    p.push(start);
    let mut i: usize = chain.len();
    proof {
        assert(cell_int(p@.last()) == cell_of(start_idx as int, cols_int));
    }
    while i > 0
        invariant
            i <= chain@.len(),
            p@.len() == 1 + chain@.len() - i,
            p@[0] == start,
            forall|t: int| 1 <= t < p@.len() ==> #[trigger] p@[t] == chain@[chain@.len() - t],
            valid_step_path(*grid, *field_config, *robot_config, movement_mode, p@),
            path_in_bounds(*grid, p@),
            cell_int(p@.last()) == (if i == chain@.len() {
                cell_of(start_idx as int, cols_int)
            } else {
                cell_int(chain@[i as int])
            }),
            chain@.len() > 0 ==> edge_ok(
                *grid,
                *field_config,
                *robot_config,
                movement_mode,
                cell_of(start_idx as int, cols_int),
                cell_int(chain@.last()),
            ),
        decreases i,
    {
        i = i - 1;
        let ghost oldp = p@;
        p.push(chain[i]);
        proof {
            assert forall|t: int|
                0 <= t < p@.len() - 1 implies edge_ok(
                *grid,
                *field_config,
                *robot_config,
                movement_mode,
                cell_int(#[trigger] p@[t]),
                cell_int(p@[t + 1]),
            ) by {
                if t < oldp.len() - 1 {
                    assert(p@[t] == oldp[t] && p@[t + 1] == oldp[t + 1]);
                } else {
                    assert(p@[t] == oldp.last() && p@[t + 1] == chain@[i as int]);
                    if i + 1 == chain@.len() {
                        assert(cell_int(oldp.last()) == cell_of(start_idx as int, cols_int));
                    } else {
                        assert(cell_int(oldp.last()) == cell_int(chain@[i + 1]));
                    }
                }
            }
        }
    }
    proof {
        if chain@.len() == 0 {
            assert(cell_int(p@.last()) == cell_of(start_idx as int, cols_int));
            assert(m == start_idx);
        } else {
            assert(p@.last() == chain@[chain@.len() - (p@.len() - 1)]);
            assert(cell_int(chain@[0]) == cell_of(m as int, cols_int));
        }
    }
    p
}

/// Extends the path along the backward parent chain from the meeting cell
/// to the backward seed that was reached; the final cell always lies in
/// the goal-tolerance region.
#[verifier::rlimit(100)]
fn walk_backward(
    bwd: &SideState,
    grid: &Grid,
    field_config: &FieldConfig,
    robot_config: &RobotConfig,
    movement_mode: MovementMode,
    end: (usize, usize),
    efftol: usize,
    path: &mut Vec<(usize, usize)>,
    m: usize,
)
    requires
        grid.wf(),
        grid.rows >= 1,
        grid.cols >= 1,
        bwd.inv(
            *grid,
            *field_config,
            *robot_config,
            movement_mode,
            cell_int(end),
            efftol as int,
        ),
        (m as int) < grid.rows * grid.cols,
        bwd.visited@[m as int] || in_goal_region(
            cell_of(m as int, grid.cols as int),
            cell_int(end),
            efftol as int,
            grid.rows as int,
            grid.cols as int,
        ),
        forall|i: int|
            0 <= i < grid.rows * grid.cols && in_goal_region(
                cell_of(i, grid.cols as int),
                cell_int(end),
                efftol as int,
                grid.rows as int,
                grid.cols as int,
            ) ==> bwd.parent@[i] == i || #[trigger] bwd.parent@[i] == usize::MAX,
        old(path)@.len() >= 1,
        cell_int(old(path)@.last()) == cell_of(m as int, grid.cols as int),
        valid_step_path(*grid, *field_config, *robot_config, movement_mode, old(path)@),
        path_in_bounds(*grid, old(path)@),
    ensures
        final(path)@.len() >= old(path)@.len(),
        final(path)@[0] == old(path)@[0],
        valid_step_path(*grid, *field_config, *robot_config, movement_mode, final(path)@),
        path_in_bounds(*grid, final(path)@),
        in_goal_region(
            cell_int(final(path)@.last()),
            cell_int(end),
            efftol as int,
            grid.rows as int,
            grid.cols as int,
        ),
{
    let ghost total = grid.rows * grid.cols;
    let ghost cols_int = grid.cols as int;
    let cols = grid.cols;
    proof {
        grid.lemma_area_fits();
    }
    let mut node_idx: usize = m;
    loop
        invariant
            grid.wf(),
            grid.rows >= 1,
            grid.cols >= 1,
            bwd.inv(
                *grid,
                *field_config,
                *robot_config,
                movement_mode,
                cell_int(end),
                efftol as int,
            ),
            total == grid.rows * grid.cols,
            cols_int == grid.cols as int,
            cols == grid.cols,
            forall|i: int|
                0 <= i < total && in_goal_region(
                    cell_of(i, cols_int),
                    cell_int(end),
                    efftol as int,
                    grid.rows as int,
                    grid.cols as int,
                ) ==> bwd.parent@[i] == i || #[trigger] bwd.parent@[i] == usize::MAX,
            (node_idx as int) < total,
            bwd.visited@[node_idx as int] || in_goal_region(
                cell_of(node_idx as int, cols_int),
                cell_int(end),
                efftol as int,
                grid.rows as int,
                grid.cols as int,
            ),
            path@.len() >= old(path)@.len(),
            path@.len() >= 1,
            path@[0] == old(path)@[0],
            cell_int(path@.last()) == cell_of(node_idx as int, cols_int),
            valid_step_path(*grid, *field_config, *robot_config, movement_mode, path@),
            path_in_bounds(*grid, path@),
        ensures
            bwd.parent@[node_idx as int] == usize::MAX || bwd.parent@[node_idx as int]
                == node_idx,
            (node_idx as int) < total,
            bwd.visited@[node_idx as int] || in_goal_region(
                cell_of(node_idx as int, cols_int),
                cell_int(end),
                efftol as int,
                grid.rows as int,
                grid.cols as int,
            ),
            path@.len() >= old(path)@.len(),
            path@.len() >= 1,
            path@[0] == old(path)@[0],
            cell_int(path@.last()) == cell_of(node_idx as int, cols_int),
            valid_step_path(*grid, *field_config, *robot_config, movement_mode, path@),
            path_in_bounds(*grid, path@),
        decreases (if bwd.visited@[node_idx as int] {
            bwd.rank@[node_idx as int] + 1
        } else {
            0int
        }),
    {
        let parent = bwd.parent[node_idx];
        if parent == usize::MAX || parent == node_idx {
            break;
        }
        proof {
            assert(bwd.visited@[node_idx as int]);
            assert(bwd.link_ok(
                node_idx as int,
                *grid,
                *field_config,
                *robot_config,
                movement_mode,
                cell_int(end),
                efftol as int,
            ));
            lemma_edge_ok_symmetric(
                *grid,
                *field_config,
                *robot_config,
                movement_mode,
                cell_of(parent as int, cols_int),
                cell_of(node_idx as int, cols_int),
            );
            crate::grid::lemma_from_index_in_bounds(
                parent as int,
                grid.rows as int,
                cols_int,
            );
            reveal(edge_ok);
        }
        node_idx = parent;
        let ghost oldp = path@;
        let cellv = from_index(node_idx, cols);
        path.push(cellv);
        proof {
            assert forall|t: int|
                0 <= t < path@.len() - 1 implies edge_ok(
                *grid,
                *field_config,
                *robot_config,
                movement_mode,
                cell_int(#[trigger] path@[t]),
                cell_int(path@[t + 1]),
            ) by {
                if t < oldp.len() - 1 {
                    assert(path@[t] == oldp[t] && path@[t + 1] == oldp[t + 1]);
                } else {
                    assert(path@[t] == oldp.last());
                }
            }
        }
    }
    proof {
        let p = bwd.parent@[node_idx as int];
        if p == node_idx {
            assert(bwd.link_ok(
                node_idx as int,
                *grid,
                *field_config,
                *robot_config,
                movement_mode,
                cell_int(end),
                efftol as int,
            ));
        } else {
            // The chain stopped on a missing link, so this cell was never
            // finalized by the backward side and must itself be a goal.
            assert(!bwd.visited@[node_idx as int]);
        }
    }
}

/// A path that starts inside a frontier-closed, fully drained search side
/// can never leave it: every cell of the path is finalized.
proof fn lemma_path_trapped(
    s: SideState,
    grid: Grid,
    fc: FieldConfig,
    rc: RobotConfig,
    mode: MovementMode,
    q: Seq<(usize, usize)>,
)
    requires
        grid.cols >= 1,
        s.visited@.len() == grid.rows * grid.cols,
        s.parent@.len() == grid.rows * grid.cols,
        s.closed_frontier(grid, fc, rc, mode),
        forall|j: int|
            0 <= j < grid.rows * grid.cols && !s.visited@[j] ==> #[trigger] s.parent@[j]
                == usize::MAX,
        q.len() >= 1,
        valid_step_path(grid, fc, rc, mode, q),
        path_in_bounds(grid, q),
        s.visited@[q[0].0 * grid.cols + q[0].1],
    ensures
        s.visited@[q.last().0 * grid.cols + q.last().1],
    decreases q.len(),
{
    if q.len() > 1 {
        let a = q[0];
        let b = q[1];
        let ai = a.0 * grid.cols + a.1;
        let bi = b.0 * grid.cols + b.1;
        lemma_flat_index_bounds(a.0 as int, a.1 as int, grid.rows as int, grid.cols as int);
        lemma_flat_index_bounds(b.0 as int, b.1 as int, grid.rows as int, grid.cols as int);
        lemma_cell_of_index(a.0 as int, a.1 as int, grid.cols as int);
        lemma_cell_of_index(b.0 as int, b.1 as int, grid.cols as int);
        assert(edge_ok(grid, fc, rc, mode, cell_of(ai, grid.cols as int), cell_of(bi, grid.cols as int)));
        assert(s.visited@[bi]);
        let q2 = q.subrange(1, q.len() as int);
        assert(valid_step_path(grid, fc, rc, mode, q2)) by {
            assert forall|i: int|
                0 <= i < q2.len() - 1 implies edge_ok(
                grid,
                fc,
                rc,
                mode,
                cell_int(#[trigger] q2[i]),
                cell_int(q2[i + 1]),
            ) by {
                assert(q2[i] == q[i + 1] && q2[i + 1] == q[i + 2]);
            }
        }
        assert(path_in_bounds(grid, q2)) by {
            assert forall|i: int|
                0 <= i < q2.len() implies in_bounds_cell(
                grid.rows as int,
                grid.cols as int,
                cell_int(#[trigger] q2[i]),
            ) by {
                assert(q2[i] == q[i + 1]);
            }
        }
        lemma_path_trapped(s, grid, fc, rc, mode, q2);
        assert(q2.last() == q.last());
    }
}

/// The mirror image: a path that ends inside a frontier-closed, fully
/// drained search side is entirely finalized, because admissible edges
/// are two-way.
proof fn lemma_path_trapped_reverse(
    s: SideState,
    grid: Grid,
    fc: FieldConfig,
    rc: RobotConfig,
    mode: MovementMode,
    q: Seq<(usize, usize)>,
)
    requires
        grid.cols >= 1,
        s.visited@.len() == grid.rows * grid.cols,
        s.parent@.len() == grid.rows * grid.cols,
        s.closed_frontier(grid, fc, rc, mode),
        forall|j: int|
            0 <= j < grid.rows * grid.cols && !s.visited@[j] ==> #[trigger] s.parent@[j]
                == usize::MAX,
        q.len() >= 1,
        valid_step_path(grid, fc, rc, mode, q),
        path_in_bounds(grid, q),
        s.visited@[q.last().0 * grid.cols + q.last().1],
    ensures
        s.visited@[q[0].0 * grid.cols + q[0].1],
    decreases q.len(),
{
    if q.len() > 1 {
        let a = q[q.len() - 2];
        let b = q[q.len() - 1];
        let ai = a.0 * grid.cols + a.1;
        let bi = b.0 * grid.cols + b.1;
        lemma_flat_index_bounds(a.0 as int, a.1 as int, grid.rows as int, grid.cols as int);
        lemma_flat_index_bounds(b.0 as int, b.1 as int, grid.rows as int, grid.cols as int);
        lemma_cell_of_index(a.0 as int, a.1 as int, grid.cols as int);
        lemma_cell_of_index(b.0 as int, b.1 as int, grid.cols as int);
        lemma_edge_ok_symmetric(grid, fc, rc, mode, cell_int(a), cell_int(b));
        assert(edge_ok(grid, fc, rc, mode, cell_of(bi, grid.cols as int), cell_of(ai, grid.cols as int)));
        assert(s.visited@[ai]);
        let q2 = q.drop_last();
        assert(valid_step_path(grid, fc, rc, mode, q2)) by {
            assert forall|i: int|
                0 <= i < q2.len() - 1 implies edge_ok(
                grid,
                fc,
                rc,
                mode,
                cell_int(#[trigger] q2[i]),
                cell_int(q2[i + 1]),
            ) by {
                assert(q2[i] == q[i] && q2[i + 1] == q[i + 1]);
            }
        }
        assert(path_in_bounds(grid, q2)) by {
            assert forall|i: int|
                0 <= i < q2.len() implies in_bounds_cell(
                grid.rows as int,
                grid.cols as int,
                cell_int(#[trigger] q2[i]),
            ) by {
                assert(q2[i] == q[i]);
            }
        }
        assert(q2.last() == a);
        lemma_path_trapped_reverse(s, grid, fc, rc, mode, q2);
        assert(q2[0] == q[0]);
    }
}

/// The one search engine behind both public entry points: weighted A*
/// over the grid, bidirectional (with a goal-tolerance region seeding the
/// backward side) or forward-only.
#[verifier::loop_isolation(false)]
#[verifier::rlimit(100)]
fn search_engine<O: StepObserver>(
    grid: &Grid,
    start: (usize, usize),
    end: (usize, usize),
    movement_mode: MovementMode,
    cost_map: Option<&Grid>,
    field_config: &FieldConfig,
    robot_config: &RobotConfig,
    on_step: &mut O,
    bidirectional: bool,
) -> (r: (Option<Vec<(usize, usize)>>, Vec<(isize, isize)>))
    requires
        grid.wf(),
        grid.values_in(-VAL_LIMIT as int, VAL_LIMIT as int),
        field_config.wf(),
        robot_config.wf(),
        cm_ok(cm_view(cost_map), *grid),
    ensures
        !(start.0 < grid.rows && start.1 < grid.cols && end.0 < grid.rows && end.1 < grid.cols)
            ==> r.0 is None && r.1@.len() == 0,
        (start.0 < grid.rows && start.1 < grid.cols && start == end) ==> (match r.0 {
            Some(p) => p@ == seq![start],
            None => false,
        } && r.1@.len() == 0),
        match r.0 {
            Some(p) => p@.len() >= 1 && p@[0] == start && valid_step_path(
                *grid,
                *field_config,
                *robot_config,
                movement_mode,
                p@,
            ) && path_in_bounds(*grid, p@) && in_goal_region(
                cell_int(p@.last()),
                cell_int(end),
                effective_tolerance(*robot_config, bidirectional),
                grid.rows as int,
                grid.cols as int,
            ),
            None => true,
        },
        (within_cost_budget(*grid) && start.0 < grid.rows && start.1 < grid.cols && end.0
            < grid.rows && end.1 < grid.cols && exists|q: Seq<(usize, usize)>|
            q.len() >= 1 && q[0] == start && #[trigger] valid_step_path(
                *grid,
                *field_config,
                *robot_config,
                movement_mode,
                q,
            ) && path_in_bounds(*grid, q) && in_goal_region(
                cell_int(q.last()),
                cell_int(end),
                effective_tolerance(*robot_config, bidirectional),
                grid.rows as int,
                grid.cols as int,
            )) ==> r.0 is Some,
        blocked_ok(*grid, *field_config, *robot_config, movement_mode, r.1@),
{
    let rows = grid.rows;
    let cols = grid.cols;
    let ghost total = grid.rows * grid.cols;
    let blocked: Vec<(isize, isize)> = Vec::new();

    if !(start.0 < rows && start.1 < cols) {
        return (None, blocked);
    }
    if !(end.0 < rows && end.1 < cols) {
        return (None, blocked);
    }
    if start.0 == end.0 && start.1 == end.1 {
        let mut p: Vec<(usize, usize)> = Vec::new();
        p.push(start);
        proof {
            assert(p@ =~= seq![start]);
            reveal(in_goal_region);
        }
        return (Some(p), blocked);
    }

    let efftol: usize = if bidirectional {
        robot_config.end_tolerance_px
    } else {
        0
    };
    proof {
        grid.lemma_area_fits();
        lemma_flat_index_bounds(start.0 as int, start.1 as int, rows as int, cols as int);
        lemma_flat_index_bounds(end.0 as int, end.1 as int, rows as int, cols as int);
    }
    let total_cells = rows * cols;
    let start_idx = to_index(start.0, start.1, cols);

    // Forward side, seeded from the start cell.
    let mut forward = new_side(total_cells);
    proof {
        lemma_count_trues_zero(forward.visited@);
        assert(forward.inv(
            *grid,
            *field_config,
            *robot_config,
            movement_mode,
            cell_int(start),
            0,
        ));
        reveal(in_goal_region);
        assert(in_goal_region(cell_int(start), cell_int(start), 0, rows as int, cols as int));
    }
    seed_cell(
        grid,
        field_config,
        robot_config,
        movement_mode,
        &mut forward,
        start,
        start,
        0,
        end,
    );

    // Backward side: in the bidirectional variant, seeded from every cell
    // of the goal-tolerance region around the destination.
    let mut backward = new_side(total_cells);
    proof {
        lemma_count_trues_zero(backward.visited@);
        assert(backward.inv(
            *grid,
            *field_config,
            *robot_config,
            movement_mode,
            cell_int(end),
            efftol as int,
        ));
    }
    if bidirectional {
        let r_lo: usize = if end.0 > efftol { end.0 - efftol } else { 0 };
        let r_hi: usize = if end.0 + efftol < rows - 1 { end.0 + efftol } else { rows - 1 };
        let c_lo: usize = if end.1 > efftol { end.1 - efftol } else { 0 };
        let c_hi: usize = if end.1 + efftol < cols - 1 { end.1 + efftol } else { cols - 1 };
        let mut rr: usize = r_lo;
        proof {
            assert forall|a: int, b: int|
                0 <= a < rows && 0 <= b < cols && in_goal_region(
                    (a, b),
                    cell_int(end),
                    efftol as int,
                    rows as int,
                    cols as int,
                ) implies r_lo <= a <= r_hi && c_lo <= b <= c_hi by {
                reveal(in_goal_region);
                assert((a - end.0 as int) * (a - end.0 as int) <= (efftol as int) * (
                efftol as int) ==> -(efftol as int) <= a - end.0 as int <= efftol as int)
                    by (nonlinear_arith)
                ;
                assert((b - end.1 as int) * (b - end.1 as int) <= (efftol as int) * (
                efftol as int) ==> -(efftol as int) <= b - end.1 as int <= efftol as int)
                    by (nonlinear_arith)
                ;
                assert((a - end.0 as int) * (a - end.0 as int) >= 0 && (b - end.1 as int) * (b
                    - end.1 as int) >= 0) by (nonlinear_arith);
            }
        }
        while rr <= r_hi
            invariant
                r_lo <= rr <= r_hi + 1,
                r_hi < rows,
                c_hi < cols,
                forall|j: int| 0 <= j < total ==> !(#[trigger] backward.visited@[j]),
                backward.inv(
                    *grid,
                    *field_config,
                    *robot_config,
                    movement_mode,
                    cell_int(end),
                    efftol as int,
                ),
                forall|a: int, b: int|
                    0 <= a < rows && 0 <= b < cols && a < rr && in_goal_region(
                        (a, b),
                        cell_int(end),
                        efftol as int,
                        rows as int,
                        cols as int,
                    ) ==> backward.parent@[a * cols + b] == (a * cols + b) as usize,
            decreases r_hi + 1 - rr,
        {
            let mut cc: usize = c_lo;
            while cc <= c_hi
                invariant
                    r_lo <= rr <= r_hi,
                    c_lo <= cc <= c_hi + 1,
                    r_hi < rows,
                    c_hi < cols,
                    forall|j: int| 0 <= j < total ==> !(#[trigger] backward.visited@[j]),
                    backward.inv(
                        *grid,
                        *field_config,
                        *robot_config,
                        movement_mode,
                        cell_int(end),
                        efftol as int,
                    ),
                    forall|a: int, b: int|
                        0 <= a < rows && 0 <= b < cols && a < rr && in_goal_region(
                            (a, b),
                            cell_int(end),
                            efftol as int,
                            rows as int,
                            cols as int,
                        ) ==> backward.parent@[a * cols + b] == (a * cols + b) as usize,
                    forall|b: int|
                        0 <= b < cols && b < cc && in_goal_region(
                            (rr as int, b),
                            cell_int(end),
                            efftol as int,
                            rows as int,
                            cols as int,
                        ) ==> backward.parent@[rr as int * cols + b] == (rr as int * cols
                            + b) as usize,
                decreases c_hi + 1 - cc,
            {
                if in_goal_region_exec((rr, cc), end, efftol, rows, cols) {
                    proof {
                        lemma_flat_index_bounds(rr as int, cc as int, rows as int, cols as int);
                    }
                    let ghost pre_parent = backward.parent@;
                    seed_cell(
                        grid,
                        field_config,
                        robot_config,
                        movement_mode,
                        &mut backward,
                        (rr, cc),
                        end,
                        efftol,
                        start,
                    );
                    proof {
                        assert forall|a: int, b: int|
                            0 <= a < rows && 0 <= b < cols && !(a == rr && b == cc)
                            implies backward.parent@[#[trigger] (a * cols + b)] == pre_parent[
                            a * cols + b] by {
                            crate::grid::lemma_flat_index_injective(
                                a,
                                b,
                                rr as int,
                                cc as int,
                                cols as int,
                            );
                            lemma_flat_index_bounds(a, b, rows as int, cols as int);
                        }
                    }
                }
                cc = cc + 1;
            }
            rr = rr + 1;
        }
    }
    proof {
        // Every goal-region cell is now a backward seed (bidirectional)
        // or entirely untouched (forward-only).
        if bidirectional {
            assert forall|i: int|
                0 <= i < total && in_goal_region(
                    cell_of(i, cols as int),
                    cell_int(end),
                    efftol as int,
                    rows as int,
                    cols as int,
                ) implies #[trigger] backward.parent@[i] == i by {
                crate::grid::lemma_from_index_in_bounds(i, rows as int, cols as int);
                let a = i / cols as int;
                let b = i % cols as int;
                assert(a * cols + b == i) by (nonlinear_arith)
                    requires cols > 0, i >= 0, a == i / cols as int, b == i % cols as int
                ;
            }
        }
    }

    let dirs = movement_mode.directions();
    let mut visited_union: Vec<bool> = vec![false; total_cells];
    let mut visited_coords: Vec<(usize, usize)> = Vec::new();
    let mut step_index: usize = 0;
    let mut meet: Option<usize> = None;
    let mut blocked = blocked;

    #[verifier::loop_isolation(true)]
    while !forward.open.is_empty() && (!bidirectional || !backward.open.is_empty())
        invariant_except_break
            meet is None,
            forall|j: int|
                0 <= j < total && #[trigger] forward.visited@[j] ==> !in_goal_region(
                    cell_of(j, cols as int),
                    cell_int(end),
                    efftol as int,
                    rows as int,
                    cols as int,
                ),
            forall|j: int|
                0 <= j < total && #[trigger] backward.visited@[j] ==> !in_goal_region(
                    cell_of(j, cols as int),
                    cell_int(start),
                    0,
                    rows as int,
                    cols as int,
                ),
            within_cost_budget(*grid) ==> forward.closed_frontier(
                *grid,
                *field_config,
                *robot_config,
                movement_mode,
            ),
            within_cost_budget(*grid) ==> backward.closed_frontier(
                *grid,
                *field_config,
                *robot_config,
                movement_mode,
            ),
        invariant
            (start_idx as int) < total,
            forward.parent@[start_idx as int] == start_idx,
            grid.wf(),
            grid.values_in(-VAL_LIMIT as int, VAL_LIMIT as int),
            field_config.wf(),
            robot_config.wf(),
            cm_ok(cm_view(cost_map), *grid),
            rows == grid.rows,
            cols == grid.cols,
            total == grid.rows * grid.cols,
            rows >= 1,
            cols >= 1,
            start.0 < rows && start.1 < cols,
            end.0 < rows && end.1 < cols,
            start_idx == start.0 * cols + start.1,
            efftol <= DIM_LIMIT,
            forward.inv(
                *grid,
                *field_config,
                *robot_config,
                movement_mode,
                cell_int(start),
                0,
            ),
            backward.inv(
                *grid,
                *field_config,
                *robot_config,
                movement_mode,
                cell_int(end),
                efftol as int,
            ),
            bidirectional ==> forall|i: int|
                0 <= i < total && in_goal_region(
                    cell_of(i, cols as int),
                    cell_int(end),
                    efftol as int,
                    rows as int,
                    cols as int,
                ) ==> #[trigger] backward.parent@[i] == i,
            !bidirectional ==> backward.open@.len() == 0,
            !bidirectional ==> forall|i: int|
                0 <= i < total ==> #[trigger] backward.parent@[i] == usize::MAX,
            blocked_ok(*grid, *field_config, *robot_config, movement_mode, blocked@),
            visited_union@.len() == total,
            dirs_match(dirs@, movement_mode),
        ensures
            match meet {
                Some(m) => (m as int) < total && (m == start_idx || forward.visited@[m as int])
                    && (backward.visited@[m as int] || in_goal_region(
                    cell_of(m as int, cols as int),
                    cell_int(end),
                    efftol as int,
                    rows as int,
                    cols as int,
                )),
                None => (forward.open@.len() == 0 || (bidirectional && backward.open@.len()
                    == 0)) && (forall|j: int|
                    0 <= j < total && #[trigger] forward.visited@[j] ==> !in_goal_region(
                        cell_of(j, cols as int),
                        cell_int(end),
                        efftol as int,
                        rows as int,
                        cols as int,
                    )) && (forall|j: int|
                    0 <= j < total && #[trigger] backward.visited@[j] ==> !in_goal_region(
                        cell_of(j, cols as int),
                        cell_int(start),
                        0,
                        rows as int,
                        cols as int,
                    )) && (within_cost_budget(*grid) ==> forward.closed_frontier(
                    *grid,
                    *field_config,
                    *robot_config,
                    movement_mode,
                )) && (within_cost_budget(*grid) ==> backward.closed_frontier(
                    *grid,
                    *field_config,
                    *robot_config,
                    movement_mode,
                )),
            },
        decreases 2 * total - forward.num_visited - backward.num_visited,
            forward.open@.len() + backward.open@.len(),
    {
        // One forward expansion.
        let outcome_f = expand_side(
            grid,
            field_config,
            robot_config,
            movement_mode,
            &dirs,
            cost_map,
            &mut forward,
            &backward.visited,
            &backward.open,
            start,
            0,
            end,
            efftol,
            end,
            &mut visited_union,
            &mut visited_coords,
            &mut blocked,
            on_step,
            &mut step_index,
            true,
        );
        match outcome_f {
            ExpandOutcome::Meeting(mm) => {
                meet = Some(mm);
                break;
            },
            _ => {},
        }

        if !bidirectional {
            continue;
        }
        if backward.open.is_empty() {
            break;
        }

        // One backward expansion.
        let outcome_b = expand_side(
            grid,
            field_config,
            robot_config,
            movement_mode,
            &dirs,
            cost_map,
            &mut backward,
            &forward.visited,
            &forward.open,
            end,
            efftol,
            start,
            0,
            start,
            &mut visited_union,
            &mut visited_coords,
            &mut blocked,
            on_step,
            &mut step_index,
            false,
        );
        match outcome_b {
            ExpandOutcome::Meeting(mm) => {
                proof {
                    if in_goal_region(
                        cell_of(mm as int, cols as int),
                        cell_int(start),
                        0,
                        rows as int,
                        cols as int,
                    ) {
                        // A backward goal hit is exactly the start cell.
                        reveal(in_goal_region);
                        let c = cell_of(mm as int, cols as int);
                        let s = cell_int(start);
                        assert((c.0 - s.0) * (c.0 - s.0) >= 0 && (c.1 - s.1) * (c.1 - s.1)
                            >= 0) by (nonlinear_arith);
                        assert((c.0 - s.0) * (c.0 - s.0) == 0 ==> c.0 == s.0)
                            by (nonlinear_arith);
                        assert((c.1 - s.1) * (c.1 - s.1) == 0 ==> c.1 == s.1)
                            by (nonlinear_arith);
                        assert((mm as int) / (cols as int) * (cols as int) + (mm as int) % (
                        cols as int) == mm as int) by (nonlinear_arith)
                            requires cols > 0, mm >= 0
                        ;
                        assert(mm == start_idx);
                    }
                }
                meet = Some(mm);
                break;
            },
            _ => {},
        }
    }

    match meet {
        None => {
            proof {
                if within_cost_budget(*grid) {
                    assert forall|q: Seq<(usize, usize)>|
                        q.len() >= 1 && q[0] == start && #[trigger] valid_step_path(
                            *grid,
                            *field_config,
                            *robot_config,
                            movement_mode,
                            q,
                        ) && path_in_bounds(*grid, q) && in_goal_region(
                            cell_int(q.last()),
                            cell_int(end),
                            effective_tolerance(*robot_config, bidirectional),
                            rows as int,
                            cols as int,
                        ) implies false by {
                        let z = q.last();
                        let zi = z.0 * cols + z.1;
                        lemma_flat_index_bounds(z.0 as int, z.1 as int, rows as int, cols as int);
                        lemma_cell_of_index(z.0 as int, z.1 as int, cols as int);
                        lemma_cell_of_index(start.0 as int, start.1 as int, cols as int);
                        if forward.open@.len() == 0 {
                            assert forall|j: int|
                                0 <= j < total && !forward.visited@[j]
                                implies #[trigger] forward.parent@[j] == usize::MAX by {
                                if forward.parent@[j] != usize::MAX {
                                    assert(open_has(forward.open@, j));
                                }
                            }
                            assert(forward.visited@[start_idx as int]) by {
                                if !forward.visited@[start_idx as int] {
                                    assert(forward.parent@[start_idx as int] == usize::MAX);
                                }
                            }
                            lemma_path_trapped(
                                forward,
                                *grid,
                                *field_config,
                                *robot_config,
                                movement_mode,
                                q,
                            );
                            assert(forward.visited@[zi]);
                            assert(!in_goal_region(
                                cell_of(zi, cols as int),
                                cell_int(end),
                                efftol as int,
                                rows as int,
                                cols as int,
                            ));
                            assert(false);
                        } else {
                            assert(bidirectional && backward.open@.len() == 0);
                            assert forall|j: int|
                                0 <= j < total && !backward.visited@[j]
                                implies #[trigger] backward.parent@[j] == usize::MAX by {
                                if backward.parent@[j] != usize::MAX {
                                    assert(open_has(backward.open@, j));
                                }
                            }
                            assert(backward.parent@[zi] == zi);
                            assert(backward.visited@[zi]) by {
                                if !backward.visited@[zi] {
                                    assert(backward.parent@[zi] == usize::MAX);
                                }
                            }
                            lemma_path_trapped_reverse(
                                backward,
                                *grid,
                                *field_config,
                                *robot_config,
                                movement_mode,
                                q,
                            );
                            assert(backward.visited@[start_idx as int]);
                            assert(in_goal_region(
                                cell_int(start),
                                cell_int(start),
                                0,
                                rows as int,
                                cols as int,
                            )) by {
                                reveal(in_goal_region);
                            }
                            assert(false);
                        }
                    }
                }
            }
            (None, blocked)
        },
        Some(m) => {
            let mut path = walk_forward(
                &forward,
                grid,
                field_config,
                robot_config,
                movement_mode,
                start,
                start_idx,
                m,
            );
            walk_backward(
                &backward,
                grid,
                field_config,
                robot_config,
                movement_mode,
                end,
                efftol,
                &mut path,
                m,
            );
            (Some(path), blocked)
        },
    }
}

/// Bidirectional weighted A* with a goal-tolerance region: plans a
/// slope-admissible path from `start` towards `end`, accepting any cell
/// within the configured tolerance radius of the destination, and returns
/// the path (when the two frontiers meet) together with the ordered,
/// deduplicated record of rejected neighbour cells.
///
/// Out-of-range endpoints yield no path and no blocked record; a search
/// from a cell to itself yields the single-cell path. Any returned path
/// starts at `start`, moves only along admissible movement-mode edges,
/// and ends inside the goal-tolerance region. On grids within the cost
/// budget the search is also complete: whenever any admissible path into
/// the goal region exists, a path is returned.
pub fn a_star<O: StepObserver>(
    grid: &Grid,
    start: (usize, usize),
    end: (usize, usize),
    movement_mode: MovementMode,
    cost_map: Option<&Grid>,
    field_config: &FieldConfig,
    robot_config: &RobotConfig,
    on_step: &mut O,
) -> (r: (Option<Vec<(usize, usize)>>, Vec<(isize, isize)>))
    requires
        grid.wf(),
        grid.values_in(-VAL_LIMIT as int, VAL_LIMIT as int),
        field_config.wf(),
        robot_config.wf(),
        cm_ok(cm_view(cost_map), *grid),
    ensures
        !(start.0 < grid.rows && start.1 < grid.cols && end.0 < grid.rows && end.1 < grid.cols)
            ==> r.0 is None && r.1@.len() == 0,
        (start.0 < grid.rows && start.1 < grid.cols && start == end) ==> (match r.0 {
            Some(p) => p@ == seq![start],
            None => false,
        } && r.1@.len() == 0),
        match r.0 {
            Some(p) => p@.len() >= 1 && p@[0] == start && valid_step_path(
                *grid,
                *field_config,
                *robot_config,
                movement_mode,
                p@,
            ) && path_in_bounds(*grid, p@) && in_goal_region(
                cell_int(p@.last()),
                cell_int(end),
                robot_config.end_tolerance_px as int,
                grid.rows as int,
                grid.cols as int,
            ),
            None => true,
        },
        (within_cost_budget(*grid) && start.0 < grid.rows && start.1 < grid.cols && end.0
            < grid.rows && end.1 < grid.cols && exists|q: Seq<(usize, usize)>|
            q.len() >= 1 && q[0] == start && #[trigger] valid_step_path(
                *grid,
                *field_config,
                *robot_config,
                movement_mode,
                q,
            ) && path_in_bounds(*grid, q) && in_goal_region(
                cell_int(q.last()),
                cell_int(end),
                robot_config.end_tolerance_px as int,
                grid.rows as int,
                grid.cols as int,
            )) ==> r.0 is Some,
        blocked_ok(*grid, *field_config, *robot_config, movement_mode, r.1@),
{
    search_engine(
        grid,
        start,
        end,
        movement_mode,
        cost_map,
        field_config,
        robot_config,
        on_step,
        true,
    )
}

/// Forward-only weighted A* to the exact destination: like `a_star` but
/// with a single search frontier and no goal tolerance, so a returned
/// path always ends at `end`; on grids within the cost budget a path is
/// returned whenever one exists.
pub fn a_star_unidirectional<O: StepObserver>(
    grid: &Grid,
    start: (usize, usize),
    end: (usize, usize),
    movement_mode: MovementMode,
    cost_map: Option<&Grid>,
    field_config: &FieldConfig,
    robot_config: &RobotConfig,
    on_step: &mut O,
) -> (r: (Option<Vec<(usize, usize)>>, Vec<(isize, isize)>))
    requires
        grid.wf(),
        grid.values_in(-VAL_LIMIT as int, VAL_LIMIT as int),
        field_config.wf(),
        robot_config.wf(),
        cm_ok(cm_view(cost_map), *grid),
    ensures
        !(start.0 < grid.rows && start.1 < grid.cols && end.0 < grid.rows && end.1 < grid.cols)
            ==> r.0 is None && r.1@.len() == 0,
        (start.0 < grid.rows && start.1 < grid.cols && start == end) ==> (match r.0 {
            Some(p) => p@ == seq![start],
            None => false,
        } && r.1@.len() == 0),
        match r.0 {
            Some(p) => p@.len() >= 1 && p@[0] == start && p@.last() == end && valid_step_path(
                *grid,
                *field_config,
                *robot_config,
                movement_mode,
                p@,
            ) && path_in_bounds(*grid, p@),
            None => true,
        },
        (within_cost_budget(*grid) && start.0 < grid.rows && start.1 < grid.cols && end.0
            < grid.rows && end.1 < grid.cols && exists|q: Seq<(usize, usize)>|
            q.len() >= 1 && q[0] == start && q.last() == end && #[trigger] valid_step_path(
                *grid,
                *field_config,
                *robot_config,
                movement_mode,
                q,
            ) && path_in_bounds(*grid, q)) ==> r.0 is Some,
        blocked_ok(*grid, *field_config, *robot_config, movement_mode, r.1@),
{
    let r = search_engine(
        grid,
        start,
        end,
        movement_mode,
        cost_map,
        field_config,
        robot_config,
        on_step,
        false,
    );
    proof {
        if within_cost_budget(*grid) && start.0 < grid.rows && start.1 < grid.cols && end.0
            < grid.rows && end.1 < grid.cols && exists|q: Seq<(usize, usize)>|
            q.len() >= 1 && q[0] == start && q.last() == end && #[trigger] valid_step_path(
                *grid,
                *field_config,
                *robot_config,
                movement_mode,
                q,
            ) && path_in_bounds(*grid, q) {
            let q = choose|q: Seq<(usize, usize)>|
                q.len() >= 1 && q[0] == start && q.last() == end && #[trigger] valid_step_path(
                    *grid,
                    *field_config,
                    *robot_config,
                    movement_mode,
                    q,
                ) && path_in_bounds(*grid, q);
            assert(in_goal_region(
                cell_int(q.last()),
                cell_int(end),
                effective_tolerance(*robot_config, false),
                grid.rows as int,
                grid.cols as int,
            )) by {
                reveal(in_goal_region);
            }
        }
    }
    proof {
        if r.0 is Some {
            // Tolerance zero pins the last cell to the destination.
            reveal(in_goal_region);
            let c = cell_int(r.0.unwrap()@.last());
            let e = cell_int(end);
            assert((c.0 - e.0) * (c.0 - e.0) >= 0 && (c.1 - e.1) * (c.1 - e.1) >= 0)
                by (nonlinear_arith);
            assert((c.0 - e.0) * (c.0 - e.0) == 0 ==> c.0 == e.0) by (nonlinear_arith);
            assert((c.1 - e.1) * (c.1 - e.1) == 0 ==> c.1 == e.1) by (nonlinear_arith);
        }
    }
    r
}

} // verus!
