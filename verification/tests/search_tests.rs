//! Behaviour of the search engine: trivial and out-of-range endpoints,
//! flat-grid geometry, determinism, blocking, and cost admissibility.

use rustfinder::{
    a_star, a_star_unidirectional, is_unblocked, path_cost, FieldConfig, Grid, MovementMode,
    NullObserver, RobotConfig, SearchStep, StepObserver, SCALE, SQRT2_SCALED,
};

fn flat_grid(rows: usize, cols: usize, height: i64) -> Grid {
    Grid::from_data(rows, cols, vec![height; rows * cols])
}

fn field_config() -> FieldConfig {
    FieldConfig::default()
}

fn robot_config() -> RobotConfig {
    RobotConfig::default()
}

/// A configuration whose heuristic weight is exactly one, preserving
/// heuristic admissibility.
fn admissible_config() -> RobotConfig {
    let mut rc = RobotConfig::default();
    rc.remaining_distance_weight = SCALE;
    rc
}

struct CountingObserver {
    count: usize,
    goal_count: usize,
    last_was_goal: bool,
}

impl StepObserver for CountingObserver {
    fn active(&self) -> bool {
        true
    }

    fn on_step(&mut self, step: SearchStep) {
        self.count += 1;
        if step.is_goal {
            self.goal_count += 1;
        }
        self.last_was_goal = step.is_goal;
    }
}

struct RecordingObserver {
    steps: Vec<SearchStep>,
}

impl StepObserver for RecordingObserver {
    fn active(&self) -> bool {
        true
    }

    fn on_step(&mut self, step: SearchStep) {
        self.steps.push(step);
    }
}

#[test]
fn trivial_path_when_start_equals_destination() {
    let grid = flat_grid(7, 5, 0);
    let (path, blocked) = a_star(
        &grid,
        (3, 2),
        (3, 2),
        MovementMode::EightDirections,
        None,
        &field_config(),
        &robot_config(),
        &mut NullObserver,
    );
    assert_eq!(path, Some(vec![(3, 2)]));
    assert!(blocked.is_empty());
}

#[test]
fn trivial_path_regardless_of_grid_content() {
    // Start at the origin, destination at the origin: the single-cell
    // path comes back whatever the terrain looks like.
    let mut data = Vec::new();
    for k in 0..36i64 {
        data.push((k * 97) % 1_000_000);
    }
    let grid = Grid::from_data(6, 6, data);
    let cost = rustfinder::compute_gradient_cost_map(&grid, &field_config(), &robot_config());
    let (path, blocked) = a_star(
        &grid,
        (0, 0),
        (0, 0),
        MovementMode::EightDirections,
        Some(&cost),
        &field_config(),
        &robot_config(),
        &mut NullObserver,
    );
    assert_eq!(path, Some(vec![(0, 0)]));
    assert!(blocked.is_empty());

    let (path2, blocked2) = a_star_unidirectional(
        &grid,
        (0, 0),
        (0, 0),
        MovementMode::FourDirections,
        None,
        &field_config(),
        &robot_config(),
        &mut NullObserver,
    );
    assert_eq!(path2, Some(vec![(0, 0)]));
    assert!(blocked2.is_empty());
}

#[test]
fn out_of_bounds_endpoints_return_no_path() {
    let grid = flat_grid(5, 5, 0);
    let mut observer = CountingObserver { count: 0, goal_count: 0, last_was_goal: false };
    let (path, blocked) = a_star(
        &grid,
        (9, 0),
        (4, 4),
        MovementMode::EightDirections,
        None,
        &field_config(),
        &robot_config(),
        &mut observer,
    );
    assert!(path.is_none());
    assert!(blocked.is_empty());
    assert_eq!(observer.count, 0);

    let (path2, blocked2) = a_star(
        &grid,
        (0, 0),
        (4, 5),
        MovementMode::EightDirections,
        None,
        &field_config(),
        &robot_config(),
        &mut observer,
    );
    assert!(path2.is_none());
    assert!(blocked2.is_empty());
    assert_eq!(observer.count, 0);

    let (path3, blocked3) = a_star_unidirectional(
        &grid,
        (5, 5),
        (6, 6),
        MovementMode::FourDirections,
        None,
        &field_config(),
        &robot_config(),
        &mut observer,
    );
    assert!(path3.is_none());
    assert!(blocked3.is_empty());
    assert_eq!(observer.count, 0);
}

fn chebyshev(a: (usize, usize), b: (usize, usize)) -> usize {
    let dr = if a.0 > b.0 { a.0 - b.0 } else { b.0 - a.0 };
    let dc = if a.1 > b.1 { a.1 - b.1 } else { b.1 - a.1 };
    if dr > dc { dr } else { dc }
}

fn chebyshev_cost(a: (usize, usize), b: (usize, usize)) -> u64 {
    let dr = (if a.0 > b.0 { a.0 - b.0 } else { b.0 - a.0 }) as u64;
    let dc = (if a.1 > b.1 { a.1 - b.1 } else { b.1 - a.1 }) as u64;
    let diag = if dr < dc { dr } else { dc };
    let orth = (if dr > dc { dr } else { dc }) - diag;
    diag * SQRT2_SCALED + orth * SCALE
}

#[test]
fn flat_grid_paths_have_chebyshev_length_and_cost() {
    let grid = flat_grid(6, 6, 250_000);
    let rc = admissible_config();
    let cases = [((0, 0), (5, 5)), ((0, 5), (5, 0)), ((2, 1), (2, 5)), ((4, 3), (0, 3)), ((1, 1), (4, 5))];
    for &(s, d) in cases.iter() {
        let (path, _) = a_star_unidirectional(
            &grid,
            s,
            d,
            MovementMode::EightDirections,
            None,
            &field_config(),
            &rc,
            &mut NullObserver,
        );
        let path = path.expect("a flat grid is fully traversable");
        assert_eq!(path.len(), chebyshev(s, d) + 1);
        assert_eq!(path_cost(&path, None), chebyshev_cost(s, d));
    }
}

#[test]
fn example_five_by_five_flat_diagonal() {
    let grid = flat_grid(5, 5, 0);
    // Tangent of 30 degrees in fixed point: the default slope limit.
    let rc = robot_config();
    assert_eq!(rc.max_slope_tan, 577_350);
    let (path, _) = a_star(
        &grid,
        (0, 0),
        (4, 4),
        MovementMode::EightDirections,
        None,
        &field_config(),
        &rc,
        &mut NullObserver,
    );
    let path = path.expect("flat grid must have a path");
    assert_eq!(path, vec![(0, 0), (1, 1), (2, 2), (3, 3), (4, 4)]);
    assert_eq!(path_cost(&path, None), 4 * SQRT2_SCALED);

    let (path_uni, _) = a_star_unidirectional(
        &grid,
        (0, 0),
        (4, 4),
        MovementMode::EightDirections,
        None,
        &field_config(),
        &rc,
        &mut NullObserver,
    );
    assert_eq!(path_uni, Some(vec![(0, 0), (1, 1), (2, 2), (3, 3), (4, 4)]));
}

#[test]
fn example_steep_cell_is_avoided_and_recorded() {
    // A flat grid with one raised cell whose height difference makes
    // every edge into it steeper than the slope limit.
    let mut data = vec![0i64; 25];
    data[2 * 5 + 2] = 1_000_000;
    let grid = Grid::from_data(5, 5, data);
    let (path, blocked) = a_star(
        &grid,
        (0, 0),
        (4, 4),
        MovementMode::EightDirections,
        None,
        &field_config(),
        &robot_config(),
        &mut NullObserver,
    );
    let path = path.expect("the raised cell can be walked around");
    assert!(!path.contains(&(2, 2)));
    assert!(blocked.contains(&(2, 2)));
    // The raised cell is slope-rejected from its accessible neighbours.
    assert!(!is_unblocked(&grid, (1, 1), (2, 2), &field_config(), &robot_config()));
    assert!(!is_unblocked(&grid, (2, 1), (2, 2), &field_config(), &robot_config()));
}

#[test]
fn repeated_searches_are_identical() {
    // Gently sloped terrain with a cost map: same inputs, same outputs,
    // down to the order of the blocked records and the trace.
    let mut data = Vec::new();
    for r in 0..8i64 {
        for c in 0..8i64 {
            data.push(r * 40_000 + ((c * 31) % 5) * 20_000);
        }
    }
    let grid = Grid::from_data(8, 8, data);
    let fc = field_config();
    let rc = robot_config();
    let cost = rustfinder::compute_gradient_cost_map(&grid, &fc, &rc);

    let mut obs1 = RecordingObserver { steps: Vec::new() };
    let (path1, blocked1) = a_star(
        &grid,
        (0, 0),
        (7, 7),
        MovementMode::EightDirections,
        Some(&cost),
        &fc,
        &rc,
        &mut obs1,
    );
    let mut obs2 = RecordingObserver { steps: Vec::new() };
    let (path2, blocked2) = a_star(
        &grid,
        (0, 0),
        (7, 7),
        MovementMode::EightDirections,
        Some(&cost),
        &fc,
        &rc,
        &mut obs2,
    );
    assert_eq!(path1, path2);
    assert_eq!(blocked1, blocked2);
    assert_eq!(obs1.steps.len(), obs2.steps.len());
    for (a, b) in obs1.steps.iter().zip(obs2.steps.iter()) {
        assert_eq!(a.step_index, b.step_index);
        assert_eq!(a.current, b.current);
        assert_eq!(a.visited, b.visited);
        assert_eq!(a.open_nodes, b.open_nodes);
        assert_eq!(a.blocked, b.blocked);
        assert_eq!(a.is_goal, b.is_goal);
    }
}

/// Enumerates every simple path from `cur` to `dest` and keeps the
/// cheapest total cost.
fn brute_force_best(
    grid: &Grid,
    cost: Option<&Grid>,
    fc: &FieldConfig,
    rc: &RobotConfig,
    cur: (usize, usize),
    dest: (usize, usize),
    seen: &mut Vec<(usize, usize)>,
    trail: &mut Vec<(usize, usize)>,
    best: &mut Option<u64>,
) {
    if cur == dest {
        let total = path_cost(trail, cost);
        if best.map_or(true, |b| total < b) {
            *best = Some(total);
        }
        return;
    }
    let dirs: [(isize, isize); 8] =
        [(1, 0), (0, 1), (-1, 0), (0, -1), (1, 1), (1, -1), (-1, 1), (-1, -1)];
    for (dr, dc) in dirs.iter() {
        let nr = cur.0 as isize + dr;
        let nc = cur.1 as isize + dc;
        if nr < 0 || nc < 0 {
            continue;
        }
        let next = (nr as usize, nc as usize);
        if next.0 >= grid.rows || next.1 >= grid.cols {
            continue;
        }
        if seen.contains(&next) {
            continue;
        }
        if !is_unblocked(grid, cur, next, fc, rc) {
            continue;
        }
        seen.push(next);
        trail.push(next);
        brute_force_best(grid, cost, fc, rc, next, dest, seen, trail, best);
        trail.pop();
        seen.pop();
    }
}

#[test]
fn unidirectional_cost_is_minimal_on_small_grids() {
    // With an admissible heuristic (weight one) and multipliers of at
    // least one everywhere, the forward-only search never pays more than
    // the cheapest route found by exhaustive enumeration.
    let mut data = Vec::new();
    for r in 0..4i64 {
        for c in 0..4i64 {
            data.push(((r * 13 + c * 7) % 4) * 20_000);
        }
    }
    let grid = Grid::from_data(4, 4, data);
    let fc = field_config();
    let rc = admissible_config();
    let cost = rustfinder::compute_gradient_cost_map(&grid, &fc, &rc);
    for &(s, d) in [((0, 0), (3, 3)), ((3, 0), (0, 3)), ((1, 2), (3, 0))].iter() {
        let (path, _) = a_star_unidirectional(
            &grid,
            s,
            d,
            MovementMode::EightDirections,
            Some(&cost),
            &fc,
            &rc,
            &mut NullObserver,
        );
        let path = path.expect("terrain is traversable");
        let reported = path_cost(&path, Some(&cost));

        let mut seen = vec![s];
        let mut trail = vec![s];
        let mut best: Option<u64> = None;
        brute_force_best(&grid, Some(&cost), &fc, &rc, s, d, &mut seen, &mut trail, &mut best);
        let best = best.expect("brute force must also find a route");
        assert!(reported <= best, "reported {reported} exceeds optimum {best}");
    }
}

#[test]
fn observer_sees_goal_flag_and_growing_trace() {
    let grid = flat_grid(5, 5, 0);
    let mut observer = CountingObserver { count: 0, goal_count: 0, last_was_goal: false };
    let (path, _) = a_star(
        &grid,
        (0, 0),
        (4, 4),
        MovementMode::EightDirections,
        None,
        &field_config(),
        &robot_config(),
        &mut observer,
    );
    assert!(path.is_some());
    assert!(observer.count > 0);
    assert_eq!(observer.goal_count, 1);
    assert!(observer.last_was_goal);
}

#[test]
fn goal_tolerance_accepts_nearby_cells() {
    let grid = flat_grid(7, 7, 0);
    let mut rc = robot_config();
    rc.end_tolerance_px = 2;
    let (path, _) = a_star(
        &grid,
        (0, 0),
        (6, 6),
        MovementMode::EightDirections,
        None,
        &field_config(),
        &rc,
        &mut NullObserver,
    );
    let path = path.expect("flat grid");
    let last = *path.last().unwrap();
    let dr = 6i64 - last.0 as i64;
    let dc = 6i64 - last.1 as i64;
    assert!(dr * dr + dc * dc <= 4);
    assert_eq!(path[0], (0, 0));
}

#[test]
fn four_connected_movement_uses_no_diagonals() {
    let grid = flat_grid(4, 4, 0);
    let (path, _) = a_star_unidirectional(
        &grid,
        (0, 0),
        (3, 3),
        MovementMode::FourDirections,
        None,
        &field_config(),
        &admissible_config(),
        &mut NullObserver,
    );
    let path = path.expect("flat grid");
    assert_eq!(path.len(), 7);
    for w in path.windows(2) {
        let dr = (w[1].0 as isize - w[0].0 as isize).abs();
        let dc = (w[1].1 as isize - w[0].1 as isize).abs();
        assert_eq!(dr + dc, 1);
    }
    assert_eq!(path_cost(&path, None), 6 * SCALE);
}

#[test]
fn unreachable_destination_reports_no_path() {
    // A wall of cliffs across the grid: the far side cannot be reached.
    let mut data = vec![0i64; 25];
    for c in 0..5 {
        data[2 * 5 + c] = 50_000_000;
    }
    let grid = Grid::from_data(5, 5, data);
    let (path, blocked) = a_star(
        &grid,
        (0, 0),
        (4, 4),
        MovementMode::EightDirections,
        None,
        &field_config(),
        &robot_config(),
        &mut NullObserver,
    );
    assert!(path.is_none());
    assert!(blocked.contains(&(2, 0)));
    let (path_uni, _) = a_star_unidirectional(
        &grid,
        (0, 0),
        (4, 4),
        MovementMode::EightDirections,
        None,
        &field_config(),
        &robot_config(),
        &mut NullObserver,
    );
    assert!(path_uni.is_none());
}

#[test]
fn is_unblocked_threshold_cases() {
    let fc = field_config();
    let rc = robot_config();
    // Identical cells are always traversable.
    let grid = flat_grid(3, 3, 0);
    assert!(is_unblocked(&grid, (1, 1), (1, 1), &fc, &rc));

    // An orthogonal step of exactly pixel * tan(max) is admissible; one
    // micro-meter more is not. pixel = 100_000, tan = 577_350 scaled.
    let at_limit = (100_000i64 * 577_350) / 1_000_000;
    let mut data = vec![0i64; 9];
    data[1] = at_limit;
    let g2 = Grid::from_data(3, 3, data);
    assert!(is_unblocked(&g2, (0, 0), (0, 1), &fc, &rc));
    let mut data3 = vec![0i64; 9];
    data3[1] = at_limit + 1;
    let g3 = Grid::from_data(3, 3, data3);
    assert!(!is_unblocked(&g3, (0, 0), (0, 1), &fc, &rc));

    // Negative slope limit blocks every move between distinct cells.
    let mut rc_neg = rc;
    rc_neg.max_slope_tan = -1;
    assert!(!is_unblocked(&grid, (0, 0), (0, 1), &fc, &rc_neg));
    assert!(is_unblocked(&grid, (0, 0), (0, 0), &fc, &rc_neg));
}

#[test]
fn path_cost_formula_examples() {
    // Two orthogonal steps and one diagonal step at multiplier one.
    let path = vec![(0usize, 0usize), (0, 1), (1, 1), (2, 2)];
    assert_eq!(path_cost(&path, None), 2 * SCALE + SQRT2_SCALED);

    // The multiplier of the entered cell scales each step.
    let cost = Grid::from_data(3, 3, vec![
        1_000_000, 2_000_000, 1_000_000,
        1_000_000, 3_000_000, 1_000_000,
        1_000_000, 1_000_000, 1_000_000,
    ]);
    let p2 = vec![(0usize, 0usize), (0, 1), (1, 1)];
    assert_eq!(path_cost(&p2, Some(&cost)), 2 * SCALE + 3 * SCALE);
    assert_eq!(path_cost(&vec![(1usize, 1usize)], Some(&cost)), 0);
    assert_eq!(path_cost(&Vec::new(), None), 0);
}

#[test]
fn heuristic_is_the_weighted_euclidean_distance() {
    // A 3-4-5 triangle: the heuristic is exact in fixed point.
    let rc = admissible_config();
    assert_eq!(
        rustfinder::finder::remaining_path(&rc, 0, 0, (3, 4)),
        5 * SCALE,
    );
    let mut weighted = robot_config();
    weighted.remaining_distance_weight = 10 * SCALE;
    assert_eq!(
        rustfinder::finder::remaining_path(&weighted, 3, 4, (0, 0)),
        50 * SCALE,
    );
    assert_eq!(rustfinder::finder::remaining_path(&weighted, 2, 2, (2, 2)), 0);
}

#[test]
fn single_cell_grid_searches() {
    let grid = flat_grid(1, 1, 42);
    let (path, blocked) = a_star(
        &grid,
        (0, 0),
        (0, 0),
        MovementMode::EightDirections,
        None,
        &field_config(),
        &robot_config(),
        &mut NullObserver,
    );
    assert_eq!(path, Some(vec![(0, 0)]));
    assert!(blocked.is_empty());

    let (path2, blocked2) = a_star(
        &grid,
        (0, 0),
        (0, 1),
        MovementMode::EightDirections,
        None,
        &field_config(),
        &robot_config(),
        &mut NullObserver,
    );
    assert!(path2.is_none());
    assert!(blocked2.is_empty());
}

#[test]
fn single_row_grid_walks_the_line() {
    let grid = flat_grid(1, 6, 0);
    let (path, blocked) = a_star_unidirectional(
        &grid,
        (0, 0),
        (0, 5),
        MovementMode::FourDirections,
        None,
        &field_config(),
        &admissible_config(),
        &mut NullObserver,
    );
    assert_eq!(path, Some(vec![(0, 0), (0, 1), (0, 2), (0, 3), (0, 4), (0, 5)]));
    // Every off-grid neighbour probed along the way is recorded once.
    assert!(blocked.contains(&(1, 0)));
    assert!(blocked.contains(&(-1, 0)));
    let mut dedup = blocked.clone();
    dedup.sort();
    dedup.dedup();
    assert_eq!(dedup.len(), blocked.len());
}

#[test]
fn bidirectional_first_meet_may_exceed_the_optimum() {
    // A cheap pass over the top of an expensive wall: the bidirectional
    // variant stops at the first frontier contact, which is an optimistic
    // stopping rule and not required to return the cheapest route. The
    // forward-only search with heuristic weight one is held to the
    // brute-force optimum; the bidirectional result is only ever observed
    // to cost at least as much.
    let grid = flat_grid(5, 5, 0);
    let mut cost_data = vec![1_000_000i64; 25];
    for r in 0..5 {
        cost_data[r * 5 + 2] = 4_000_000;
    }
    cost_data[2] = 1_000_000; // the pass at the top of the wall
    let cost = Grid::from_data(5, 5, cost_data);
    let fc = field_config();
    let rc1 = admissible_config();
    let mut rc10 = robot_config();
    rc10.remaining_distance_weight = 10 * SCALE;

    let (uni, _) = a_star_unidirectional(
        &grid, (2, 0), (2, 4), MovementMode::EightDirections, Some(&cost), &fc, &rc1,
        &mut NullObserver,
    );
    let uni = uni.expect("the wall is passable");
    let uni_cost = path_cost(&uni, Some(&cost));

    // The cheapest route dodges over the pass with four diagonal steps,
    // all through multiplier-one cells.
    assert_eq!(uni_cost, 4 * SQRT2_SCALED);

    let (bidi1, _) = a_star(
        &grid, (2, 0), (2, 4), MovementMode::EightDirections, Some(&cost), &fc, &rc1,
        &mut NullObserver,
    );
    let bidi1_cost = path_cost(&bidi1.expect("reachable"), Some(&cost));
    let (bidi10, _) = a_star(
        &grid, (2, 0), (2, 4), MovementMode::EightDirections, Some(&cost), &fc, &rc10,
        &mut NullObserver,
    );
    let bidi10_cost = path_cost(&bidi10.expect("reachable"), Some(&cost));
    // The bidirectional variant is never held to the optimum. Under the
    // default heuristic weight its two frontiers meet on the wall and the
    // returned route is strictly costlier than the best one.
    assert!(bidi1_cost >= uni_cost);
    assert!(bidi10_cost > uni_cost);
    assert_eq!(bidi10_cost, 7 * SCALE);
}
