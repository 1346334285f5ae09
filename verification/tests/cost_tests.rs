//! Behaviour of the cost model: unit conversion, gradient-based cost
//! multipliers, the degenerate flat-cost policy, and monotonicity of path
//! costs in the slope penalty weight.

use rustfinder::{
    compute_gradient_cost_map, convert_heightmap_to_meters, path_cost, FieldConfig, Grid,
    RobotConfig, SCALE,
};

#[test]
fn conversion_is_the_affine_remap() {
    // Heights from 0 m to 3 m: a normalized 0.5 lands exactly at 1.5 m.
    let fc = FieldConfig::default();
    let grid = Grid::from_data(2, 2, vec![0, 500_000, 1_000_000, 250_000]);
    let meters = convert_heightmap_to_meters(&grid, &fc);
    assert_eq!(meters.get(0, 0), 0);
    assert_eq!(meters.get(0, 1), 1_500_000);
    assert_eq!(meters.get(1, 0), 3_000_000);
    assert_eq!(meters.get(1, 1), 750_000);
}

#[test]
fn conversion_respects_nonzero_minimum() {
    let mut fc = FieldConfig::default();
    fc.height_min_m = -2_000_000;
    fc.height_max_m = 2_000_000;
    let grid = Grid::from_data(1, 3, vec![0, 500_000, 1_000_000]);
    let meters = convert_heightmap_to_meters(&grid, &fc);
    assert_eq!(meters.get(0, 0), -2_000_000);
    assert_eq!(meters.get(0, 1), 0);
    assert_eq!(meters.get(0, 2), 2_000_000);
}

#[test]
fn flat_terrain_costs_are_the_baseline() {
    let fc = FieldConfig::default();
    let rc = RobotConfig::default();
    let grid = Grid::from_data(4, 4, vec![1_500_000; 16]);
    let cost = compute_gradient_cost_map(&grid, &fc, &rc);
    for r in 0..4 {
        for c in 0..4 {
            assert_eq!(cost.get(r, c), SCALE as i64);
        }
    }
}

#[test]
fn degenerate_slope_limit_gives_uniform_cost() {
    // A non-positive slope limit is not an error: every multiplier is
    // defined to be the baseline.
    let fc = FieldConfig::default();
    let mut rc = RobotConfig::default();
    rc.max_slope_tan = 0;
    let mut data = Vec::new();
    for k in 0..16i64 {
        data.push(k * 100_000);
    }
    let grid = Grid::from_data(4, 4, data.clone());
    let cost = compute_gradient_cost_map(&grid, &fc, &rc);
    for r in 0..4 {
        for c in 0..4 {
            assert_eq!(cost.get(r, c), SCALE as i64);
        }
    }
    rc.max_slope_tan = -500_000;
    let cost_neg = compute_gradient_cost_map(&Grid::from_data(4, 4, data), &fc, &rc);
    assert_eq!(cost_neg.get(2, 2), SCALE as i64);
}

#[test]
fn gradient_cost_exact_value() {
    // One row, heights 0, 0, 0.2 m, pixel 0.1 m. At the middle cell the
    // horizontal gradient is (0.2 - 0) / (2 * 0.1) = 1.0, there is no
    // vertical gradient, so the slope tangent is exactly one. The ratio
    // against tan(30 degrees) clips to one, and the cost is 1 + weight.
    let fc = FieldConfig::default();
    let rc = RobotConfig::default();
    let grid = Grid::from_data(1, 3, vec![0, 0, 200_000]);
    let cost = compute_gradient_cost_map(&grid, &fc, &rc);
    assert_eq!(cost.get(0, 1), (SCALE + rc.slope_cost_weight) as i64);

    // The border cells use one-sided differences: gradient 0.2 / 0.2 = 1
    // at the right border as well.
    assert_eq!(cost.get(0, 2), (SCALE + rc.slope_cost_weight) as i64);
    // The left border sees no height change at all.
    assert_eq!(cost.get(0, 0), SCALE as i64);
}

/// Replays the library's fixed-point arctangent in wide integers.
fn atan_replay(t: u128) -> u128 {
    let s = SCALE as u128;
    let base = |x: u128| 45 * x + x * (s - x) * (14_020_266 + 3_798_709 * x / s) / (s * s);
    if t <= s { base(t) } else { 90 * s - base(s * s / t) }
}

#[test]
fn quadratic_penalty_below_the_threshold() {
    // Gradient 0.288675 gives a slope angle of about 16.1 degrees against
    // the 30-degree limit: the angle ratio is about 0.54 and the penalty
    // about 0.29 of the weight. Replayed in exact integer arithmetic.
    let fc = FieldConfig::default();
    let rc = RobotConfig::default();
    let dz: i64 = 57_735; // 0.057735 m over a 0.2 m run
    let grid = Grid::from_data(1, 3, vec![0, 0, dz]);
    let cost = compute_gradient_cost_map(&grid, &fc, &rc);
    let gradient: u128 = (dz as u128) * (SCALE as u128) / 200_000;
    let angle: u128 = atan_replay(gradient);
    let max_deg: u128 = atan_replay(577_350);
    let ratio: u128 = angle * (SCALE as u128) / max_deg;
    let penalty: u128 =
        (rc.slope_cost_weight as u128) * ratio * ratio / ((SCALE as u128) * (SCALE as u128));
    let expected: u128 = SCALE as u128 + penalty;
    assert_eq!(cost.get(0, 1) as u128, expected);
    // The angle-ratio penalty: roughly (16.1 / 29.9)^2 of the weight.
    assert!(cost.get(0, 1) > 29_000_000);
    assert!(cost.get(0, 1) < 31_000_000);
    assert!(cost.get(0, 1) < (SCALE + rc.slope_cost_weight) as i64);
}

#[test]
fn arctangent_anchor_values() {
    // The fixed-point arctangent is exact at a zero and at a unit
    // tangent, and the complement identity holds above one.
    let fc = FieldConfig::default();
    let mut rc = RobotConfig::default();
    rc.max_slope_tan = SCALE as i64; // a 45-degree limit
    // A unit gradient exactly meets a unit threshold: ratio one.
    let grid = Grid::from_data(1, 3, vec![0, 0, 200_000]);
    let cost = compute_gradient_cost_map(&grid, &fc, &rc);
    assert_eq!(cost.get(0, 1), (SCALE + rc.slope_cost_weight) as i64);
    assert_eq!(atan_replay(0), 0);
    assert_eq!(atan_replay(SCALE as u128), 45 * SCALE as u128);
    // tan(60 deg) = 1/tan(30 deg): the two angles land near 30 and 60
    // degrees and sum to nearly a right angle.
    let sixty = atan_replay((SCALE as u128) * (SCALE as u128) / 577_350);
    let thirty = atan_replay(577_350);
    assert!(thirty > 29_800_000 && thirty < 30_100_000);
    assert!(sixty > 59_900_000 && sixty < 60_200_000);
    let right = thirty + sixty;
    assert!(right > 89_900_000 && right < 90_100_000);
}

#[test]
fn larger_weight_never_cheapens_a_path() {
    // The same sloped terrain under three growing weights: every cell's
    // multiplier and the cost of a fixed path grow monotonically.
    let fc = FieldConfig::default();
    let mut data = Vec::new();
    for r in 0..5i64 {
        for c in 0..5i64 {
            data.push(r * 30_000 + c * 17_000);
        }
    }
    let grid = Grid::from_data(5, 5, data);
    let path = vec![(0usize, 0usize), (1, 1), (2, 2), (3, 2), (4, 3)];

    let mut previous: Option<(Grid, u64)> = None;
    for w in [0u64, 50_000_000, 400_000_000] {
        let mut rc = RobotConfig::default();
        rc.slope_cost_weight = w;
        let cost = compute_gradient_cost_map(&grid, &fc, &rc);
        let total = path_cost(&path, Some(&cost));
        if let Some((prev_cost, prev_total)) = previous {
            for r in 0..5 {
                for c in 0..5 {
                    assert!(prev_cost.get(r, c) <= cost.get(r, c));
                }
            }
            assert!(prev_total <= total);
        }
        previous = Some((cost, total));
    }
}

#[test]
fn multipliers_never_fall_below_baseline() {
    let fc = FieldConfig::default();
    let rc = RobotConfig::default();
    let mut data = Vec::new();
    for k in 0..36i64 {
        data.push((k * k * 11_111) % 2_000_000);
    }
    let grid = Grid::from_data(6, 6, data);
    let cost = compute_gradient_cost_map(&grid, &fc, &rc);
    for r in 0..6 {
        for c in 0..6 {
            assert!(cost.get(r, c) >= SCALE as i64);
        }
    }
}
