//! The cost model: conversion of a normalized height-field to physical
//! units, and derivation of a per-cell traversal-cost multiplier from the
//! local terrain gradient.
//!
//! Slope thresholds are carried as tangents (rise over run) in fixed
//! point: the tangent is strictly increasing below a right angle, so the
//! admissibility rule "slope angle at most the maximum" is decided
//! exactly by comparing tangents. The quadratic cost penalty, however,
//! ramps on the ratio of *angles*: the cell's slope angle over the
//! threshold angle, both in micro-degrees via the crate's fixed-point
//! arctangent.

use vstd::prelude::*;
use vstd::math::abs;
use crate::arith::{SCALE, VAL_LIMIT, sqrt_floor, isqrt};
use crate::config::{FieldConfig, RobotConfig};
use crate::grid::Grid;

verus! {

/// Gradient magnitudes never exceed this bound when heights are bounded
/// by `VAL_LIMIT` and the pixel size is at least one.
pub const GRAD_LIMIT: i64 = 1_000_000_000_000_000_000;

/// Affine remap of one normalized fixed-point value (0 to `SCALE`) into
/// the height range `min` to `max`.
pub open spec fn meters_of(v: int, min: int, max: int) -> int {
    min + (v * (max - min)) / (SCALE as int)
}

/// Remaps a normalized height-field (values 0 to `SCALE`) to heights in
/// micro-meters, between the configured minimum and maximum.
pub fn convert_heightmap_to_meters(map: &Grid, field_config: &FieldConfig) -> (out: Grid)
    requires
        map.wf(),
        field_config.wf(),
        map.values_in(0, SCALE as int),
    ensures
        out.rows == map.rows,
        out.cols == map.cols,
        out.wf(),
        out.values_in(field_config.height_min_m as int, field_config.height_max_m as int),
        forall|r: int, c: int|
            0 <= r < map.rows && 0 <= c < map.cols
                ==> #[trigger] out.at(r, c) == meters_of(
                    map.at(r, c),
                    field_config.height_min_m as int,
                    field_config.height_max_m as int,
                ),
{
    let rows = map.rows;
    let cols = map.cols;
    let min = field_config.height_min_m;
    let max = field_config.height_max_m;
    let scale: u64 = (max - min) as u64;
    proof {
        map.lemma_area_fits();
    }
    let mut out = Grid::new_fill(rows, cols, min);
    let mut r: usize = 0;
    while r < rows
        invariant
            map.wf(),
            map.values_in(0, SCALE as int),
            rows == map.rows,
            cols == map.cols,
            out.rows == rows,
            out.cols == cols,
            out.wf(),
            r <= rows,
            min == field_config.height_min_m,
            max == field_config.height_max_m,
            min <= max,
            -VAL_LIMIT <= min,
            max <= VAL_LIMIT,
            scale == max - min,
            out.values_in(min as int, max as int),
            forall|r2: int, c2: int|
                0 <= r2 < r && 0 <= c2 < cols
                    ==> #[trigger] out.at(r2, c2) == meters_of(map.at(r2, c2), min as int, max as int),
        decreases rows - r,
    {
        let mut c: usize = 0;
        while c < cols
            invariant
                map.wf(),
                map.values_in(0, SCALE as int),
                rows == map.rows,
                cols == map.cols,
                out.rows == rows,
                out.cols == cols,
                out.wf(),
                r < rows,
                c <= cols,
                min == field_config.height_min_m,
                max == field_config.height_max_m,
                min <= max,
                -VAL_LIMIT <= min,
                max <= VAL_LIMIT,
                scale == max - min,
                out.values_in(min as int, max as int),
                forall|r2: int, c2: int|
                    0 <= r2 < r && 0 <= c2 < cols
                        ==> #[trigger] out.at(r2, c2) == meters_of(map.at(r2, c2), min as int, max as int),
                forall|c2: int|
                    0 <= c2 < c
                        ==> #[trigger] out.at(r as int, c2) == meters_of(map.at(r as int, c2), min as int, max as int),
            decreases cols - c,
        {
            let v = map.get(r, c);
            proof {
                assert(0 <= (v as int) * (scale as int) <= (SCALE as int) * (scale as int)
                    && (SCALE as int) * (scale as int) <= (SCALE as int) * 2 * (VAL_LIMIT as int))
                    by (nonlinear_arith)
                    requires 0 <= v <= SCALE, 0 <= scale <= 2 * (VAL_LIMIT as int)
                ;
                assert(((v as int) * (scale as int)) / (SCALE as int) <= scale as int)
                    by (nonlinear_arith)
                    requires 0 <= (v as int) * (scale as int) <= (SCALE as int) * (scale as int), SCALE >= 1
                ;
                assert(((v as int) * (scale as int)) / (SCALE as int) >= 0)
                    by (nonlinear_arith)
                    requires (v as int) * (scale as int) >= 0, SCALE >= 1
                ;
            }
            let lifted: u64 = (v as u64) * scale / SCALE;
            out.set(r, c, min + (lifted as i64));
            c = c + 1;
        }
        r = r + 1;
    }
    out
}

/// Clamps a fixed-point value into the unit interval (0 to `SCALE`).
pub open spec fn clip_unit_spec(v: int) -> int {
    if v < 0 {
        0
    } else if v > SCALE {
        SCALE as int
    } else {
        v
    }
}

/// Clamps a fixed-point value into the unit interval (0 to `SCALE`).
pub fn clip_unit(v: u128) -> (r: u64)
    ensures
        r == clip_unit_spec(v as int),
{
    if v > SCALE as u128 {
        SCALE
    } else {
        v as u64
    }
}

/// Signed central-difference horizontal gradient at one cell, using
/// one-sided differences at the borders, as a fixed-point tangent. The
/// magnitude is divided first and the sign reattached, so the rounding is
/// toward zero in both directions.
pub open spec fn grad_x(hm: Grid, pixel: int, r: int, c: int) -> int {
    let left = hm.at(r, if c == 0 { 0 } else { c - 1 });
    let right = hm.at(r, if c + 1 >= hm.cols { c } else { c + 1 });
    let mag = (abs(right - left) * SCALE) / (2 * pixel);
    if right >= left {
        mag
    } else {
        -mag
    }
}

/// Signed central-difference vertical gradient at one cell, using
/// one-sided differences at the borders, as a fixed-point tangent. The
/// magnitude is divided first and the sign reattached, so the rounding is
/// toward zero in both directions.
pub open spec fn grad_y(hm: Grid, pixel: int, r: int, c: int) -> int {
    let up = hm.at(if r == 0 { 0 } else { r - 1 }, c);
    let down = hm.at(if r + 1 >= hm.rows { r } else { r + 1 }, c);
    let mag = (abs(down - up) * SCALE) / (2 * pixel);
    if down >= up {
        mag
    } else {
        -mag
    }
}

/// Magnitude of the gradient at one cell: the tangent of the cell's slope
/// angle, in fixed point.
pub open spec fn slope_tan_at(hm: Grid, pixel: int, r: int, c: int) -> int {
    sqrt_floor((grad_x(hm, pixel, r, c) * grad_x(hm, pixel, r, c)
        + grad_y(hm, pixel, r, c) * grad_y(hm, pixel, r, c)) as nat) as int
}

/// Coefficients of the arctangent approximation, in micro-degrees: for a
/// tangent ratio x between 0 and 1,
/// `atan(x) ~= 45 x + x (1 - x) (14.020266 + 3.798709 x)` degrees.
/// The right side is exact at 0 and at 1 (45 degrees) and stays within
/// about 0.09 degrees of the true arctangent in between.
pub const ATAN_C1: u64 = 14_020_266;

/// Second coefficient of the arctangent approximation (see `ATAN_C1`).
pub const ATAN_C2: u64 = 3_798_709;

/// The arctangent approximation on tangents between zero and one, in
/// micro-degrees of a micro-tangent.
pub open spec fn atan_base_spec(x: int) -> int {
    45 * x + (x * (SCALE - x) * (ATAN_C1 + (ATAN_C2 * x) / (SCALE as int))) / ((SCALE
        * SCALE) as int)
}

/// The slope angle of a non-negative fixed-point tangent, in
/// micro-degrees. Tangents above one use the complement identity
/// `atan(t) = 90 degrees - atan(1 / t)`.
pub open spec fn atan_deg_spec(t: int) -> int {
    if t <= SCALE {
        atan_base_spec(t)
    } else {
        90 * SCALE - atan_base_spec(((SCALE * SCALE) as int) / t)
    }
}

/// Computes the slope angle of a fixed-point tangent, in micro-degrees.
pub fn atan_degrees(t: u64) -> (r: u64)
    ensures
        r == atan_deg_spec(t as int),
        r <= 90 * SCALE,
        t >= 1 ==> r >= 45,
{
    if t <= SCALE {
        atan_base(t)
    } else {
        let inv: u64 = SCALE * SCALE / t;
        proof {
            assert(inv <= SCALE) by (nonlinear_arith)
                requires t > SCALE, inv == (SCALE as int) * (SCALE as int) / (t as int)
            ;
        }
        let b = atan_base(inv);
        90 * SCALE - b
    }
}

/// Evaluates the base arctangent approximation for tangents up to one.
fn atan_base(x: u64) -> (r: u64)
    requires
        x <= SCALE,
    ensures
        r == atan_base_spec(x as int),
        r <= 50 * SCALE,
        x >= 1 ==> r >= 45,
{
    let inner: u64 = ATAN_C1 + ATAN_C2 * x / SCALE;
    proof {
        assert((ATAN_C2 as int) * (x as int) <= (ATAN_C2 as int) * (SCALE as int)
            && (ATAN_C2 as int) * (x as int) / (SCALE as int) <= ATAN_C2 as int
            && (ATAN_C2 as int) * (x as int) / (SCALE as int) >= 0) by (nonlinear_arith)
            requires 0 <= x <= SCALE
        ;
        assert(0 <= (x as int) * ((SCALE - x) as int)
            && (x as int) * ((SCALE - x) as int) <= (SCALE as int) * (SCALE as int))
            by (nonlinear_arith)
            requires 0 <= x <= SCALE
        ;
        assert(0 <= (x as int) * ((SCALE - x) as int) * (inner as int)
            && (x as int) * ((SCALE - x) as int) * (inner as int)
                <= (SCALE as int) * (SCALE as int) * (inner as int)) by (nonlinear_arith)
            requires
                0 <= (x as int) * ((SCALE - x) as int) <= (SCALE as int) * (SCALE as int),
                0 <= inner
        ;
        assert((x as int) * ((SCALE - x) as int) <= 250_000_000_000) by (nonlinear_arith)
            requires 0 <= x <= SCALE, SCALE == 1_000_000
        ;
        assert((x as int) * ((SCALE - x) as int) * (inner as int)
            <= 250_000_000_000 * 17_818_975) by (nonlinear_arith)
            requires
                0 <= (x as int) * ((SCALE - x) as int) <= 250_000_000_000,
                0 <= inner <= 17_818_975
        ;
        assert((x as int) * ((SCALE - x) as int) * (inner as int) / ((SCALE as int) * (
        SCALE as int)) <= 4_454_743) by (nonlinear_arith)
            requires
                0 <= (x as int) * ((SCALE - x) as int) * (inner as int)
                    <= 250_000_000_000 * 17_818_975,
                (SCALE as int) * (SCALE as int) == 1_000_000_000_000
        ;
        assert((x as int) * ((SCALE - x) as int) * (inner as int) / ((SCALE as int) * (
        SCALE as int)) >= 0) by (nonlinear_arith)
            requires (x as int) * ((SCALE - x) as int) * (inner as int) >= 0, SCALE >= 1
        ;
    }
    let curve: u64 = ((x as u128) * ((SCALE - x) as u128) * (inner as u128)
        / ((SCALE as u128) * (SCALE as u128))) as u64;
    45 * x + curve
}

/// The traversal-cost multiplier of one cell. With a non-positive slope
/// threshold the policy degenerates to a uniform flat cost; otherwise the
/// cost is one plus a quadratic penalty on the clipped ratio of the
/// cell's slope angle to the threshold angle, both in micro-degrees.
pub open spec fn cost_cell(hm: Grid, fc: FieldConfig, rc: RobotConfig, r: int, c: int) -> int {
    if rc.max_slope_tan <= 0 {
        SCALE as int
    } else {
        let max_deg = atan_deg_spec(rc.max_slope_tan as int);
        let angle = atan_deg_spec(slope_tan_at(hm, fc.pixel_size_m as int, r, c));
        let ratio = clip_unit_spec((angle * SCALE) / max_deg);
        SCALE + (rc.slope_cost_weight * ratio * ratio) / ((SCALE * SCALE) as int)
    }
}

/// Computes both absolute central-difference gradient components of a
/// height-field, normalized by twice the pixel size.
fn gradient_components(height_map: &Grid, pixel_size: u64) -> (out: (Grid, Grid))
    requires
        height_map.wf(),
        height_map.values_in(-VAL_LIMIT as int, VAL_LIMIT as int),
        1 <= pixel_size <= VAL_LIMIT,
    ensures
        out.0.rows == height_map.rows,
        out.0.cols == height_map.cols,
        out.0.wf(),
        out.1.rows == height_map.rows,
        out.1.cols == height_map.cols,
        out.1.wf(),
        forall|r: int, c: int|
            0 <= r < height_map.rows && 0 <= c < height_map.cols
                ==> #[trigger] out.0.at(r, c) == grad_x(*height_map, pixel_size as int, r, c),
        forall|r: int, c: int|
            0 <= r < height_map.rows && 0 <= c < height_map.cols
                ==> #[trigger] out.1.at(r, c) == grad_y(*height_map, pixel_size as int, r, c),
        out.0.values_in(-GRAD_LIMIT as int, GRAD_LIMIT as int),
        out.1.values_in(-GRAD_LIMIT as int, GRAD_LIMIT as int),
{
    let rows = height_map.rows;
    let cols = height_map.cols;
    proof {
        height_map.lemma_area_fits();
    }
    let mut dx = Grid::new_fill(rows, cols, 0);
    let mut dy = Grid::new_fill(rows, cols, 0);
    let mut r: usize = 0;
    while r < rows
        invariant
            height_map.wf(),
            height_map.values_in(-VAL_LIMIT as int, VAL_LIMIT as int),
            1 <= pixel_size <= VAL_LIMIT,
            rows == height_map.rows,
            cols == height_map.cols,
            dx.rows == rows,
            dx.cols == cols,
            dx.wf(),
            dy.rows == rows,
            dy.cols == cols,
            dy.wf(),
            r <= rows,
            dx.values_in(-GRAD_LIMIT as int, GRAD_LIMIT as int),
            dy.values_in(-GRAD_LIMIT as int, GRAD_LIMIT as int),
            forall|r2: int, c2: int|
                0 <= r2 < r && 0 <= c2 < cols
                    ==> #[trigger] dx.at(r2, c2) == grad_x(*height_map, pixel_size as int, r2, c2),
            forall|r2: int, c2: int|
                0 <= r2 < r && 0 <= c2 < cols
                    ==> #[trigger] dy.at(r2, c2) == grad_y(*height_map, pixel_size as int, r2, c2),
        decreases rows - r,
    {
        let mut c: usize = 0;
        while c < cols
            invariant
                height_map.wf(),
                height_map.values_in(-VAL_LIMIT as int, VAL_LIMIT as int),
                1 <= pixel_size <= VAL_LIMIT,
                rows == height_map.rows,
                cols == height_map.cols,
                dx.rows == rows,
                dx.cols == cols,
                dx.wf(),
                dy.rows == rows,
                dy.cols == cols,
                dy.wf(),
                r < rows,
                c <= cols,
                dx.values_in(-GRAD_LIMIT as int, GRAD_LIMIT as int),
                dy.values_in(-GRAD_LIMIT as int, GRAD_LIMIT as int),
                forall|r2: int, c2: int|
                    0 <= r2 < r && 0 <= c2 < cols
                        ==> #[trigger] dx.at(r2, c2) == grad_x(*height_map, pixel_size as int, r2, c2),
                forall|r2: int, c2: int|
                    0 <= r2 < r && 0 <= c2 < cols
                        ==> #[trigger] dy.at(r2, c2) == grad_y(*height_map, pixel_size as int, r2, c2),
                forall|c2: int|
                    0 <= c2 < c
                        ==> #[trigger] dx.at(r as int, c2) == grad_x(*height_map, pixel_size as int, r as int, c2),
                forall|c2: int|
                    0 <= c2 < c
                        ==> #[trigger] dy.at(r as int, c2) == grad_y(*height_map, pixel_size as int, r as int, c2),
            decreases cols - c,
        {
            let left = if c == 0 { height_map.get(r, 0) } else { height_map.get(r, c - 1) };
            let right = if c + 1 >= cols { height_map.get(r, c) } else { height_map.get(r, c + 1) };
            let up = if r == 0 { height_map.get(0, c) } else { height_map.get(r - 1, c) };
            let down = if r + 1 >= rows { height_map.get(r, c) } else { height_map.get(r + 1, c) };
            let diff_x: u64 = if right >= left { (right - left) as u64 } else { (left - right) as u64 };
            let diff_y: u64 = if down >= up { (down - up) as u64 } else { (up - down) as u64 };
            proof {
                assert(diff_x == abs(right - left));
                assert(diff_y == abs(down - up));
                lemma_grad_bound(diff_x as int, pixel_size as int);
                lemma_grad_bound(diff_y as int, pixel_size as int);
            }
            let mag_x: u64 = diff_x * SCALE / (2 * pixel_size);
            let mag_y: u64 = diff_y * SCALE / (2 * pixel_size);
            let gx: i64 = if right >= left { mag_x as i64 } else { -(mag_x as i64) };
            let gy: i64 = if down >= up { mag_y as i64 } else { -(mag_y as i64) };
            dx.set(r, c, gx);
            dy.set(r, c, gy);
            c = c + 1;
        }
        r = r + 1;
    }
    (dx, dy)
}

/// Bounds one gradient component: with a height difference of at most
/// twice `VAL_LIMIT` and a positive pixel size, the normalized gradient
/// magnitude stays below `GRAD_LIMIT`.
proof fn lemma_grad_bound(diff: int, pixel: int)
    requires
        0 <= diff <= 2 * VAL_LIMIT,
        1 <= pixel,
    ensures
        0 <= (diff * SCALE) / (2 * pixel) <= GRAD_LIMIT,
        diff * SCALE <= 2 * VAL_LIMIT * SCALE,
{
    assert(diff * SCALE <= 2 * VAL_LIMIT * SCALE) by (nonlinear_arith)
        requires 0 <= diff <= 2 * VAL_LIMIT
    ;
    assert(0 <= (diff * SCALE) / (2 * pixel) <= GRAD_LIMIT) by (nonlinear_arith)
        requires 0 <= diff * SCALE <= 2 * VAL_LIMIT * SCALE, 1 <= pixel
    ;
}

/// Derives the per-cell traversal-cost multiplier grid from a height-field
/// in micro-meters. Every multiplier is at least the flat-ground baseline
/// `SCALE` (the fixed-point one).
pub fn compute_gradient_cost_map(
    height_map: &Grid,
    field_config: &FieldConfig,
    robot_config: &RobotConfig,
) -> (out: Grid)
    requires
        height_map.wf(),
        height_map.values_in(-VAL_LIMIT as int, VAL_LIMIT as int),
        field_config.wf(),
        robot_config.wf(),
    ensures
        out.rows == height_map.rows,
        out.cols == height_map.cols,
        out.wf(),
        out.values_in(SCALE as int, VAL_LIMIT as int),
        forall|r: int, c: int|
            0 <= r < height_map.rows && 0 <= c < height_map.cols
                ==> #[trigger] out.at(r, c) == cost_cell(*height_map, *field_config, *robot_config, r, c),
{
    let rows = height_map.rows;
    let cols = height_map.cols;
    let max_slope = robot_config.max_slope_tan;
    proof {
        height_map.lemma_area_fits();
    }
    if max_slope <= 0 {
        let out = Grid::new_fill(rows, cols, SCALE as i64);
        return out;
    }
    let (dx, dy) = gradient_components(height_map, field_config.pixel_size_m);
    let max_deg: u64 = atan_degrees(max_slope as u64);
    let mut out = Grid::new_fill(rows, cols, SCALE as i64);
    let mut r: usize = 0;
    while r < rows
        invariant
            height_map.wf(),
            height_map.values_in(-VAL_LIMIT as int, VAL_LIMIT as int),
            field_config.wf(),
            robot_config.wf(),
            max_slope == robot_config.max_slope_tan,
            max_slope > 0,
            rows == height_map.rows,
            cols == height_map.cols,
            dx.rows == rows,
            dx.cols == cols,
            dx.wf(),
            dy.rows == rows,
            dy.cols == cols,
            dy.wf(),
            dx.values_in(-GRAD_LIMIT as int, GRAD_LIMIT as int),
            dy.values_in(-GRAD_LIMIT as int, GRAD_LIMIT as int),
            max_deg == atan_deg_spec(max_slope as int),
            max_deg >= 45,
            forall|r2: int, c2: int|
                0 <= r2 < rows && 0 <= c2 < cols
                    ==> #[trigger] dx.at(r2, c2) == grad_x(*height_map, field_config.pixel_size_m as int, r2, c2),
            forall|r2: int, c2: int|
                0 <= r2 < rows && 0 <= c2 < cols
                    ==> #[trigger] dy.at(r2, c2) == grad_y(*height_map, field_config.pixel_size_m as int, r2, c2),
            out.rows == rows,
            out.cols == cols,
            out.wf(),
            r <= rows,
            out.values_in(SCALE as int, VAL_LIMIT as int),
            forall|r2: int, c2: int|
                0 <= r2 < r && 0 <= c2 < cols
                    ==> #[trigger] out.at(r2, c2) == cost_cell(*height_map, *field_config, *robot_config, r2, c2),
        decreases rows - r,
    {
        let mut c: usize = 0;
        while c < cols
            invariant
                height_map.wf(),
                height_map.values_in(-VAL_LIMIT as int, VAL_LIMIT as int),
                field_config.wf(),
                robot_config.wf(),
                max_slope == robot_config.max_slope_tan,
                max_slope > 0,
                rows == height_map.rows,
                cols == height_map.cols,
                dx.rows == rows,
                dx.cols == cols,
                dx.wf(),
                dy.rows == rows,
                dy.cols == cols,
                dy.wf(),
                dx.values_in(-GRAD_LIMIT as int, GRAD_LIMIT as int),
                dy.values_in(-GRAD_LIMIT as int, GRAD_LIMIT as int),
                max_deg == atan_deg_spec(max_slope as int),
                max_deg >= 45,
                forall|r2: int, c2: int|
                    0 <= r2 < rows && 0 <= c2 < cols
                        ==> #[trigger] dx.at(r2, c2) == grad_x(*height_map, field_config.pixel_size_m as int, r2, c2),
                forall|r2: int, c2: int|
                    0 <= r2 < rows && 0 <= c2 < cols
                        ==> #[trigger] dy.at(r2, c2) == grad_y(*height_map, field_config.pixel_size_m as int, r2, c2),
                out.rows == rows,
                out.cols == cols,
                out.wf(),
                r < rows,
                c <= cols,
                out.values_in(SCALE as int, VAL_LIMIT as int),
                forall|r2: int, c2: int|
                    0 <= r2 < r && 0 <= c2 < cols
                        ==> #[trigger] out.at(r2, c2) == cost_cell(*height_map, *field_config, *robot_config, r2, c2),
                forall|c2: int|
                    0 <= c2 < c
                        ==> #[trigger] out.at(r as int, c2) == cost_cell(*height_map, *field_config, *robot_config, r as int, c2),
            decreases cols - c,
        {
            let gx_signed: i64 = dx.get(r, c);
            let gy_signed: i64 = dy.get(r, c);
            let gx: u64 = if gx_signed >= 0 { gx_signed as u64 } else { (-gx_signed) as u64 };
            let gy: u64 = if gy_signed >= 0 { gy_signed as u64 } else { (-gy_signed) as u64 };
            proof {
                assert((gx as int) * (gx as int) + (gy as int) * (gy as int)
                    <= 2 * (GRAD_LIMIT as int) * (GRAD_LIMIT as int)) by (nonlinear_arith)
                    requires 0 <= gx <= GRAD_LIMIT, 0 <= gy <= GRAD_LIMIT
                ;
                assert((gx as int) * (gx as int) == (gx_signed as int) * (gx_signed as int)
                    && (gy as int) * (gy as int) == (gy_signed as int) * (gy_signed as int))
                    by (nonlinear_arith)
                    requires gx == abs(gx_signed as int), gy == abs(gy_signed as int)
                ;
            }
            let sq: u128 = (gx as u128) * (gx as u128) + (gy as u128) * (gy as u128);
            let s: u64 = isqrt(sq);
            proof {
                assert((s as int) * (s as int) <= sq) by {
                    crate::arith::lemma_sqrt_floor_bounds(sq as nat);
                }
                assert((s as int) * (s as int) <= 2 * (GRAD_LIMIT as int) * (GRAD_LIMIT as int));
                assert(s as int <= 2 * GRAD_LIMIT) by (nonlinear_arith)
                    requires
                        (s as int) * (s as int) <= 2 * (GRAD_LIMIT as int) * (GRAD_LIMIT as int),
                        s >= 0
                ;
            }
            let angle: u64 = atan_degrees(s);
            let ratio: u64 = clip_unit((angle as u128) * (SCALE as u128) / (max_deg as u128));
            let w = robot_config.slope_cost_weight;
            proof {
                assert((w as int) * (ratio as int) * (ratio as int)
                    <= (w as int) * (SCALE as int) * (SCALE as int)
                    && (w as int) * (SCALE as int) * (SCALE as int)
                        <= (crate::config::WEIGHT_LIMIT as int) * (SCALE as int) * (SCALE as int))
                    by (nonlinear_arith)
                    requires 0 <= ratio <= SCALE, 0 <= w <= crate::config::WEIGHT_LIMIT
                ;
                assert(0 <= (w as int) * (ratio as int)
                    && (w as int) * (ratio as int)
                        <= (crate::config::WEIGHT_LIMIT as int) * (SCALE as int))
                    by (nonlinear_arith)
                    requires 0 <= ratio <= SCALE, 0 <= w <= crate::config::WEIGHT_LIMIT
                ;
                assert(0 <= (w as int) * (ratio as int) * (ratio as int)) by (nonlinear_arith)
                    requires 0 <= ratio, 0 <= w
                ;
                assert(((w as int) * (ratio as int) * (ratio as int)) / ((SCALE * SCALE) as int)
                    <= w as int) by (nonlinear_arith)
                    requires
                        0 <= (w as int) * (ratio as int) * (ratio as int)
                            <= (w as int) * (SCALE as int) * (SCALE as int),
                        SCALE >= 1
                ;
                assert(((w as int) * (ratio as int) * (ratio as int)) / ((SCALE * SCALE) as int) >= 0)
                    by (nonlinear_arith)
                    requires (w as int) * (ratio as int) * (ratio as int) >= 0, SCALE >= 1
                ;
            }
            let penalty: u64 = ((w as u128) * (ratio as u128) * (ratio as u128)
                / ((SCALE as u128) * (SCALE as u128))) as u64;
            let value: u64 = SCALE + penalty;
            proof {
                assert(gx_signed as int == grad_x(*height_map, field_config.pixel_size_m as int, r as int, c as int));
                assert(gy_signed as int == grad_y(*height_map, field_config.pixel_size_m as int, r as int, c as int));
                assert((gx as int) * (gx as int) == (gx_signed as int) * (gx_signed as int)
                    && (gy as int) * (gy as int) == (gy_signed as int) * (gy_signed as int))
                    by (nonlinear_arith)
                    requires gx == abs(gx_signed as int), gy == abs(gy_signed as int)
                ;
                assert(s as int
                    == slope_tan_at(*height_map, field_config.pixel_size_m as int, r as int, c as int));
                assert(angle as int == atan_deg_spec(
                    slope_tan_at(*height_map, field_config.pixel_size_m as int, r as int, c as int),
                ));
                assert(ratio as int == clip_unit_spec(
                    (atan_deg_spec(
                        slope_tan_at(*height_map, field_config.pixel_size_m as int, r as int, c as int),
                    ) * SCALE) / atan_deg_spec(robot_config.max_slope_tan as int),
                ));
                assert(value as int == cost_cell(*height_map, *field_config, *robot_config, r as int, c as int));
            }
            out.set(r, c, value as i64);
            c = c + 1;
        }
        r = r + 1;
    }
    out
}

/// With the same terrain and threshold, a larger slope-penalty weight
/// never makes any cell cheaper: the per-cell cost multiplier is monotone
/// in `slope_cost_weight`.
pub proof fn lemma_cost_cell_monotone_in_weight(
    hm: Grid,
    fc: FieldConfig,
    rc1: RobotConfig,
    rc2: RobotConfig,
    r: int,
    c: int,
)
    requires
        rc1.max_slope_tan == rc2.max_slope_tan,
        rc1.slope_cost_weight <= rc2.slope_cost_weight,
    ensures
        cost_cell(hm, fc, rc1, r, c) <= cost_cell(hm, fc, rc2, r, c),
{
    if rc1.max_slope_tan > 0 {
        let max_deg = atan_deg_spec(rc1.max_slope_tan as int);
        let angle = atan_deg_spec(slope_tan_at(hm, fc.pixel_size_m as int, r, c));
        let ratio = clip_unit_spec((angle * SCALE) / max_deg);
        assert((rc1.slope_cost_weight as int) * ratio * ratio
            <= (rc2.slope_cost_weight as int) * ratio * ratio) by (nonlinear_arith)
            requires rc1.slope_cost_weight <= rc2.slope_cost_weight, ratio >= 0
        ;
        assert(((rc1.slope_cost_weight as int) * ratio * ratio) / ((SCALE * SCALE) as int)
            <= ((rc2.slope_cost_weight as int) * ratio * ratio) / ((SCALE * SCALE) as int))
            by (nonlinear_arith)
            requires
                (rc1.slope_cost_weight as int) * ratio * ratio
                    <= (rc2.slope_cost_weight as int) * ratio * ratio,
                SCALE >= 1
        ;
    }
}

} // verus!
