//! Configuration of the synthetic field and of the robot. All physical
//! quantities are fixed-point integers scaled by `SCALE` (see `arith`):
//! heights and pixel size in micro-meters, weights and the slope threshold
//! in micro-units.

use vstd::prelude::*;
use crate::arith::{SCALE, VAL_LIMIT};

verus! {

/// How many neighbours a cell has: the four cardinal ones, or those plus
/// the four diagonals.
#[derive(Clone, Copy, Debug, PartialEq, Eq, Structural)]
pub enum MovementMode {
    FourDirections,
    EightDirections,
}

/// Bound accepted for the configuration weights and the slope threshold
/// (one thousand whole units in fixed point).
pub const WEIGHT_LIMIT: u64 = 1_000_000_000;

impl MovementMode {
    /// The neighbour offsets of this mode, in their fixed order. The order
    /// takes part in deterministic tie-breaking and in the order in which
    /// blocked edges are discovered, so it must never change.
    pub open spec fn dir_seq(self) -> Seq<(int, int)> {
        match self {
            MovementMode::FourDirections => seq![(1, 0), (0, 1), (-1, 0), (0, -1)],
            MovementMode::EightDirections => seq![
                (1, 0),
                (0, 1),
                (-1, 0),
                (0, -1),
                (1, 1),
                (1, -1),
                (-1, 1),
                (-1, -1),
            ],
        }
    }

    /// `d` is one of the offsets of this mode.
    pub open spec fn is_direction(self, d: (int, int)) -> bool {
        self.dir_seq().contains(d)
    }

    /// Enumerates the neighbour offsets, in the fixed order of `dir_seq`.
    pub fn directions(self) -> (dirs: Vec<(isize, isize)>)
        ensures
            dirs@.len() == self.dir_seq().len(),
            forall|i: int|
                0 <= i < dirs@.len()
                    ==> (#[trigger] dirs@[i].0 as int, dirs@[i].1 as int) == self.dir_seq()[i],
    {
        match self {
            MovementMode::FourDirections => {
                let dirs: Vec<(isize, isize)> = vec![(1, 0), (0, 1), (-1, 0), (0, -1)];
                assert forall|i: int| 0 <= i < dirs@.len()
                    implies (#[trigger] dirs@[i].0 as int, dirs@[i].1 as int) == self.dir_seq()[i] by {
                }
                dirs
            },
            MovementMode::EightDirections => {
                let dirs: Vec<(isize, isize)> = vec![
                    (1, 0),
                    (0, 1),
                    (-1, 0),
                    (0, -1),
                    (1, 1),
                    (1, -1),
                    (-1, 1),
                    (-1, -1),
                ];
                assert forall|i: int| 0 <= i < dirs@.len()
                    implies (#[trigger] dirs@[i].0 as int, dirs@[i].1 as int) == self.dir_seq()[i] by {
                }
                dirs
            },
        }
    }
}

/// No offset of either movement mode is the zero offset.
pub proof fn lemma_directions_nonzero(mode: MovementMode, d: (int, int))
    requires
        mode.is_direction(d),
    ensures
        d != (0int, 0int),
        -1 <= d.0 <= 1,
        -1 <= d.1 <= 1,
{
    let s = mode.dir_seq();
    let i = choose|i: int| 0 <= i < s.len() && s[i] == d;
}

/// Every movement-mode offset set is closed under negation.
pub proof fn lemma_directions_symmetric(mode: MovementMode, d: (int, int))
    requires
        mode.is_direction(d),
    ensures
        mode.is_direction((-d.0, -d.1)),
{
    let s = mode.dir_seq();
    let i = choose|i: int| 0 <= i < s.len() && s[i] == d;
    match mode {
        MovementMode::FourDirections => {
            if i == 0 { assert(s[2] == (-d.0, -d.1)); }
            if i == 1 { assert(s[3] == (-d.0, -d.1)); }
            if i == 2 { assert(s[0] == (-d.0, -d.1)); }
            if i == 3 { assert(s[1] == (-d.0, -d.1)); }
        },
        MovementMode::EightDirections => {
            if i == 0 { assert(s[2] == (-d.0, -d.1)); }
            if i == 1 { assert(s[3] == (-d.0, -d.1)); }
            if i == 2 { assert(s[0] == (-d.0, -d.1)); }
            if i == 3 { assert(s[1] == (-d.0, -d.1)); }
            if i == 4 { assert(s[7] == (-d.0, -d.1)); }
            if i == 5 { assert(s[6] == (-d.0, -d.1)); }
            if i == 6 { assert(s[5] == (-d.0, -d.1)); }
            if i == 7 { assert(s[4] == (-d.0, -d.1)); }
        },
    }
}

/// Shape and physical scale of the synthetic field. `blur_size` only
/// parameterises input generation; the search core never reads it.
#[derive(Clone, Copy, Debug)]
pub struct FieldConfig {
    /// Side length, in pixels, of the generated square field.
    pub image_size: u32,
    /// Blur radius for input generation, in micro-pixels.
    pub blur_size: u64,
    /// Smallest terrain height, in micro-meters.
    pub height_min_m: i64,
    /// Largest terrain height, in micro-meters.
    pub height_max_m: i64,
    /// Physical size of one cell, in micro-meters.
    pub pixel_size_m: u64,
}

impl FieldConfig {
    /// Admissible parameter ranges: a non-degenerate, bounded height range
    /// and a positive, bounded pixel size.
    pub open spec fn wf(self) -> bool {
        &&& -VAL_LIMIT <= self.height_min_m
        &&& self.height_min_m <= self.height_max_m
        &&& self.height_max_m <= VAL_LIMIT
        &&& 1 <= self.pixel_size_m <= WEIGHT_LIMIT
    }
}

impl Default for FieldConfig {
    /// A 100-pixel field, heights from 0 m to 3 m, 0.1 m per pixel, blur
    /// radius 2 pixels.
    fn default() -> (c: FieldConfig)
        ensures
            c.image_size == 100,
            c.blur_size == 2 * SCALE,
            c.height_min_m == 0,
            c.height_max_m == 3 * SCALE,
            c.pixel_size_m == SCALE / 10,
            c.wf(),
    {
        FieldConfig {
            image_size: 100,
            blur_size: 2_000_000,
            height_min_m: 0,
            height_max_m: 3_000_000,
            pixel_size_m: 100_000,
        }
    }
}

/// The robot's movement capabilities and the search tuning knobs.
#[derive(Clone, Copy, Debug)]
pub struct RobotConfig {
    /// Tangent of the maximum admissible slope, in micro-units. The
    /// tangent is strictly increasing on slopes below a right angle, so
    /// comparing tangents decides exactly the angle comparison. A value
    /// of zero admits only level edges; a negative value admits none.
    pub max_slope_tan: i64,
    /// Cell the robot starts from.
    pub start_pos: (usize, usize),
    /// 4- or 8-connected movement.
    pub movement_mode: MovementMode,
    /// Weight of the quadratic slope penalty in the cost model, in
    /// micro-units.
    pub slope_cost_weight: u64,
    /// Weight applied to the remaining-distance heuristic, in micro-units.
    pub remaining_distance_weight: u64,
    /// Every how many search steps a trace consumer keeps a snapshot.
    pub trace_sample_stride: usize,
    /// Radius, in cells, of the goal-tolerance region around the
    /// destination. Zero means the exact destination only.
    pub end_tolerance_px: usize,
}

impl RobotConfig {
    /// Admissible parameter ranges for overflow-free cost arithmetic.
    pub open spec fn wf(self) -> bool {
        &&& -(WEIGHT_LIMIT as int) <= self.max_slope_tan <= WEIGHT_LIMIT as int
        &&& self.slope_cost_weight <= WEIGHT_LIMIT
        &&& self.remaining_distance_weight <= WEIGHT_LIMIT
        &&& self.end_tolerance_px <= 65536
    }
}

impl Default for RobotConfig {
    /// A 30-degree slope limit (tangent 0.577350), 8-connected movement
    /// from the origin, slope penalty weight 100, heuristic weight 10,
    /// a stride of 50 and no goal tolerance.
    fn default() -> (c: RobotConfig)
        ensures
            c.max_slope_tan == 577_350,
            c.start_pos == (0usize, 0usize),
            c.movement_mode == MovementMode::EightDirections,
            c.slope_cost_weight == 100 * SCALE,
            c.remaining_distance_weight == 10 * SCALE,
            c.trace_sample_stride == 50,
            c.end_tolerance_px == 0,
            c.wf(),
    {
        RobotConfig {
            max_slope_tan: 577_350,
            start_pos: (0, 0),
            movement_mode: MovementMode::EightDirections,
            slope_cost_weight: 100_000_000,
            remaining_distance_weight: 10_000_000,
            trace_sample_stride: 50,
            end_tolerance_px: 0,
        }
    }
}

} // verus!
