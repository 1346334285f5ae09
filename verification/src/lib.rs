//! Slope-aware grid pathfinding for a simulated ground robot.
//!
//! The crate plans a traversable route across a synthetic height-field,
//! subject to a maximum-slope constraint, and can stream per-iteration
//! search snapshots to an observer. All quantities are carried as
//! fixed-point integers scaled by `SCALE` (one millionth units), so every
//! cost computation is exact integer arithmetic.

pub mod arith;
pub mod config;
pub mod convert;
pub mod finder;
pub mod grid;
pub mod messaging;
pub mod raster;

pub use arith::{SCALE, SQRT2_SCALED, COST_INF, VAL_LIMIT};
pub use config::{FieldConfig, MovementMode, RobotConfig};
pub use convert::{compute_gradient_cost_map, convert_heightmap_to_meters};
pub use finder::{a_star, a_star_unidirectional, is_unblocked, path_cost};
pub use grid::Grid;
pub use messaging::{NullObserver, SearchStep, StepObserver};
pub use raster::{draw_path, draw_search_step, get_red_channel, normalize_to_grid, Color, ColorImage, GrayImage};
