//! The tunable constants of the simulation, in fixed-point units
//! (millionths) and microseconds.

use vstd::prelude::*;

verus! {

/// Linear speed of a player-steered cell.
pub const PLAYER_SPEED: i64 = 500_000_000;

/// Angular speed of a player-steered cell.
pub const PLAYER_ANGLE_SPEED: i64 = 7_000_000;

/// A cell whose energy reaches this ceiling divides.
pub const SPLIT_ENERGY: i64 = 200_000_000;

/// A cell whose energy falls below this floor dies.
pub const MIN_ENERGY: i64 = 70_000_000;

/// The duration of one fixed tick, in microseconds; also the energy that a
/// cell spends per tick.
pub const FIXED_DELTA: i64 = 16_667;

/// The energy of a newborn cell.
pub const BIRTH_ENERGY: i64 = 100_000_000;

/// The energy credited for one food item.
pub const ENERGY_PER_FOOD: i64 = 10_000_000;

/// The angle by which the two children of a division are turned apart.
pub const SPLIT_TURN: i64 = 100_000;

/// Standard deviation of the noise added to an organ layout at birth.
pub const LAYOUT_SIGMA: i64 = 10_000;

/// Standard deviation of the noise added to weights and biases at birth.
pub const WEIGHT_SIGMA: i64 = 100_000;

/// Standard deviation of the controller values of a founder cell.
pub const FOUNDER_SIGMA: i64 = 500_000;

/// Standard deviation of each coordinate of the founders and the first food.
pub const SEEDING_SIGMA: i64 = 10_000_000_000;

/// Standard deviation of each coordinate of food that trickles in later.
pub const TRICKLE_SIGMA: i64 = 15_000_000_000;

/// The period between two controller updates of a cell, in microseconds.
pub const THINKING_PERIOD: u64 = 50_000;

/// The period between two trickled food items, in microseconds.
pub const FOOD_PERIOD: u64 = 50_000;

/// The period between two population reports, in microseconds.
pub const REPORT_PERIOD: u64 = 1_000_000;

/// One second, in microseconds.
pub const SECOND: u64 = 1_000_000;

/// The distance, in whole units, at which food stops being visible.
pub const VISION_RANGE: i64 = 1000;

/// Radius of a cell's body; its organs sit on this circle.
pub const BODY_RADIUS: i64 = 50_000_000;

/// Radius of a food item.
pub const FOOD_RADIUS: i64 = 10_000_000;

/// Number of founder cells.
pub const FOUNDERS: usize = 20;

/// Number of food items placed at the start.
pub const INITIAL_FOOD: usize = 10_000;

/// Number of controller units of a founder cell.
pub const FOUNDER_UNITS: usize = 100;

} // verus!
