//! A deterministic core for simulating a population of evolving cells.
//!
//! Cells live in a plane, see nearby food through their eyes, feed a
//! recurrent controller with what they see, drive their flagella with what
//! the controller puts out, spend energy as time goes by, die when they run
//! short of it and divide, with mutation, when they have gathered enough.
//!
//! The library keeps the registry of entities and decides every step of a
//! fixed tick. It computes in fixed point, so that a run is the same on every
//! machine. What it leaves to its caller is the geometry and the chance: the
//! caller integrates motion, answers which shapes overlap, and brings samples
//! of the standard normal distribution.
//!
//! * `fixed`, `timer`, `samples`, `params`: scalars, timers, the random
//!   source and the constants.
//! * `world`: the registry's data and its mathematical model.
//! * `registry`: creation and destruction of entities.
//! * `feeding`, `sensing`, `thinking`, `lifecycle`: the stages of a tick.
//! * `schedule`: the setup, the order of the stages, and the bookkeeping.
//! * `laws`: what holds of all of it.

pub mod feeding;
pub mod fixed;
pub mod laws;
pub mod lifecycle;
pub mod params;
pub mod registry;
pub mod samples;
pub mod schedule;
pub mod sensing;
pub mod thinking;
pub mod timer;
pub mod world;
