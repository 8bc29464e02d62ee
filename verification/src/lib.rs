//! A two-dimensional flocking simulation in fixed-point arithmetic.
//!
//! Agents follow the three flocking rules (cohesion towards the centroid,
//! alignment with the neighbours, separation from the neighbours that crowd)
//! and a soft boundary rule that pulls them back into a rectangular world.
//! Every real number is held as a count of millionths in a machine integer,
//! so that a run is an exact function of its initial state.
//!
//! The operations accept agents within a million grid units of the origin.
//! Nothing holds an agent back when it advances, neither at the edge of its
//! world nor at the edge of that range: `is_valid` tells whether a flock may
//! be given to the next tick.
//!
//! - [`fixed`]: the scalars and their rounding.
//! - [`vector`]: plane vectors, their means and their normalisation.
//! - [`boids`]: the agent, its kinematics, the four rules, random agents.
//! - [`flock`]: one tick over a whole flock.
//! - [`universe`]: the grid, its mapping to pixels, the discs of a frame.
//! - [`simulation`]: what the driver decides at each reading of the clock.
//! - [`theorems`]: what holds of the rules whatever the flock.
//! - [`random`]: the random source, taken on trust.

pub mod boids;
pub mod fixed;
pub mod flock;
pub mod random;
pub mod simulation;
pub mod theorems;
pub mod universe;
pub mod vector;
