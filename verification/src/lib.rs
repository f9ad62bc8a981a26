//! A snake game on a toroidal grid, with a breadth-first autopilot.
//!
//! The crate holds the simulation, the route search and the painting of a
//! frame; a window, a keyboard and a clock are supplied by whoever drives it.

pub mod bfs;
pub mod census;
pub mod direction;
pub mod distance;
pub mod game;
pub mod graphics;
pub mod random;
pub mod route;
pub mod search;
pub mod topology;
