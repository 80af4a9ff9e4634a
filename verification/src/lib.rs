//! Per-turn planning for an ant colony on a hexagonal cell graph.
//!
//! The planner finds the nearest resource cells by a multi-source breadth-first
//! search, grows the controlled footprint greedily under an ant budget, and
//! turns the footprint into beacon strengths.
//!
//! - [`board`]: the cell graph and the per-turn snapshot.
//! - [`search`]: the breadth-first search and what its result is.
//! - [`expand`]: growth of the footprint, round by round.
//! - [`allocate`]: beacon strengths and reinforcement.
//! - [`turn`]: one whole turn of planning.
//! - [`command`]: the command line that carries the beacons.

pub mod board;
pub mod search;
pub mod expand;
pub mod allocate;
pub mod turn;
pub mod command;
