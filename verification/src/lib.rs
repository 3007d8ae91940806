//! A local-search optimizer for closed tours over a set of mandatory
//! waypoints and a small set of relocatable "station" waypoints.
//!
//! The objective is a weighted sum of squared Euclidean segment lengths:
//! edges touching only mandatory waypoints pay a constant multiplier on
//! each endpoint, edges touching a station do not.  The library holds the
//! deterministic pseudo-random engine, the all-pairs shortest-distance
//! oracle, the tour state with its score model, the neighborhood moves of
//! the annealing search, and the shortest-path restoration pass.  The
//! caller drives the annealing loop, supplying the wall-clock schedule and
//! the Metropolis acceptance decision for score-worsening moves.

pub mod geometry;
pub mod rng;
pub mod score;
pub mod oracle;
pub mod state;
pub mod ops;
pub mod neighbors;
pub mod engine;
pub mod restore;
