//! Evolution of finite-memory strategies in repeated n-player games.
//!
//! A population of lookup-table strategies is aggregated by genome, scored
//! against every combination of distinct genomes, reweighted by a selection
//! rule and resampled with mutation, generation after generation. All shares,
//! scores and weights are kept as exact integers over a common denominator.
pub mod agent;
pub mod types;
pub mod ledger;
pub mod round;
pub mod selection;
pub mod outside;
pub mod game;
