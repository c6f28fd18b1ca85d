//! Per-tick collision detection for a flight-combat simulation: a uniform
//! grid for the broad phase, an exact circle test for the narrow phase, a
//! static terrain baseline, and the two passes that turn positions into
//! deduplicated collision events.
pub mod bounded_queue;
pub mod circle;
pub mod index;
pub mod bucket;
pub mod grid;
pub mod collision;
pub mod connection;
pub mod entity;
pub mod player_missile;
