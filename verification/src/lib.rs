//! Integer geometry and bookkeeping for procedural placement.
//!
//! - [`tile`]: integer tile positions and order-preserving removal of repeated tiles.
//! - [`spawn`]: a set of spawn points, queryable by rectangular region.
//! - [`grid`]: the background grid and active list that drive Bridson's Poisson
//!   disk sampling.
pub mod grid;
pub mod spawn;
pub mod tile;
