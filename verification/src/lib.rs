//! A force-directed layout engine for directed dependency graphs.
//!
//! Given a set of named nodes and dependency edges between them, the engine
//! moves nodes through 2D space one discrete tick at a time: connected nodes
//! attract, all pairs repel, every node feels a soft pull toward the origin,
//! and a hard circular clamp keeps the layout inside a maximum diameter.
//!
//! All geometry is carried in fixed-point integers: positions are plain
//! integer coordinates and the tunable coefficients are scaled by
//! [`fixed::SCALE`] (one unit is `1 / SCALE`).

pub mod fixed;
pub mod graph;
pub mod laws;
pub mod params;
pub mod sim;
