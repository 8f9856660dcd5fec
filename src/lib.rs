//! Target assignment and straight-line steering for a swarm of exploring robots.
//!
//! Positions are fixed-point world coordinates (integers), so every computation
//! of the simulation core is exact and its behaviour is stated and proved.

pub mod geometry;
pub mod simulation;
pub mod steering;
pub mod targeting;
pub mod world;
