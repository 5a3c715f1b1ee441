//! Position-based particle simulation: Verlet integration with iterative
//! distance constraints and an axis-aligned containment box.
//!
//! All quantities are fixed-point integers so that every step is exact and
//! reproducible. Lengths are in whatever unit the host picks (the demo scene
//! uses thousandths of a world unit); time is in milliseconds; mass is in
//! millionths of a unit mass.

pub mod vec3;
pub mod particle;
pub mod link;
pub mod world;
