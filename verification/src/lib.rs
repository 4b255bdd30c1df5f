//! Simulation core of a real-time 2D entity simulation: a uniform-grid
//! spatial index, a hierarchical transform propagator, a per-tick collision
//! resolver for axis-aligned rectangles, and a visibility culler.
//!
//! All coordinates are integers. Entities are plain `u64` identifiers owned
//! by the surrounding entity store; this crate only reads and writes
//! per-entity fields handed to it as plain values.

pub mod camera;
pub mod collision;
pub mod components;
pub mod entity;
pub mod geom;
pub mod hierarchy;
pub mod sim;
pub mod spatial_hash;
pub mod transform;
