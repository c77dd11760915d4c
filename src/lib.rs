//! Simulation core of a top-down action game: per-tick overlap detection,
//! combat resolution, containment against walls, and compaction of a level's
//! wall grid into a small set of collider rectangles.
//!
//! Everything is integer valued. Lengths are in world units
//! (`UNITS_PER_PIXEL` of them per pixel) and times in microseconds.

pub mod geometry;
pub mod timer;
pub mod world;
pub mod collision;
pub mod health;
pub mod combat;
pub mod movement;
pub mod levels;
pub mod schedule;
pub mod player;
pub mod enemy;
pub mod map;
pub mod camera;
