//! Verified game rules of a small top-down asteroid shooter: the tile grid
//! and its parsing, spawn-zone selection, wall-candidate enumeration,
//! grid traversal for line of sight, asteroid sizes and how they break up,
//! the outcome of an entity reaching zero health, spawn-zone draws, movement
//! and camera-debug input, and the path-builder calls for vector shapes.

pub mod asteroid;
pub mod combat;
pub mod text;
pub mod level;
pub mod ship;
pub mod random;
pub mod spawn;
pub mod path;
pub mod camera;
