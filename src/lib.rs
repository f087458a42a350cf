//! A brick-breaking arcade simulation on exact fixed-point geometry: line
//! solving, rectangles and their dilation, swept point-versus-boundary
//! collision, and the combo scoring engine.

pub mod arith;
pub mod block;
pub mod collider;
pub mod convex;
pub mod dilate;
pub mod game;
pub mod level;
pub mod math;
pub mod pickups;
pub mod rect;
pub mod rng;
pub mod scoring;
