//! Grid visibility and geometry: symmetric recursive shadowcasting over a
//! bounded grid, plus circle sampling, facing sectors, line rasterisation and
//! degree arithmetic.

pub mod angle;
pub mod creature;
pub mod geometry;
pub mod grid;
pub mod mobs;
pub mod shadowcast;
pub mod tiles;
