//! A broad-phase spatial index over circles and axis-aligned boxes with
//! integer coordinates, bucketed into a uniform grid of square cells.
pub mod geometry;
pub mod grid;
