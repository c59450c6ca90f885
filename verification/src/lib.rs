//! Maze generation on a grid of walled cells, and the integer side of
//! rendering escape-time fractals: colour-map selection, row mirroring of
//! symmetric frames, pixel packing, iteration budgets and viewer settings.

pub mod wall;
pub mod grid;
pub mod maze;
pub mod rng;
pub mod backtracker;
pub mod prims;
pub mod solve;
pub mod bfs;
pub mod geometry;
pub mod algorithms;
pub mod colormap;
pub mod frame;
pub mod pixel;
pub mod threads;
pub mod viewer;
