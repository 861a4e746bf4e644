//! A solver library for Flow puzzles: a rectangular board holds pairs of
//! coloured endpoints, and every pair has to be joined by a path of its colour
//! so that the paths cover the board without sharing a cell.

pub mod astar;
pub mod backtracking;
pub mod board;
pub mod fill;
pub mod laws;
pub mod loader;
pub mod model;
pub mod paths;
pub mod point_set;
pub mod reach;
pub mod regions;
pub mod sat;

pub use board::{Cell, Colour, Endpoints, Grid, GridError, Point};
