//! Grid-walk path planning for a drone that collects value from the cells it
//! visits: the parameter types, the move geometry on a square grid, the
//! bookkeeping of the grid and of the walk, and the text format of a grid file.
pub mod algorithms;
pub mod grid;
pub mod grid_text;
pub mod utils;

pub use algorithms::PathPlanningAlgorithm;
pub use utils::{in_bounds, AlgoSpecificParams, PathPlanningParams, Position};
