//! Day-by-day puzzle solvers over small textual inputs: a line-oriented
//! input abstraction shared by all of them, and the solvers themselves —
//! calibration digits, the cube game, the schematic scanner with its
//! one-cell adjacency rule, and scratchcards.

pub mod calibration;
pub mod cards;
pub mod cubes;
pub mod error;
pub mod input;
pub mod scan;
pub mod text;
