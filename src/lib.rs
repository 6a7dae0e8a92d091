//! The board engine of a grid-reveal puzzle: a rectangular grid of cells,
//! mines laid on the first reveal away from the revealed cell, neighbour
//! counts, flood reveal, flags, and optional auto-flag / auto-reveal assists.

pub mod grid;
pub mod model;
pub mod board;
pub mod engine;
pub mod placement;
pub mod laws;
