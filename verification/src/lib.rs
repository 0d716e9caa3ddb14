//! Solver for the LinkedIn "Queens" puzzle: recover a colored N x N board
//! from a screenshot and compute a marker placement that satisfies the
//! per-row, per-column, diagonal-adjacency and per-region constraints.

pub mod errors;
pub mod game_logic;
pub mod html_parser;
pub mod image_processor;
