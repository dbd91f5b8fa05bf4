//! Rule engine for a 4x4 sliding-tile merge puzzle.
//!
//! The board is a row-major sequence of 16 cells; a cell is empty (0) or
//! holds a power of two that is at least 2. The engine provides the four
//! directional move operations, random tile spawning, and the terminal-state
//! queries. Every move operation is specified against a mathematical model
//! of the scan algorithm, and the game's structural laws (conservation of
//! tile values, no-op moves leaving the board unchanged, at most one merge
//! per destination cell, monotonicity of the maximum value) are proved from
//! that model.

pub mod board;
pub mod laws;
pub mod lemmas;
pub mod model;

pub use board::Grid;
pub use board::score_to_colour;
pub use model::Coord;
pub use model::Dir;
