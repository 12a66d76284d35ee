//! Rule engine of a connect-the-dots puzzle: a fixed-size grid of colored
//! cells on which a player draws a trail of same-colored adjacent cells,
//! optionally closes it into a loop for a whole-board color wipe, and the
//! cleared cells are compacted away and refilled with fresh random colors.

pub mod board;
pub mod color;
pub mod grid;
