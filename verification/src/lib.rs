//! The engine of a sliding-tile merge game on a four by four board.
//!
//! `line` holds the model of one line and the verified slide of it, `board`
//! the game session with its four moves and the placing of new tiles, `keys`
//! the mapping from key presses to commands, `layout` where each cell stands
//! on the screen, `laws` what every slide keeps, and `dice` the random draws.

pub mod line;
pub mod board;
pub mod laws;
pub mod keys;
pub mod layout;
mod dice;
