//! The game core: geometry of pieces and the rules of the board.

mod random;
pub mod shape;
pub mod tetris;
pub mod theorems;
