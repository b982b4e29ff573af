//! A falling-block puzzle engine: pieces, a board, gravity, shifting,
//! rotation and line clearing, with machine-checked contracts.

pub mod driver;
pub mod game;
pub mod layout;
