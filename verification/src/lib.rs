//! A verified Minesweeper engine: board generation, flood-fill reveal,
//! flagging, win/loss detection and level progression.

pub mod cascade;
pub mod clock;
pub mod game;
pub mod grid;
pub mod random;
pub mod rules;
