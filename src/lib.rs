//! An N×N line-filling game and a verified alpha-beta search over it.
pub mod game;
pub mod key;
pub mod memo;
pub mod ai;
pub mod play;
