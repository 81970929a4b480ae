pub mod game;
pub mod grid;
pub mod input;
pub mod line;
pub mod rng;
pub mod tile;
