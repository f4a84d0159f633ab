pub mod board;
pub mod counting;
pub mod input;
mod random;
pub mod render;
pub mod session;
pub mod state;
pub mod tile;
