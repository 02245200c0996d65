pub mod arena;
pub mod board;
pub mod game_data;
pub mod grid;
pub mod group;
pub mod hex;
