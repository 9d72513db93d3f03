//! A grid world of routing tiles that carries on/off balls, one cell per tick.

pub mod tiles;
pub mod chunk;
pub mod cells;
pub mod ball;
pub mod store;
pub mod engine;
pub mod moves;
pub mod viewport;
pub mod sim;
pub mod laws;
pub mod stack;
pub mod lanes;
pub mod pairing;
pub mod upload;
