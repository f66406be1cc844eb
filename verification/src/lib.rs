pub mod deck;
pub mod game;
pub mod rng;
pub mod sim;
