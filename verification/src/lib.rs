pub mod board;
pub mod display;
pub mod rng;
pub mod rules;
