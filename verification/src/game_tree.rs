//! The engines that plan a whole game: each answers the moves to play.

pub mod bblum;
pub mod cargomax;
pub mod octopus;
pub mod simple;
pub mod tobruos;
