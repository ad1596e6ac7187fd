//! A lambda-lifting robot: the mine simulator, board parsing and printing,
//! path finding over the mine and the search engines that play it.

pub mod astar;
pub mod board;
pub mod brushfire;
pub mod dlist;
pub mod driver;
pub mod evaluate;
pub mod fuzzer;
pub mod game_tree;
pub mod heuristics;
pub mod path;
pub mod path_find;
pub mod pathlist;
pub mod pattern;
pub mod play;
pub mod precise;
pub mod state;
pub mod targets;
pub mod text;
