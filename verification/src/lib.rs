//! Square-grid mazes: carving a perfect maze by randomized depth-first
//! backtracking, solving one by breadth-first search, and rebuilding the
//! shortest route. Two small games live beside them: a rock-paper-scissors
//! strategy simulator and a word chain.

pub mod square;
pub mod grid;
pub mod text;
pub mod random;
pub mod generator;
pub mod solver;
pub mod path;
pub mod solution;
pub mod thinking;
pub mod player;
pub mod shiritori;
