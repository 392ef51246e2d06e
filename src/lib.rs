pub mod dictionary;
pub mod grid;
pub mod solution;
pub mod solver;

pub use solution::Solution;
pub use solver::Solver;
