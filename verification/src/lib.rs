pub mod board;
pub mod checker;
pub mod reader;
pub mod solver;
pub mod verify;

pub use board::grid_num;
pub use board::Sudoku;
pub use checker::check_puzzle;
pub use reader::read_puzzle;
pub use solver::solve_puzzle;
pub use solver::SolveOutcome;
