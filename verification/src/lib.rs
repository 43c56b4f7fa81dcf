//! A tic-tac-toe engine for square boards of any size: the board, the
//! cursor that walks its free squares, the evaluation of the position, the
//! picture of the board, and the course of one game between a player at the
//! keyboard and a player who moves at random.

pub mod board;
pub mod cell;
mod chance;
pub mod circuit;
pub mod evaluator;
pub mod navigator;
pub mod render;
pub mod session;

pub use board::GameMatrix;
pub use cell::CellState;
pub use evaluator::WinState;
pub use navigator::Direction;
pub use session::{command_for, first_player, Command, Key, Reply, Session};
