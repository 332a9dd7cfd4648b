//! A Minesweeper board engine.
//!
//! The engine owns the grid, lays the mines once the first move is known
//! (so that the first move is never a loss), uncovers cells with a flood fill
//! through regions without neighbouring mines, and detects a win or a loss.
//! Every executable function carries a contract over the mathematical model
//! [`BoardView`], and the rules of the game are proved as laws over that model.

pub mod board;
pub mod cell;
pub mod flood;
pub mod game;
pub mod input;
pub mod laws;
pub mod layout;
pub mod mines;
pub mod model;
pub mod picture;
pub mod positions;
mod random;
pub mod rules;
pub mod status;

pub use board::Board;
pub use cell::Cell;
pub use input::InputError;
pub use model::BoardView;
pub use status::BoardError;
pub use status::Outcome;
pub use status::Phase;
