//! A Minesweeper board whose rules are stated as contracts and proved.
//!
//! [`GameBoard`] owns the grid. Its mathematical model is [`BoardView`]:
//! every operation of the board is specified as a function on that model.
//!
//! - [`cell`]: one square of the grid and its glyph.
//! - [`model`]: the model of a board and what each operation makes of it.
//! - [`board`]: the board itself: construction, reveal, flag, state, text.
//! - [`command`]: lines of input read as commands, and turns played by them.
//! - [`text`]: the board as text.
//! - [`random`]: the random numbers that mine laying draws.
//! - [`flood`]: what holds while a reveal spreads.
//! - [`lemmas`]: facts about the model that the proofs rest on.
//! - [`laws`]: what holds of the game as a whole.

pub mod board;
pub mod cell;
pub mod command;
pub mod flood;
pub mod laws;
pub mod lemmas;
pub mod model;
pub mod random;
pub mod text;

pub use board::{GameBoard, COLS, MINES, ROWS};
pub use cell::Cell;
pub use command::Command;
pub use model::{adjacent, BoardView, GameState};
