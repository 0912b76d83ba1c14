//! A two-player trail game on a rectangular grid, with a territory evaluator
//! and a depth-bounded alpha-beta search that picks the next move.
//!
//! Every cell a player has visited stays blocked; the player who cannot move
//! loses. The library holds the board, the rules for applying and undoing a
//! move, the flood-fill evaluation of a position and the search built on it.

pub mod board;
pub mod direction;
pub mod play;
pub mod request;
pub mod search;
pub mod territory;

pub use board::{Board, BoardError, BoardView, Piece, INF};
pub use direction::{next_op, next_pos, prev_op, Operation, Position};
pub use play::{ai_response, cui, key_move, Step, Turn, CONSOLE_DEPTH};
pub use request::{Point, Request};
pub use search::DEPTH;
