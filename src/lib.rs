//! A two-player game of matches on a triangular board, as a verified state
//! machine: cursor navigation over the matches still present, removal locked
//! to one row per turn, scores, turn changes and the end of the game.
pub mod board;
pub mod game;

pub use game::{Game, GameError, PointerToSelected, PossibleMoves, PossiblePlayers};
