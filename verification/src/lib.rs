//! A Xiangqi (Chinese chess) engine: a verified board state machine with
//! per-piece legal-move generation, move application and undo with history,
//! and an alpha-beta game-tree search with iterative deepening over a
//! pluggable position evaluator.

pub mod ai;
pub mod controller;
pub mod evaluator;
pub mod game;
pub mod laws;
pub mod rules;

pub use game::Board;

pub use rules::Piece;
pub use rules::Side;
