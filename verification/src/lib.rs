//! Rules-and-search core of an American-checkers engine: a board model on the
//! 32 dark squares, a move generator that enforces the mandatory-capture law
//! and multi-jump chaining, a static evaluator, and an alpha-beta search with
//! a parallel fan-out variant.

pub mod ab_ai;
pub mod ai;
pub mod board;
pub mod eval_moves;
pub mod gen;
pub mod laws;
pub mod mv;
pub mod rules;

pub use board::Board;
pub use board::Color;
pub use board::Square;
pub use mv::Move;
