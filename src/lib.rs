//! Attack generation and position state for a bitboard chess engine.
pub mod bits;
pub mod types;
pub mod utils;
pub mod attacks;
pub mod board;
pub mod fen;
pub mod movegen;
pub mod moves;
