//! Core of an 8x8 Othello engine: bitboard move generation, NegaScout search
//! with a transposition table, an exact endgame solver, and an opening book
//! with symmetry-aware lookup.
//!
//! A position is a pair of 64-bit occupancy maps, one for the side to move
//! ("mover") and one for the other side ("opponent"); bit `y * 8 + x` stands
//! for the square in file `x` and rank `y`.

pub mod bits;
pub mod board;
pub mod book;
pub mod cache;
pub mod eval;
pub mod interface;
pub mod laws;
pub mod movegen;
pub mod proto;
pub mod search;
pub mod solver;
pub mod stats;
pub mod sym;
pub mod timing;
