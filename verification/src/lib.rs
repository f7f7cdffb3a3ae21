//! Ultimate tic-tac-toe: bitboard game state, move generation, Zobrist
//! hashing, board front ends and the dataset codec used by the bench tools.

pub mod bits;
pub mod ai;
pub mod zobrist;
pub mod rng;
pub mod board;
pub mod game;
pub mod bench;
pub mod strategy_random;
pub mod dataset;
pub mod strategy_mcts;
