//! Tic-tac-toe move selection: the rules of the game, an exhaustive minimax
//! search, and a Monte Carlo tree search over an index-addressed node arena.

pub mod board;
pub mod display;
pub mod mcts;
pub mod minimax;
pub mod playout;
pub mod random;
pub mod search;
pub mod strategy;
pub mod ucb;
