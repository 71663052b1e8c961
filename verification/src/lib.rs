//! A Monte Carlo tree search engine for Connect Four with popout.

pub mod board_laws;
pub mod clock;
pub mod connect_four;
pub mod fixedpoint;
pub mod game_search;
pub mod mcts;
pub mod rng;
pub mod vacuum;
