//! Monte Carlo tree search over an abstract turn-based game.
//!
//! The game is seen only through the [`game::Game`] trait. The search tree
//! lives in an arena of [`node::MctsNode`] values addressed by index; what
//! makes such an arena a tree is said in [`tree`]. [`search::Mcts`] drives
//! selection, expansion, rollout and backpropagation, and [`determinism`]
//! says what of a search the random source decides. Two small games,
//! [`tic_tac_toe`] and [`coin_call`], meet the contract.

pub mod coin_call;
pub mod determinism;
pub mod game;
pub mod node;
pub mod rng;
pub mod search;
pub mod tic_tac_toe;
pub mod tree;
