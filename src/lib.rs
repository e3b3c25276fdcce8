//! Decision core of a chess engine: a Monte-Carlo tree search over an arena of
//! nodes and edges, with PUCT selection, virtual loss, single-flight expansion,
//! backpropagation, terminal detection and the choice of the move to play.
pub mod chess;
pub mod puct;
pub mod utils;
pub mod tree;
pub mod expand;
pub mod search;
pub mod uci;
pub mod network;
pub mod loader;
pub mod time;
