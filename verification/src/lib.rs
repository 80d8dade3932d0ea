//! An analytics engine over tabular datasets, tic-tac-toe search agents, and
//! the decision logic of a caching chatbot, each verified against its
//! contracts.

pub mod dataset;
pub mod query;
pub mod analytics;
pub mod board;
pub mod minimax;
pub mod zobrist;
pub mod clock;
pub mod alphabeta;
pub mod search;
pub mod session_cache;
pub mod chatbot;
