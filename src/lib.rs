//! Exact deduction for a hidden-role card game: enumerating decks and role
//! assignments, filtering them against what the players claimed, counting
//! the decks behind each claim, and building the tree of possible true
//! claims with their probabilities.

pub mod combinatorics;
pub mod counter;
pub mod deduction;
pub mod deck;
pub mod election;
pub mod error;
pub mod filter_engine;
pub mod game_configuration;
pub mod history;
pub mod information;
pub mod input;
pub mod player_state;
pub mod policy;
pub mod queries;
pub mod report;
pub mod roles;
pub mod rotation;
pub mod secret_role;
pub mod session;
pub mod teams;
pub mod tree;
