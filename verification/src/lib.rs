//! Parity games and variability parity games: compact game representation,
//! reachability trimming, predecessor indices, and an attractor-based
//! recursive solver, together with the surrounding toolkit types.

pub mod aterm;
pub mod csr;
pub mod data_expression;
pub mod dumpfiles;
pub mod format;
pub mod game;
pub mod gui;
pub mod permutation;
pub mod predecessors;
pub mod reachability;
pub mod repeat;
pub mod variability;
pub mod verbosity;
pub mod version;
pub mod wire;
pub mod zielonka;
