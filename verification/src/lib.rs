//! A small in-memory market engine: per-asset order books with price-time
//! priority, portfolio accounting with free and locked balances, and
//! all-or-nothing event processing.

// What runs.
pub mod error;
pub mod ids;
pub mod account;
pub mod order;
pub mod book;
pub mod asset;
pub mod portfolio;
pub mod market;
pub mod engine;
pub mod game;
pub mod models;

// What it is held to.
pub mod model;
pub mod laws;
pub mod refusals;
pub mod settlement;

// Why it holds.
pub mod sums;
pub mod supply;
pub mod resting;
pub mod locks;
pub mod growth;
