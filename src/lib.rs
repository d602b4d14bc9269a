//! Wordle score reports: a parser for shared results, a binary codec for the
//! stored form, a per-player leaderboard kept in `sled`, statistics over it, and
//! the decisions of the history backfill.

pub mod bot;
pub mod codec;
pub mod loader;
pub mod model;
pub mod parser;
pub mod stats;
pub mod store;
