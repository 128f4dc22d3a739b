//! Log triage: patterns are mined from the warning and error call sites of a
//! source tree, compiled, and used to sort the lines of a log into families.

pub mod chars;
pub mod classifier;
pub mod clock;
pub mod config;
pub mod engine;
pub mod fetcher;
pub mod miner;
pub mod query;
pub mod report;
pub mod retry;
pub mod text;
pub mod warp_time;
