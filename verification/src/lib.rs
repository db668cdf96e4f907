//! Watches a stream of blockchain blocks for contract calls addressed to a
//! configured set of accounts, correlates each transaction with its chain of
//! execution receipts across blocks, and turns every terminal successful
//! outcome into normalized call records.

pub mod correlation;
pub mod decoder;
pub mod filter;
pub mod laws;
pub mod pipeline;
pub mod queries;
pub mod seeder;
pub mod sizes;
pub mod types;
pub mod watchlist;
