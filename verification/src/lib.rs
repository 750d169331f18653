//! Decision core of a liquidation engine for an on-chain lending market.
//!
//! The engine watches borrower accounts, queues the ones that become
//! liquidatable, hands them out in bounded batches and decides, from the
//! outcome of each absorb transaction, whether an account is done, retried
//! or abandoned. Every remote call is left to the caller: the code here is
//! a deterministic state machine over plain values.

pub mod account;
pub mod config;
pub mod laws;
pub mod model;
pub mod outcome;
pub mod policy;
pub mod records;
pub mod scheduler;
pub mod seqs;
pub mod source;
