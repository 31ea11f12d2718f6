//! A job-queue broker: named priority queues, an in-progress set, a
//! per-client ledger, and the dispatch rules that tie them together.
pub mod parser;
pub mod trusted;
pub mod logic;
pub mod session;
