//! Tool-execution and turn-accounting core for an interactive coding agent.
//!
//! The crate provides the bookkeeping that a coding-agent runtime needs
//! around its two tool entry points: bounded subprocess execution and a
//! line-range code reader.  It covers output limits and truncation notices
//! for captured process output, a repeat-command circuit breaker, a
//! per-turn output byte budget, and a per-path ledger of already-served
//! source line ranges.

pub mod breaker;
pub mod budget;
pub mod capture;
pub mod exec;
pub mod interval_set;
pub mod ledger;
pub mod read_code;
pub mod session;
pub mod text;
pub mod turn;
