//! A verified time-accounting engine.
//!
//! The crate keeps a durable-store model of work items, work-session events,
//! an expected-time ledger and a little configuration, repairs the event log
//! after an unclean shutdown, and turns the raw event log into worked-duration
//! and balance figures.

pub mod business_logic;
pub mod database;
