//! Runtime row-activity counters for a database process.
//!
//! The crate tracks two cumulative totals, rows written and rows read, and
//! gives them a durable on-disk form: a small key/value snapshot document
//! that the hosting process rewrites on a fixed cadence and reads back when
//! the database is reopened.

pub mod snapshot;
pub mod stats;
