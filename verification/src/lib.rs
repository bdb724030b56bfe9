//! Polls a tournament bracket for completed matches and decides when a
//! newly completed match is worth announcing.
//!
//! The decision core is verified: the progress tracker (baseline counting),
//! the RFC 3339 timestamp parser, formatter and ordering, the latest-match
//! selector, and the per-cycle state transition. I/O (fetching match data,
//! delivering notifications, console output) lives outside the library.

pub mod config;
pub mod cycle;
pub mod record;
pub mod selector;
pub mod timestamp;
pub mod tracker;
