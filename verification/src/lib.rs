//! Aggregation core for a honeypot monitoring dashboard.
//!
//! The library turns raw event rows (sessions, authentication attempts,
//! commands, downloads) into presentation-ready views: a per-IP rollup with
//! activity counts and first/last-seen times, a per-minute trend of
//! authentication outcomes, and a per-IP chronological list of attempts.
//! Absolute timestamps are epoch seconds in the store's frame; the reference
//! "now" is always passed in by the caller, so the core is deterministic.

pub mod aggregate;
pub mod error;
pub mod model;
pub mod timefmt;
pub mod views;
