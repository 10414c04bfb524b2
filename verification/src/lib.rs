//! A verified cache for a daily foreign-exchange reference-rate series.
//!
//! The crate stores one rate snapshot per calendar date in an embedded
//! ordered key-value store, keyed by an order-preserving date encoding,
//! and keeps a single "current" pointer naming the most recent committed
//! date.  Bootstrap fills an empty store from full remote history;
//! reconciliation compares the remote latest date with the local current
//! date on each tick and commits only the missing window.

pub mod date;
pub mod codec;
pub mod error;
pub mod records;
pub mod reply;
pub mod snapshot;
pub mod store;
pub mod sync;
