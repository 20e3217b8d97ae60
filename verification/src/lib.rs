//! A lightweight saga-coordinator core: a time-keyed transaction store, a
//! per-participant substate aggregation rule, the confirm/abort protocol,
//! and a periodic expiration sweep.
pub mod codec;
pub mod handler;
pub mod registrator;
pub mod state_tracker;
