//! A causally-versioned, in-memory key-value store.
//!
//! Values are tagged with vector clocks ([`version::VectorClock`]); writes
//! that are causally stale are rejected instead of silently overwriting
//! newer data, and concurrent (incomparable) writes to the same key are
//! retained side by side as siblings until a later write dominates them.

pub mod actor;
pub mod cluster;
pub mod store;
pub mod util;
pub mod version;
