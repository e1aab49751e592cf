//! A paginated log-retrieval engine.
//!
//! The crate drains an append-only change log for a collection, page by
//! page, into an ordered in-memory result, honoring an optional record cap
//! and an optional upper time boundary.  The log storage itself is an
//! externally supplied capability behind the [`log::Log`] trait; the
//! retrieval engine is agnostic to what backs it.

pub mod log;
pub mod operator;
pub mod records;
