//! A liveness registry: clients announce that they are alive until some
//! deadline, and anyone may ask whether a named client is still within its
//! announced horizon. Stale records are evicted lazily, as a side effect of
//! the query that observes them.

pub mod auth;
pub mod laws;
pub mod order;
pub mod registry;

pub use auth::Decision;
pub use order::NameCmp;
pub use registry::Outcome;
pub use registry::Registry;
pub use registry::ServiceRecord;
