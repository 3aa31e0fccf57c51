//! An in-process ephemeral key-value store with time-based expiry, and the
//! four views the service derives from it: a response cache, a sliding-window
//! rate limiter, a session table and a token revocation set.
//!
//! Every operation takes the current instant as an explicit argument, as
//! seconds since the Unix epoch; the caller reads the clock and holds the
//! lock that guards each store instance, so each operation is one atomic
//! step of that store.

pub mod cache;
pub mod rate_limit;
pub mod revocation;
pub mod session;
pub mod store;
mod text;
