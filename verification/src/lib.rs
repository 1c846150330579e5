//! A client-side query cache: keys are associated with asynchronously
//! fetched results, concurrent fetches for one key-set are deduplicated,
//! per-key lifecycle state is tracked, and keys can be invalidated to force
//! a refetch while the stale value stays visible until the new one arrives.
//!
//! The cache itself is a deterministic state machine: the host performs the
//! actual asynchronous fetches and hands their outcomes back through
//! [`client::QueryClient::settle`].

pub mod client;
pub mod fetch;
pub mod laws;
pub mod state;
