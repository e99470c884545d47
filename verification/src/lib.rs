//! Order management for a restaurant: registering dish orders for a table,
//! fetching a single order or a keyset-paginated list of a table's active
//! orders, and cancelling an order by soft deletion.
//!
//! The heart of the crate is the order service in [`service`], which
//! coordinates a durable record store ([`store`]) with a short-lived
//! idempotency cache ([`cache`]). The record store assigns order identity and
//! enforces soft deletion; the cache deduplicates retried creation requests
//! on a best-effort basis.
pub mod cache;
pub mod clock;
pub mod laws;
pub mod order;
pub mod service;
pub mod store;
