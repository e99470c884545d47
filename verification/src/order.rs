//! The order record: the sole persisted entity, and the response shape
//! handed back to callers.
use vstd::prelude::*;

verus! {

/// Seconds between an order's creation and its ready time: 15 minutes.
pub const READY_DELAY_SECONDS: i64 = 900;

/// Seconds an idempotency-cache entry lives after it is written: 10 minutes.
pub const CACHE_TTL_SECONDS: i64 = 600;

/// An order as callers see it: the store-assigned identifier, the dish it
/// refers to, and the time the order will be ready.
#[derive(Clone, Copy, Debug, PartialEq, Eq, Structural)]
pub struct Order {
    pub id: i32,
    pub dish_id: i32,
    /// Seconds since the Unix epoch; fixed at creation as creation time plus
    /// [`READY_DELAY_SECONDS`].
    pub ready_time: i64,
}

/// A row of the record store. Beyond the response fields it carries the
/// table the order belongs to and the soft-delete flag.
#[derive(Clone, Copy, Debug, PartialEq, Eq, Structural)]
pub struct OrderRow {
    pub id: i32,
    pub table_id: i32,
    pub dish_id: i32,
    pub ready_time: i64,
    pub deleted: bool,
}

/// The response shape of a stored row: everything but the table and the
/// soft-delete flag.
pub open spec fn order_of_row(r: OrderRow) -> Order {
    Order { id: r.id, dish_id: r.dish_id, ready_time: r.ready_time }
}

} // verus!
