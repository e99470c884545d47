//! The order service: the four operations — create, fetch one, fetch a page,
//! delete — over the record store and the idempotency cache, and the error
//! taxonomy they surface.
use vstd::prelude::*;

use crate::cache::{cache_key, cache_lookup, cache_put, CacheEntryModel, IdempotencyCache};
use crate::clock::{now_seconds, CLOCK_MAX_SECONDS, CLOCK_MIN_SECONDS};
use crate::order::{Order, CACHE_TTL_SECONDS, READY_DELAY_SECONDS};
use crate::store::{
    find_visible, insert_spec, mark_deleted_spec, page_spec, RecordStore, StoreModel,
};

verus! {

/// What can go wrong, by operator response: absence, bad input, a dependency
/// out of reach (retryable), a dependency that failed an operation (not
/// retryable), and a violated internal invariant (fatal).
#[derive(Clone, Copy, Debug, PartialEq, Eq, Structural)]
pub enum ServiceError {
    /// The resource is absent or not visible under the given scope.
    NotFound,
    /// A malformed request part, such as an unreadable idempotency token.
    InvalidInput,
    /// The record store could not be reached; the caller may retry.
    StoreUnavailable,
    /// The record store was reached but failed the operation.
    StoreQueryFailed,
    /// The idempotency cache could not be reached; the caller may retry.
    CacheUnavailable,
    /// The idempotency cache was reached but failed the operation.
    CacheQueryFailed,
    /// An invariant was violated, such as a delete affecting several rows.
    InternalInconsistency,
}

impl ServiceError {
    /// The HTTP status each taxonomy member maps to.
    pub open spec fn status_code_spec(self) -> u16 {
        match self {
            ServiceError::NotFound => 404,
            ServiceError::InvalidInput => 400,
            ServiceError::StoreUnavailable => 503,
            ServiceError::CacheUnavailable => 503,
            ServiceError::StoreQueryFailed => 500,
            ServiceError::CacheQueryFailed => 500,
            ServiceError::InternalInconsistency => 500,
        }
    }

    /// Maps the error to its HTTP status: absence and bad input are
    /// client-correctable (404, 400), unavailability asks for a retry (503),
    /// and everything else is a generic server failure (500) that leaks no
    /// internal detail.
    pub fn status_code(&self) -> (c: u16)
        ensures
            c == self.status_code_spec(),
    {
        match self {
            ServiceError::NotFound => 404,
            ServiceError::InvalidInput => 400,
            ServiceError::StoreUnavailable => 503,
            ServiceError::CacheUnavailable => 503,
            ServiceError::StoreQueryFailed => 500,
            ServiceError::CacheQueryFailed => 500,
            ServiceError::InternalInconsistency => 500,
        }
    }
}

/// The delete outcome owed for a given affected-row count.
pub open spec fn delete_outcome_spec(rows_affected: u64) -> Result<(), ServiceError> {
    if rows_affected == 0 {
        Result::Err(ServiceError::NotFound)
    } else if rows_affected == 1 {
        Result::Ok(())
    } else {
        Result::Err(ServiceError::InternalInconsistency)
    }
}

/// Maps the store's affected-row count to the delete operation's outcome: no
/// row means the order was not visible, one row is success, and more than
/// one betrays a broken uniqueness invariant — fatal, never retried.
pub fn delete_outcome(rows_affected: u64) -> (r: Result<(), ServiceError>)
    ensures
        r == delete_outcome_spec(rows_affected),
{
    match rows_affected {
        0 => Err(ServiceError::NotFound),
        1 => Ok(()),
        _ => Err(ServiceError::InternalInconsistency),
    }
}

/// The byte content of an optional idempotency token.
pub open spec fn token_view(token: Option<Vec<u8>>) -> Option<Seq<u8>> {
    match token {
        Option::Some(t) => Option::Some(t@),
        Option::None => Option::None,
    }
}

/// The mathematical content of the whole service: the record store and the
/// idempotency cache.
#[verifier::ext_equal]
pub ghost struct ServiceModel {
    pub store: StoreModel,
    pub cache: Seq<CacheEntryModel>,
}

impl ServiceModel {
    pub open spec fn wf(self) -> bool {
        self.store.wf()
    }
}

/// The creation protocol. Without a token the request is unconditionally a
/// fresh insertion. With one, an unexpired cache entry under
/// `(table_id, dish_id, token)` answers the request verbatim and nothing
/// else moves; otherwise a row is inserted with ready time
/// [`READY_DELAY_SECONDS`] past `now` and the response is cached for
/// [`CACHE_TTL_SECONDS`].
pub open spec fn create_spec(
    s: ServiceModel,
    table_id: i32,
    dish_id: i32,
    token: Option<Seq<u8>>,
    now: i64,
) -> (ServiceModel, Order) {
    let ready_time = (now + READY_DELAY_SECONDS) as i64;
    match token {
        Option::None => {
            let inserted = insert_spec(s.store, table_id, dish_id, ready_time);
            (ServiceModel { store: inserted.0, cache: s.cache }, inserted.1)
        },
        Option::Some(tok) => {
            let key = cache_key(table_id, dish_id, tok);
            match cache_lookup(s.cache, key, now) {
                Option::Some(o) => (s, o),
                Option::None => {
                    let inserted = insert_spec(s.store, table_id, dish_id, ready_time);
                    let entry = CacheEntryModel {
                        key,
                        value: inserted.1,
                        expires_at: (now + CACHE_TTL_SECONDS) as i64,
                    };
                    (
                        ServiceModel {
                            store: inserted.0,
                            cache: cache_put(s.cache, entry),
                        },
                        inserted.1,
                    )
                },
            }
        },
    }
}

/// Soft deletion at the service: the store marks the row, and the
/// affected-row count becomes the outcome.
pub open spec fn delete_spec(s: ServiceModel, table_id: i32, id: i32) -> (
    ServiceModel,
    Result<(), ServiceError>,
) {
    let marked = mark_deleted_spec(s.store.rows, table_id, id);
    (
        ServiceModel {
            store: StoreModel { rows: marked.0, next_id: s.store.next_id },
            cache: s.cache,
        },
        delete_outcome_spec(marked.1 as u64),
    )
}

/// The order service: stateless logic over its two injected dependencies,
/// handed to it at construction.
pub struct State {
    store: RecordStore,
    cache: IdempotencyCache,
}

impl View for State {
    type V = ServiceModel;

    closed spec fn view(&self) -> ServiceModel {
        ServiceModel { store: self.store@, cache: self.cache@ }
    }
}

impl State {
    /// A service over the given store and cache.
    pub fn new(store: RecordStore, cache: IdempotencyCache) -> (s: Self)
        ensures
            s@.store == store@,
            s@.cache == cache@,
    {
        State { store, cache }
    }

    /// Inserts a new order row for the table, with ready time
    /// [`READY_DELAY_SECONDS`] past `now`, and returns the order under its
    /// store-assigned identifier. The cache is untouched.
    pub fn add_order(&mut self, table_id: i32, dish_id: i32, now: i64) -> (r: Order)
        requires
            old(self)@.wf(),
            old(self)@.store.next_id < i32::MAX as int,
            now + READY_DELAY_SECONDS <= i64::MAX,
        ensures
            final(self)@.store == insert_spec(
                old(self)@.store,
                table_id,
                dish_id,
                (now + READY_DELAY_SECONDS) as i64,
            ).0,
            final(self)@.cache == old(self)@.cache,
            r == insert_spec(
                old(self)@.store,
                table_id,
                dish_id,
                (now + READY_DELAY_SECONDS) as i64,
            ).1,
            final(self)@.wf(),
    {
        let ready_time = now + READY_DELAY_SECONDS;
        let id = self.store.insert(table_id, dish_id, ready_time);
        Order { id, dish_id, ready_time }
    }

    /// The creation protocol of [`create_spec`], at time `now`: a cache hit
    /// under the token answers verbatim with no store access; otherwise the
    /// order is inserted and, when a token was supplied, cached.
    pub fn create_order(
        &mut self,
        table_id: i32,
        dish_id: i32,
        idempotency_token: Option<Vec<u8>>,
        now: i64,
    ) -> (r: Order)
        requires
            old(self)@.wf(),
            old(self)@.store.next_id < i32::MAX as int,
            now + READY_DELAY_SECONDS <= i64::MAX,
        ensures
            final(self)@ == create_spec(
                old(self)@,
                table_id,
                dish_id,
                token_view(idempotency_token),
                now,
            ).0,
            r == create_spec(old(self)@, table_id, dish_id, token_view(idempotency_token), now).1,
            final(self)@.wf(),
    {
        match idempotency_token {
            None => self.add_order(table_id, dish_id, now),
            Some(token) => {
                match self.cache.get(table_id, dish_id, &token, now) {
                    Some(order) => order,
                    None => {
                        let order = self.add_order(table_id, dish_id, now);
                        self.cache.set_with_ttl(
                            table_id,
                            dish_id,
                            token,
                            order,
                            now,
                            CACHE_TTL_SECONDS,
                        );
                        order
                    },
                }
            },
        }
    }

    /// The creation protocol at the current wall-clock time.
    pub fn create_order_now(
        &mut self,
        table_id: i32,
        dish_id: i32,
        idempotency_token: Option<Vec<u8>>,
    ) -> (r: Order)
        requires
            old(self)@.wf(),
            old(self)@.store.next_id < i32::MAX as int,
        ensures
            exists|now: i64|
                {
                    &&& CLOCK_MIN_SECONDS <= now <= CLOCK_MAX_SECONDS
                    &&& final(self)@ == #[trigger] create_spec(
                        old(self)@,
                        table_id,
                        dish_id,
                        token_view(idempotency_token),
                        now,
                    ).0
                    &&& r == create_spec(
                        old(self)@,
                        table_id,
                        dish_id,
                        token_view(idempotency_token),
                        now,
                    ).1
                },
            final(self)@.wf(),
    {
        let now = now_seconds();
        self.create_order(table_id, dish_id, idempotency_token, now)
    }

    /// Delegates to the store's fetch of the row visible under
    /// `(table_id, id)`; absence is `NotFound`, unchanged.
    pub fn get_order(&self, table_id: i32, id: i32) -> (r: Result<Order, ServiceError>)
        ensures
            r == match find_visible(self@.store.rows, table_id, id) {
                Option::Some(o) => Result::<Order, ServiceError>::Ok(o),
                Option::None => Result::<Order, ServiceError>::Err(ServiceError::NotFound),
            },
    {
        match self.store.fetch_one(table_id, id) {
            Some(o) => Ok(o),
            None => Err(ServiceError::NotFound),
        }
    }

    /// Delegates to the store's keyset pagination, with the caller's cursor
    /// and limit taken verbatim.
    pub fn get_orders(
        &self,
        table_id: i32,
        from_id: Option<i32>,
        limit: Option<usize>,
    ) -> (r: Vec<Order>)
        ensures
            r@ == page_spec(self@.store.rows, table_id, from_id, limit),
    {
        self.store.fetch_page(table_id, from_id, limit)
    }

    /// Soft-deletes the order visible under `(table_id, id)`: success when
    /// exactly one row was affected, `NotFound` when none was — the order
    /// never existed under this table, or was already deleted.
    pub fn delete_order(&mut self, table_id: i32, id: i32) -> (r: Result<(), ServiceError>)
        requires
            old(self)@.wf(),
        ensures
            final(self)@ == delete_spec(old(self)@, table_id, id).0,
            r == delete_spec(old(self)@, table_id, id).1,
            final(self)@.wf(),
    {
        let n = self.store.mark_deleted(table_id, id);
        delete_outcome(n as u64)
    }
}

} // verus!
