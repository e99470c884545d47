//! The guarantees the service gives across operations: unique identity,
//! idempotent creation, table isolation, idempotent soft deletion, and
//! complete, ordered keyset pagination. Each is stated over the models and
//! transition functions that the executable contracts use, and proved here.
use vstd::prelude::*;

use crate::cache::{cache_key, cache_lookup, cache_put, CacheEntryModel};
use crate::order::{order_of_row, Order, OrderRow, CACHE_TTL_SECONDS, READY_DELAY_SECONDS};
use crate::service::{create_spec, delete_spec, ServiceError, ServiceModel};
use crate::store::{
    find_visible, mark_deleted_spec, mark_row, page_rows, page_spec, passes_cursor, visible_in,
};

verus! {

/// Identifiers strictly ascend along a row sequence (the order a well-formed
/// store keeps them in).
pub open spec fn rows_ascending(rows: Seq<OrderRow>) -> bool {
    forall|i: int, j: int| 0 <= i < j < rows.len() ==> rows[i].id < rows[j].id
}

/// Identifiers strictly ascend along a response sequence.
pub open spec fn ids_ascending(s: Seq<Order>) -> bool {
    forall|i: int, j: int| 0 <= i < j < s.len() ==> s[i].id < s[j].id
}

/// The length of the maximal prefix whose identifiers lie below `bound` (in
/// an ascending sequence: how many elements a keyset cursor of `bound`
/// skips).
pub open spec fn cut(s: Seq<Order>, bound: int) -> int
    decreases s.len(),
{
    if s.len() == 0 {
        0
    } else if s[0].id < bound {
        1 + cut(s.drop_first(), bound)
    } else {
        0
    }
}

/// Identity uniqueness: in a well-formed service no two rows share an
/// identifier, and whenever creation inserts a row (the rows grew), the
/// created order's identifier differs from that of every row present before.
pub proof fn lemma_identity_uniqueness(
    s: ServiceModel,
    table_id: i32,
    dish_id: i32,
    token: Option<Seq<u8>>,
    now: i64,
)
    requires
        s.wf(),
    ensures
        forall|i: int, j: int|
            0 <= i < j < s.store.rows.len() ==> s.store.rows[i].id != s.store.rows[j].id,
        ({
            let created = create_spec(s, table_id, dish_id, token, now);
            created.0.store.rows.len() > s.store.rows.len() ==> forall|i: int|
                0 <= i < s.store.rows.len() ==> s.store.rows[i].id != created.1.id
        }),
{
    let created = create_spec(s, table_id, dish_id, token, now);
    if created.0.store.rows.len() > s.store.rows.len() {
        assert(created.1.id == s.store.next_id as i32);
        assert forall|i: int| 0 <= i < s.store.rows.len() implies s.store.rows[i].id
            != created.1.id by {
            assert(s.store.rows[i].id < s.store.next_id);
        }
    }
}

/// Idempotent creation: two creations under the same `(table, dish, token)`
/// key in quick succession — the second within the cache lifetime of the
/// first, which found no stale entry — return the same order (same id, same
/// ready time), the second moves nothing, and the table's listing after both
/// is the listing before plus exactly the one created order.
pub proof fn lemma_idempotent_creation(
    s0: ServiceModel,
    table_id: i32,
    dish_id: i32,
    token: Seq<u8>,
    now1: i64,
    now2: i64,
)
    requires
        s0.wf(),
        cache_lookup(s0.cache, cache_key(table_id, dish_id, token), now1) is None,
        now1 <= now2 < now1 + CACHE_TTL_SECONDS,
        now1 + READY_DELAY_SECONDS <= i64::MAX,
        s0.store.next_id < i32::MAX as int,
    ensures
        ({
            let first = create_spec(s0, table_id, dish_id, Option::Some(token), now1);
            let second = create_spec(first.0, table_id, dish_id, Option::Some(token), now2);
            &&& second.1 == first.1
            &&& second.0 == first.0
            &&& first.0.store.rows.len() == s0.store.rows.len() + 1
            &&& page_rows(first.0.store.rows, table_id, Option::None) == page_rows(
                s0.store.rows,
                table_id,
                Option::None,
            ).push(first.1)
        }),
{
    let key = cache_key(table_id, dish_id, token);
    let first = create_spec(s0, table_id, dish_id, Option::Some(token), now1);
    let entry = CacheEntryModel {
        key,
        value: first.1,
        expires_at: (now1 + CACHE_TTL_SECONDS) as i64,
    };
    assert(first.0.cache == cache_put(s0.cache, entry));
    lemma_cache_lookup_put_same(s0.cache, entry, now2);
    assert(cache_lookup(first.0.cache, key, now2) == Option::Some(first.1));
    let row = first.0.store.rows.last();
    assert(first.0.store.rows == s0.store.rows.push(row));
    assert(visible_in(row, table_id) && passes_cursor(row, Option::None));
    lemma_page_rows_push(s0.store.rows, table_id, Option::None, row);
    assert(page_rows(first.0.store.rows, table_id, Option::None) =~= page_rows(
        s0.store.rows,
        table_id,
        Option::None,
    ).push(first.1));
}

/// Table isolation: creating an order under one table changes neither the
/// listings nor the single-order fetches of any other table; and every entry
/// of a table's listing stems from a non-deleted row of that very table.
pub proof fn lemma_table_isolation(
    s0: ServiceModel,
    table_id: i32,
    dish_id: i32,
    token: Option<Seq<u8>>,
    now: i64,
    other_table: i32,
    from_id: Option<i32>,
    probe_id: i32,
)
    requires
        other_table != table_id,
    ensures
        ({
            let created = create_spec(s0, table_id, dish_id, token, now);
            &&& page_rows(created.0.store.rows, other_table, from_id) == page_rows(
                s0.store.rows,
                other_table,
                from_id,
            )
            &&& find_visible(created.0.store.rows, other_table, probe_id) == find_visible(
                s0.store.rows,
                other_table,
                probe_id,
            )
        }),
        forall|j: int|
            0 <= j < page_rows(s0.store.rows, other_table, from_id).len() ==> exists|k: int|
                0 <= k < s0.store.rows.len() && visible_in(#[trigger] s0.store.rows[k], other_table)
                    && #[trigger] page_rows(s0.store.rows, other_table, from_id)[j] == order_of_row(
                    s0.store.rows[k],
                ),
{
    let created = create_spec(s0, table_id, dish_id, token, now);
    if created.0.store.rows.len() > s0.store.rows.len() {
        let row = created.0.store.rows.last();
        assert(created.0.store.rows == s0.store.rows.push(row));
        assert(!visible_in(row, other_table));
        lemma_page_rows_push(s0.store.rows, other_table, from_id, row);
        lemma_find_visible_push(s0.store.rows, other_table, probe_id, row);
    } else {
        assert(created.0 == s0);
    }
    lemma_page_rows_membership(s0.store.rows, other_table, from_id);
}

/// Soft-delete idempotence: deleting the same `(table, id)` twice leaves the
/// very state the first deletion left — repeating a deletion moves nothing,
/// whether or not the first one found the order. When the first deletion
/// succeeded, the second reports the order absent, as do — under any table —
/// single-order fetches and listings from then on.
pub proof fn lemma_soft_delete_idempotent(
    s0: ServiceModel,
    table_id: i32,
    id: i32,
    probe_table: i32,
    from_id: Option<i32>,
)
    requires
        s0.wf(),
    ensures
        ({
            let first = delete_spec(s0, table_id, id);
            let second = delete_spec(first.0, table_id, id);
            &&& second.0 == first.0
            &&& first.1 is Ok ==> second.1 == Result::<(), ServiceError>::Err(
                ServiceError::NotFound,
            )
            &&& first.1 is Ok ==> find_visible(first.0.store.rows, probe_table, id) == Option::<
                Order,
            >::None
            &&& first.1 is Ok ==> forall|j: int|
                0 <= j < page_rows(first.0.store.rows, probe_table, from_id).len()
                    ==> #[trigger] page_rows(first.0.store.rows, probe_table, from_id)[j].id != id
        }),
{
    let rows0 = s0.store.rows;
    let marked = mark_deleted_spec(rows0, table_id, id);
    let rows1 = marked.0;
    lemma_mark_outcome(rows0, table_id, id);
    if marked.1 == 1 {
        let k0 = choose|k: int|
            0 <= k < rows0.len() && visible_in(rows0[k], table_id) && rows0[k].id == id && rows1
                == rows0.update(k, mark_row(rows0[k]));
        // After the unique row carrying `id` is marked, no row is both
        // non-deleted and carrying `id`.
        assert forall|k: int| 0 <= k < rows1.len() && rows1[k].id == id implies rows1[k].deleted by {
            if k != k0 {
                assert(rows0[k].id != rows0[k0].id);
            }
        }
        lemma_no_id_no_find(rows1, probe_table, id);
        lemma_no_id_no_mark(rows1, table_id, id);
        assert(mark_deleted_spec(rows1, table_id, id).0 =~= rows1);
        lemma_page_rows_membership(rows1, probe_table, from_id);
        assert forall|j: int|
            0 <= j < page_rows(rows1, probe_table, from_id).len() implies #[trigger] page_rows(
            rows1,
            probe_table,
            from_id,
        )[j].id != id by {
            let k = choose|k: int|
                0 <= k < rows1.len() && visible_in(#[trigger] rows1[k], probe_table)
                    && passes_cursor(rows1[k], from_id) && page_rows(rows1, probe_table, from_id)[j]
                    == order_of_row(rows1[k]);
            assert(!rows1[k].deleted);
        }
    } else {
        assert(rows1 =~= rows0);
    }
    assert(delete_spec(s0, table_id, id).0.store.rows == rows1);
    assert(delete_spec(delete_spec(s0, table_id, id).0, table_id, id).0 =~= delete_spec(
        s0,
        table_id,
        id,
    ).0);
}

/// Keyset pagination, completeness and order: a table's unbounded listing
/// ascends strictly by identifier; a page for cursor `from_id` and a limit
/// is exactly the next `limit` (or all remaining) elements of that listing
/// after the `cut(..)` elements below the cursor; and advancing the cursor
/// to one past the last identifier of a non-empty page skips exactly the
/// elements already returned — so walking pages this way yields every
/// visible order exactly once, in ascending order, with no gaps and no
/// duplicates.
pub proof fn lemma_keyset_pagination(
    rows: Seq<OrderRow>,
    table_id: i32,
    from_id: i32,
    limit: usize,
)
    requires
        rows_ascending(rows),
    ensures
        ({
            let vis = page_rows(rows, table_id, Option::None);
            let k = cut(vis, from_id as int);
            let page = page_spec(rows, table_id, Option::Some(from_id), Option::Some(limit));
            let take_n = if (limit as int) < vis.len() - k {
                limit as int
            } else {
                vis.len() - k
            };
            &&& ids_ascending(vis)
            &&& 0 <= k <= vis.len()
            &&& page == vis.skip(k).take(take_n)
            &&& page.len() > 0 ==> cut(vis, page.last().id + 1) == k + page.len()
        }),
{
    let vis = page_rows(rows, table_id, Option::None);
    let k = cut(vis, from_id as int);
    let page = page_spec(rows, table_id, Option::Some(from_id), Option::Some(limit));
    lemma_page_rows_ascending(rows, table_id, Option::None);
    lemma_cut_bounds(vis, from_id as int);
    lemma_page_cursor_skip(rows, table_id, from_id);
    let take_n = if (limit as int) < vis.len() - k {
        limit as int
    } else {
        vis.len() - k
    };
    assert(page =~= vis.skip(k).take(take_n));
    if page.len() > 0 {
        assert(page.last() == vis[k + page.len() - 1]);
        lemma_cut_at_index(vis, k + page.len() - 1);
    }
}

/// Appending a row extends a listing by that row's response exactly when the
/// row is visible for the table and passes the cursor.
proof fn lemma_page_rows_push(rows: Seq<OrderRow>, table_id: i32, from_id: Option<i32>, x: OrderRow)
    ensures
        page_rows(rows.push(x), table_id, from_id) == if visible_in(x, table_id) && passes_cursor(
            x,
            from_id,
        ) {
            page_rows(rows, table_id, from_id).push(order_of_row(x))
        } else {
            page_rows(rows, table_id, from_id)
        },
    decreases rows.len(),
{
    let pushed = rows.push(x);
    if rows.len() == 0 {
        assert(pushed[0] == x);
        assert(pushed.drop_first() =~= Seq::<OrderRow>::empty());
        assert(page_rows(pushed.drop_first(), table_id, from_id) =~= Seq::<Order>::empty());
        assert(page_rows(rows, table_id, from_id) =~= Seq::<Order>::empty());
        if visible_in(x, table_id) && passes_cursor(x, from_id) {
            assert(page_rows(pushed, table_id, from_id) =~= page_rows(
                rows,
                table_id,
                from_id,
            ).push(order_of_row(x)));
        }
    } else {
        assert(pushed[0] == rows[0]);
        assert(pushed.drop_first() =~= rows.drop_first().push(x));
        lemma_page_rows_push(rows.drop_first(), table_id, from_id, x);
        if visible_in(rows[0], table_id) && passes_cursor(rows[0], from_id) {
            if visible_in(x, table_id) && passes_cursor(x, from_id) {
                assert(seq![order_of_row(rows[0])] + page_rows(
                    rows.drop_first(),
                    table_id,
                    from_id,
                ).push(order_of_row(x)) =~= (seq![order_of_row(rows[0])] + page_rows(
                    rows.drop_first(),
                    table_id,
                    from_id,
                )).push(order_of_row(x)));
            }
        }
    }
}

/// Appending a row leaves a single-order fetch unchanged unless nothing
/// matched before and the new row matches.
proof fn lemma_find_visible_push(rows: Seq<OrderRow>, table_id: i32, id: i32, x: OrderRow)
    ensures
        find_visible(rows.push(x), table_id, id) == if find_visible(rows, table_id, id) is Some {
            find_visible(rows, table_id, id)
        } else if visible_in(x, table_id) && x.id == id {
            Option::Some(order_of_row(x))
        } else {
            Option::<Order>::None
        },
    decreases rows.len(),
{
    let pushed = rows.push(x);
    if rows.len() == 0 {
        assert(pushed[0] == x);
        assert(pushed.drop_first() =~= Seq::<OrderRow>::empty());
        assert(find_visible(pushed.drop_first(), table_id, id) == Option::<Order>::None);
        assert(find_visible(rows, table_id, id) == Option::<Order>::None);
    } else {
        assert(pushed[0] == rows[0]);
        assert(pushed.drop_first() =~= rows.drop_first().push(x));
        lemma_find_visible_push(rows.drop_first(), table_id, id, x);
    }
}

/// Every listing entry stems from a row of the listed table: non-deleted,
/// past the cursor, with the very response shape.
proof fn lemma_page_rows_membership(rows: Seq<OrderRow>, table_id: i32, from_id: Option<i32>)
    ensures
        forall|j: int|
            0 <= j < page_rows(rows, table_id, from_id).len() ==> exists|k: int|
                0 <= k < rows.len() && visible_in(#[trigger] rows[k], table_id) && passes_cursor(
                    rows[k],
                    from_id,
                ) && #[trigger] page_rows(rows, table_id, from_id)[j] == order_of_row(rows[k]),
    decreases rows.len(),
{
    if rows.len() == 0 {
    } else {
        lemma_page_rows_membership(rows.drop_first(), table_id, from_id);
        let page = page_rows(rows, table_id, from_id);
        let sub = page_rows(rows.drop_first(), table_id, from_id);
        assert forall|j: int| 0 <= j < page.len() implies exists|k: int|
            0 <= k < rows.len() && visible_in(#[trigger] rows[k], table_id) && passes_cursor(
                rows[k],
                from_id,
            ) && #[trigger] page[j] == order_of_row(rows[k]) by {
            if visible_in(rows[0], table_id) && passes_cursor(rows[0], from_id) {
                if j == 0 {
                    assert(visible_in(rows[0], table_id));
                    assert(page[0] == order_of_row(rows[0]));
                } else {
                    let k = choose|k: int|
                        0 <= k < rows.drop_first().len() && visible_in(
                            #[trigger] rows.drop_first()[k],
                            table_id,
                        ) && passes_cursor(rows.drop_first()[k], from_id) && sub[j - 1]
                            == order_of_row(rows.drop_first()[k]);
                    assert(rows[k + 1] == rows.drop_first()[k]);
                    assert(visible_in(rows[k + 1], table_id));
                }
            } else {
                let k = choose|k: int|
                    0 <= k < rows.drop_first().len() && visible_in(
                        #[trigger] rows.drop_first()[k],
                        table_id,
                    ) && passes_cursor(rows.drop_first()[k], from_id) && sub[j] == order_of_row(
                        rows.drop_first()[k],
                    );
                assert(rows[k + 1] == rows.drop_first()[k]);
                assert(visible_in(rows[k + 1], table_id));
            }
        }
    }
}

/// A fresh write is what lookups under its key see, for as long as it lives.
proof fn lemma_cache_lookup_put_same(entries: Seq<CacheEntryModel>, e: CacheEntryModel, at: i64)
    ensures
        cache_lookup(cache_put(entries, e), e.key, at) == if at < e.expires_at {
            Option::Some(e.value)
        } else {
            Option::<Order>::None
        },
    decreases entries.len(),
{
    if entries.len() == 0 {
        assert(cache_put(entries, e)[0] == e);
    } else if entries[0].key == e.key {
        assert(cache_put(entries, e)[0] == e);
    } else {
        let put = cache_put(entries, e);
        assert(put[0] == entries[0]);
        assert(put.drop_first() =~= cache_put(entries.drop_first(), e));
        lemma_cache_lookup_put_same(entries.drop_first(), e, at);
    }
}

/// Soft deletion either affects nothing — no row was visible under the pair,
/// the rows stand as they were, the count is 0 — or affects exactly the one
/// visible row, setting its flag and nothing else, with count 1.
proof fn lemma_mark_outcome(rows: Seq<OrderRow>, table_id: i32, id: i32)
    ensures
        mark_deleted_spec(rows, table_id, id).1 == 0 || mark_deleted_spec(rows, table_id, id).1
            == 1,
        mark_deleted_spec(rows, table_id, id).1 == 0 ==> mark_deleted_spec(rows, table_id, id).0
            == rows && forall|k: int|
            0 <= k < rows.len() ==> !(visible_in(#[trigger] rows[k], table_id) && rows[k].id == id),
        mark_deleted_spec(rows, table_id, id).1 == 1 ==> exists|k: int|
            0 <= k < rows.len() && visible_in(#[trigger] rows[k], table_id) && rows[k].id == id
                && mark_deleted_spec(rows, table_id, id).0 == rows.update(k, mark_row(rows[k])),
    decreases rows.len(),
{
    if rows.len() == 0 {
        assert(mark_deleted_spec(rows, table_id, id).0 =~= rows);
    } else if visible_in(rows[0], table_id) && rows[0].id == id {
        assert(mark_deleted_spec(rows, table_id, id).0 =~= rows.update(0, mark_row(rows[0])));
    } else {
        lemma_mark_outcome(rows.drop_first(), table_id, id);
        let rec = mark_deleted_spec(rows.drop_first(), table_id, id);
        if rec.1 == 0 {
            assert(mark_deleted_spec(rows, table_id, id).0 =~= rows);
            assert forall|k: int|
                0 <= k < rows.len() implies !(visible_in(#[trigger] rows[k], table_id) && rows[k].id
                == id) by {
                if k > 0 {
                    assert(rows[k] == rows.drop_first()[k - 1]);
                }
            }
        } else {
            let k = choose|k: int|
                0 <= k < rows.drop_first().len() && visible_in(
                    #[trigger] rows.drop_first()[k],
                    table_id,
                ) && rows.drop_first()[k].id == id && rec.0 == rows.drop_first().update(
                    k,
                    mark_row(rows.drop_first()[k]),
                );
            assert(rows[k + 1] == rows.drop_first()[k]);
            assert(visible_in(rows[k + 1], table_id));
            assert(mark_deleted_spec(rows, table_id, id).0 =~= rows.update(
                k + 1,
                mark_row(rows[k + 1]),
            ));
        }
    }
}

/// Where every row carrying `id` is deleted, no table's single-order fetch
/// of `id` finds anything.
proof fn lemma_no_id_no_find(rows: Seq<OrderRow>, table_id: i32, id: i32)
    requires
        forall|k: int| 0 <= k < rows.len() && (#[trigger] rows[k].id) == id ==> rows[k].deleted,
    ensures
        find_visible(rows, table_id, id) == Option::<Order>::None,
    decreases rows.len(),
{
    if rows.len() == 0 {
    } else {
        assert(rows[0] == rows[0]);
        assert forall|k: int|
            0 <= k < rows.drop_first().len() && (#[trigger] rows.drop_first()[k].id)
                == id implies rows.drop_first()[k].deleted by {
            assert(rows.drop_first()[k] == rows[k + 1]);
        }
        lemma_no_id_no_find(rows.drop_first(), table_id, id);
    }
}

/// Where every row carrying `id` is deleted, a deletion of `id` moves
/// nothing.
proof fn lemma_no_id_no_mark(rows: Seq<OrderRow>, table_id: i32, id: i32)
    requires
        forall|k: int| 0 <= k < rows.len() && (#[trigger] rows[k].id) == id ==> rows[k].deleted,
    ensures
        mark_deleted_spec(rows, table_id, id).0 == rows,
        mark_deleted_spec(rows, table_id, id).1 == 0,
    decreases rows.len(),
{
    if rows.len() == 0 {
        assert(mark_deleted_spec(rows, table_id, id).0 =~= rows);
    } else {
        assert(rows[0] == rows[0]);
        assert forall|k: int|
            0 <= k < rows.drop_first().len() && (#[trigger] rows.drop_first()[k].id)
                == id implies rows.drop_first()[k].deleted by {
            assert(rows.drop_first()[k] == rows[k + 1]);
        }
        lemma_no_id_no_mark(rows.drop_first(), table_id, id);
        assert(mark_deleted_spec(rows, table_id, id).0 =~= rows);
    }
}

/// Every identifier in a listing exceeds any bound that every row's
/// identifier exceeds.
proof fn lemma_page_rows_lower(
    rows: Seq<OrderRow>,
    table_id: i32,
    from_id: Option<i32>,
    bound: int,
)
    requires
        forall|k: int| 0 <= k < rows.len() ==> (#[trigger] rows[k].id) > bound,
    ensures
        forall|j: int|
            0 <= j < page_rows(rows, table_id, from_id).len() ==> (#[trigger] page_rows(
                rows,
                table_id,
                from_id,
            )[j].id) > bound,
    decreases rows.len(),
{
    if rows.len() == 0 {
    } else {
        assert(rows[0].id > bound);
        assert forall|k: int|
            0 <= k < rows.drop_first().len() implies (#[trigger] rows.drop_first()[k].id)
            > bound by {
            assert(rows.drop_first()[k] == rows[k + 1]);
        }
        lemma_page_rows_lower(rows.drop_first(), table_id, from_id, bound);
        let page = page_rows(rows, table_id, from_id);
        let sub = page_rows(rows.drop_first(), table_id, from_id);
        assert forall|j: int| 0 <= j < page.len() implies (#[trigger] page[j].id) > bound by {
            if visible_in(rows[0], table_id) && passes_cursor(rows[0], from_id) {
                if j == 0 {
                    assert(page[0] == order_of_row(rows[0]));
                } else {
                    assert(page[j] == sub[j - 1]);
                }
            } else {
                assert(page[j] == sub[j]);
            }
        }
    }
}

/// A listing of ascending rows ascends.
proof fn lemma_page_rows_ascending(rows: Seq<OrderRow>, table_id: i32, from_id: Option<i32>)
    requires
        rows_ascending(rows),
    ensures
        ids_ascending(page_rows(rows, table_id, from_id)),
    decreases rows.len(),
{
    if rows.len() == 0 {
    } else {
        assert forall|i: int, j: int|
            0 <= i < j < rows.drop_first().len() implies rows.drop_first()[i].id
            < rows.drop_first()[j].id by {
            assert(rows.drop_first()[i] == rows[i + 1]);
            assert(rows.drop_first()[j] == rows[j + 1]);
        }
        lemma_page_rows_ascending(rows.drop_first(), table_id, from_id);
        if visible_in(rows[0], table_id) && passes_cursor(rows[0], from_id) {
            assert forall|k: int|
                0 <= k < rows.drop_first().len() implies (#[trigger] rows.drop_first()[k].id)
                > rows[0].id as int by {
                assert(rows.drop_first()[k] == rows[k + 1]);
            }
            lemma_page_rows_lower(rows.drop_first(), table_id, from_id, rows[0].id as int);
            let page = page_rows(rows, table_id, from_id);
            let sub = page_rows(rows.drop_first(), table_id, from_id);
            assert forall|i: int, j: int| 0 <= i < j < page.len() implies page[i].id
                < page[j].id by {
                if i == 0 {
                    assert(page[j] == sub[j - 1]);
                } else {
                    assert(page[i] == sub[i - 1]);
                    assert(page[j] == sub[j - 1]);
                }
            }
        }
    }
}

/// The cut lies between 0 and the sequence's length.
proof fn lemma_cut_bounds(s: Seq<Order>, bound: int)
    ensures
        0 <= cut(s, bound) <= s.len(),
    decreases s.len(),
{
    if s.len() == 0 {
    } else if s[0].id < bound {
        lemma_cut_bounds(s.drop_first(), bound);
    }
}

/// In an ascending sequence whose identifiers all reach `bound`, the cut is
/// zero.
proof fn lemma_cut_zero(s: Seq<Order>, bound: int)
    requires
        forall|k: int| 0 <= k < s.len() ==> (#[trigger] s[k].id) >= bound,
    ensures
        cut(s, bound) == 0,
{
    if s.len() > 0 {
        assert(s[0].id >= bound);
    }
}

/// A cursor on ascending rows skips exactly the listing's prefix below it:
/// the cursored listing is the plain listing with its cut removed.
proof fn lemma_page_cursor_skip(rows: Seq<OrderRow>, table_id: i32, from_id: i32)
    requires
        rows_ascending(rows),
    ensures
        page_rows(rows, table_id, Option::Some(from_id)) == page_rows(
            rows,
            table_id,
            Option::None,
        ).skip(cut(page_rows(rows, table_id, Option::None), from_id as int)),
    decreases rows.len(),
{
    let vis = page_rows(rows, table_id, Option::None);
    let cursored = page_rows(rows, table_id, Option::Some(from_id));
    if rows.len() == 0 {
        assert(cursored =~= vis.skip(cut(vis, from_id as int)));
    } else {
        let rest = rows.drop_first();
        assert forall|i: int, j: int| 0 <= i < j < rest.len() implies rest[i].id < rest[j].id by {
            assert(rest[i] == rows[i + 1]);
            assert(rest[j] == rows[j + 1]);
        }
        lemma_page_cursor_skip(rest, table_id, from_id);
        let vis_rest = page_rows(rest, table_id, Option::None);
        if visible_in(rows[0], table_id) {
            assert(vis == seq![order_of_row(rows[0])] + vis_rest);
            if rows[0].id >= from_id {
                // Every later row also reaches the cursor, so the cursor
                // filters nothing.
                assert forall|k: int|
                    0 <= k < rest.len() implies (#[trigger] rest[k].id) > rows[0].id as int by {
                    assert(rest[k] == rows[k + 1]);
                }
                lemma_page_rows_lower(rest, table_id, Option::None, rows[0].id as int);
                lemma_cursor_vacuous(rest, table_id, from_id);
                assert(cut(vis, from_id as int) == 0);
                assert(cursored =~= vis.skip(0));
            } else {
                assert(vis[0].id < from_id);
                assert(cut(vis, from_id as int) == 1 + cut(vis.drop_first(), from_id as int));
                assert(vis.drop_first() =~= vis_rest);
                lemma_cut_bounds(vis_rest, from_id as int);
                assert(cursored == page_rows(rest, table_id, Option::Some(from_id)));
                assert(vis.skip(1 + cut(vis_rest, from_id as int)) =~= vis_rest.skip(
                    cut(vis_rest, from_id as int),
                ));
            }
        } else {
            assert(vis == vis_rest);
            assert(cursored == page_rows(rest, table_id, Option::Some(from_id)));
        }
    }
}

/// Rows whose identifiers all reach the cursor are listed as if there were
/// no cursor.
proof fn lemma_cursor_vacuous(rows: Seq<OrderRow>, table_id: i32, from_id: i32)
    requires
        forall|k: int| 0 <= k < rows.len() ==> (#[trigger] rows[k].id) >= from_id,
    ensures
        page_rows(rows, table_id, Option::Some(from_id)) == page_rows(rows, table_id, Option::None),
    decreases rows.len(),
{
    if rows.len() == 0 {
    } else {
        assert(rows[0] == rows[0]);
        assert forall|k: int|
            0 <= k < rows.drop_first().len() implies (#[trigger] rows.drop_first()[k].id)
            >= from_id by {
            assert(rows.drop_first()[k] == rows[k + 1]);
        }
        lemma_cursor_vacuous(rows.drop_first(), table_id, from_id);
    }
}

/// In an ascending sequence, the cut at one past the identifier at position
/// `j` is exactly `j + 1`: advancing a keyset cursor past a returned element
/// skips that element and everything before it, nothing more.
proof fn lemma_cut_at_index(s: Seq<Order>, j: int)
    requires
        ids_ascending(s),
        0 <= j < s.len(),
    ensures
        cut(s, s[j].id + 1) == j + 1,
    decreases j,
{
    let bound = s[j].id + 1;
    assert(s[0].id < bound);
    let rest = s.drop_first();
    assert forall|i: int, k: int| 0 <= i < k < rest.len() implies rest[i].id < rest[k].id by {
        assert(rest[i] == s[i + 1]);
        assert(rest[k] == s[k + 1]);
    }
    if j == 0 {
        assert forall|k: int| 0 <= k < rest.len() implies (#[trigger] rest[k].id) >= bound by {
            assert(rest[k] == s[k + 1]);
        }
        lemma_cut_zero(rest, bound);
    } else {
        assert(rest[j - 1] == s[j]);
        lemma_cut_at_index(rest, j - 1);
    }
}

} // verus!
