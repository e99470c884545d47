//! The record store: durable, queryable persistence of order rows with
//! store-assigned identity and store-enforced soft delete.
use vstd::prelude::*;

use crate::order::{order_of_row, Order, OrderRow};

verus! {

/// The mathematical content of a record store: the rows in insertion order
/// and the identifier the next insertion will receive.
#[verifier::ext_equal]
pub ghost struct StoreModel {
    pub rows: Seq<OrderRow>,
    pub next_id: int,
}

impl StoreModel {
    /// Well-formedness: identifiers are strictly ascending along the rows —
    /// so unique, and reflecting insertion order — and every identifier lies
    /// below the one to be assigned next.
    pub open spec fn wf(self) -> bool {
        &&& 1 <= self.next_id <= i32::MAX as int
        &&& forall|i: int, j: int|
            0 <= i < j < self.rows.len() ==> self.rows[i].id < self.rows[j].id
        &&& forall|i: int| 0 <= i < self.rows.len() ==> self.rows[i].id < self.next_id
    }
}

/// Whether a row belongs to `table_id` and is not soft-deleted.
pub open spec fn visible_in(r: OrderRow, table_id: i32) -> bool {
    r.table_id == table_id && !r.deleted
}

/// Whether a row's id lies at or past the keyset cursor (no cursor admits
/// every row).
pub open spec fn passes_cursor(r: OrderRow, from_id: Option<i32>) -> bool {
    match from_id {
        Option::Some(f) => r.id >= f,
        Option::None => true,
    }
}

/// Insertion: a fresh row for the table, not deleted, under the next
/// identifier; the store's counter advances. Also yields the response shape
/// of the new row.
pub open spec fn insert_spec(
    st: StoreModel,
    table_id: i32,
    dish_id: i32,
    ready_time: i64,
) -> (StoreModel, Order) {
    let id = st.next_id as i32;
    let row = OrderRow { id, table_id, dish_id, ready_time, deleted: false };
    (
        StoreModel { rows: st.rows.push(row), next_id: st.next_id + 1 },
        Order { id, dish_id, ready_time },
    )
}

/// The row visible under `(table_id, id)`, as a response, if any. Wrong
/// table, unknown id and soft-deleted rows alike yield `None`.
pub open spec fn find_visible(rows: Seq<OrderRow>, table_id: i32, id: i32) -> Option<Order>
    decreases rows.len(),
{
    if rows.len() == 0 {
        Option::None
    } else if visible_in(rows[0], table_id) && rows[0].id == id {
        Option::Some(order_of_row(rows[0]))
    } else {
        find_visible(rows.drop_first(), table_id, id)
    }
}

/// The non-deleted rows of `table_id` with id at or past the cursor, in row
/// order, as responses — a page before truncation.
pub open spec fn page_rows(
    rows: Seq<OrderRow>,
    table_id: i32,
    from_id: Option<i32>,
) -> Seq<Order>
    decreases rows.len(),
{
    if rows.len() == 0 {
        Seq::empty()
    } else if visible_in(rows[0], table_id) && passes_cursor(rows[0], from_id) {
        seq![order_of_row(rows[0])] + page_rows(rows.drop_first(), table_id, from_id)
    } else {
        page_rows(rows.drop_first(), table_id, from_id)
    }
}

/// A sequence truncated to `limit` elements; no truncation when `limit` is
/// absent.
pub open spec fn truncate_page(s: Seq<Order>, limit: Option<usize>) -> Seq<Order> {
    match limit {
        Option::Some(l) => if (l as int) < s.len() {
            s.take(l as int)
        } else {
            s
        },
        Option::None => s,
    }
}

/// A full page: the cursor-filtered visible rows of the table, truncated.
pub open spec fn page_spec(
    rows: Seq<OrderRow>,
    table_id: i32,
    from_id: Option<i32>,
    limit: Option<usize>,
) -> Seq<Order> {
    truncate_page(page_rows(rows, table_id, from_id), limit)
}

/// A row with its soft-delete flag set.
pub open spec fn mark_row(r: OrderRow) -> OrderRow {
    OrderRow { deleted: true, ..r }
}

/// Soft deletion: the row visible under `(table_id, id)` — the first such,
/// and in a well-formed store the only one — gets its flag set; the count of
/// rows affected comes second.
pub open spec fn mark_deleted_spec(
    rows: Seq<OrderRow>,
    table_id: i32,
    id: i32,
) -> (Seq<OrderRow>, int)
    decreases rows.len(),
{
    if rows.len() == 0 {
        (rows, 0)
    } else if visible_in(rows[0], table_id) && rows[0].id == id {
        (seq![mark_row(rows[0])] + rows.drop_first(), 1)
    } else {
        let rec = mark_deleted_spec(rows.drop_first(), table_id, id);
        (seq![rows[0]] + rec.0, rec.1)
    }
}

/// Durable relational storage of orders. Rows are only ever appended or
/// soft-deleted; identity is assigned here and nowhere else.
pub struct RecordStore {
    rows: Vec<OrderRow>,
    next_id: i32,
}

impl View for RecordStore {
    type V = StoreModel;

    closed spec fn view(&self) -> StoreModel {
        StoreModel { rows: self.rows@, next_id: self.next_id as int }
    }
}

impl RecordStore {
    /// An empty store; the first insertion receives identifier 1.
    pub fn new() -> (s: Self)
        ensures
            s@.rows == Seq::<OrderRow>::empty(),
            s@.next_id == 1,
            s@.wf(),
    {
        RecordStore { rows: Vec::new(), next_id: 1 }
    }

    /// Persists a new row with `deleted = false`; returns the store-assigned
    /// identifier, which exceeds every identifier assigned before.
    pub fn insert(&mut self, table_id: i32, dish_id: i32, ready_time: i64) -> (id: i32)
        requires
            old(self)@.wf(),
            old(self)@.next_id < i32::MAX as int,
        ensures
            final(self)@ == insert_spec(old(self)@, table_id, dish_id, ready_time).0,
            id == insert_spec(old(self)@, table_id, dish_id, ready_time).1.id,
            final(self)@.wf(),
    {
        let id = self.next_id;
        self.rows.push(OrderRow { id, table_id, dish_id, ready_time, deleted: false });
        self.next_id = self.next_id + 1;
        proof {
            assert(self@ =~= insert_spec(old(self)@, table_id, dish_id, ready_time).0);
            assert forall|i: int, j: int|
                0 <= i < j < self@.rows.len() implies self@.rows[i].id < self@.rows[j].id by {
                if j < self@.rows.len() - 1 {
                    assert(old(self)@.rows[i].id < old(self)@.rows[j].id);
                }
            }
        }
        id
    }

    /// Returns the row matching both identifiers with `deleted == false`;
    /// absence — wrong table, unknown id, or soft-deleted — is a uniform
    /// `None`.
    pub fn fetch_one(&self, table_id: i32, id: i32) -> (r: Option<Order>)
        ensures
            r == find_visible(self@.rows, table_id, id),
    {
        proof {
            assert(self@.rows.skip(0) =~= self@.rows);
        }
        let n = self.rows.len();
        let mut i: usize = 0;
        while i < n
            invariant
                i <= n,
                n == self@.rows.len(),
                find_visible(self@.rows, table_id, id) == find_visible(
                    self@.rows.skip(i as int),
                    table_id,
                    id,
                ),
            decreases n - i,
        {
            let row = self.rows[i];
            proof {
                assert(self@.rows.skip(i as int)[0] == row);
                assert(self@.rows.skip(i as int).drop_first() =~= self@.rows.skip(i as int + 1));
            }
            if row.table_id == table_id && !row.deleted && row.id == id {
                return Some(Order { id: row.id, dish_id: row.dish_id, ready_time: row.ready_time });
            }
            i = i + 1;
        }
        proof {
            assert(self@.rows.skip(i as int) =~= Seq::<OrderRow>::empty());
        }
        None
    }

    /// Keyset pagination: the non-deleted rows of `table_id` with id at or
    /// past `from_id` (no lower bound when absent), in row — hence ascending
    /// id — order, truncated to `limit` rows (unbounded when absent).
    pub fn fetch_page(
        &self,
        table_id: i32,
        from_id: Option<i32>,
        limit: Option<usize>,
    ) -> (r: Vec<Order>)
        ensures
            r@ == page_spec(self@.rows, table_id, from_id, limit),
    {
        let n = self.rows.len();
        let mut out: Vec<Order> = Vec::new();
        let ghost mut seen: Seq<Order> = Seq::empty();
        proof {
            assert(self@.rows.skip(0) =~= self@.rows);
            assert(seen + page_rows(self@.rows, table_id, from_id) =~= page_rows(
                self@.rows,
                table_id,
                from_id,
            ));
        }
        let mut i: usize = 0;
        while i < n
            invariant
                i <= n,
                n == self@.rows.len(),
                page_rows(self@.rows, table_id, from_id) == seen + page_rows(
                    self@.rows.skip(i as int),
                    table_id,
                    from_id,
                ),
                out@ == truncate_page(seen, limit),
            decreases n - i,
        {
            let row = self.rows[i];
            proof {
                assert(self@.rows.skip(i as int)[0] == row);
                assert(self@.rows.skip(i as int).drop_first() =~= self@.rows.skip(i as int + 1));
            }
            let keep = row.table_id == table_id && !row.deleted && (match from_id {
                Some(f) => row.id >= f,
                None => true,
            });
            if keep {
                let ghost o = order_of_row(row);
                proof {
                    assert(seen + page_rows(self@.rows.skip(i as int), table_id, from_id)
                        =~= seen.push(o) + page_rows(self@.rows.skip(i as int + 1), table_id, from_id));
                }
                let within = match limit {
                    Some(l) => out.len() < l,
                    None => true,
                };
                if within {
                    out.push(Order { id: row.id, dish_id: row.dish_id, ready_time: row.ready_time });
                    proof {
                        assert(out@ =~= truncate_page(seen.push(o), limit));
                    }
                } else {
                    proof {
                        assert(out@ =~= truncate_page(seen.push(o), limit));
                    }
                }
                proof {
                    seen = seen.push(o);
                }
            }
            i = i + 1;
        }
        proof {
            assert(self@.rows.skip(i as int) =~= Seq::<OrderRow>::empty());
            assert(page_rows(self@.rows, table_id, from_id) =~= seen);
        }
        out
    }

    /// Transitions the row visible under `(table_id, id)` — if any — to
    /// deleted, leaving every other row untouched, and reports how many rows
    /// were affected: 0 or 1 in a well-formed store.
    pub fn mark_deleted(&mut self, table_id: i32, id: i32) -> (n: usize)
        requires
            old(self)@.wf(),
        ensures
            final(self)@.rows == mark_deleted_spec(old(self)@.rows, table_id, id).0,
            n as int == mark_deleted_spec(old(self)@.rows, table_id, id).1,
            final(self)@.next_id == old(self)@.next_id,
            final(self)@.wf(),
    {
        let ghost orig = self@.rows;
        proof {
            assert(orig.skip(0) =~= orig);
            assert(orig.take(0) + mark_deleted_spec(orig, table_id, id).0 =~= mark_deleted_spec(
                orig,
                table_id,
                id,
            ).0);
        }
        let n = self.rows.len();
        let mut i: usize = 0;
        while i < n
            invariant
                i <= n,
                old(self)@.wf(),
                self@ == old(self)@,
                n == self@.rows.len(),
                mark_deleted_spec(orig, table_id, id).0 == orig.take(i as int) + mark_deleted_spec(
                    orig.skip(i as int),
                    table_id,
                    id,
                ).0,
                mark_deleted_spec(orig, table_id, id).1 == mark_deleted_spec(
                    orig.skip(i as int),
                    table_id,
                    id,
                ).1,
                orig == old(self)@.rows,
            decreases n - i,
        {
            let row = self.rows[i];
            proof {
                assert(orig.skip(i as int)[0] == row);
                assert(orig.skip(i as int).drop_first() =~= orig.skip(i as int + 1));
            }
            if row.table_id == table_id && !row.deleted && row.id == id {
                let marked = OrderRow {
                    id: row.id,
                    table_id: row.table_id,
                    dish_id: row.dish_id,
                    ready_time: row.ready_time,
                    deleted: true,
                };
                self.rows.remove(i);
                self.rows.insert(i, marked);
                proof {
                    assert(marked == mark_row(row));
                    assert(self@.rows =~= orig.take(i as int) + (seq![mark_row(row)] + orig.skip(
                        i as int + 1,
                    )));
                    assert(self@.rows =~= mark_deleted_spec(orig, table_id, id).0);
                    lemma_mark_preserves_wf(old(self)@, self@, table_id, id);
                }
                return 1;
            }
            proof {
                assert(orig.take(i as int) + (seq![row] + mark_deleted_spec(
                    orig.skip(i as int + 1),
                    table_id,
                    id,
                ).0) =~= orig.take(i as int + 1) + mark_deleted_spec(
                    orig.skip(i as int + 1),
                    table_id,
                    id,
                ).0);
            }
            i = i + 1;
        }
        proof {
            assert(orig.skip(i as int) =~= Seq::<OrderRow>::empty());
            assert(orig.take(i as int) =~= orig);
            assert(self@.rows =~= mark_deleted_spec(orig, table_id, id).0);
        }
        0
    }
}

/// Soft deletion changes no identifier and removes no row, so it keeps a
/// store well-formed.
proof fn lemma_mark_preserves_wf(pre: StoreModel, post: StoreModel, table_id: i32, id: i32)
    requires
        pre.wf(),
        post.rows == mark_deleted_spec(pre.rows, table_id, id).0,
        post.next_id == pre.next_id,
    ensures
        post.wf(),
{
    lemma_mark_keeps_ids(pre.rows, table_id, id);
}

/// The rows after a soft deletion agree with the rows before on length and
/// on every identifier.
proof fn lemma_mark_keeps_ids(rows: Seq<OrderRow>, table_id: i32, id: i32)
    ensures
        mark_deleted_spec(rows, table_id, id).0.len() == rows.len(),
        forall|k: int|
            0 <= k < rows.len() ==> #[trigger] mark_deleted_spec(rows, table_id, id).0[k].id
                == rows[k].id,
    decreases rows.len(),
{
    if rows.len() == 0 {
    } else if visible_in(rows[0], table_id) && rows[0].id == id {
    } else {
        lemma_mark_keeps_ids(rows.drop_first(), table_id, id);
    }
}

} // verus!
