use restaurant_orders::cache::IdempotencyCache;
use restaurant_orders::order::Order;
use restaurant_orders::service::{delete_outcome, ServiceError, State};
use restaurant_orders::store::RecordStore;

fn new_service() -> State {
    State::new(RecordStore::new(), IdempotencyCache::new())
}

const NOW: i64 = 1_700_000_000;

#[test]
fn order_creation_works() {
    let mut service = new_service();
    let table_id = 1;

    let order1 = service.create_order(table_id, 10, None, NOW);
    let order2 = service.create_order(table_id, 10, None, NOW);
    assert_ne!(order1.id, order2.id);

    let orders = service.get_orders(table_id, None, None);
    assert_eq!(2, orders.len());
    assert!(orders.contains(&order1));
    assert!(orders.contains(&order2));
}

#[test]
fn order_creation_is_idempotent() {
    let mut service = new_service();
    let table_id = 1;

    let idempotency_key = b"f1a0c5da-4f19-4c3f-9c2f-3a5f3a3f5b10".to_vec();
    let order1 = service.create_order(table_id, 10, Some(idempotency_key.clone()), NOW);
    let order2 = service.create_order(table_id, 10, Some(idempotency_key.clone()), NOW + 1);
    assert_eq!(order1.id, order2.id);

    let orders = service.get_orders(table_id, None, None);
    assert_eq!(1, orders.len());
    assert!(orders.contains(&order1));
    assert!(orders.contains(&order2));
}

#[test]
fn table_orders_are_kept_separate() {
    let mut service = new_service();
    let table1_id = 1;
    let table2_id = 2;

    let order1 = service.create_order(table1_id, 10, None, NOW);
    let order2 = service.create_order(table2_id, 11, None, NOW);
    let order3 = service.create_order(table1_id, 6, None, NOW);
    let order4 = service.create_order(table1_id, 2, None, NOW);

    let table1_orders = service.get_orders(table1_id, None, None);
    let table2_orders = service.get_orders(table2_id, None, None);

    assert_eq!(3, table1_orders.len());
    assert_eq!(1, table2_orders.len());

    assert!(table1_orders.contains(&order1));
    assert!(table1_orders.contains(&order3));
    assert!(table1_orders.contains(&order4));
    assert!(table2_orders.contains(&order2));
}

#[test]
fn order_removal_works() {
    let mut service = new_service();
    let table_id = 1;

    let order1 = service.create_order(table_id, 10, None, NOW);
    let order2 = service.create_order(table_id, 20, None, NOW);

    service.delete_order(table_id, order1.id).unwrap();

    let orders = service.get_orders(table_id, None, None);
    assert_eq!(1, orders.len());

    assert_eq!(&order2, &orders[0]);
}

#[test]
fn order_removal_is_idempotent() {
    let mut service = new_service();
    let table_id = 1;

    let order1 = service.create_order(table_id, 10, None, NOW);
    let order2 = service.create_order(table_id, 20, None, NOW);

    // As at the transport layer, the outcome of each delete is not consulted:
    // repeating a delete must leave the state exactly as it was.
    let _ = service.delete_order(table_id, order1.id);
    let _ = service.delete_order(table_id, order1.id);

    let orders = service.get_orders(table_id, None, None);
    assert_eq!(1, orders.len());

    assert_eq!(&order2, &orders[0]);
}

#[test]
fn order_pagination_works() {
    let mut service = new_service();
    let table_id = 1;

    let order1 = service.create_order(table_id, 10, None, NOW);
    let order2 = service.create_order(table_id, 20, None, NOW);
    let order3 = service.create_order(table_id, 15, None, NOW);
    let order4 = service.create_order(table_id, 6, None, NOW);
    let order5 = service.create_order(table_id, 23, None, NOW);
    let order6 = service.create_order(table_id, 31, None, NOW);
    let order7 = service.create_order(table_id, 5, None, NOW);
    let order8 = service.create_order(table_id, 3, None, NOW);
    let order9 = service.create_order(table_id, 13, None, NOW);

    service.delete_order(table_id, order3.id).unwrap();
    service.delete_order(table_id, order6.id).unwrap();

    let orders = service.get_orders(table_id, None, None);
    assert_eq!(7, orders.len());

    let order_page1 = service.get_orders(table_id, Some(0), Some(3));
    assert_eq!(3, order_page1.len());
    assert!(order_page1.contains(&order1));
    assert!(order_page1.contains(&order2));
    assert!(order_page1.contains(&order4));

    let order_page2 = service.get_orders(table_id, Some(order_page1.last().unwrap().id + 1), Some(3));
    assert_eq!(3, order_page2.len());
    assert!(order_page2.contains(&order5));
    assert!(order_page2.contains(&order7));
    assert!(order_page2.contains(&order8));

    let order_page3 = service.get_orders(table_id, Some(order_page2.last().unwrap().id + 1), Some(3));
    assert_eq!(1, order_page3.len());
    assert!(order_page3.contains(&order9));
}

#[test]
fn identifiers_start_at_one_and_ready_time_is_fifteen_minutes_out() {
    let mut service = new_service();
    let order = service.create_order(7, 42, None, 1_000);
    assert_eq!(
        Order { id: 1, dish_id: 42, ready_time: 1_900 },
        order
    );
    let next = service.create_order(7, 42, None, 2_000);
    assert_eq!(
        Order { id: 2, dish_id: 42, ready_time: 2_900 },
        next
    );
}

#[test]
fn cache_hit_returns_original_response_verbatim() {
    let mut service = new_service();
    let token = b"retry-token".to_vec();
    let order1 = service.create_order(1, 10, Some(token.clone()), NOW);
    // A later retry inside the entry's lifetime gets the original id and
    // ready time, not freshly computed ones.
    let order2 = service.create_order(1, 10, Some(token.clone()), NOW + 599);
    assert_eq!(order1, order2);
    assert_eq!(order1.ready_time, NOW + 900);
}

#[test]
fn cache_entry_expires_after_its_ttl() {
    let mut service = new_service();
    let token = b"slow-retry".to_vec();
    let order1 = service.create_order(1, 10, Some(token.clone()), NOW);
    let order2 = service.create_order(1, 10, Some(token.clone()), NOW + 600);
    assert_ne!(order1.id, order2.id);

    let orders = service.get_orders(1, None, None);
    assert_eq!(2, orders.len());
}

#[test]
fn different_tokens_create_distinct_orders() {
    let mut service = new_service();
    let order1 = service.create_order(1, 10, Some(b"one".to_vec()), NOW);
    let order2 = service.create_order(1, 10, Some(b"two".to_vec()), NOW);
    assert_ne!(order1.id, order2.id);
    assert_eq!(2, service.get_orders(1, None, None).len());
}

#[test]
fn get_order_finds_only_the_owning_table() {
    let mut service = new_service();
    let order = service.create_order(1, 10, None, NOW);

    assert_eq!(Ok(order), service.get_order(1, order.id));
    assert_eq!(Err(ServiceError::NotFound), service.get_order(2, order.id));
}

#[test]
fn get_order_after_delete_is_not_found() {
    let mut service = new_service();
    let order = service.create_order(1, 10, None, NOW);
    service.delete_order(1, order.id).unwrap();
    assert_eq!(Err(ServiceError::NotFound), service.get_order(1, order.id));
}

#[test]
fn delete_reports_not_found_for_unknown_and_foreign_orders() {
    let mut service = new_service();
    assert_eq!(Err(ServiceError::NotFound), service.delete_order(1, 1));
    let order = service.create_order(1, 10, None, NOW);
    assert_eq!(Err(ServiceError::NotFound), service.delete_order(2, order.id));
    assert_eq!(Ok(()), service.delete_order(1, order.id));
    assert_eq!(Err(ServiceError::NotFound), service.delete_order(1, order.id));
}

#[test]
fn delete_outcome_maps_row_counts() {
    assert_eq!(Err(ServiceError::NotFound), delete_outcome(0));
    assert_eq!(Ok(()), delete_outcome(1));
    assert_eq!(Err(ServiceError::InternalInconsistency), delete_outcome(2));
}

#[test]
fn status_codes_follow_the_error_taxonomy() {
    assert_eq!(404, ServiceError::NotFound.status_code());
    assert_eq!(400, ServiceError::InvalidInput.status_code());
    assert_eq!(503, ServiceError::StoreUnavailable.status_code());
    assert_eq!(503, ServiceError::CacheUnavailable.status_code());
    assert_eq!(500, ServiceError::StoreQueryFailed.status_code());
    assert_eq!(500, ServiceError::CacheQueryFailed.status_code());
    assert_eq!(500, ServiceError::InternalInconsistency.status_code());
}

#[test]
fn listing_without_limit_honours_the_cursor() {
    let mut service = new_service();
    for dish in [10, 20, 30, 40] {
        service.create_order(1, dish, None, NOW);
    }
    let tail = service.get_orders(1, Some(3), None);
    assert_eq!(2, tail.len());
    assert_eq!(3, tail[0].id);
    assert_eq!(4, tail[1].id);
}

#[test]
fn listing_with_zero_limit_is_empty() {
    let mut service = new_service();
    service.create_order(1, 10, None, NOW);
    assert!(service.get_orders(1, None, Some(0)).is_empty());
}

#[test]
fn creation_at_the_wall_clock_assigns_fresh_identifiers() {
    let mut service = new_service();
    let order1 = service.create_order_now(1, 10, None);
    let order2 = service.create_order_now(1, 10, None);
    assert_ne!(order1.id, order2.id);
    assert_eq!(2, service.get_orders(1, None, None).len());
}

#[test]
fn idempotent_retry_scenario() {
    let mut service = new_service();
    for _ in 0..4 {
        service.create_order(2, 9, None, NOW);
    }
    let token = b"K".to_vec();
    let first = service.create_order(1, 10, Some(token.clone()), NOW);
    assert_eq!(5, first.id);
    let second = service.create_order(1, 10, Some(token.clone()), NOW + 1);
    assert_eq!(5, second.id);
    assert_eq!(first, second);
    assert_eq!(1, service.get_orders(1, None, None).len());
}
