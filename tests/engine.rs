use matching_engine::book::BookError;
use matching_engine::engine::{EngineError, EngineMode, EngineState};
use matching_engine::types::{CancelOrder, Order, ORDER_PRICE_TYPE_LIMIT, ORDER_TYPE_BUY, ORDER_TYPE_MOCK_SELL, ORDER_TYPE_SELL};

fn order(product_id: u16, id: u64, side: u8, price: u64, qty: u32) -> Order {
    Order {
        product_id,
        order_id: id,
        price,
        quantity: qty,
        order_type: side,
        price_type: ORDER_PRICE_TYPE_LIMIT,
        submit_time: 0,
        expire_time: 0,
    }
}

fn engine() -> EngineState {
    EngineState::new(*b"unit-test-engine", 5, 0, 1, 1000, 42)
}

#[test]
fn counters_follow_submissions() {
    let mut e = engine();
    e.on_submit(order(5, 1, ORDER_TYPE_SELL, 100, 3), 10).unwrap();
    e.on_submit(order(5, 2, ORDER_TYPE_SELL, 101, 3), 10).unwrap();
    let r = e.on_submit(order(5, 3, ORDER_TYPE_BUY, 101, 4), 10).unwrap();
    assert_eq!(r.order_execution_list.len(), 2);
    assert_eq!(e.matched_orders, 2);
    assert_eq!(e.total_received_orders, 3);
    let m = e.on_submit(order(5, 4, ORDER_TYPE_MOCK_SELL, 1, 1), 10).unwrap();
    assert!(m.order_execution_list.is_empty());
    e.on_submit(order(5, 5, ORDER_TYPE_BUY, 101, 1), 10).unwrap();
    assert_eq!(e.matched_orders, 3);
    assert_eq!(e.total_received_orders, 5);
}

#[test]
fn mock_executions_are_not_counted() {
    let mut e = engine();
    e.on_submit(order(5, 1, ORDER_TYPE_BUY, 100, 3), 10).unwrap();
    let m = e.on_submit(order(5, 2, ORDER_TYPE_MOCK_SELL, 100, 2), 10).unwrap();
    assert_eq!(m.order_execution_list.len(), 1);
    assert_eq!(e.matched_orders, 0);
    assert_eq!(e.order_book.bids.volume, 3);
}

#[test]
fn wrong_product_is_refused_but_counted() {
    let mut e = engine();
    let err = e.on_submit(order(6, 1, ORDER_TYPE_BUY, 100, 3), 10).unwrap_err();
    assert_eq!(err, EngineError::WrongProduct);
    assert_eq!(e.total_received_orders, 1);
    assert_eq!(e.order_book.bids.volume, 0);
    let err = e.on_submit(order(5, 1, ORDER_TYPE_BUY, 5000, 3), 10).unwrap_err();
    assert_eq!(err, EngineError::Book(BookError::OutOfRange));
    assert_eq!(e.total_received_orders, 2);
}

#[test]
fn cancel_goes_to_active_component() {
    let mut e = engine();
    e.on_submit(order(5, 1, ORDER_TYPE_BUY, 100, 3), 10).unwrap();
    assert!(e.on_cancel(1));
    assert!(!e.on_cancel(1));
    e.set_mode(EngineMode::Auction);
    e.on_submit(order(5, 2, ORDER_TYPE_BUY, 100, 3), 10).unwrap();
    assert_eq!(e.auction_pool.bids.len(), 1);
    assert!(e.on_cancel(2));
    assert!(e.auction_pool.bids.is_empty());
    assert_eq!(e.total_received_orders, 2);
}

#[test]
fn cancel_message_counts_once() {
    let mut e = engine();
    e.on_submit(order(5, 1, ORDER_TYPE_BUY, 100, 3), 10).unwrap();
    e.on_submit(order(5, 2, ORDER_TYPE_SELL, 200, 3), 10).unwrap();
    let c = CancelOrder { product_id: 5, order_ids: vec![1, 9, 2] };
    assert_eq!(e.on_cancel_request(&c), Ok(2));
    assert_eq!(e.total_received_orders, 3);
    assert!(e.order_book.order_index.is_empty());
    let empty = CancelOrder { product_id: 5, order_ids: Vec::new() };
    assert_eq!(e.on_cancel_request(&empty), Ok(0));
    assert_eq!(e.total_received_orders, 4);
    let other = CancelOrder { product_id: 6, order_ids: vec![1] };
    assert_eq!(e.on_cancel_request(&other), Err(EngineError::WrongProduct));
    assert_eq!(e.total_received_orders, 5);
}

#[test]
fn cancel_message_in_auction_mode() {
    let mut e = engine();
    e.set_mode(EngineMode::Auction);
    e.on_submit(order(5, 1, ORDER_TYPE_BUY, 100, 3), 10).unwrap();
    e.on_submit(order(5, 2, ORDER_TYPE_SELL, 120, 3), 10).unwrap();
    let c = CancelOrder { product_id: 5, order_ids: vec![2, 2] };
    assert_eq!(e.on_cancel_request(&c), Ok(1));
    assert_eq!(e.auction_pool.bids.len(), 1);
    assert!(e.auction_pool.asks.is_empty());
}

#[test]
fn auction_mode_collects_then_runs() {
    let mut e = engine();
    e.set_mode(EngineMode::Auction);
    let r = e.on_submit(order(5, 1, ORDER_TYPE_BUY, 100, 10), 10).unwrap();
    assert!(r.order_execution_list.is_empty());
    e.on_submit(order(5, 2, ORDER_TYPE_SELL, 98, 8), 10).unwrap();
    assert_eq!(e.order_book.bids.volume, 0);
    let r = e.run_auction(1, 20);
    assert_eq!(r.order_execution_list.len(), 1);
    assert_eq!(r.order_execution_list[0].quantity, 8);
    assert_eq!(r.order_execution_list[0].instance_tag, *b"unit-test-engine");
    assert_eq!(e.matched_orders, 1);
}

#[test]
fn snapshot_reports_counters() {
    let mut e = engine();
    e.on_submit(order(5, 1, ORDER_TYPE_BUY, 100, 3), 10).unwrap();
    e.on_submit(order(5, 2, ORDER_TYPE_BUY, 99, 3), 10).unwrap();
    e.on_submit(order(5, 3, ORDER_TYPE_SELL, 120, 3), 10).unwrap();
    let s = e.snapshot_stats();
    assert_eq!(s.bids_size, 2);
    assert_eq!(s.ask_size, 1);
    assert_eq!(s.total_received_orders, 3);
    assert_eq!(s.matched_orders, 0);
    assert_eq!(s.start_time, 42);
    assert_eq!(s.product_id, 5);
}
