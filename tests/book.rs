use matching_engine::book::{BookError, ContinuousOrderBook};
use matching_engine::types::{
    Order, ORDER_PRICE_TYPE_LIMIT, ORDER_PRICE_TYPE_MARKET, ORDER_TYPE_BUY, ORDER_TYPE_MOCK_BUY,
    ORDER_TYPE_SELL,
};

const TAG: [u8; 16] = *b"engine-test-tag!";

fn order(id: u64, side: u8, price: u64, qty: u32, price_type: u8) -> Order {
    Order {
        product_id: 7,
        order_id: id,
        price,
        quantity: qty,
        order_type: side,
        price_type,
        submit_time: 1_000,
        expire_time: 0,
    }
}

fn limit(id: u64, side: u8, price: u64, qty: u32) -> Order {
    order(id, side, price, qty, ORDER_PRICE_TYPE_LIMIT)
}

fn book() -> ContinuousOrderBook {
    ContinuousOrderBook::new(TAG, 0, 1, 1000)
}

fn bucket(levels: &[std::collections::VecDeque<Order>], level: usize) -> Vec<(u64, u32)> {
    levels[level].iter().map(|o| (o.order_id, o.quantity)).collect()
}

fn trades(r: &matching_engine::types::MatchResult) -> Vec<(u64, u64, u64, u32)> {
    r.order_execution_list
        .iter()
        .map(|e| (e.buy_order_id, e.sell_order_id, e.price, e.quantity))
        .collect()
}

#[test]
fn empty_book_limit_buy_rests() {
    let mut b = book();
    let r = b.match_order(limit(1, ORDER_TYPE_BUY, 100, 5), 2_000).unwrap();
    assert!(r.order_execution_list.is_empty());
    assert_eq!(bucket(&b.bids.levels, 100), vec![(1, 5)]);
    assert_eq!(b.bids.best, 100);
    assert_eq!(b.bids.volume, 5);
    assert_eq!(b.asks.best, 1000);
    assert_eq!(b.order_index.len(), 1);
}

#[test]
fn exact_cross() {
    let mut b = book();
    b.match_order(limit(10, ORDER_TYPE_SELL, 100, 5), 2_000).unwrap();
    let r = b.match_order(limit(11, ORDER_TYPE_BUY, 100, 5), 2_500).unwrap();
    assert_eq!(trades(&r), vec![(11, 10, 100, 5)]);
    assert!(b.asks.levels[100].is_empty());
    assert_eq!(b.asks.volume, 0);
    assert_eq!(b.asks.best, 1000);
    assert_eq!(b.bids.best, -1);
    assert!(b.order_index.is_empty());
    let e = &r.order_execution_list[0];
    assert_eq!(e.instance_tag, TAG);
    assert_eq!(e.product_id, 7);
    assert_eq!(e.trade_time_network, 1_500);
    assert!(!e.is_mocked_result);
}

#[test]
fn walk_the_book() {
    let mut b = book();
    b.match_order(limit(20, ORDER_TYPE_SELL, 100, 3), 2_000).unwrap();
    b.match_order(limit(21, ORDER_TYPE_SELL, 101, 4), 2_000).unwrap();
    let r = b.match_order(limit(22, ORDER_TYPE_BUY, 101, 6), 2_000).unwrap();
    assert_eq!(trades(&r), vec![(22, 20, 100, 3), (22, 21, 101, 3)]);
    assert_eq!(bucket(&b.asks.levels, 101), vec![(21, 1)]);
    assert_eq!(b.asks.volume, 1);
    assert_eq!(b.asks.best, 101);
    assert_eq!(b.bids.volume, 0);
}

#[test]
fn time_priority_at_one_level() {
    let mut b = book();
    b.match_order(limit(30, ORDER_TYPE_BUY, 50, 4), 2_000).unwrap();
    b.match_order(limit(31, ORDER_TYPE_BUY, 50, 4), 2_001).unwrap();
    let r = b.match_order(limit(32, ORDER_TYPE_SELL, 50, 5), 2_002).unwrap();
    assert_eq!(trades(&r), vec![(30, 32, 50, 4), (31, 32, 50, 1)]);
    assert_eq!(bucket(&b.bids.levels, 50), vec![(31, 3)]);
    assert_eq!(b.bids.volume, 3);
}

#[test]
fn cancel_removes_order() {
    let mut b = book();
    b.match_order(limit(1, ORDER_TYPE_BUY, 100, 5), 2_000).unwrap();
    assert!(b.cancel_order(1));
    assert!(b.bids.levels[100].is_empty());
    assert_eq!(b.bids.best, -1);
    assert!(!b.order_index.contains_key(&1));
    assert_eq!(b.bids.volume, 0);
    assert!(!b.cancel_order(1));
}

#[test]
fn market_residual_discarded() {
    let mut b = book();
    let r = b.match_order(order(40, ORDER_TYPE_BUY, 0, 7, ORDER_PRICE_TYPE_MARKET), 2_000).unwrap();
    assert!(r.order_execution_list.is_empty());
    assert_eq!(b.bids.volume, 0);
    assert_eq!(b.bids.best, -1);
    assert!(!b.order_index.contains_key(&40));
}

#[test]
fn market_order_takes_any_price() {
    let mut b = book();
    b.match_order(limit(1, ORDER_TYPE_BUY, 90, 2), 0).unwrap();
    b.match_order(limit(2, ORDER_TYPE_BUY, 80, 2), 0).unwrap();
    let r = b.match_order(order(3, ORDER_TYPE_SELL, 0, 3, ORDER_PRICE_TYPE_MARKET), 0).unwrap();
    assert_eq!(trades(&r), vec![(1, 3, 90, 2), (2, 3, 80, 1)]);
    assert_eq!(b.bids.best, 80);
    assert_eq!(b.asks.volume, 0);
}

#[test]
fn limit_stops_at_its_price_and_rests() {
    let mut b = book();
    b.match_order(limit(1, ORDER_TYPE_SELL, 100, 2), 0).unwrap();
    b.match_order(limit(2, ORDER_TYPE_SELL, 105, 2), 0).unwrap();
    let r = b.match_order(limit(3, ORDER_TYPE_BUY, 102, 5), 0).unwrap();
    assert_eq!(trades(&r), vec![(3, 1, 100, 2)]);
    assert_eq!(bucket(&b.bids.levels, 102), vec![(3, 3)]);
    assert_eq!(b.bids.best, 102);
    assert_eq!(b.asks.best, 105);
    assert_eq!(b.bids.volume, 3);
    assert_eq!(b.asks.volume, 2);
}

#[test]
fn mock_order_leaves_book_untouched() {
    let mut b = book();
    b.match_order(limit(1, ORDER_TYPE_SELL, 100, 3), 0).unwrap();
    b.match_order(limit(2, ORDER_TYPE_SELL, 101, 3), 0).unwrap();
    let before_asks = bucket(&b.asks.levels, 100);
    let r = b.match_order(limit(9, ORDER_TYPE_MOCK_BUY, 101, 4), 0).unwrap();
    assert_eq!(trades(&r), vec![(9, 1, 100, 3), (9, 2, 101, 1)]);
    assert!(r.order_execution_list.iter().all(|e| e.is_mocked_result));
    assert_eq!(bucket(&b.asks.levels, 100), before_asks);
    assert_eq!(bucket(&b.asks.levels, 101), vec![(2, 3)]);
    assert_eq!(b.asks.volume, 6);
    assert_eq!(b.asks.best, 100);
    assert_eq!(b.order_index.len(), 2);
    assert_eq!(b.bids.volume, 0);
}

#[test]
fn submission_errors() {
    let mut b = ContinuousOrderBook::new(TAG, 100, 5, 10);
    assert_eq!(b.match_order(limit(1, 9, 100, 1), 0).unwrap_err(), BookError::UnknownSide);
    assert_eq!(b.match_order(order(1, ORDER_TYPE_BUY, 100, 1, 3), 0).unwrap_err(), BookError::UnknownPriceType);
    assert_eq!(b.match_order(limit(1, ORDER_TYPE_BUY, 95, 1), 0).unwrap_err(), BookError::OutOfRange);
    assert_eq!(b.match_order(limit(1, ORDER_TYPE_BUY, 150, 1), 0).unwrap_err(), BookError::OutOfRange);
    assert_eq!(b.match_order(limit(1, ORDER_TYPE_BUY, 102, 1), 0).unwrap_err(), BookError::OutOfRange);
    b.match_order(limit(1, ORDER_TYPE_BUY, 145, 1), 0).unwrap();
    assert_eq!(b.bids.best, 9);
    assert_eq!(b.match_order(limit(1, ORDER_TYPE_BUY, 110, 1), 0).unwrap_err(), BookError::DuplicateOrder);
    assert_eq!(b.bids.volume, 1);
}

#[test]
fn volumes_exceed_32_bits() {
    let mut b = book();
    for i in 0..4u64 {
        b.fuel_order(limit(i + 1, ORDER_TYPE_BUY, 10, u32::MAX)).unwrap();
    }
    assert_eq!(b.bids.volume, 4 * u32::MAX as u64);
    assert_eq!(b.bids.count, 4);
    assert_eq!(bucket(&b.bids.levels, 10).len(), 4);
}

#[test]
fn fuel_order_rests_without_matching() {
    let mut b = book();
    b.fuel_order(limit(1, ORDER_TYPE_SELL, 100, 2)).unwrap();
    b.fuel_order(limit(2, ORDER_TYPE_BUY, 99, 2)).unwrap();
    assert_eq!(b.asks.best, 100);
    assert_eq!(b.bids.best, 99);
    assert_eq!(b.fuel_order(limit(3, ORDER_TYPE_BUY, 99, 0)).unwrap_err(), BookError::ZeroQuantity);
    assert_eq!(
        b.fuel_order(order(3, ORDER_TYPE_BUY, 99, 1, ORDER_PRICE_TYPE_MARKET)).unwrap_err(),
        BookError::UnknownPriceType
    );
    assert_eq!(b.fuel_order(limit(3, ORDER_TYPE_MOCK_BUY, 99, 1)).unwrap_err(), BookError::UnknownSide);
    assert_eq!(b.fuel_order(limit(2, ORDER_TYPE_BUY, 98, 1)).unwrap_err(), BookError::DuplicateOrder);
}

#[test]
fn cancel_keeps_cursor_on_next_level() {
    let mut b = book();
    b.match_order(limit(1, ORDER_TYPE_SELL, 100, 2), 0).unwrap();
    b.match_order(limit(2, ORDER_TYPE_SELL, 103, 2), 0).unwrap();
    b.match_order(limit(3, ORDER_TYPE_SELL, 100, 1), 0).unwrap();
    assert!(b.cancel_order(1));
    assert_eq!(b.asks.best, 100);
    assert_eq!(bucket(&b.asks.levels, 100), vec![(3, 1)]);
    assert!(b.cancel_order(3));
    assert_eq!(b.asks.best, 103);
    assert_eq!(b.asks.volume, 2);
    assert_eq!(b.asks.count, 1);
}

#[test]
fn latency_is_zero_when_clock_is_behind() {
    let mut b = book();
    b.match_order(limit(1, ORDER_TYPE_SELL, 100, 1), 0).unwrap();
    let r = b.match_order(limit(2, ORDER_TYPE_BUY, 100, 1), 500).unwrap();
    assert_eq!(r.order_execution_list[0].trade_time_network, 0);
    assert_eq!(r.start_time, 500);
    assert_eq!(r.end_time, 500);
}
