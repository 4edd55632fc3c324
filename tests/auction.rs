use matching_engine::auction::CallAuctionPool;
use matching_engine::types::{Order, ORDER_PRICE_TYPE_LIMIT, ORDER_TYPE_BUY, ORDER_TYPE_MOCK_SELL, ORDER_TYPE_SELL};

fn order(id: u64, side: u8, price: u64, qty: u32, time: u64) -> Order {
    Order {
        product_id: 1,
        order_id: id,
        price,
        quantity: qty,
        order_type: side,
        price_type: ORDER_PRICE_TYPE_LIMIT,
        submit_time: time,
        expire_time: 0,
    }
}

fn sample_pool() -> CallAuctionPool {
    let mut p = CallAuctionPool::new(4);
    p.add_order(order(1, ORDER_TYPE_BUY, 100, 10, 1));
    p.add_order(order(2, ORDER_TYPE_BUY, 99, 5, 2));
    p.add_order(order(3, ORDER_TYPE_SELL, 98, 8, 3));
    p.add_order(order(4, ORDER_TYPE_SELL, 101, 4, 4));
    p
}

#[test]
fn equilibrium_prefers_least_imbalance() {
    // 98, 99 and 100 all execute 8; the imbalance is 7, 7 and 2.
    let p = sample_pool();
    assert_eq!(p.calculate_match_price_final(1), Some((100, 8)));
}

#[test]
fn equilibrium_needs_a_tick_and_both_sides() {
    let p = sample_pool();
    assert_eq!(p.calculate_match_price_final(0), None);
    let mut only_bids = CallAuctionPool::new(0);
    only_bids.add_order(order(1, ORDER_TYPE_BUY, 100, 10, 1));
    assert_eq!(only_bids.calculate_match_price_final(1), None);
    let mut apart = CallAuctionPool::new(0);
    apart.add_order(order(1, ORDER_TYPE_BUY, 90, 10, 1));
    apart.add_order(order(2, ORDER_TYPE_SELL, 110, 10, 1));
    assert_eq!(apart.calculate_match_price_final(1), None);
}

#[test]
fn equilibrium_ties_go_to_the_lowest_price() {
    let mut p = CallAuctionPool::new(0);
    p.add_order(order(1, ORDER_TYPE_BUY, 102, 5, 1));
    p.add_order(order(2, ORDER_TYPE_SELL, 100, 5, 1));
    // 100, 101 and 102 all execute 5 with no imbalance.
    assert_eq!(p.calculate_match_price_final(1), Some((100, 5)));
}

#[test]
fn execute_auction_fills_at_one_price() {
    let mut p = sample_pool();
    let r = p.execute_auction(1, [1u8; 16], 9, 555);
    let trades: Vec<(u64, u64, u64, u32)> = r
        .order_execution_list
        .iter()
        .map(|e| (e.buy_order_id, e.sell_order_id, e.price, e.quantity))
        .collect();
    assert_eq!(trades, vec![(1, 3, 100, 8)]);
    assert_eq!(r.start_time, 555);
    assert_eq!(r.end_time, 555);
    assert_eq!(r.order_execution_list[0].product_id, 9);
    let bids: Vec<(u64, u32)> = p.bids.iter().map(|o| (o.order_id, o.quantity)).collect();
    let asks: Vec<(u64, u32)> = p.asks.iter().map(|o| (o.order_id, o.quantity)).collect();
    assert_eq!(bids, vec![(1, 2), (2, 5)]);
    assert_eq!(asks, vec![(4, 4)]);
}

#[test]
fn execute_auction_respects_price_then_time() {
    let mut p = CallAuctionPool::new(0);
    p.add_order(order(1, ORDER_TYPE_BUY, 100, 4, 9));
    p.add_order(order(2, ORDER_TYPE_BUY, 100, 4, 3));
    p.add_order(order(3, ORDER_TYPE_BUY, 101, 4, 5));
    p.add_order(order(4, ORDER_TYPE_SELL, 100, 10, 1));
    let r = p.execute_auction(1, [0u8; 16], 1, 0);
    let trades: Vec<(u64, u64, u32)> = r
        .order_execution_list
        .iter()
        .map(|e| (e.buy_order_id, e.sell_order_id, e.quantity))
        .collect();
    assert_eq!(trades, vec![(3, 4, 4), (2, 4, 4), (1, 4, 2)]);
    let bids: Vec<(u64, u32)> = p.bids.iter().map(|o| (o.order_id, o.quantity)).collect();
    assert_eq!(bids, vec![(1, 2)]);
    assert!(p.asks.is_empty());
}

#[test]
fn execute_auction_flags_mock_participants() {
    let mut p = CallAuctionPool::new(0);
    p.add_order(order(1, ORDER_TYPE_BUY, 100, 4, 1));
    p.add_order(order(2, ORDER_TYPE_MOCK_SELL, 100, 4, 1));
    let r = p.execute_auction(1, [0u8; 16], 1, 0);
    assert_eq!(r.order_execution_list.len(), 1);
    assert!(r.order_execution_list[0].is_mocked_result);
}

#[test]
fn execute_auction_without_price_changes_nothing() {
    let mut p = CallAuctionPool::new(0);
    p.add_order(order(1, ORDER_TYPE_BUY, 90, 10, 1));
    p.add_order(order(2, ORDER_TYPE_SELL, 110, 10, 1));
    let r = p.execute_auction(1, [0u8; 16], 1, 7);
    assert!(r.order_execution_list.is_empty());
    assert_eq!(p.bids.len(), 1);
    assert_eq!(p.asks.len(), 1);
}

#[test]
fn pool_cancel_and_clear() {
    let mut p = sample_pool();
    assert!(p.cancel_order(2));
    assert!(p.cancel_order(4));
    assert!(!p.cancel_order(4));
    assert_eq!(p.bids.len(), 1);
    assert_eq!(p.asks.len(), 1);
    p.add_order(order(5, 9, 100, 1, 1));
    assert_eq!(p.bids.len() + p.asks.len(), 2);
    p.clear();
    assert!(p.bids.is_empty() && p.asks.is_empty());
}
