//! Orders, executions, messages and the constants of the wire protocol.
use vstd::prelude::*;

verus! {

/// Message type of an order submission (client to engine).
pub const MSG_ORDER_SUBMIT: u8 = 1;

/// Message type of an order cancellation (client to engine).
pub const MSG_ORDER_CANCEL: u8 = 2;

/// Message type of a trade broadcast (engine to clients).
pub const MSG_TRADE_BROADCAST: u8 = 10;

/// Message type of a statistics broadcast (engine to clients).
pub const MSG_STATUS_BROADCAST: u8 = 11;

/// Side code: buy.
pub const ORDER_TYPE_BUY: u8 = 1;

/// Side code: sell.
pub const ORDER_TYPE_SELL: u8 = 2;

/// Side code: a "what-if" buy that never changes the book.
pub const ORDER_TYPE_MOCK_BUY: u8 = 3;

/// Side code: a "what-if" sell that never changes the book.
pub const ORDER_TYPE_MOCK_SELL: u8 = 4;

/// Price type: limit order.
pub const ORDER_PRICE_TYPE_LIMIT: u8 = 1;

/// Price type: market order (matches at any price, never rests).
pub const ORDER_PRICE_TYPE_MARKET: u8 = 2;

/// Every network frame has exactly this many bytes.
pub const MESSAGE_TOTAL_SIZE: usize = 50;

/// An order as submitted by a client, and as it rests in a book.
#[derive(Clone, Copy, Debug, PartialEq, Eq, Structural)]
pub struct Order {
    pub product_id: u16,
    pub order_id: u64,
    /// Price in minimum price units.
    pub price: u64,
    /// Remaining size.
    pub quantity: u32,
    /// Side code (`ORDER_TYPE_*`).
    pub order_type: u8,
    /// `ORDER_PRICE_TYPE_LIMIT` or `ORDER_PRICE_TYPE_MARKET`.
    pub price_type: u8,
    /// Submission timestamp in nanoseconds.
    pub submit_time: u64,
    /// Expiry timestamp in nanoseconds; 0 means good till cancelled.
    pub expire_time: u64,
}

/// The order buys (real or mock).
pub open spec fn is_buy_order(o: Order) -> bool {
    o.order_type == ORDER_TYPE_BUY || o.order_type == ORDER_TYPE_MOCK_BUY
}

/// The order sells (real or mock).
pub open spec fn is_sell_order(o: Order) -> bool {
    o.order_type == ORDER_TYPE_SELL || o.order_type == ORDER_TYPE_MOCK_SELL
}

/// The order is a "what-if" order.
pub open spec fn is_mock_order(o: Order) -> bool {
    o.order_type == ORDER_TYPE_MOCK_BUY || o.order_type == ORDER_TYPE_MOCK_SELL
}

impl Order {
    /// Whether this is a mock ("what-if") order.
    pub fn is_mocked_order(&self) -> (r: bool)
        ensures
            r == is_mock_order(*self),
    {
        self.order_type == ORDER_TYPE_MOCK_BUY || self.order_type == ORDER_TYPE_MOCK_SELL
    }
}

/// A cancellation request for one or more orders of one product.
#[derive(Clone, Debug)]
pub struct CancelOrder {
    pub product_id: u16,
    pub order_ids: Vec<u64>,
}

/// The output of one maker-taker fill.
#[derive(Clone, Copy, Debug, PartialEq, Eq)]
pub struct OrderExecution {
    pub instance_tag: [u8; 16],
    pub product_id: u16,
    pub buy_order_id: u64,
    pub sell_order_id: u64,
    /// Always the resting (maker) order's price.
    pub price: u64,
    pub quantity: u32,
    /// Nanoseconds from the taker's submission to the match.
    pub trade_time_network: u32,
    /// Nanoseconds spent inside the matching step.
    pub internal_match_time: u32,
    /// True iff a participant was a mock order.
    pub is_mocked_result: bool,
}

/// The executions produced by one match call, in the order they were made.
#[derive(Clone, Debug)]
pub struct MatchResult {
    pub start_time: u64,
    pub end_time: u64,
    pub order_execution_list: Vec<OrderExecution>,
}

/// A statistics snapshot of an engine, as broadcast.
#[derive(Clone, Copy, Debug)]
pub struct BroadcastStats {
    pub instance_tag: [u8; 16],
    pub product_id: u16,
    pub bids_size: u32,
    pub ask_size: u32,
    pub matched_orders: u32,
    pub total_received_orders: u32,
    pub start_time: u64,
}

/// A decoded inbound message.
#[derive(Clone, Debug)]
pub enum IncomingMessage {
    Order(Order),
    Cancel(CancelOrder),
}

/// Number of executions, as a 32-bit count.
pub open spec fn count_of(r: &MatchResult) -> u32 {
    r.order_execution_list@.len() as u32
}

impl MatchResult {
    /// An empty result with both timestamps at zero.
    pub fn new(init_trade_size: usize) -> (r: Self)
        ensures
            r.start_time == 0,
            r.end_time == 0,
            r.order_execution_list@.len() == 0,
    {
        MatchResult { start_time: 0, end_time: 0, order_execution_list: Vec::with_capacity(init_trade_size) }
    }

    /// Appends one execution.
    pub fn add_order_execution(&mut self, trade: OrderExecution)
        ensures
            final(self).order_execution_list@ == old(self).order_execution_list@.push(trade),
            final(self).start_time == old(self).start_time,
            final(self).end_time == old(self).end_time,
    {
        self.order_execution_list.push(trade);
    }

    /// Number of executions (truncated to 32 bits).
    pub fn total_count(&self) -> (r: u32)
        ensures
            r == count_of(self),
    {
        self.order_execution_list.len() as u32
    }

    /// Time spent in the match call.
    pub fn total_time(&self) -> (r: u64)
        requires
            self.end_time >= self.start_time,
        ensures
            r == self.end_time - self.start_time,
    {
        self.end_time - self.start_time
    }

    /// Time spent per execution, shared by all executions of the call (0 with none).
    pub fn time_per_trade(&self) -> (r: u32)
        requires
            self.end_time >= self.start_time,
        ensures
            r == (if count_of(self) == 0 {
                0
            } else {
                ((self.end_time - self.start_time) as int / count_of(self) as int) as u32
            }),
    {
        let count = self.total_count();
        if count == 0 {
            return 0;
        }
        (self.total_time() / count as u64) as u32
    }
}

} // verus!
