//! The engine core: one continuous book, one auction pool, the counters, and the
//! dispatch of inbound messages to whichever is active.
use vstd::prelude::*;

use crate::auction::{
    CallAuctionPool, auction_outcome, has_order, lemma_pool_cancel_is_function, pool_after_cancels,
    pool_cancel_outcome,
};
use crate::book::{BookError, ContinuousOrderBook};
use crate::codec::{
    CodecError, cancel_ids_of_payload, deserialize_cancel_order, deserialize_order,
    order_of_payload, unpack_message_payload, unpacked, be16_at, MAX_IDS_PER_CHUNK,
};
use crate::types::{
    BroadcastStats, CancelOrder, IncomingMessage, MatchResult, Order, OrderExecution, MSG_ORDER_CANCEL,
    MSG_ORDER_SUBMIT, is_buy_order, is_mock_order, is_sell_order,
};

verus! {

/// Which component takes submissions.
#[derive(Clone, Copy, Debug, PartialEq, Eq, Structural)]
pub enum EngineMode {
    /// Orders accumulate in the call-auction pool.
    Auction,
    /// Orders match against the continuous book as they come.
    Continuous,
}

/// Why the engine refused a submission.
#[derive(Clone, Copy, Debug, PartialEq, Eq, Structural)]
pub enum EngineError {
    /// The order is for another product than this engine's.
    WrongProduct,
    /// The book refused the order.
    Book(BookError),
}

/// `x + n`, stopping at the largest 64-bit value.
pub open spec fn sat_add(x: u64, n: int) -> u64 {
    if x + n > u64::MAX {
        u64::MAX
    } else {
        (x + n) as u64
    }
}

/// `x`, or the largest 32-bit value when it does not fit.
pub open spec fn sat32(x: u64) -> u32 {
    if x > u32::MAX {
        u32::MAX
    } else {
        x as u32
    }
}

/// Number of executions that involve no mock order.
pub open spec fn real_count(execs: Seq<OrderExecution>) -> int
    decreases execs.len(),
{
    if execs.len() == 0 {
        0
    } else {
        real_count(execs.drop_last()) + if execs.last().is_mocked_result {
            0int
        } else {
            1int
        }
    }
}

/// A counter after adding each of `ns` in turn with `sat_add`.
pub open spec fn counter_after(m0: u64, ns: Seq<int>) -> u64
    decreases ns.len(),
{
    if ns.len() == 0 {
        m0
    } else {
        sat_add(counter_after(m0, ns.drop_last()), ns.last())
    }
}

/// The sum of a sequence of counts.
pub open spec fn total_of(ns: Seq<int>) -> int
    decreases ns.len(),
{
    if ns.len() == 0 {
        0
    } else {
        total_of(ns.drop_last()) + ns.last()
    }
}

/// Over any run of calls that each add the number of non-mock executions they
/// emitted, the matched-orders counter is its start value plus all of them, up to
/// the largest 64-bit value; it never decreases.
pub proof fn lemma_matched_counter_is_total(m0: u64, ns: Seq<int>)
    requires
        forall|i: int| 0 <= i < ns.len() ==> #[trigger] ns[i] >= 0,
    ensures
        counter_after(m0, ns) == (if m0 + total_of(ns) > u64::MAX {
            u64::MAX as int
        } else {
            m0 + total_of(ns)
        }),
        counter_after(m0, ns) >= m0,
    decreases ns.len(),
{
    if ns.len() > 0 {
        let prev = ns.drop_last();
        assert forall|i: int| 0 <= i < prev.len() implies #[trigger] prev[i] >= 0 by {
            assert(prev[i] == ns[i]);
        }
        lemma_matched_counter_is_total(m0, prev);
        assert(ns.last() == ns[ns.len() - 1]);
        assert(total_of(prev) >= 0) by {
            lemma_total_nonneg(prev);
        }
    }
}

proof fn lemma_total_nonneg(ns: Seq<int>)
    requires
        forall|i: int| 0 <= i < ns.len() ==> #[trigger] ns[i] >= 0,
    ensures
        total_of(ns) >= 0,
    decreases ns.len(),
{
    if ns.len() > 0 {
        let prev = ns.drop_last();
        assert forall|i: int| 0 <= i < prev.len() implies #[trigger] prev[i] >= 0 by {
            assert(prev[i] == ns[i]);
        }
        lemma_total_nonneg(prev);
        assert(ns[ns.len() - 1] >= 0);
    }
}

/// What a received frame decodes to.
pub open spec fn decoded(buf: Seq<u8>) -> Result<Option<Order>, CodecError> {
    match unpacked(buf) {
        Err(e) => Err(e),
        Ok((t, p)) => if t == MSG_ORDER_SUBMIT {
            Ok(Some(order_of_payload(p)))
        } else if t == MSG_ORDER_CANCEL {
            Ok(None)
        } else {
            Err(CodecError::UnknownType)
        },
    }
}

/// Decodes a received frame into a submission or a cancellation; trade and
/// statistics frames are not inbound messages.
pub fn decode_incoming(buf: &[u8]) -> (r: Result<IncomingMessage, CodecError>)
    ensures
        match decoded(buf@) {
            Err(e) => r == Err::<IncomingMessage, CodecError>(e),
            Ok(Some(o)) => r is Ok && r->Ok_0 == IncomingMessage::Order(o),
            Ok(None) => r is Ok && r->Ok_0 is Cancel && r->Ok_0->Cancel_0.product_id == be16_at(
                unpacked(buf@)->Ok_0.1,
                0,
            ) && r->Ok_0->Cancel_0.order_ids@ == cancel_ids_of_payload(
                unpacked(buf@)->Ok_0.1,
                MAX_IDS_PER_CHUNK as int,
            ),
        },
{
    let (t, payload) = match unpack_message_payload(buf) {
        Ok(x) => x,
        Err(e) => {
            return Err(e);
        },
    };
    if t == MSG_ORDER_SUBMIT {
        match deserialize_order(payload.as_slice()) {
            Ok(o) => Ok(IncomingMessage::Order(o)),
            Err(e) => Err(e),
        }
    } else if t == MSG_ORDER_CANCEL {
        match deserialize_cancel_order(payload.as_slice()) {
            Ok(c) => Ok(IncomingMessage::Cancel(c)),
            Err(e) => Err(e),
        }
    } else {
        Err(CodecError::UnknownType)
    }
}

/// Counts the executions that involve no mock order.
fn count_real(execs: &Vec<OrderExecution>) -> (r: u64)
    ensures
        r == real_count(execs@),
{
    let mut n: u64 = 0;
    let mut i: usize = 0;
    while i < execs.len()
        invariant
            i <= execs@.len(),
            n == real_count(execs@.subrange(0, i as int)),
            n <= i,
        decreases execs@.len() - i,
    {
        assert(execs@.subrange(0, i as int + 1).drop_last() =~= execs@.subrange(0, i as int));
        if !execs[i].is_mocked_result {
            n = n + 1;
        }
        i += 1;
    }
    assert(execs@.subrange(0, execs@.len() as int) =~= execs@);
    n
}

fn saturating_add(x: u64, n: u64) -> (r: u64)
    ensures
        r == sat_add(x, n as int),
{
    if x > u64::MAX - n {
        u64::MAX
    } else {
        x + n
    }
}

fn saturating_u32(x: u64) -> (r: u32)
    ensures
        r == sat32(x),
{
    if x > u32::MAX as u64 {
        u32::MAX
    } else {
        x as u32
    }
}

/// The state the matcher owns.
pub struct EngineState {
    pub instance_tag: [u8; 16],
    pub product_id: u16,
    pub order_book: ContinuousOrderBook,
    pub auction_pool: CallAuctionPool,
    pub mode: EngineMode,
    /// Executions emitted that involve no mock order.
    pub matched_orders: u64,
    /// Submissions and cancellations received.
    pub total_received_orders: u64,
    /// When the engine started, in nanoseconds.
    pub start_time: u64,
}

impl EngineState {
    pub open spec fn wf(&self) -> bool {
        &&& self.order_book.wf()
        &&& self.order_book.instance_tag == self.instance_tag
    }

    /// An engine in continuous mode over an empty book and an empty pool.
    pub fn new(
        instance_tag: [u8; 16],
        product_id: u16,
        base_price: u64,
        tick: u64,
        max_levels: u32,
        start_time: u64,
    ) -> (r: Self)
        requires
            tick > 0,
        ensures
            r.wf(),
            r.instance_tag == instance_tag,
            r.product_id == product_id,
            r.start_time == start_time,
            r.mode == EngineMode::Continuous,
            r.matched_orders == 0,
            r.total_received_orders == 0,
            r.order_book.base_price == base_price,
            r.order_book.tick == tick,
            r.order_book.max_levels == max_levels,
            r.order_book.order_index@.is_empty(),
            r.auction_pool.bids@.len() == 0,
            r.auction_pool.asks@.len() == 0,
    {
        EngineState {
            instance_tag,
            product_id,
            order_book: ContinuousOrderBook::new(instance_tag, base_price, tick, max_levels),
            auction_pool: CallAuctionPool::new(0),
            mode: EngineMode::Continuous,
            matched_orders: 0,
            total_received_orders: 0,
            start_time,
        }
    }

    /// Switches the component that takes submissions.
    pub fn set_mode(&mut self, mode: EngineMode)
        ensures
            *final(self) == (EngineState { mode, ..*old(self) }),
    {
        self.mode = mode;
    }

    /// Takes a submission at engine time `now`: counts it, checks its product, and
    /// hands it to the book (continuous mode, where it matches at once) or the pool
    /// (auction mode, where it waits). Counts the executions that involve no mock
    /// order.
    pub fn on_submit(&mut self, order: Order, now: u64) -> (r: Result<MatchResult, EngineError>)
        requires
            old(self).wf(),
        ensures
            final(self).wf(),
            final(self).total_received_orders == sat_add(old(self).total_received_orders, 1),
            final(self).matched_orders >= old(self).matched_orders,
            final(self).instance_tag == old(self).instance_tag,
            final(self).product_id == old(self).product_id,
            final(self).mode == old(self).mode,
            final(self).start_time == old(self).start_time,
            order.product_id != old(self).product_id ==> r == Err::<MatchResult, EngineError>(
                EngineError::WrongProduct,
            ) && final(self).order_book == old(self).order_book && final(self).auction_pool
                == old(self).auction_pool && final(self).matched_orders == old(self).matched_orders,
            order.product_id == old(self).product_id && old(self).mode == EngineMode::Auction ==> {
                &&& r is Ok
                &&& r->Ok_0.order_execution_list@.len() == 0
                &&& r->Ok_0.start_time == now
                &&& r->Ok_0.end_time == now
                &&& final(self).order_book == old(self).order_book
                &&& final(self).matched_orders == old(self).matched_orders
                &&& (is_buy_order(order) ==> final(self).auction_pool.bids@ == old(
                    self,
                ).auction_pool.bids@.push(order))
                &&& (is_sell_order(order) ==> final(self).auction_pool.asks@ == old(
                    self,
                ).auction_pool.asks@.push(order))
            },
            order.product_id == old(self).product_id && old(self).mode == EngineMode::Continuous
                ==> final(self).auction_pool == old(self).auction_pool && match r {
                Err(e) => {
                    &&& old(self).order_book.submit_error(order) is Some
                    &&& e == EngineError::Book(old(self).order_book.submit_error(order)->Some_0)
                    &&& final(self).order_book == old(self).order_book
                    &&& final(self).matched_orders == old(self).matched_orders
                },
                Ok(res) => {
                    &&& old(self).order_book.submit_error(order) is None
                    &&& old(self).order_book.match_outcome(&final(self).order_book, order, now, res)
                    &&& final(self).matched_orders == sat_add(
                        old(self).matched_orders,
                        real_count(res.order_execution_list@),
                    )
                },
            },
    {
        self.total_received_orders = saturating_add(self.total_received_orders, 1);
        if order.product_id != self.product_id {
            return Err(EngineError::WrongProduct);
        }
        match self.mode {
            EngineMode::Auction => {
                self.auction_pool.add_order(order);
                Ok(MatchResult { start_time: now, end_time: now, order_execution_list: Vec::new() })
            },
            EngineMode::Continuous => match self.order_book.match_order(order, now) {
                Err(e) => Err(EngineError::Book(e)),
                Ok(res) => {
                    let n = count_real(&res.order_execution_list);
                    self.matched_orders = saturating_add(self.matched_orders, n);
                    Ok(res)
                },
            },
        }
    }

    /// Cancels one order in the active component. Returns whether an order was
    /// removed.
    pub fn on_cancel(&mut self, order_id: u64) -> (r: bool)
        requires
            old(self).wf(),
        ensures
            final(self).wf(),
            final(self).total_received_orders == old(self).total_received_orders,
            final(self).matched_orders == old(self).matched_orders,
            final(self).mode == old(self).mode,
            final(self).instance_tag == old(self).instance_tag,
            final(self).product_id == old(self).product_id,
            final(self).start_time == old(self).start_time,
            old(self).mode == EngineMode::Continuous ==> {
                &&& r == old(self).order_book.order_index@.contains_key(order_id)
                &&& r ==> old(self).order_book.cancel_outcome(&final(self).order_book, order_id)
                &&& !r ==> final(self).order_book == old(self).order_book
                &&& final(self).auction_pool == old(self).auction_pool
            },
            old(self).mode == EngineMode::Auction ==> {
                &&& r == (has_order(old(self).auction_pool.bids@, order_id) || has_order(
                    old(self).auction_pool.asks@,
                    order_id,
                ))
                &&& pool_cancel_outcome(
                    old(self).auction_pool.bids@,
                    old(self).auction_pool.asks@,
                    order_id,
                    final(self).auction_pool.bids@,
                    final(self).auction_pool.asks@,
                )
                &&& final(self).order_book == old(self).order_book
            },
    {
        match self.mode {
            EngineMode::Auction => self.auction_pool.cancel_order(order_id),
            EngineMode::Continuous => self.order_book.cancel_order(order_id),
        }
    }

    /// Takes a cancellation message: counts it once, checks its product, and cancels
    /// each of its ids in the active component, in order. Returns how many orders
    /// were removed.
    pub fn on_cancel_request(&mut self, cancel: &CancelOrder) -> (r: Result<u64, EngineError>)
        requires
            old(self).wf(),
        ensures
            final(self).wf(),
            final(self).total_received_orders == sat_add(old(self).total_received_orders, 1),
            final(self).matched_orders == old(self).matched_orders,
            final(self).mode == old(self).mode,
            cancel.product_id != old(self).product_id ==> r == Err::<u64, EngineError>(
                EngineError::WrongProduct,
            ) && final(self).order_book == old(self).order_book && final(self).auction_pool
                == old(self).auction_pool,
            cancel.product_id == old(self).product_id ==> r is Ok && r->Ok_0 <= cancel.order_ids@.len(),
            cancel.product_id == old(self).product_id && old(self).mode == EngineMode::Continuous
                ==> final(self).order_book.order_index@ == old(self).order_book.order_index@.remove_keys(
                cancel.order_ids@.to_set(),
            ) && final(self).auction_pool == old(self).auction_pool,
            cancel.product_id == old(self).product_id && old(self).mode == EngineMode::Auction
                ==> final(self).order_book == old(self).order_book && (
            final(self).auction_pool.bids@,
            final(self).auction_pool.asks@,
            ) == pool_after_cancels(
                old(self).auction_pool.bids@,
                old(self).auction_pool.asks@,
                cancel.order_ids@,
            ),
    {
        self.total_received_orders = saturating_add(self.total_received_orders, 1);
        if cancel.product_id != self.product_id {
            return Err(EngineError::WrongProduct);
        }
        let ghost start = *self;
        let mut removed: u64 = 0;
        let mut i: usize = 0;
        while i < cancel.order_ids.len()
            invariant
                self.wf(),
                i <= cancel.order_ids@.len(),
                removed <= i,
                self.total_received_orders == start.total_received_orders,
                self.matched_orders == start.matched_orders,
                self.mode == start.mode,
                self.instance_tag == start.instance_tag,
                self.product_id == start.product_id,
                self.start_time == start.start_time,
                start.mode == EngineMode::Continuous ==> self.order_book.order_index@
                    == start.order_book.order_index@.remove_keys(
                    cancel.order_ids@.subrange(0, i as int).to_set(),
                ) && self.auction_pool == start.auction_pool,
                start.mode == EngineMode::Auction ==> self.order_book == start.order_book && (
                self.auction_pool.bids@,
                self.auction_pool.asks@,
                ) == pool_after_cancels(
                    start.auction_pool.bids@,
                    start.auction_pool.asks@,
                    cancel.order_ids@.subrange(0, i as int),
                ),
            decreases cancel.order_ids@.len() - i,
        {
            let id = cancel.order_ids[i];
            let ghost before = *self;
            let ghost ids0 = cancel.order_ids@.subrange(0, i as int);
            if self.on_cancel(id) {
                removed = removed + 1;
            }
            proof {
                assert(cancel.order_ids@.subrange(0, i + 1) =~= ids0.push(id));
                if start.mode == EngineMode::Auction {
                    lemma_pool_cancel_is_function(
                        before.auction_pool.bids@,
                        before.auction_pool.asks@,
                        id,
                        self.auction_pool.bids@,
                        self.auction_pool.asks@,
                    );
                    assert(ids0.push(id).drop_last() =~= ids0);
                }
                if start.mode == EngineMode::Continuous {
                    assert(self.order_book.order_index@ =~= before.order_book.order_index@.remove(id));
                    ids0.lemma_push_to_set_commute(id);
                    assert(start.order_book.order_index@.remove_keys(ids0.to_set().insert(id))
                        =~= start.order_book.order_index@.remove_keys(ids0.to_set()).remove(id));
                }
            }
            i += 1;
        }
        proof {
            assert(cancel.order_ids@.subrange(0, i as int) =~= cancel.order_ids@);
        }
        Ok(removed)
    }

    /// Runs the call auction over the pool at engine time `now`, counting its
    /// executions that involve no mock order.
    pub fn run_auction(&mut self, price_tick: u64, now: u64) -> (r: MatchResult)
        requires
            old(self).wf(),
        ensures
            final(self).wf(),
            final(self).order_book == old(self).order_book,
            final(self).mode == old(self).mode,
            final(self).total_received_orders == old(self).total_received_orders,
            final(self).matched_orders == sat_add(
                old(self).matched_orders,
                real_count(r.order_execution_list@),
            ),
            r.start_time == now,
            r.end_time == now,
            auction_outcome(
                old(self).auction_pool.bids@,
                old(self).auction_pool.asks@,
                price_tick,
                old(self).instance_tag,
                old(self).product_id,
                r.order_execution_list@,
                final(self).auction_pool.bids@,
                final(self).auction_pool.asks@,
            ),
    {
        let res = self.auction_pool.execute_auction(price_tick, self.instance_tag, self.product_id, now);
        let n = count_real(&res.order_execution_list);
        self.matched_orders = saturating_add(self.matched_orders, n);
        res
    }

    /// A statistics snapshot; counts that do not fit in 32 bits are reported as the
    /// largest 32-bit value.
    pub fn snapshot_stats(&self) -> (r: BroadcastStats)
        ensures
            r.instance_tag == self.instance_tag,
            r.product_id == self.product_id,
            r.bids_size == sat32(self.order_book.bids.count),
            r.ask_size == sat32(self.order_book.asks.count),
            r.matched_orders == sat32(self.matched_orders),
            r.total_received_orders == sat32(self.total_received_orders),
            r.start_time == self.start_time,
    {
        BroadcastStats {
            instance_tag: self.instance_tag,
            product_id: self.product_id,
            bids_size: saturating_u32(self.order_book.bids.count),
            ask_size: saturating_u32(self.order_book.asks.count),
            matched_orders: saturating_u32(self.matched_orders),
            total_received_orders: saturating_u32(self.total_received_orders),
            start_time: self.start_time,
        }
    }
}

} // verus!
