//! The call-auction pool: orders gathered before the open, one equilibrium price
//! for all of them, and a bilateral fill at that price.
use vstd::prelude::*;

use crate::types::{
    MatchResult, Order, OrderExecution, ORDER_TYPE_BUY, ORDER_TYPE_MOCK_BUY, ORDER_TYPE_MOCK_SELL,
    ORDER_TYPE_SELL, is_buy_order, is_mock_order, is_sell_order,
};

verus! {

/// Orders accumulated for a discrete auction, per side, in arrival order.
pub struct CallAuctionPool {
    pub bids: Vec<Order>,
    pub asks: Vec<Order>,
}

// ----- the equilibrium price -----

/// Quantity bid at `p` or above.
pub open spec fn bid_volume_at(bids: Seq<Order>, p: u64) -> int
    decreases bids.len(),
{
    if bids.len() == 0 {
        0
    } else {
        bid_volume_at(bids.drop_last(), p) + if bids.last().price >= p {
            bids.last().quantity as int
        } else {
            0
        }
    }
}

/// Quantity offered at `p` or below.
pub open spec fn ask_volume_at(asks: Seq<Order>, p: u64) -> int
    decreases asks.len(),
{
    if asks.len() == 0 {
        0
    } else {
        ask_volume_at(asks.drop_last(), p) + if asks.last().price <= p {
            asks.last().quantity as int
        } else {
            0
        }
    }
}

/// Quantity that can trade at `p`.
pub open spec fn executable_at(bids: Seq<Order>, asks: Seq<Order>, p: u64) -> int {
    let b = bid_volume_at(bids, p);
    let a = ask_volume_at(asks, p);
    if b <= a {
        b
    } else {
        a
    }
}

/// How far the two sides are apart at `p`.
pub open spec fn imbalance_at(bids: Seq<Order>, asks: Seq<Order>, p: u64) -> int {
    let b = bid_volume_at(bids, p);
    let a = ask_volume_at(asks, p);
    if b >= a {
        b - a
    } else {
        a - b
    }
}

/// The `j`-th candidate price derived from an order price: its tick floor, one tick
/// above, one tick below (when not negative), when it fits in 64 bits.
pub open spec fn candidate(price: u64, tick: u64, j: int) -> Option<u64> {
    let base = (price / tick) * tick;
    if j == 0 {
        Some(base as u64)
    } else if j == 1 {
        if base + tick <= u64::MAX {
            Some((base + tick) as u64)
        } else {
            None
        }
    } else if base >= tick {
        Some((base - tick) as u64)
    } else {
        None
    }
}

/// `c` is a candidate price of the pool.
pub open spec fn is_candidate(bids: Seq<Order>, asks: Seq<Order>, tick: u64, c: u64) -> bool {
    exists|i: int, j: int|
        0 <= i < bids.len() + asks.len() && 0 <= j < 3 && #[trigger] candidate(
            (bids + asks)[i].price,
            tick,
            j,
        ) == Some(c)
}

/// Price `c` ranks above price `p`: more executable volume; then less imbalance;
/// then the lower price.
pub open spec fn ranks_above(bids: Seq<Order>, asks: Seq<Order>, c: u64, p: u64) -> bool {
    let ec = executable_at(bids, asks, c);
    let ep = executable_at(bids, asks, p);
    ec > ep || (ec == ep && (imbalance_at(bids, asks, c) < imbalance_at(bids, asks, p) || (
    imbalance_at(bids, asks, c) == imbalance_at(bids, asks, p) && c < p)))
}

/// `p` is the auction price, with `v` executable there: a candidate with volume to
/// execute that no other candidate ranks above.
pub open spec fn is_equilibrium(bids: Seq<Order>, asks: Seq<Order>, tick: u64, p: u64, v: int) -> bool {
    &&& tick > 0
    &&& is_candidate(bids, asks, tick, p)
    &&& v == executable_at(bids, asks, p)
    &&& v > 0
    &&& forall|c: u64|
        is_candidate(bids, asks, tick, c) && c != p ==> !ranks_above(bids, asks, c, p)
}

/// No candidate price has volume to execute (or the tick is 0).
pub open spec fn no_equilibrium(bids: Seq<Order>, asks: Seq<Order>, tick: u64) -> bool {
    tick == 0 || forall|c: u64|
        is_candidate(bids, asks, tick, c) ==> executable_at(bids, asks, c) == 0
}

// ----- the bilateral fill -----

/// Order `a` at position `i` goes before order `b` at position `j`: for bids the
/// higher price, for asks the lower; then the earlier submission; then the earlier
/// arrival in the pool.
pub open spec fn goes_before(a: Order, i: int, b: Order, j: int, buy: bool) -> bool {
    (if buy {
        a.price > b.price
    } else {
        a.price < b.price
    }) || (a.price == b.price && (a.submit_time < b.submit_time || (a.submit_time
        == b.submit_time && i < j)))
}

/// Order `i` can still trade at `p`.
pub open spec fn live(orders: Seq<Order>, rem: Seq<u32>, p: u64, buy: bool, i: int) -> bool {
    &&& 0 <= i < orders.len()
    &&& i < rem.len()
    &&& rem[i] > 0
    &&& if buy {
        orders[i].price >= p
    } else {
        orders[i].price <= p
    }
}

/// Order `i` is the next to trade on its side.
pub open spec fn is_next(orders: Seq<Order>, rem: Seq<u32>, p: u64, buy: bool, i: int) -> bool {
    &&& live(orders, rem, p, buy, i)
    &&& forall|j: int|
        #![trigger live(orders, rem, p, buy, j)]
        live(orders, rem, p, buy, j) && j != i ==> goes_before(orders[i], i, orders[j], j, buy)
}

pub open spec fn has_next(orders: Seq<Order>, rem: Seq<u32>, p: u64, buy: bool) -> bool {
    exists|i: int| is_next(orders, rem, p, buy, i)
}

pub open spec fn next_of(orders: Seq<Order>, rem: Seq<u32>, p: u64, buy: bool) -> int {
    choose|i: int| is_next(orders, rem, p, buy, i)
}

pub open spec fn min3(a: int, b: int, c: int) -> int {
    if a <= b && a <= c {
        a
    } else if b <= c {
        b
    } else {
        c
    }
}

/// The execution between bid `i` and ask `j` at the auction price.
pub open spec fn auction_execution(
    bids: Seq<Order>,
    asks: Seq<Order>,
    i: int,
    j: int,
    qty: int,
    p: u64,
    tag: [u8; 16],
    product_id: u16,
) -> OrderExecution {
    OrderExecution {
        instance_tag: tag,
        product_id,
        buy_order_id: bids[i].order_id,
        sell_order_id: asks[j].order_id,
        price: p,
        quantity: qty as u32,
        trade_time_network: 0,
        internal_match_time: 0,
        is_mocked_result: is_mock_order(bids[i]) || is_mock_order(asks[j]),
    }
}

/// The fill at price `p` of volume `v`: the next bid and the next ask trade what
/// both still have, up to what is left of `v`, until `v` is reached or a side has
/// nothing left. Gives the executions and what each order has left.
pub open spec fn auction_run(
    bids: Seq<Order>,
    asks: Seq<Order>,
    brem: Seq<u32>,
    arem: Seq<u32>,
    v: int,
    p: u64,
    tag: [u8; 16],
    product_id: u16,
) -> (Seq<OrderExecution>, Seq<u32>, Seq<u32>)
    decreases v,
{
    if v <= 0 || !has_next(bids, brem, p, true) || !has_next(asks, arem, p, false) {
        (seq![], brem, arem)
    } else {
        let i = next_of(bids, brem, p, true);
        let j = next_of(asks, arem, p, false);
        let x = min3(brem[i] as int, arem[j] as int, v);
        let r = auction_run(
            bids,
            asks,
            brem.update(i, (brem[i] - x) as u32),
            arem.update(j, (arem[j] - x) as u32),
            v - x,
            p,
            tag,
            product_id,
        );
        (seq![auction_execution(bids, asks, i, j, x, p, tag, product_id)] + r.0, r.1, r.2)
    }
}

/// The quantities of a sequence of orders.
pub open spec fn quantities(orders: Seq<Order>) -> Seq<u32> {
    Seq::new(orders.len(), |k: int| orders[k].quantity)
}

/// The first `n` orders of a side as they stay in the pool: an order that could
/// trade at `p` stays with what it has left, if anything; the others stay as they are.
pub open spec fn kept(orders: Seq<Order>, rem: Seq<u32>, p: u64, buy: bool, n: int) -> Seq<Order>
    decreases n,
{
    if n <= 0 {
        seq![]
    } else {
        let k = n - 1;
        let eligible = if buy {
            orders[k].price >= p
        } else {
            orders[k].price <= p
        };
        if !eligible {
            kept(orders, rem, p, buy, k).push(orders[k])
        } else if rem[k] > 0 {
            kept(orders, rem, p, buy, k).push(Order { quantity: rem[k], ..orders[k] })
        } else {
            kept(orders, rem, p, buy, k)
        }
    }
}

/// What running the auction over `bids` and `asks` does: with no equilibrium,
/// nothing; otherwise, at the equilibrium price and volume, the executions of the
/// fill, and each side as it stays in the pool.
pub open spec fn auction_outcome(
    bids: Seq<Order>,
    asks: Seq<Order>,
    tick: u64,
    tag: [u8; 16],
    product_id: u16,
    execs: Seq<OrderExecution>,
    new_bids: Seq<Order>,
    new_asks: Seq<Order>,
) -> bool {
    &&& no_equilibrium(bids, asks, tick) ==> execs.len() == 0 && new_bids == bids && new_asks
        == asks
    &&& !no_equilibrium(bids, asks, tick) ==> exists|p: u64, v: int|
        {
            let run = auction_run(bids, asks, quantities(bids), quantities(asks), v, p, tag, product_id);
            &&& #[trigger] is_equilibrium(bids, asks, tick, p, v)
            &&& execs == run.0
            &&& new_bids == kept(bids, run.1, p, true, bids.len() as int)
            &&& new_asks == kept(asks, run.2, p, false, asks.len() as int)
        }
}

/// The next order to trade on a side, if any.
fn next_live(orders: &Vec<Order>, rem: &Vec<u32>, p: u64, buy: bool) -> (r: Option<usize>)
    requires
        rem@.len() == orders@.len(),
    ensures
        r is Some ==> is_next(orders@, rem@, p, buy, r->Some_0 as int),
        r is None ==> !has_next(orders@, rem@, p, buy),
{
    let mut best: Option<usize> = None;
    let mut k: usize = 0;
    while k < orders.len()
        invariant
            k <= orders@.len(),
            rem@.len() == orders@.len(),
            best is None ==> forall|j: int| 0 <= j < k ==> !live(orders@, rem@, p, buy, j),
            best is Some ==> best->Some_0 < k && live(orders@, rem@, p, buy, best->Some_0 as int)
                && forall|j: int|
                0 <= j < k && j != best->Some_0 && live(orders@, rem@, p, buy, j) ==> goes_before(
                    orders@[best->Some_0 as int],
                    best->Some_0 as int,
                    orders@[j],
                    j,
                    buy,
                ),
        decreases orders@.len() - k,
    {
        let o = orders[k];
        let eligible = if buy {
            o.price >= p
        } else {
            o.price <= p
        };
        if rem[k] > 0 && eligible {
            match best {
                None => {
                    best = Some(k);
                },
                Some(b) => {
                    let c = orders[b];
                    let ahead = (if buy {
                        o.price > c.price
                    } else {
                        o.price < c.price
                    }) || (o.price == c.price && o.submit_time < c.submit_time);
                    if ahead {
                        best = Some(k);
                    }
                },
            }
        }
        k += 1;
    }
    proof {
        if best is None {
            assert forall|i: int| !is_next(orders@, rem@, p, buy, i) by {
                if 0 <= i < orders@.len() {
                    assert(!live(orders@, rem@, p, buy, i));
                }
            }
        }
    }
    best
}

/// Quantities are 32-bit, so a side's volume stays far below 2^128.
proof fn lemma_bid_volume_bounds(bids: Seq<Order>, p: u64)
    ensures
        0 <= bid_volume_at(bids, p) <= bids.len() * 0xffff_ffff,
    decreases bids.len(),
{
    if bids.len() > 0 {
        lemma_bid_volume_bounds(bids.drop_last(), p);
    }
}

proof fn lemma_ask_volume_bounds(asks: Seq<Order>, p: u64)
    ensures
        0 <= ask_volume_at(asks, p) <= asks.len() * 0xffff_ffff,
    decreases asks.len(),
{
    if asks.len() > 0 {
        lemma_ask_volume_bounds(asks.drop_last(), p);
    }
}

/// Volumes bid at or above and offered at or below `p`.
fn volumes_at(bids: &Vec<Order>, asks: &Vec<Order>, p: u64) -> (r: (u128, u128))
    ensures
        r.0 == bid_volume_at(bids@, p),
        r.1 == ask_volume_at(asks@, p),
{
    let mut b: u128 = 0;
    let mut i: usize = 0;
    while i < bids.len()
        invariant
            i <= bids@.len(),
            b == bid_volume_at(bids@.subrange(0, i as int), p),
        decreases bids@.len() - i,
    {
        proof {
            assert(bids@.subrange(0, i as int + 1).drop_last() =~= bids@.subrange(0, i as int));
            lemma_bid_volume_bounds(bids@.subrange(0, i as int), p);
            assert(i * 0xffff_ffff <= 0xffff_ffff_ffff_ffff * 0xffff_ffffint) by (nonlinear_arith)
                requires
                    i <= 0xffff_ffff_ffff_ffffint,
            ;
        }
        if bids[i].price >= p {
            b = b + bids[i].quantity as u128;
        }
        i += 1;
    }
    let mut a: u128 = 0;
    let mut k: usize = 0;
    while k < asks.len()
        invariant
            k <= asks@.len(),
            a == ask_volume_at(asks@.subrange(0, k as int), p),
        decreases asks@.len() - k,
    {
        proof {
            assert(asks@.subrange(0, k as int + 1).drop_last() =~= asks@.subrange(0, k as int));
            lemma_ask_volume_bounds(asks@.subrange(0, k as int), p);
            assert(k * 0xffff_ffff <= 0xffff_ffff_ffff_ffff * 0xffff_ffffint) by (nonlinear_arith)
                requires
                    k <= 0xffff_ffff_ffff_ffffint,
            ;
        }
        if asks[k].price <= p {
            a = a + asks[k].quantity as u128;
        }
        k += 1;
    }
    assert(bids@.subrange(0, bids@.len() as int) =~= bids@);
    assert(asks@.subrange(0, asks@.len() as int) =~= asks@);
    (b, a)
}

/// The `j`-th candidate price of an order price.
fn candidate_of(price: u64, tick: u64, j: usize) -> (r: Option<u64>)
    requires
        tick > 0,
        j < 3,
    ensures
        r == candidate(price, tick, j as int),
{
    let q = price / tick;
    proof {
        vstd::arithmetic::div_mod::lemma_fundamental_div_mod(price as int, tick as int);
        assert(q * tick <= price) by (nonlinear_arith)
            requires
                price == tick * q + price % tick,
                price % tick >= 0,
        ;
    }
    let base = q * tick;
    if j == 0 {
        Some(base)
    } else if j == 1 {
        if base <= u64::MAX - tick {
            Some(base + tick)
        } else {
            None
        }
    } else if base >= tick {
        Some(base - tick)
    } else {
        None
    }
}

impl CallAuctionPool {
    /// An empty pool.
    pub fn new(init_size: usize) -> (r: Self)
        ensures
            r.bids@.len() == 0,
            r.asks@.len() == 0,
    {
        CallAuctionPool { bids: Vec::with_capacity(init_size), asks: Vec::with_capacity(init_size) }
    }

    /// Adds an order to its side; an order of unknown side is ignored.
    pub fn add_order(&mut self, order: Order)
        ensures
            is_buy_order(order) ==> final(self).bids@ == old(self).bids@.push(order) && final(self).asks@ == old(self).asks@,
            is_sell_order(order) ==> final(self).asks@ == old(self).asks@.push(order) && final(self).bids@ == old(self).bids@,
            !is_buy_order(order) && !is_sell_order(order) ==> *final(self) == *old(self),
    {
        let t = order.order_type;
        if t == ORDER_TYPE_BUY || t == ORDER_TYPE_MOCK_BUY {
            self.bids.push(order);
        } else if t == ORDER_TYPE_SELL || t == ORDER_TYPE_MOCK_SELL {
            self.asks.push(order);
        }
    }

    /// Empties the pool.
    pub fn clear(&mut self)
        ensures
            final(self).bids@.len() == 0,
            final(self).asks@.len() == 0,
    {
        self.bids.clear();
        self.asks.clear();
    }

    /// Removes the first order with this id, looking at the bids first. Returns
    /// whether one was removed.
    pub fn cancel_order(&mut self, order_id: u64) -> (r: bool)
        ensures
            r == (has_order(old(self).bids@, order_id) || has_order(old(self).asks@, order_id)),
            pool_cancel_outcome(
                old(self).bids@,
                old(self).asks@,
                order_id,
                final(self).bids@,
                final(self).asks@,
            ),
    {
        match first_with_id(&self.bids, order_id) {
            Some(i) => {
                self.bids.remove(i);
                true
            },
            None => match first_with_id(&self.asks, order_id) {
                Some(i) => {
                    self.asks.remove(i);
                    true
                },
                None => false,
            },
        }
    }

    /// The auction's equilibrium price and the volume executable there: among the
    /// candidate prices, the one with the most executable volume, then the least
    /// imbalance, then the lowest. `None` when no candidate has volume to execute,
    /// or the tick is 0.
    pub fn calculate_match_price_final(&self, price_tick: u64) -> (r: Option<(u64, u128)>)
        ensures
            price_tick == 0 ==> r is None,
            r is None && price_tick > 0 ==> forall|c: u64|
                is_candidate(self.bids@, self.asks@, price_tick, c) ==> executable_at(
                    self.bids@,
                    self.asks@,
                    c,
                ) == 0,
            r is Some ==> is_equilibrium(self.bids@, self.asks@, price_tick, r->Some_0.0, r->Some_0.1 as int),
    {
        if price_tick == 0 {
            return None;
        }
        let ghost all = self.bids@ + self.asks@;
        let prices = order_prices(&self.bids, &self.asks);
        let total = prices.len();
        let mut best: Option<(u64, u128, u128)> = None;
        let mut i: usize = 0;
        while i < total
            invariant
                total == all.len(),
                prices@.len() == all.len(),
                forall|k: int| 0 <= k < all.len() ==> #[trigger] prices@[k] == all[k].price,
                all == self.bids@ + self.asks@,
                i <= total,
                price_tick > 0,
                best is None ==> forall|i2: int, j2: int|
                    0 <= i2 < i && 0 <= j2 < 3 && #[trigger] candidate(all[i2].price, price_tick, j2)
                        is Some ==> executable_at(
                        self.bids@,
                        self.asks@,
                        candidate(all[i2].price, price_tick, j2)->Some_0,
                    ) == 0,
                best is Some ==> {
                    let (p, v, imb) = best->Some_0;
                    &&& is_candidate(self.bids@, self.asks@, price_tick, p)
                    &&& v == executable_at(self.bids@, self.asks@, p)
                    &&& imb == imbalance_at(self.bids@, self.asks@, p)
                    &&& v > 0
                    &&& forall|i2: int, j2: int|
                        0 <= i2 < i && 0 <= j2 < 3 && #[trigger] candidate(
                            all[i2].price,
                            price_tick,
                            j2,
                        ) is Some && candidate(all[i2].price, price_tick, j2)->Some_0 != p
                            ==> !ranks_above(
                            self.bids@,
                            self.asks@,
                            candidate(all[i2].price, price_tick, j2)->Some_0,
                            p,
                        )
                },
            decreases total - i,
        {
            let price = prices[i];
            let mut j: usize = 0;
            while j < 3
                invariant
                    total == all.len(),
                    all == self.bids@ + self.asks@,
                    i < total,
                    j <= 3,
                    price == all[i as int].price,
                    price_tick > 0,
                    best is None ==> forall|i2: int, j2: int|
                        (0 <= i2 < i && 0 <= j2 < 3 || i2 == i && 0 <= j2 < j) && #[trigger] candidate(
                            all[i2].price,
                            price_tick,
                            j2,
                        ) is Some ==> executable_at(
                            self.bids@,
                            self.asks@,
                            candidate(all[i2].price, price_tick, j2)->Some_0,
                        ) == 0,
                    best is Some ==> {
                        let (p, v, imb) = best->Some_0;
                        &&& is_candidate(self.bids@, self.asks@, price_tick, p)
                        &&& v == executable_at(self.bids@, self.asks@, p)
                        &&& imb == imbalance_at(self.bids@, self.asks@, p)
                        &&& v > 0
                        &&& forall|i2: int, j2: int|
                            (0 <= i2 < i && 0 <= j2 < 3 || i2 == i && 0 <= j2 < j) && #[trigger] candidate(
                                all[i2].price,
                                price_tick,
                                j2,
                            ) is Some && candidate(all[i2].price, price_tick, j2)->Some_0 != p
                                ==> !ranks_above(
                                self.bids@,
                                self.asks@,
                                candidate(all[i2].price, price_tick, j2)->Some_0,
                                p,
                            )
                    },
                decreases 3 - j,
            {
                if let Some(c) = candidate_of(price, price_tick, j) {
                    let (b, a) = volumes_at(&self.bids, &self.asks, c);
                    let vol = if b <= a {
                        b
                    } else {
                        a
                    };
                    let imb = if b >= a {
                        b - a
                    } else {
                        a - b
                    };
                    proof {
                        assert(candidate(all[i as int].price, price_tick, j as int) == Some(c));
                        assert(is_candidate(self.bids@, self.asks@, price_tick, c));
                    }
                    let better = match best {
                        None => vol > 0,
                        Some((p, v, bimb)) => vol > v || (vol == v && (imb < bimb || (imb == bimb
                            && c < p))),
                    };
                    let ghost prev = best;
                    if better {
                        best = Some((c, vol, imb));
                    }
                    proof {
                        // a newly chosen price ranks above everything seen so far
                        if better && prev is Some {
                            let (p0, v0, i0) = prev->Some_0;
                            assert forall|i2: int, j2: int|
                                (0 <= i2 < i && 0 <= j2 < 3 || i2 == i && 0 <= j2 < j + 1)
                                    && #[trigger] candidate(all[i2].price, price_tick, j2) is Some
                                    && candidate(all[i2].price, price_tick, j2)->Some_0 != c
                                implies !ranks_above(
                                self.bids@,
                                self.asks@,
                                candidate(all[i2].price, price_tick, j2)->Some_0,
                                c,
                            ) by {
                                let c2 = candidate(all[i2].price, price_tick, j2)->Some_0;
                                if i2 == i && j2 == j {
                                } else if c2 == p0 {
                                } else {
                                    assert(!ranks_above(self.bids@, self.asks@, c2, p0));
                                }
                            }
                        }
                    }
                }
                j += 1;
            }
            i += 1;
        }
        match best {
            None => {
                proof {
                    assert forall|c: u64|
                        is_candidate(self.bids@, self.asks@, price_tick, c) implies executable_at(
                        self.bids@,
                        self.asks@,
                        c,
                    ) == 0 by {
                        let (i2, j2) = choose|i2: int, j2: int|
                            0 <= i2 < all.len() && 0 <= j2 < 3 && #[trigger] candidate(
                                all[i2].price,
                                price_tick,
                                j2,
                            ) == Some(c);
                    }
                }
                None
            },
            Some((p, v, _)) => {
                proof {
                    assert forall|c: u64|
                        is_candidate(self.bids@, self.asks@, price_tick, c) && c != p implies !ranks_above(
                        self.bids@,
                        self.asks@,
                        c,
                        p,
                    ) by {
                        let (i2, j2) = choose|i2: int, j2: int|
                            0 <= i2 < all.len() && 0 <= j2 < 3 && #[trigger] candidate(
                                all[i2].price,
                                price_tick,
                                j2,
                            ) == Some(c);
                    }
                }
                Some((p, v))
            },
        }
    }

    /// Runs the auction: at the equilibrium price, bids able to pay it (highest
    /// first) trade with asks asking no more (lowest first), earlier submissions
    /// first at a price, until the executable volume is reached. What could not
    /// trade, and what is left of partly filled orders, stays in the pool.
    pub fn execute_auction(
        &mut self,
        price_tick: u64,
        instance_tag: [u8; 16],
        product_id: u16,
        current_ts: u64,
    ) -> (r: MatchResult)
        ensures
            r.start_time == current_ts,
            r.end_time == current_ts,
            auction_outcome(
                old(self).bids@,
                old(self).asks@,
                price_tick,
                instance_tag,
                product_id,
                r.order_execution_list@,
                final(self).bids@,
                final(self).asks@,
            ),
    {
        let (p, v) = match self.calculate_match_price_final(price_tick) {
            Some(found) => found,
            None => {
                return MatchResult {
                    start_time: current_ts,
                    end_time: current_ts,
                    order_execution_list: Vec::new(),
                };
            },
        };
        let mut brem = order_quantities(&self.bids);
        let mut arem = order_quantities(&self.asks);
        let ghost run0 = auction_run(
            self.bids@,
            self.asks@,
            brem@,
            arem@,
            v as int,
            p,
            instance_tag,
            product_id,
        );
        let mut execs: Vec<OrderExecution> = Vec::new();
        let mut left: u128 = v;
        let mut done = false;
        while !done
            invariant
                brem@.len() == self.bids@.len(),
                arem@.len() == self.asks@.len(),
                ({
                    let run = auction_run(
                        self.bids@,
                        self.asks@,
                        brem@,
                        arem@,
                        left as int,
                        p,
                        instance_tag,
                        product_id,
                    );
                    &&& execs@ + run.0 == run0.0
                    &&& run.1 == run0.1
                    &&& run.2 == run0.2
                    &&& done ==> run.0.len() == 0 && run.1 == brem@ && run.2 == arem@
                }),
            decreases (if done {
                0int
            } else {
                1int
            }), left,
        {
            if left == 0 {
                done = true;
            } else {
                let bi = next_live(&self.bids, &brem, p, true);
                let ai = next_live(&self.asks, &arem, p, false);
                match (bi, ai) {
                    (Some(i), Some(j)) => {
                        let ghost b0 = brem@;
                        let ghost a0 = arem@;
                        let ghost left0 = left;
                        let bq = brem[i];
                        let aq = arem[j];
                        let x: u32 = if (bq as u128) <= (aq as u128) && (bq as u128) <= left {
                            bq
                        } else if (aq as u128) <= left {
                            aq
                        } else {
                            left as u32
                        };
                        let bid = self.bids[i];
                        let ask = self.asks[j];
                        let execution = OrderExecution {
                            instance_tag,
                            product_id,
                            buy_order_id: bid.order_id,
                            sell_order_id: ask.order_id,
                            price: p,
                            quantity: x,
                            trade_time_network: 0,
                            internal_match_time: 0,
                            is_mocked_result: bid.is_mocked_order() || ask.is_mocked_order(),
                        };
                        let ghost execs0 = execs@;
                        execs.push(execution);
                        brem[i] = bq - x;
                        arem[j] = aq - x;
                        left = left - x as u128;
                        proof {
                            assert(has_next(self.bids@, b0, p, true));
                            assert(has_next(self.asks@, a0, p, false));
                            let ni = next_of(self.bids@, b0, p, true);
                            let nj = next_of(self.asks@, a0, p, false);
                            assert(ni == i);
                            assert(nj == j);
                            assert(x == min3(b0[i as int] as int, a0[j as int] as int, left0 as int));
                            assert(execution == auction_execution(
                                self.bids@,
                                self.asks@,
                                i as int,
                                j as int,
                                x as int,
                                p,
                                instance_tag,
                                product_id,
                            ));
                            assert(brem@ == b0.update(i as int, (b0[i as int] - x) as u32));
                            assert(arem@ == a0.update(j as int, (a0[j as int] - x) as u32));
                            let run1 = auction_run(
                                self.bids@,
                                self.asks@,
                                brem@,
                                arem@,
                                left as int,
                                p,
                                instance_tag,
                                product_id,
                            );
                            assert(execs@ + run1.0 =~= execs0 + (seq![execution] + run1.0));
                        }
                    },
                    _ => {
                        done = true;
                    },
                }
            }
        }
        proof {
            assert(execs@ =~= execs@ + Seq::<OrderExecution>::empty());
        }
        let new_bids = kept_orders(&self.bids, &brem, p, true);
        let new_asks = kept_orders(&self.asks, &arem, p, false);
        self.bids = new_bids;
        self.asks = new_asks;
        MatchResult { start_time: current_ts, end_time: current_ts, order_execution_list: execs }
    }
}

/// The quantity of each order.
fn order_quantities(orders: &Vec<Order>) -> (r: Vec<u32>)
    ensures
        r@ == quantities(orders@),
{
    let mut r: Vec<u32> = Vec::new();
    let mut i: usize = 0;
    while i < orders.len()
        invariant
            i <= orders@.len(),
            r@ == quantities(orders@.subrange(0, i as int)),
        decreases orders@.len() - i,
    {
        r.push(orders[i].quantity);
        i += 1;
        assert(r@ =~= quantities(orders@.subrange(0, i as int)));
    }
    assert(orders@.subrange(0, orders@.len() as int) =~= orders@);
    r
}

/// The orders of a side as they stay in the pool after a fill at `p`.
fn kept_orders(orders: &Vec<Order>, rem: &Vec<u32>, p: u64, buy: bool) -> (r: Vec<Order>)
    requires
        rem@.len() == orders@.len(),
    ensures
        r@ == kept(orders@, rem@, p, buy, orders@.len() as int),
{
    let mut r: Vec<Order> = Vec::new();
    let mut i: usize = 0;
    while i < orders.len()
        invariant
            i <= orders@.len(),
            rem@.len() == orders@.len(),
            r@ == kept(orders@, rem@, p, buy, i as int),
        decreases orders@.len() - i,
    {
        let o = orders[i];
        let eligible = if buy {
            o.price >= p
        } else {
            o.price <= p
        };
        if !eligible {
            r.push(o);
        } else if rem[i] > 0 {
            r.push(Order { quantity: rem[i], ..o });
        }
        i += 1;
    }
    r
}

/// The prices of the bids, then of the asks.
fn order_prices(bids: &Vec<Order>, asks: &Vec<Order>) -> (r: Vec<u64>)
    ensures
        r@.len() == bids@.len() + asks@.len(),
        forall|k: int| 0 <= k < r@.len() ==> #[trigger] r@[k] == (bids@ + asks@)[k].price,
{
    let mut r: Vec<u64> = Vec::new();
    let mut i: usize = 0;
    while i < bids.len()
        invariant
            i <= bids@.len(),
            r@.len() == i,
            forall|k: int| 0 <= k < i ==> #[trigger] r@[k] == bids@[k].price,
        decreases bids@.len() - i,
    {
        r.push(bids[i].price);
        i += 1;
    }
    let mut j: usize = 0;
    while j < asks.len()
        invariant
            j <= asks@.len(),
            r@.len() == bids@.len() + j,
            forall|k: int| 0 <= k < bids@.len() ==> #[trigger] r@[k] == bids@[k].price,
            forall|k: int| 0 <= k < j ==> #[trigger] r@[bids@.len() + k] == asks@[k].price,
        decreases asks@.len() - j,
    {
        r.push(asks[j].price);
        j += 1;
    }
    assert forall|k: int| 0 <= k < r@.len() implies #[trigger] r@[k] == (bids@ + asks@)[k].price by {
        if k >= bids@.len() {
            assert(r@[bids@.len() + (k - bids@.len())] == asks@[k - bids@.len()].price);
        }
    }
    r
}

/// Some order of the sequence has this id.
pub open spec fn has_order(orders: Seq<Order>, id: u64) -> bool {
    exists|i: int| 0 <= i < orders.len() && #[trigger] orders[i].order_id == id
}

/// `after` is `before` without its first order with this id.
pub open spec fn removes_first(before: Seq<Order>, id: u64, after: Seq<Order>) -> bool {
    exists|i: int|
        0 <= i < before.len() && #[trigger] before[i].order_id == id && (forall|k: int|
            0 <= k < i ==> before[k].order_id != id) && after == before.remove(i)
}

/// What cancelling `id` in the pool does: the first bid with that id goes; failing
/// one, the first ask; failing both, nothing.
pub open spec fn pool_cancel_outcome(
    bids: Seq<Order>,
    asks: Seq<Order>,
    id: u64,
    new_bids: Seq<Order>,
    new_asks: Seq<Order>,
) -> bool {
    if has_order(bids, id) {
        removes_first(bids, id, new_bids) && new_asks == asks
    } else if has_order(asks, id) {
        new_bids == bids && removes_first(asks, id, new_asks)
    } else {
        new_bids == bids && new_asks == asks
    }
}

/// `s` without its first order with this id (unchanged when there is none).
pub open spec fn without_first(s: Seq<Order>, id: u64) -> Seq<Order>
    decreases s.len(),
{
    if s.len() == 0 {
        s
    } else if s[0].order_id == id {
        s.drop_first()
    } else {
        seq![s[0]] + without_first(s.drop_first(), id)
    }
}

/// The pool's two sides after cancelling `id`.
pub open spec fn pool_after_cancel(bids: Seq<Order>, asks: Seq<Order>, id: u64) -> (Seq<Order>, Seq<Order>) {
    if has_order(bids, id) {
        (without_first(bids, id), asks)
    } else if has_order(asks, id) {
        (bids, without_first(asks, id))
    } else {
        (bids, asks)
    }
}

/// The pool's two sides after cancelling each of `ids` in turn.
pub open spec fn pool_after_cancels(bids: Seq<Order>, asks: Seq<Order>, ids: Seq<u64>) -> (Seq<Order>, Seq<Order>)
    decreases ids.len(),
{
    if ids.len() == 0 {
        (bids, asks)
    } else {
        let prev = pool_after_cancels(bids, asks, ids.drop_last());
        pool_after_cancel(prev.0, prev.1, ids.last())
    }
}

/// Removing the first order with an id is `without_first`.
pub proof fn lemma_removes_first(s: Seq<Order>, id: u64, t: Seq<Order>)
    requires
        removes_first(s, id, t),
    ensures
        t == without_first(s, id),
    decreases s.len(),
{
    let i = choose|i: int|
        0 <= i < s.len() && #[trigger] s[i].order_id == id && (forall|k: int|
            0 <= k < i ==> s[k].order_id != id) && t == s.remove(i);
    if i == 0 {
        assert(t =~= s.drop_first());
    } else {
        let s2 = s.drop_first();
        let t2 = s2.remove(i - 1);
        assert(s2[i - 1].order_id == id);
        assert forall|k: int| 0 <= k < i - 1 implies s2[k].order_id != id by {
            assert(s2[k] == s[k + 1]);
        }
        assert(removes_first(s2, id, t2));
        lemma_removes_first(s2, id, t2);
        assert(s[0].order_id != id);
        assert(t =~= seq![s[0]] + t2);
    }
}

/// The pool's cancel, as a function of the two sides.
pub proof fn lemma_pool_cancel_is_function(
    bids: Seq<Order>,
    asks: Seq<Order>,
    id: u64,
    new_bids: Seq<Order>,
    new_asks: Seq<Order>,
)
    requires
        pool_cancel_outcome(bids, asks, id, new_bids, new_asks),
    ensures
        (new_bids, new_asks) == pool_after_cancel(bids, asks, id),
{
    if has_order(bids, id) {
        lemma_removes_first(bids, id, new_bids);
    } else if has_order(asks, id) {
        lemma_removes_first(asks, id, new_asks);
    }
}

/// The first position holding `order_id`, if any.
fn first_with_id(v: &Vec<Order>, order_id: u64) -> (r: Option<usize>)
    ensures
        r is None ==> forall|k: int| 0 <= k < v@.len() ==> v@[k].order_id != order_id,
        r is Some ==> r->Some_0 < v@.len() && v@[r->Some_0 as int].order_id == order_id && forall|
            k: int,
        | 0 <= k < r->Some_0 ==> v@[k].order_id != order_id,
{
    let mut i: usize = 0;
    while i < v.len()
        invariant
            i <= v@.len(),
            forall|k: int| 0 <= k < i ==> v@[k].order_id != order_id,
        decreases v@.len() - i,
    {
        if v[i].order_id == order_id {
            return Some(i);
        }
        i += 1;
    }
    None
}

} // verus!
