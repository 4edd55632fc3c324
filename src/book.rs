//! The continuous order book: a fixed ladder of price levels per side, each a FIFO
//! bucket, with exact best-level cursors, side totals and an id index for cancels.
use vstd::prelude::*;

use std::collections::{HashMap, VecDeque};

use crate::ladder::{
    ahead_of, deep, lemma_len_le_sum, lemma_queue_head, lemma_queue_skip_empty,
    lemma_queue_members, lemma_queue_update_here, lemma_queue_update_totals, lemma_sum_concat,
    lemma_sum_nonneg, lemma_sum_remove, lemma_sum_single,
    next_level, queue_from, sum_qty,
};
use crate::types::{
    Order, OrderExecution, MatchResult, ORDER_PRICE_TYPE_LIMIT, ORDER_PRICE_TYPE_MARKET,
    ORDER_TYPE_BUY, ORDER_TYPE_MOCK_BUY, ORDER_TYPE_MOCK_SELL, ORDER_TYPE_SELL, is_buy_order,
    is_mock_order,
};

verus! {

broadcast use vstd::std_specs::hash::group_hash_axioms;

/// Where a resting order is: its side and its level.
#[derive(Clone, Copy, Debug, PartialEq, Eq, Structural)]
pub struct OrderLocator {
    pub is_buy: bool,
    pub level: usize,
}

/// Why a submission was refused; a refused submission changes nothing.
#[derive(Clone, Copy, Debug, PartialEq, Eq, Structural)]
pub enum BookError {
    /// The side code is none of buy, sell, mock buy, mock sell (or, for a resting
    /// order, not buy or sell).
    UnknownSide,
    /// The price type is neither limit nor market (or, for a resting order, not limit).
    UnknownPriceType,
    /// A resting order must have a positive quantity.
    ZeroQuantity,
    /// A limit price below the ladder, above it, or between two of its levels.
    OutOfRange,
    /// An order with this id already rests in the book.
    DuplicateOrder,
    /// The side's total volume would no longer fit in 64 bits.
    VolumeOverflow,
}

/// One side of the book.
pub struct BookSide {
    /// One FIFO bucket per level; level `l` holds the price `base_price + l * tick`.
    pub levels: Vec<VecDeque<Order>>,
    /// Bids: highest non-empty level, or -1. Asks: lowest non-empty level, or the
    /// number of levels.
    pub best: i64,
    /// Sum of the quantities resting on this side.
    pub volume: u64,
    /// Number of orders resting on this side.
    pub count: u64,
}

/// The side code of orders resting on a side.
pub open spec fn side_code(is_buy: bool) -> u8 {
    if is_buy {
        ORDER_TYPE_BUY
    } else {
        ORDER_TYPE_SELL
    }
}

/// Where a walk of a side starts when the cursor is not used: the far end of the
/// ladder in walk order's reverse.
pub open spec fn start_level(n: int, is_buy: bool) -> int {
    if is_buy {
        n - 1
    } else {
        0
    }
}

/// The cursor value of an empty side.
pub open spec fn empty_cursor(n: int, is_buy: bool) -> int {
    if is_buy {
        -1
    } else {
        n
    }
}

/// What a resting order at level `l` of a side looks like.
pub open spec fn resting_ok(o: Order, l: int, is_buy: bool, base: u64, tick: u64) -> bool {
    &&& o.price == base + l * tick
    &&& o.quantity > 0
    &&& o.order_type == side_code(is_buy)
    &&& o.price_type == ORDER_PRICE_TYPE_LIMIT
}

/// Some order of the bucket has this id.
pub open spec fn holds_id(q: Seq<Order>, id: u64) -> bool {
    exists|k: int| 0 <= k < q.len() && #[trigger] q[k].order_id == id
}

impl BookSide {
    /// The side's resting orders in price-time priority.
    pub open spec fn queue(&self, is_buy: bool) -> Seq<Order> {
        queue_from(deep(self.levels@), start_level(self.levels@.len() as int, is_buy), !is_buy)
    }

    /// The bucket at level `l`.
    pub open spec fn bucket(&self, l: int) -> Seq<Order> {
        self.levels@[l]@
    }

    /// Buckets, prices, quantities, ids within a bucket, totals.
    pub open spec fn shape_ok(&self, is_buy: bool, base: u64, tick: u64, max: nat) -> bool {
        &&& self.levels@.len() == max
        &&& forall|l: int, k: int|
            0 <= l < max && 0 <= k < self.bucket(l).len() ==> resting_ok(
                #[trigger] self.levels@[l]@[k],
                l,
                is_buy,
                base,
                tick,
            )
        &&& forall|l: int, k1: int, k2: int|
            0 <= l < max && 0 <= k1 < k2 < self.bucket(l).len() ==> #[trigger] self.levels@[l]@[k1].order_id
                != #[trigger] self.levels@[l]@[k2].order_id
        &&& self.volume == sum_qty(self.queue(is_buy))
        &&& self.count == self.queue(is_buy).len()
    }

    /// Every level ahead of `i` in walk order is empty, and `i` is a level or the end.
    pub open spec fn clear_before(&self, is_buy: bool, i: int) -> bool {
        let n = self.levels@.len() as int;
        &&& (0 <= i < n || i == empty_cursor(n, is_buy))
        &&& forall|l: int| 0 <= l < n && ahead_of(l, i, !is_buy) ==> #[trigger] self.bucket(l).len() == 0
    }

    /// The cursor is exact: the best non-empty level, or the empty value.
    pub open spec fn cursor_ok(&self, is_buy: bool) -> bool {
        &&& self.clear_before(is_buy, self.best as int)
        &&& 0 <= self.best < self.levels@.len() ==> self.bucket(self.best as int).len() > 0
    }

    /// The index knows exactly the orders of this side, at their levels.
    pub open spec fn indexed(&self, is_buy: bool, index: Map<u64, OrderLocator>) -> bool {
        &&& forall|l: int, k: int|
            0 <= l < self.levels@.len() && 0 <= k < self.bucket(l).len() ==> {
                let id = (#[trigger] self.levels@[l]@[k]).order_id;
                index.contains_key(id) && index[id] == OrderLocator { is_buy, level: l as usize }
            }
        &&& forall|id: u64|
            #[trigger] index.contains_key(id) && index[id].is_buy == is_buy ==> index[id].level
                < self.levels@.len() && holds_id(self.bucket(index[id].level as int), id)
    }
}


// ----- what a taker meets -----

/// The taker's price accepts the maker's: always for a market order; for a limit buy
/// at or above the maker's price, for a limit sell at or below it.
pub open spec fn crosses(taker: Order, maker: Order) -> bool {
    taker.price_type == ORDER_PRICE_TYPE_MARKET || (if is_buy_order(taker) {
        taker.price >= maker.price
    } else {
        taker.price <= maker.price
    })
}

/// Nanoseconds from `submit` to `now`, or 0 when that is negative or does not fit.
pub open spec fn latency(now: u64, submit: u64) -> u32 {
    if now < submit || now - submit > u32::MAX {
        0
    } else {
        (now - submit) as u32
    }
}

/// The execution of `qty` between a taker and a maker: at the maker's price.
pub open spec fn execution_of(
    taker: Order,
    maker: Order,
    qty: u32,
    tag: [u8; 16],
    now: u64,
) -> OrderExecution {
    OrderExecution {
        instance_tag: tag,
        product_id: taker.product_id,
        buy_order_id: if is_buy_order(taker) {
            taker.order_id
        } else {
            maker.order_id
        },
        sell_order_id: if is_buy_order(taker) {
            maker.order_id
        } else {
            taker.order_id
        },
        price: maker.price,
        quantity: qty,
        trade_time_network: latency(now, taker.submit_time),
        internal_match_time: 0,
        is_mocked_result: is_mock_order(taker),
    }
}

pub open spec fn min_u32(a: u32, b: u32) -> u32 {
    if a <= b {
        a
    } else {
        b
    }
}

/// Matching stops: nothing left to fill, nothing resting, or the best resting price
/// is not acceptable.
pub open spec fn walk_stops(q: Seq<Order>, rem: u32, taker: Order) -> bool {
    rem == 0 || q.len() == 0 || !crosses(taker, q[0])
}

/// The executions of a taker wanting `rem` against resting orders `q` in priority
/// order: each resting order in turn gives what both still have.
pub open spec fn executions(q: Seq<Order>, rem: u32, taker: Order, tag: [u8; 16], now: u64) -> Seq<
    OrderExecution,
>
    decreases q.len(),
{
    if walk_stops(q, rem, taker) {
        seq![]
    } else {
        let x = min_u32(rem, q[0].quantity);
        seq![execution_of(taker, q[0], x, tag, now)] + executions(
            q.drop_first(),
            (rem - x) as u32,
            taker,
            tag,
            now,
        )
    }
}

/// The resting orders after that walk: exhausted ones gone, the last one touched
/// reduced.
pub open spec fn residual(q: Seq<Order>, rem: u32, taker: Order) -> Seq<Order>
    decreases q.len(),
{
    if walk_stops(q, rem, taker) {
        q
    } else if rem < q[0].quantity {
        q.update(0, Order { quantity: (q[0].quantity - rem) as u32, ..q[0] })
    } else {
        residual(q.drop_first(), (rem - q[0].quantity) as u32, taker)
    }
}

/// What the taker still wants after that walk.
pub open spec fn unfilled(q: Seq<Order>, rem: u32, taker: Order) -> u32
    decreases q.len(),
{
    if walk_stops(q, rem, taker) {
        rem
    } else if rem < q[0].quantity {
        0
    } else {
        unfilled(q.drop_first(), (rem - q[0].quantity) as u32, taker)
    }
}

/// A walk never leaves the taker wanting more than it started with.
pub proof fn lemma_unfilled_le(q: Seq<Order>, rem: u32, taker: Order)
    ensures
        unfilled(q, rem, taker) <= rem,
    decreases q.len(),
{
    if !walk_stops(q, rem, taker) && rem >= q[0].quantity {
        lemma_unfilled_le(q.drop_first(), (rem - q[0].quantity) as u32, taker);
    }
}

/// The index changed only by dropping entries of side `is_buy`.
pub open spec fn index_shrunk_on(
    old_index: Map<u64, OrderLocator>,
    new_index: Map<u64, OrderLocator>,
    is_buy: bool,
) -> bool {
    &&& forall|id: u64| #[trigger]
        new_index.contains_key(id) ==> old_index.contains_key(id) && new_index[id]
            == old_index[id]
    &&& forall|id: u64| #[trigger]
        old_index.contains_key(id) && !new_index.contains_key(id) ==> old_index[id].is_buy
            == is_buy
}

/// The other side stays indexed when the index only changes on this side.
proof fn lemma_other_side_indexed(
    other: BookSide,
    other_is_buy: bool,
    old_index: Map<u64, OrderLocator>,
    new_index: Map<u64, OrderLocator>,
)
    requires
        other.indexed(other_is_buy, old_index),
        forall|id: u64| #[trigger]
            new_index.contains_key(id) ==> (old_index.contains_key(id) && new_index[id]
                == old_index[id]) || new_index[id].is_buy != other_is_buy,
        forall|id: u64| #[trigger]
            old_index.contains_key(id) && old_index[id].is_buy == other_is_buy
                ==> new_index.contains_key(id) && new_index[id] == old_index[id],
    ensures
        other.indexed(other_is_buy, new_index),
{
    assert forall|l: int, k: int|
        0 <= l < other.levels@.len() && 0 <= k < other.bucket(l).len() implies {
        let id = (#[trigger] other.levels@[l]@[k]).order_id;
        new_index.contains_key(id) && new_index[id] == OrderLocator {
            is_buy: other_is_buy,
            level: l as usize,
        }
    } by {
        let id = other.levels@[l]@[k].order_id;
        assert(old_index.contains_key(id));
    }
    assert forall|id: u64| #[trigger]
        new_index.contains_key(id) && new_index[id].is_buy == other_is_buy implies new_index[id].level
        < other.levels@.len() && holds_id(other.bucket(new_index[id].level as int), id) by {
        assert(old_index.contains_key(id));
    }
}

/// Brings a cursor from `from` to the first non-empty level at or after it in walk
/// order, or to the empty value.
fn settle(side: &mut BookSide, is_buy: bool, from: i64)
    requires
        old(side).clear_before(is_buy, from as int),
        old(side).levels@.len() <= u32::MAX,
    ensures
        final(side).levels == old(side).levels,
        final(side).volume == old(side).volume,
        final(side).count == old(side).count,
        final(side).cursor_ok(is_buy),
{
    let n = side.levels.len();
    let mut i: i64 = from;
    while 0 <= i && i < n as i64 && side.levels[i as usize].len() == 0
        invariant
            n == side.levels@.len(),
            n <= u32::MAX,
            side.levels == old(side).levels,
            side.volume == old(side).volume,
            side.count == old(side).count,
            side.clear_before(is_buy, i as int),
        decreases (if is_buy {
            i + 1
        } else {
            n - i
        }),
    {
        i = if is_buy {
            i - 1
        } else {
            i + 1
        };
    }
    let ghost before = *side;
    side.best = i;
    assert forall|l: int| 0 <= l < n && ahead_of(l, i as int, !is_buy) implies #[trigger] side.bucket(
        l,
    ).len() == 0 by {
        assert(before.bucket(l).len() == 0);
    }
}

/// The cursor once an order rests at `level`: the better of the two.
pub open spec fn new_best(best: i64, level: int, is_buy: bool) -> int {
    if is_buy {
        if level > best {
            level
        } else {
            best as int
        }
    } else {
        if level < best {
            level
        } else {
            best as int
        }
    }
}

/// Appends an order at the tail of its bucket (time priority), and records it.
fn push_resting(
    side: &mut BookSide,
    index: &mut HashMap<u64, OrderLocator>,
    is_buy: bool,
    o: Order,
    level: usize,
    base: Ghost<u64>,
    tick: Ghost<u64>,
)
    requires
        old(side).shape_ok(is_buy, base@, tick@, old(side).levels@.len()),
        old(side).cursor_ok(is_buy),
        old(side).indexed(is_buy, old(index)@),
        old(side).levels@.len() <= u32::MAX,
        level < old(side).levels@.len(),
        resting_ok(o, level as int, is_buy, base@, tick@),
        !old(index)@.contains_key(o.order_id),
        old(side).volume + o.quantity <= u64::MAX,
    ensures
        final(side).shape_ok(is_buy, base@, tick@, old(side).levels@.len()),
        final(side).cursor_ok(is_buy),
        final(side).indexed(is_buy, final(index)@),
        final(index)@ == old(index)@.insert(o.order_id, OrderLocator { is_buy, level }),
        deep(final(side).levels@) == deep(old(side).levels@).update(
            level as int,
            old(side).bucket(level as int).push(o),
        ),
        final(side).volume == old(side).volume + o.quantity,
        final(side).count == old(side).count + 1,
        final(side).best == new_best(old(side).best, level as int, is_buy),
{
    let ghost old_side = *side;
    let ghost old_index = index@;
    let ghost n = side.levels@.len() as int;
    let ghost up = !is_buy;
    let ghost old_q = old_side.queue(is_buy);
    proof {
        assert forall|k: int| 0 <= k < old_q.len() implies #[trigger] old_q[k].quantity > 0 by {
            lemma_queue_members(deep(old_side.levels@), start_level(n, is_buy), up, k);
            let (l2, k2) = choose|l2: int, k2: int|
                0 <= l2 < n && 0 <= k2 < deep(old_side.levels@)[l2].len() && old_q[k]
                    == deep(old_side.levels@)[l2][k2];
            assert(old_side.levels@[l2]@[k2] == old_q[k]);
        }
        lemma_len_le_sum(old_q);
    }
    side.levels[level].push_back(o);
    side.volume = side.volume + o.quantity as u64;
    side.count = side.count + 1;
    index.insert(o.order_id, OrderLocator { is_buy, level });
    if is_buy {
        if level as i64 > side.best {
            side.best = level as i64;
        }
    } else {
        if (level as i64) < side.best {
            side.best = level as i64;
        }
    }
    proof {
        let d0 = deep(old_side.levels@);
        let x = old_side.bucket(level as int).push(o);
        assert(deep(side.levels@) =~= d0.update(level as int, x));
        lemma_queue_update_totals(d0, start_level(n, is_buy), level as int, x, up);
        assert(x =~= old_side.bucket(level as int) + seq![o]);
        lemma_sum_concat(old_side.bucket(level as int), seq![o]);
        lemma_sum_single(o);
        assert forall|l: int, k: int|
            0 <= l < n && 0 <= k < side.bucket(l).len() implies resting_ok(
            #[trigger] side.levels@[l]@[k],
            l,
            is_buy,
            base@,
            tick@,
        ) by {
            if l != level || k < old_side.bucket(l).len() {
                assert(side.levels@[l]@[k] == old_side.levels@[l]@[k]);
            }
        }
        assert forall|l: int, k1: int, k2: int|
            0 <= l < n && 0 <= k1 < k2 < side.bucket(l).len() implies #[trigger] side.levels@[l]@[k1].order_id
            != #[trigger] side.levels@[l]@[k2].order_id by {
            assert(side.levels@[l]@[k1] == old_side.levels@[l]@[k1]);
            if l != level || k2 < old_side.bucket(l).len() {
                assert(side.levels@[l]@[k2] == old_side.levels@[l]@[k2]);
            } else {
                assert(old_index.contains_key(old_side.levels@[l]@[k1].order_id));
            }
        }
        assert forall|l: int| 0 <= l < n && ahead_of(l, side.best as int, up) implies #[trigger] side.bucket(
            l,
        ).len() == 0 by {
            assert(old_side.bucket(l).len() == 0);
        }
        assert forall|l: int, k: int|
            0 <= l < n && 0 <= k < side.bucket(l).len() implies {
            let id = (#[trigger] side.levels@[l]@[k]).order_id;
            index@.contains_key(id) && index@[id] == OrderLocator { is_buy, level: l as usize }
        } by {
            if l != level || k < old_side.bucket(l).len() {
                assert(side.levels@[l]@[k] == old_side.levels@[l]@[k]);
                assert(old_index.contains_key(old_side.levels@[l]@[k].order_id));
            }
        }
        assert forall|id: u64| #[trigger]
            index@.contains_key(id) && index@[id].is_buy == is_buy implies index@[id].level < n
            && holds_id(side.bucket(index@[id].level as int), id) by {
            if id == o.order_id {
                let last = old_side.bucket(level as int).len() as int;
                assert(side.bucket(level as int)[last].order_id == id);
            } else {
                assert(old_index.contains_key(id));
                let lv = index@[id].level as int;
                let k = choose|k: int|
                    0 <= k < old_side.bucket(lv).len() && #[trigger] old_side.bucket(lv)[k].order_id
                        == id;
                assert(side.bucket(lv)[k] == old_side.bucket(lv)[k]);
            }
        }
    }
}

/// With every level ahead of `i` empty, a side's priority queue is the walk from `i`.
proof fn lemma_side_queue_from(side: BookSide, is_buy: bool, i: int)
    requires
        side.levels@.len() > 0,
        side.clear_before(is_buy, i),
    ensures
        side.queue(is_buy) == queue_from(deep(side.levels@), i, !is_buy),
{
    let d = deep(side.levels@);
    assert forall|l: int|
        0 <= l < d.len() && !ahead_of(l, start_level(d.len() as int, is_buy), !is_buy) && ahead_of(
            l,
            i,
            !is_buy,
        ) implies #[trigger] d[l].len() == 0 by {
        assert(side.bucket(l).len() == 0);
    }
    lemma_queue_skip_empty(d, start_level(d.len() as int, is_buy), i, !is_buy);
}

/// Nanoseconds from `submit` to `now`, or 0 when that is negative or does not fit.
fn latency_ns(now: u64, submit: u64) -> (r: u32)
    ensures
        r == latency(now, submit),
{
    if now < submit {
        0
    } else {
        let d = now - submit;
        if d > u32::MAX as u64 {
            0
        } else {
            d as u32
        }
    }
}

/// Walks side `is_buy` from its best level for a taker of the other side: fills in
/// price-time priority while the taker wants more and the price is acceptable,
/// appending one execution per fill. Returns what the taker still wants.
#[verifier::rlimit(60)]
fn take(
    side: &mut BookSide,
    index: &mut HashMap<u64, OrderLocator>,
    is_buy: bool,
    taker: &Order,
    tag: [u8; 16],
    now: u64,
    execs: &mut Vec<OrderExecution>,
    base: Ghost<u64>,
    tick: Ghost<u64>,
) -> (rem: u32)
    requires
        old(side).shape_ok(is_buy, base@, tick@, old(side).levels@.len()),
        old(side).cursor_ok(is_buy),
        old(side).indexed(is_buy, old(index)@),
        old(side).levels@.len() <= u32::MAX,
        is_buy_order(*taker) == !is_buy,
    ensures
        final(side).levels@.len() == old(side).levels@.len(),
        final(side).shape_ok(is_buy, base@, tick@, old(side).levels@.len()),
        final(side).cursor_ok(is_buy),
        final(side).indexed(is_buy, final(index)@),
        index_shrunk_on(old(index)@, final(index)@, is_buy),
        final(execs)@ == old(execs)@ + executions(
            old(side).queue(is_buy),
            taker.quantity,
            *taker,
            tag,
            now,
        ),
        final(side).queue(is_buy) == residual(old(side).queue(is_buy), taker.quantity, *taker),
        rem == unfilled(old(side).queue(is_buy), taker.quantity, *taker),
{
    let n = side.levels.len();
    let ghost q0 = side.queue(is_buy);
    let ghost up = !is_buy;
    let ghost e0 = execs@;
    let mut idx: i64 = side.best;
    let mut rem: u32 = taker.quantity;
    let mut done = false;
    proof {
        if n > 0 {
            lemma_side_queue_from(*side, is_buy, idx as int);
        }
        assert(e0 + executions(q0, rem, *taker, tag, now) == e0 + executions(q0, rem, *taker, tag, now));
    }
    while !done
        invariant
            n == side.levels@.len(),
            n <= u32::MAX,
            up == !is_buy,
            is_buy_order(*taker) == !is_buy,
            side.shape_ok(is_buy, base@, tick@, n as nat),
            side.clear_before(is_buy, idx as int),
            side.indexed(is_buy, index@),
            index_shrunk_on(old(index)@, index@, is_buy),
            side.queue(is_buy) == queue_from(deep(side.levels@), idx as int, up),
            execs@ + executions(side.queue(is_buy), rem, *taker, tag, now) == e0 + executions(
                q0,
                taker.quantity,
                *taker,
                tag,
                now,
            ),
            residual(side.queue(is_buy), rem, *taker) == residual(q0, taker.quantity, *taker),
            unfilled(side.queue(is_buy), rem, *taker) == unfilled(q0, taker.quantity, *taker),
            done ==> walk_stops(side.queue(is_buy), rem, *taker),
        decreases (if done {
            0int
        } else {
            1int
        }), rem, (if is_buy {
            idx + 1
        } else {
            n - idx
        }),
    {
        if rem == 0 || idx < 0 || idx >= n as i64 {
            done = true;
        } else {
            let l = idx as usize;
            let ghost s0 = *side;
            let ghost d = deep(s0.levels@);
            let ghost q = s0.queue(is_buy);
            let ghost nx = next_level(idx as int, up);
            assert(q == d[l as int] + queue_from(d, nx, up));
            if side.levels[l].len() == 0 {
                assert(q =~= queue_from(d, nx, up));
                idx = if is_buy {
                    idx - 1
                } else {
                    idx + 1
                };
                assert forall|l2: int| 0 <= l2 < n && ahead_of(l2, idx as int, up) implies #[trigger] side.bucket(
                    l2,
                ).len() == 0 by {
                    if l2 != l {
                        assert(ahead_of(l2, l as int, up));
                    }
                }
            } else {
                let head: Order = side.levels[l][0];
                proof {
                    lemma_queue_head(d, l as int, up);
                    assert(resting_ok(s0.levels@[l as int]@[0], l as int, is_buy, base@, tick@));
                }
                let acceptable = taker.price_type == ORDER_PRICE_TYPE_MARKET || (if is_buy {
                    taker.price <= head.price
                } else {
                    taker.price >= head.price
                });
                if !acceptable {
                    done = true;
                } else {
                    let x: u32 = if rem <= head.quantity {
                        rem
                    } else {
                        head.quantity
                    };
                    let ghost rem0 = rem;
                    let ghost execs0 = execs@;
                    let ghost index0 = index@;
                    let latency = latency_ns(now, taker.submit_time);
                    let execution = OrderExecution {
                        instance_tag: tag,
                        product_id: taker.product_id,
                        buy_order_id: if is_buy {
                            head.order_id
                        } else {
                            taker.order_id
                        },
                        sell_order_id: if is_buy {
                            taker.order_id
                        } else {
                            head.order_id
                        },
                        price: head.price,
                        quantity: x,
                        trade_time_network: latency,
                        internal_match_time: 0,
                        is_mocked_result: taker.is_mocked_order(),
                    };
                    assert(execution == execution_of(*taker, q[0], x, tag, now));
                    execs.push(execution);
                    proof {
                        lemma_sum_nonneg(q.drop_first());
                        assert(!walk_stops(q, rem0, *taker));
                        assert(executions(q, rem0, *taker, tag, now) == seq![execution] + executions(
                            q.drop_first(),
                            (rem0 - x) as u32,
                            *taker,
                            tag,
                            now,
                        ));
                    }
                    rem = rem - x;
                    side.volume = side.volume - x as u64;
                    let ghost b = s0.bucket(l as int);
                    if x == head.quantity {
                        side.levels[l].pop_front();
                        side.count = side.count - 1;
                        index.remove(&head.order_id);
                        proof {
                            let b2 = b.subrange(1, b.len() as int);
                            assert(deep(side.levels@) =~= d.update(l as int, b2));
                            lemma_queue_update_here(d, l as int, b2, up);
                            assert forall|l2: int| 0 <= l2 < n && ahead_of(l2, idx as int, up) implies #[trigger] side.bucket(
                                l2,
                            ).len() == 0 by {
                                assert(s0.bucket(l2).len() == 0);
                            }
                            if n > 0 {
                                lemma_side_queue_from(*side, is_buy, idx as int);
                            }
                            assert(q.drop_first() =~= queue_from(deep(side.levels@), idx as int, up));
                            assert(execs@ + executions(q.drop_first(), rem, *taker, tag, now) =~= execs0
                                + executions(q, rem0, *taker, tag, now));
                            // the bucket lost its head
                            assert forall|l2: int, k: int|
                                0 <= l2 < n && 0 <= k < side.bucket(l2).len() implies resting_ok(
                                #[trigger] side.levels@[l2]@[k],
                                l2,
                                is_buy,
                                base@,
                                tick@,
                            ) by {
                                if l2 == l {
                                    assert(side.levels@[l2]@[k] == s0.levels@[l2]@[k + 1]);
                                } else {
                                    assert(side.levels@[l2]@[k] == s0.levels@[l2]@[k]);
                                }
                            }
                            assert forall|l2: int, k1: int, k2: int|
                                0 <= l2 < n && 0 <= k1 < k2 < side.bucket(l2).len() implies #[trigger] side.levels@[l2]@[k1].order_id
                                != #[trigger] side.levels@[l2]@[k2].order_id by {
                                if l2 == l {
                                    assert(side.levels@[l2]@[k1] == s0.levels@[l2]@[k1 + 1]);
                                    assert(side.levels@[l2]@[k2] == s0.levels@[l2]@[k2 + 1]);
                                } else {
                                    assert(side.levels@[l2]@[k1] == s0.levels@[l2]@[k1]);
                                    assert(side.levels@[l2]@[k2] == s0.levels@[l2]@[k2]);
                                }
                            }
                            assert(index0.contains_key(head.order_id));
                            assert forall|l2: int, k: int|
                                0 <= l2 < n && 0 <= k < side.bucket(l2).len() implies {
                                let id = (#[trigger] side.levels@[l2]@[k]).order_id;
                                index@.contains_key(id) && index@[id] == OrderLocator {
                                    is_buy,
                                    level: l2 as usize,
                                }
                            } by {
                                let kk = if l2 == l {
                                    k + 1
                                } else {
                                    k
                                };
                                assert(side.levels@[l2]@[k] == s0.levels@[l2]@[kk]);
                                let id = s0.levels@[l2]@[kk].order_id;
                                assert(index0.contains_key(id));
                                if l2 == l {
                                    assert(s0.levels@[l2]@[0].order_id != id);
                                } else {
                                    assert(s0.levels@[l as int]@[0].order_id == head.order_id);
                                }
                            }
                            assert forall|id: u64| #[trigger]
                                index@.contains_key(id) && index@[id].is_buy == is_buy implies index@[id].level
                                < n && holds_id(side.bucket(index@[id].level as int), id) by {
                                assert(index0.contains_key(id));
                                let lv = index@[id].level as int;
                                let k = choose|k: int|
                                    0 <= k < s0.bucket(lv).len() && #[trigger] s0.bucket(lv)[k].order_id
                                        == id;
                                if lv == l {
                                    assert(k != 0);
                                    assert(side.bucket(lv)[k - 1] == s0.bucket(lv)[k]);
                                } else {
                                    assert(side.bucket(lv)[k] == s0.bucket(lv)[k]);
                                }
                            }
                            assert forall|id: u64| #[trigger]
                                old(index)@.contains_key(id) && !index@.contains_key(id) implies old(
                                index,
                            )@[id].is_buy == is_buy by {
                                if index0.contains_key(id) {
                                    assert(id == head.order_id);
                                }
                            }
                        }
                    } else {
                        let mut h = side.levels[l].pop_front().unwrap();
                        h.quantity = h.quantity - x;
                        side.levels[l].push_front(h);
                        proof {
                            let b2 = b.update(0, h);
                            assert(side.levels@[l as int]@ =~= b2);
                            assert(deep(side.levels@) =~= d.update(l as int, b2));
                            lemma_queue_update_here(d, l as int, b2, up);
                            assert forall|l2: int| 0 <= l2 < n && ahead_of(l2, idx as int, up) implies #[trigger] side.bucket(
                                l2,
                            ).len() == 0 by {
                                assert(s0.bucket(l2).len() == 0);
                            }
                            if n > 0 {
                                lemma_side_queue_from(*side, is_buy, idx as int);
                            }
                            assert(q.update(0, h) =~= queue_from(deep(side.levels@), idx as int, up));
                            assert(q.update(0, h).drop_first() =~= q.drop_first());
                            assert(h == Order { quantity: (q[0].quantity - rem0) as u32, ..q[0] });
                            assert(executions(q.drop_first(), 0, *taker, tag, now) =~= Seq::<
                                OrderExecution,
                            >::empty());
                            assert(execs@ + executions(q.update(0, h), rem, *taker, tag, now) =~= execs0
                                + executions(q, rem0, *taker, tag, now));
                            assert forall|l2: int, k: int|
                                0 <= l2 < n && 0 <= k < side.bucket(l2).len() implies resting_ok(
                                #[trigger] side.levels@[l2]@[k],
                                l2,
                                is_buy,
                                base@,
                                tick@,
                            ) by {
                                if l2 != l || k > 0 {
                                    assert(side.levels@[l2]@[k] == s0.levels@[l2]@[k]);
                                }
                            }
                            assert forall|l2: int, k: int|
                                0 <= l2 < n && 0 <= k < side.bucket(l2).len() implies #[trigger] side.levels@[l2]@[k].order_id
                                == s0.levels@[l2]@[k].order_id by {}
                            assert forall|l2: int, k1: int, k2: int|
                                0 <= l2 < n && 0 <= k1 < k2 < side.bucket(l2).len() implies #[trigger] side.levels@[l2]@[k1].order_id
                                != #[trigger] side.levels@[l2]@[k2].order_id by {
                                assert(s0.levels@[l2]@[k1].order_id != s0.levels@[l2]@[k2].order_id);
                            }
                            assert forall|l2: int, k: int|
                                0 <= l2 < n && 0 <= k < side.bucket(l2).len() implies {
                                let id = (#[trigger] side.levels@[l2]@[k]).order_id;
                                index@.contains_key(id) && index@[id] == OrderLocator {
                                    is_buy,
                                    level: l2 as usize,
                                }
                            } by {
                                assert(side.levels@[l2]@[k].order_id == s0.levels@[l2]@[k].order_id);
                            }
                            assert forall|id: u64| #[trigger]
                                index@.contains_key(id) && index@[id].is_buy == is_buy implies index@[id].level
                                < n && holds_id(side.bucket(index@[id].level as int), id) by {
                                let lv = index@[id].level as int;
                                let k = choose|k: int|
                                    0 <= k < s0.bucket(lv).len() && #[trigger] s0.bucket(lv)[k].order_id
                                        == id;
                                assert(side.bucket(lv)[k].order_id == s0.bucket(lv)[k].order_id);
                            }
                        }
                    }
                }
            }
        }
    }
    proof {
        assert(executions(side.queue(is_buy), rem, *taker, tag, now) =~= Seq::<OrderExecution>::empty());
        assert(execs@ =~= execs@ + Seq::<OrderExecution>::empty());
    }
    settle(side, is_buy, idx);
    rem
}

/// What the walk from position `pos` of bucket `i` on meets.
spec fn walk_view(d: Seq<Seq<Order>>, i: int, pos: int, up: bool) -> Seq<Order> {
    if 0 <= i < d.len() {
        d[i].subrange(pos, d[i].len() as int) + queue_from(d, next_level(i, up), up)
    } else {
        seq![]
    }
}

/// The executions a taker of the other side would get from side `is_buy`, without
/// touching it.
fn peek(side: &BookSide, is_buy: bool, taker: &Order, tag: [u8; 16], now: u64) -> (r: Vec<
    OrderExecution,
>)
    requires
        side.cursor_ok(is_buy),
        side.levels@.len() <= u32::MAX,
        forall|l: int, k: int|
            0 <= l < side.levels@.len() && 0 <= k < side.bucket(l).len() ==> (#[trigger] side.levels@[l]@[k]).quantity > 0,
        is_buy_order(*taker) == !is_buy,
    ensures
        r@ == executions(side.queue(is_buy), taker.quantity, *taker, tag, now),
{
    let n = side.levels.len();
    let ghost d = deep(side.levels@);
    let ghost up = !is_buy;
    let ghost q0 = side.queue(is_buy);
    let mut execs: Vec<OrderExecution> = Vec::new();
    let mut idx: i64 = side.best;
    let mut pos: usize = 0;
    let mut rem: u32 = taker.quantity;
    let mut done = false;
    proof {
        if n > 0 {
            lemma_side_queue_from(*side, is_buy, idx as int);
            if 0 <= idx < n {
                assert(d[idx as int].subrange(0, d[idx as int].len() as int) =~= d[idx as int]);
            }
        }
        assert(execs@ + executions(q0, rem, *taker, tag, now) =~= executions(q0, rem, *taker, tag, now));
    }
    while !done
        invariant
            n == side.levels@.len(),
            n <= u32::MAX,
            d == deep(side.levels@),
            up == !is_buy,
            is_buy_order(*taker) == !is_buy,
            forall|l: int, k: int|
                0 <= l < n && 0 <= k < side.bucket(l).len() ==> (#[trigger] side.levels@[l]@[k]).quantity > 0,
            0 <= idx < n ==> pos <= d[idx as int].len(),
            -1 <= idx <= n,
            execs@ + executions(walk_view(d, idx as int, pos as int, up), rem, *taker, tag, now)
                == executions(q0, taker.quantity, *taker, tag, now),
            done ==> walk_stops(walk_view(d, idx as int, pos as int, up), rem, *taker),
        decreases (if done {
            0int
        } else {
            1int
        }), rem, (if is_buy {
            idx + 1
        } else {
            n - idx
        }),
    {
        if rem == 0 || idx < 0 || idx >= n as i64 {
            done = true;
        } else {
            let l = idx as usize;
            let ghost v = walk_view(d, idx as int, pos as int, up);
            if pos >= side.levels[l].len() {
                proof {
                    let nx = next_level(idx as int, up);
                    assert(v =~= queue_from(d, nx, up));
                    if 0 <= nx < n {
                        assert(d[nx].subrange(0, d[nx].len() as int) =~= d[nx]);
                    }
                }
                idx = if is_buy {
                    idx - 1
                } else {
                    idx + 1
                };
                pos = 0;
            } else {
                let maker: Order = side.levels[l][pos];
                assert(v[0] == maker);
                let acceptable = taker.price_type == ORDER_PRICE_TYPE_MARKET || (if is_buy {
                    taker.price <= maker.price
                } else {
                    taker.price >= maker.price
                });
                if !acceptable {
                    done = true;
                } else {
                    let x: u32 = if rem <= maker.quantity {
                        rem
                    } else {
                        maker.quantity
                    };
                    let latency = latency_ns(now, taker.submit_time);
                    let execution = OrderExecution {
                        instance_tag: tag,
                        product_id: taker.product_id,
                        buy_order_id: if is_buy {
                            maker.order_id
                        } else {
                            taker.order_id
                        },
                        sell_order_id: if is_buy {
                            taker.order_id
                        } else {
                            maker.order_id
                        },
                        price: maker.price,
                        quantity: x,
                        trade_time_network: latency,
                        internal_match_time: 0,
                        is_mocked_result: taker.is_mocked_order(),
                    };
                    let ghost execs0 = execs@;
                    let ghost rem0 = rem;
                    execs.push(execution);
                    rem = rem - x;
                    pos = pos + 1;
                    proof {
                        assert(maker.quantity > 0);
                        assert(execution == execution_of(*taker, v[0], x, tag, now));
                        assert(walk_view(d, idx as int, pos as int, up) =~= v.drop_first());
                        assert(execs@ + executions(v.drop_first(), rem, *taker, tag, now) =~= execs0
                            + executions(v, rem0, *taker, tag, now));
                    }
                    if rem == 0 {
                        done = true;
                    }
                }
            }
        }
    }
    proof {
        assert(execs@ + executions(walk_view(d, idx as int, pos as int, up), rem, *taker, tag, now)
            =~= execs@);
    }
    execs
}

/// The first position of a bucket holding `order_id`.
fn position_of(bucket: &VecDeque<Order>, order_id: u64) -> (p: usize)
    requires
        holds_id(bucket@, order_id),
    ensures
        p < bucket@.len(),
        bucket@[p as int].order_id == order_id,
{
    let len = bucket.len();
    let mut p: usize = 0;
    while p < len && bucket[p].order_id != order_id
        invariant
            len == bucket@.len(),
            holds_id(bucket@, order_id),
            p <= len,
            forall|k: int| 0 <= k < p ==> #[trigger] bucket@[k].order_id != order_id,
        decreases len - p,
    {
        p += 1;
    }
    proof {
        if p == len {
            let k = choose|k: int| 0 <= k < bucket@.len() && #[trigger] bucket@[k].order_id == order_id;
            assert(bucket@[k].order_id != order_id);
        }
    }
    p
}

/// Removes the order `order_id`, which the index places at `level` of this side.
fn cancel_in(
    side: &mut BookSide,
    index: &mut HashMap<u64, OrderLocator>,
    is_buy: bool,
    level: usize,
    order_id: u64,
    base: Ghost<u64>,
    tick: Ghost<u64>,
)
    requires
        old(side).shape_ok(is_buy, base@, tick@, old(side).levels@.len()),
        old(side).cursor_ok(is_buy),
        old(side).indexed(is_buy, old(index)@),
        old(side).levels@.len() <= u32::MAX,
        old(index)@.contains_key(order_id),
        old(index)@[order_id] == (OrderLocator { is_buy, level }),
    ensures
        final(side).levels@.len() == old(side).levels@.len(),
        final(side).shape_ok(is_buy, base@, tick@, old(side).levels@.len()),
        final(side).cursor_ok(is_buy),
        final(side).indexed(is_buy, final(index)@),
        final(index)@ == old(index)@.remove(order_id),
        exists|p: int|
            0 <= p < old(side).bucket(level as int).len() && old(side).bucket(level as int)[p].order_id
                == order_id && deep(final(side).levels@) == deep(old(side).levels@).update(
                level as int,
                old(side).bucket(level as int).remove(p),
            ),
{
    let ghost s0 = *side;
    let ghost index0 = index@;
    let ghost n = side.levels@.len() as int;
    let ghost b = s0.bucket(level as int);
    assert(index0.contains_key(order_id));
    assert(level < side.levels@.len());
    let p = position_of(&side.levels[level], order_id);
    let removed = side.levels[level].remove(p);
    let o = removed.unwrap();
    let ghost x = b.remove(p as int);
    proof {
        let d0 = deep(s0.levels@);
        assert(deep(side.levels@) =~= d0.update(level as int, x));
        lemma_queue_update_totals(d0, start_level(n, is_buy), level as int, x, !is_buy);
        lemma_sum_remove(b, p as int);
        lemma_sum_nonneg(side.queue(is_buy));
    }
    side.volume = side.volume - o.quantity as u64;
    side.count = side.count - 1;
    index.remove(&order_id);
    proof {
        assert forall|l: int, k: int|
            0 <= l < n && 0 <= k < side.bucket(l).len() implies #[trigger] side.levels@[l]@[k]
            == s0.levels@[l]@[if l == level && k >= p {
                k + 1
            } else {
                k
            }] by {}
        assert forall|l: int, k: int|
            0 <= l < n && 0 <= k < side.bucket(l).len() implies resting_ok(
            #[trigger] side.levels@[l]@[k],
            l,
            is_buy,
            base@,
            tick@,
        ) by {
            let kk = if l == level && k >= p {
                k + 1
            } else {
                k
            };
            assert(side.levels@[l]@[k] == s0.levels@[l]@[kk]);
        }
        assert forall|l: int, k1: int, k2: int|
            0 <= l < n && 0 <= k1 < k2 < side.bucket(l).len() implies #[trigger] side.levels@[l]@[k1].order_id
            != #[trigger] side.levels@[l]@[k2].order_id by {
            let kk1 = if l == level && k1 >= p {
                k1 + 1
            } else {
                k1
            };
            let kk2 = if l == level && k2 >= p {
                k2 + 1
            } else {
                k2
            };
            assert(side.levels@[l]@[k1] == s0.levels@[l]@[kk1]);
            assert(side.levels@[l]@[k2] == s0.levels@[l]@[kk2]);
        }
        assert forall|l: int| 0 <= l < n && ahead_of(l, side.best as int, !is_buy) implies #[trigger] side.bucket(
            l,
        ).len() == 0 by {
            assert(s0.bucket(l).len() == 0);
        }
        assert forall|l: int, k: int|
            0 <= l < n && 0 <= k < side.bucket(l).len() implies {
            let id = (#[trigger] side.levels@[l]@[k]).order_id;
            index@.contains_key(id) && index@[id] == OrderLocator { is_buy, level: l as usize }
        } by {
            let kk = if l == level && k >= p {
                k + 1
            } else {
                k
            };
            assert(side.levels@[l]@[k] == s0.levels@[l]@[kk]);
            let id = s0.levels@[l]@[kk].order_id;
            assert(index0.contains_key(id));
            if l == level {
                assert(s0.levels@[l]@[p as int].order_id != id);
            }
        }
        assert forall|id: u64| #[trigger]
            index@.contains_key(id) && index@[id].is_buy == is_buy implies index@[id].level < n
            && holds_id(side.bucket(index@[id].level as int), id) by {
            assert(index0.contains_key(id));
            let lv = index@[id].level as int;
            let k = choose|k: int|
                0 <= k < s0.bucket(lv).len() && #[trigger] s0.bucket(lv)[k].order_id == id;
            if lv == level {
                assert(k != p);
                if k < p {
                    assert(side.bucket(lv)[k] == s0.bucket(lv)[k]);
                } else {
                    assert(side.bucket(lv)[k - 1] == s0.bucket(lv)[k]);
                }
            } else {
                assert(side.bucket(lv)[k] == s0.bucket(lv)[k]);
            }
        }
        assert(b[p as int].order_id == order_id);
    }
    let best = side.best;
    settle(side, is_buy, best);
}

/// A price that the ladder can hold: on a level, within the ladder.
pub open spec fn on_ladder(price: u64, base: u64, tick: u64, max: nat) -> bool {
    &&& tick > 0
    &&& price >= base
    &&& (price - base) % (tick as int) == 0
    &&& (price - base) / (tick as int) < max
}

/// The level of a price on the ladder.
pub open spec fn level_of(price: u64, base: u64, tick: u64) -> int {
    (price - base) / (tick as int)
}

/// The continuous book. Order ids are unique among resting orders: a submission
/// reusing one is refused. Expiry times are carried with the orders but not
/// enforced here; an order rests until it is filled or cancelled.
pub struct ContinuousOrderBook {
    /// Identifier of the engine, stamped on every execution.
    pub instance_tag: [u8; 16],
    /// Price of level 0.
    pub base_price: u64,
    /// Price step between two levels.
    pub tick: u64,
    /// Number of levels per side.
    pub max_levels: usize,
    pub bids: BookSide,
    pub asks: BookSide,
    /// Side and level of every resting order, by id.
    pub order_index: HashMap<u64, OrderLocator>,
}

impl ContinuousOrderBook {
    /// The book's invariant.
    pub open spec fn wf(&self) -> bool {
        &&& self.tick > 0
        &&& self.max_levels <= u32::MAX
        &&& self.bids.shape_ok(true, self.base_price, self.tick, self.max_levels as nat)
        &&& self.asks.shape_ok(false, self.base_price, self.tick, self.max_levels as nat)
        &&& self.bids.cursor_ok(true)
        &&& self.asks.cursor_ok(false)
        &&& self.bids.indexed(true, self.order_index@)
        &&& self.asks.indexed(false, self.order_index@)
    }

    /// One side of the book.
    pub open spec fn side(&self, is_buy: bool) -> BookSide {
        if is_buy {
            self.bids
        } else {
            self.asks
        }
    }

    /// Why an order cannot be added resting, if it cannot.
    pub open spec fn resting_error(&self, o: Order) -> Option<BookError> {
        if o.order_type != ORDER_TYPE_BUY && o.order_type != ORDER_TYPE_SELL {
            Some(BookError::UnknownSide)
        } else if o.price_type != ORDER_PRICE_TYPE_LIMIT {
            Some(BookError::UnknownPriceType)
        } else if o.quantity == 0 {
            Some(BookError::ZeroQuantity)
        } else if !on_ladder(o.price, self.base_price, self.tick, self.max_levels as nat) {
            Some(BookError::OutOfRange)
        } else if self.order_index@.contains_key(o.order_id) {
            Some(BookError::DuplicateOrder)
        } else if self.side(o.order_type == ORDER_TYPE_BUY).volume + o.quantity > u64::MAX {
            Some(BookError::VolumeOverflow)
        } else {
            None
        }
    }

    /// An empty book over `max_levels` levels from `base_price`, `tick` apart.
    pub fn new(instance_tag: [u8; 16], base_price: u64, tick: u64, max_levels: u32) -> (r: Self)
        requires
            tick > 0,
        ensures
            r.wf(),
            r.instance_tag == instance_tag,
            r.base_price == base_price,
            r.tick == tick,
            r.max_levels == max_levels,
            r.bids.queue(true).len() == 0,
            r.asks.queue(false).len() == 0,
            forall|l: int| 0 <= l < max_levels ==> #[trigger] r.bids.bucket(l).len() == 0,
            forall|l: int| 0 <= l < max_levels ==> #[trigger] r.asks.bucket(l).len() == 0,
            r.bids.best == -1,
            r.asks.best == max_levels,
            r.order_index@.is_empty(),
    {
        let n = max_levels as usize;
        let mut bids: Vec<VecDeque<Order>> = Vec::with_capacity(n);
        let mut asks: Vec<VecDeque<Order>> = Vec::with_capacity(n);
        let mut i: usize = 0;
        while i < n
            invariant
                i <= n,
                bids@.len() == i,
                asks@.len() == i,
                forall|l: int| 0 <= l < i ==> #[trigger] bids@[l]@.len() == 0,
                forall|l: int| 0 <= l < i ==> #[trigger] asks@[l]@.len() == 0,
            decreases n - i,
        {
            bids.push(VecDeque::new());
            asks.push(VecDeque::new());
            i += 1;
        }
        let r = ContinuousOrderBook {
            instance_tag,
            base_price,
            tick,
            max_levels: n,
            bids: BookSide { levels: bids, best: -1, volume: 0, count: 0 },
            asks: BookSide { levels: asks, best: max_levels as i64, volume: 0, count: 0 },
            order_index: HashMap::new(),
        };
        proof {
            if n > 0 {
                lemma_queue_skip_empty(deep(r.bids.levels@), n - 1, -1, false);
                lemma_queue_skip_empty(deep(r.asks.levels@), 0, n as int, true);
            }
        }
        r
    }

    /// Why a submission is refused, if it is.
    pub open spec fn submit_error(&self, o: Order) -> Option<BookError> {
        if o.order_type != ORDER_TYPE_BUY && o.order_type != ORDER_TYPE_SELL && o.order_type
            != ORDER_TYPE_MOCK_BUY && o.order_type != ORDER_TYPE_MOCK_SELL {
            Some(BookError::UnknownSide)
        } else if o.price_type != ORDER_PRICE_TYPE_LIMIT && o.price_type != ORDER_PRICE_TYPE_MARKET {
            Some(BookError::UnknownPriceType)
        } else if o.price_type == ORDER_PRICE_TYPE_LIMIT && !on_ladder(
            o.price,
            self.base_price,
            self.tick,
            self.max_levels as nat,
        ) {
            Some(BookError::OutOfRange)
        } else if !is_mock_order(o) && self.order_index@.contains_key(o.order_id) {
            Some(BookError::DuplicateOrder)
        } else if !is_mock_order(o) && o.price_type == ORDER_PRICE_TYPE_LIMIT && self.side(
            is_buy_order(o),
        ).volume + o.quantity > u64::MAX {
            Some(BookError::VolumeOverflow)
        } else {
            None
        }
    }

    /// The resting orders a taker meets, in priority order: the other side's.
    pub open spec fn opposite_queue(&self, o: Order) -> Seq<Order> {
        self.side(!is_buy_order(o)).queue(!is_buy_order(o))
    }

    /// The executions a submission produces.
    pub open spec fn match_executions(&self, o: Order, now: u64) -> Seq<OrderExecution> {
        executions(self.opposite_queue(o), o.quantity, o, self.instance_tag, now)
    }

    /// The taker's quantity left once matching is done.
    pub open spec fn match_unfilled(&self, o: Order) -> u32 {
        unfilled(self.opposite_queue(o), o.quantity, o)
    }

    /// After matching, the rest of a real limit order goes into the book.
    pub open spec fn rests_after_match(&self, o: Order) -> bool {
        o.price_type == ORDER_PRICE_TYPE_LIMIT && !is_mock_order(o) && self.match_unfilled(o) > 0
    }

    /// What a successful submission of `o` at time `now` does: `res` holds the
    /// executions of the walk over the other side, stamped `now`; a mock order changes
    /// nothing; a real one leaves the other side's queue as the walk's residual, and
    /// the rest of a limit order at the tail of its level.
    pub open spec fn match_outcome(
        &self,
        after: &ContinuousOrderBook,
        o: Order,
        now: u64,
        res: MatchResult,
    ) -> bool {
        &&& res.start_time == now
        &&& res.end_time == now
        &&& res.order_execution_list@ == self.match_executions(o, now)
        &&& is_mock_order(o) ==> *after == *self
        &&& !is_mock_order(o) ==> after.opposite_queue(o)
            == residual(self.opposite_queue(o), o.quantity, o)
        &&& !is_mock_order(o) && self.rests_after_match(o) ==> deep(
            after.side(is_buy_order(o)).levels@,
        ) == deep(self.side(is_buy_order(o)).levels@).update(
            level_of(o.price, self.base_price, self.tick),
            self.side(is_buy_order(o)).bucket(
                level_of(o.price, self.base_price, self.tick),
            ).push(Order { quantity: self.match_unfilled(o), ..o }),
        )
        &&& !self.rests_after_match(o) ==> after.side(
            is_buy_order(o),
        ) == self.side(is_buy_order(o))
        &&& !is_mock_order(o) ==> after.side(!is_buy_order(o)).volume
            == self.side(!is_buy_order(o)).volume - executed_qty(
            res.order_execution_list@,
        )
        &&& self.rests_after_match(o) ==> after.side(
            is_buy_order(o),
        ).volume == self.side(is_buy_order(o)).volume
            + self.match_unfilled(o)
        &&& self.rests_after_match(o) ==> after.side(
            is_buy_order(o),
        ).best == new_best(
            self.side(is_buy_order(o)).best,
            level_of(o.price, self.base_price, self.tick),
            is_buy_order(o),
        )
    }

    /// What cancelling the indexed order `order_id` does: it leaves its bucket (the
    /// others keep their order) and the index; the other side is untouched.
    pub open spec fn cancel_outcome(&self, after: &ContinuousOrderBook, order_id: u64) -> bool {
        let loc = self.order_index@[order_id];
        let b = self.side(loc.is_buy).bucket(loc.level as int);
        &&& after.order_index@ == self.order_index@.remove(order_id)
        &&& after.side(!loc.is_buy) == self.side(!loc.is_buy)
        &&& exists|p: int|
            0 <= p < b.len() && b[p].order_id == order_id && deep(after.side(loc.is_buy).levels@)
                == deep(self.side(loc.is_buy).levels@).update(loc.level as int, b.remove(p))
    }

    /// The level of `price`, when the ladder holds it.
    fn ladder_level(&self, price: u64) -> (r: Option<usize>)
        requires
            self.tick > 0,
            self.max_levels <= u32::MAX,
        ensures
            r is Some <==> on_ladder(price, self.base_price, self.tick, self.max_levels as nat),
            r is Some ==> r->Some_0 == level_of(price, self.base_price, self.tick) && r->Some_0
                < self.max_levels && price == self.base_price + r->Some_0 * self.tick,
    {
        if price < self.base_price {
            return None;
        }
        let d = price - self.base_price;
        if d % self.tick != 0 || d / self.tick >= self.max_levels as u64 {
            return None;
        }
        let l = d / self.tick;
        proof {
            vstd::arithmetic::div_mod::lemma_fundamental_div_mod(d as int, self.tick as int);
            vstd::arithmetic::mul::lemma_mul_is_commutative(l as int, self.tick as int);
        }
        Some(l as usize)
    }

    /// Matches an incoming order against the other side in price-time priority, at
    /// the makers' prices, then rests what is left of a real limit order at the tail
    /// of its level. A mock order gets the same executions, flagged as mock, and
    /// changes nothing. `now` is the engine's clock, in nanoseconds, when matching
    /// starts.
    pub fn match_order(&mut self, new_order: Order, now: u64) -> (r: Result<MatchResult, BookError>)
        requires
            old(self).wf(),
        ensures
            final(self).wf(),
            final(self).instance_tag == old(self).instance_tag,
            final(self).base_price == old(self).base_price,
            final(self).tick == old(self).tick,
            final(self).max_levels == old(self).max_levels,
            match r {
                Err(e) => old(self).submit_error(new_order) == Some(e) && *final(self) == *old(self),
                Ok(res) => old(self).submit_error(new_order) is None && old(self).match_outcome(
                    &*final(self),
                    new_order,
                    now,
                    res,
                ),
            },
    {
        let t = new_order.order_type;
        if t != ORDER_TYPE_BUY && t != ORDER_TYPE_SELL && t != ORDER_TYPE_MOCK_BUY && t
            != ORDER_TYPE_MOCK_SELL {
            return Err(BookError::UnknownSide);
        }
        let pt = new_order.price_type;
        if pt != ORDER_PRICE_TYPE_LIMIT && pt != ORDER_PRICE_TYPE_MARKET {
            return Err(BookError::UnknownPriceType);
        }
        let mut level: usize = 0;
        if pt == ORDER_PRICE_TYPE_LIMIT {
            match self.ladder_level(new_order.price) {
                Some(l) => {
                    level = l;
                },
                None => {
                    return Err(BookError::OutOfRange);
                },
            }
        }
        let mock = new_order.is_mocked_order();
        let buys = t == ORDER_TYPE_BUY || t == ORDER_TYPE_MOCK_BUY;
        if !mock && self.order_index.contains_key(&new_order.order_id) {
            return Err(BookError::DuplicateOrder);
        }
        if !mock && pt == ORDER_PRICE_TYPE_LIMIT {
            let v = if buys {
                self.bids.volume
            } else {
                self.asks.volume
            };
            if v > u64::MAX - new_order.quantity as u64 {
                return Err(BookError::VolumeOverflow);
            }
        }
        let tag = self.instance_tag;
        if mock {
            let execs = if buys {
                peek(&self.asks, false, &new_order, tag, now)
            } else {
                peek(&self.bids, true, &new_order, tag, now)
            };
            return Ok(MatchResult { start_time: now, end_time: now, order_execution_list: execs });
        }
        let ghost old_self = *self;
        let mut execs: Vec<OrderExecution> = Vec::new();
        let base = Ghost(self.base_price);
        let tick = Ghost(self.tick);
        let rem = if buys {
            take(
                &mut self.asks,
                &mut self.order_index,
                false,
                &new_order,
                tag,
                now,
                &mut execs,
                base,
                tick,
            )
        } else {
            take(
                &mut self.bids,
                &mut self.order_index,
                true,
                &new_order,
                tag,
                now,
                &mut execs,
                base,
                tick,
            )
        };
        proof {
            lemma_other_side_indexed(
                old_self.side(buys),
                buys,
                old_self.order_index@,
                self.order_index@,
            );
            lemma_unfilled_le(old_self.opposite_queue(new_order), new_order.quantity, new_order);
            assert(execs@ =~= old_self.match_executions(new_order, now));
            lemma_residual_volume(
                old_self.opposite_queue(new_order),
                new_order.quantity,
                new_order,
                tag,
                now,
            );
        }
        if pt == ORDER_PRICE_TYPE_LIMIT && rem > 0 {
            let rest = Order { quantity: rem, ..new_order };
            let ghost mid_index = self.order_index@;
            if buys {
                push_resting(&mut self.bids, &mut self.order_index, true, rest, level, base, tick);
            } else {
                push_resting(&mut self.asks, &mut self.order_index, false, rest, level, base, tick);
            }
            proof {
                lemma_other_side_indexed(self.side(!buys), !buys, mid_index, self.order_index@);
            }
        }
        Ok(MatchResult { start_time: now, end_time: now, order_execution_list: execs })
    }

    /// Adds an order resting at the tail of its level, without matching it.
    pub fn fuel_order(&mut self, order: Order) -> (r: Result<(), BookError>)
        requires
            old(self).wf(),
        ensures
            final(self).wf(),
            final(self).instance_tag == old(self).instance_tag,
            final(self).base_price == old(self).base_price,
            final(self).tick == old(self).tick,
            final(self).max_levels == old(self).max_levels,
            match r {
                Err(e) => old(self).resting_error(order) == Some(e) && *final(self) == *old(self),
                Ok(()) => {
                    &&& old(self).resting_error(order) is None
                    &&& deep(final(self).side(is_buy_order(order)).levels@) == deep(
                        old(self).side(is_buy_order(order)).levels@,
                    ).update(
                        level_of(order.price, old(self).base_price, old(self).tick),
                        old(self).side(is_buy_order(order)).bucket(
                            level_of(order.price, old(self).base_price, old(self).tick),
                        ).push(order),
                    )
                    &&& final(self).side(!is_buy_order(order)) == old(self).side(
                        !is_buy_order(order),
                    )
                    &&& final(self).side(is_buy_order(order)).volume == old(self).side(
                        is_buy_order(order),
                    ).volume + order.quantity
                    &&& final(self).side(is_buy_order(order)).best == new_best(
                        old(self).side(is_buy_order(order)).best,
                        level_of(order.price, old(self).base_price, old(self).tick),
                        is_buy_order(order),
                    )
                    &&& final(self).order_index@ == old(self).order_index@.insert(
                        order.order_id,
                        OrderLocator {
                            is_buy: is_buy_order(order),
                            level: level_of(order.price, old(self).base_price, old(self).tick) as usize,
                        },
                    )
                },
            },
    {
        let t = order.order_type;
        if t != ORDER_TYPE_BUY && t != ORDER_TYPE_SELL {
            return Err(BookError::UnknownSide);
        }
        if order.price_type != ORDER_PRICE_TYPE_LIMIT {
            return Err(BookError::UnknownPriceType);
        }
        if order.quantity == 0 {
            return Err(BookError::ZeroQuantity);
        }
        let level = match self.ladder_level(order.price) {
            Some(l) => l,
            None => {
                return Err(BookError::OutOfRange);
            },
        };
        if self.order_index.contains_key(&order.order_id) {
            return Err(BookError::DuplicateOrder);
        }
        let buys = t == ORDER_TYPE_BUY;
        let v = if buys {
            self.bids.volume
        } else {
            self.asks.volume
        };
        if v > u64::MAX - order.quantity as u64 {
            return Err(BookError::VolumeOverflow);
        }
        let ghost old_index = self.order_index@;
        let base = Ghost(self.base_price);
        let tick = Ghost(self.tick);
        if buys {
            push_resting(&mut self.bids, &mut self.order_index, true, order, level, base, tick);
        } else {
            push_resting(&mut self.asks, &mut self.order_index, false, order, level, base, tick);
        }
        proof {
            lemma_other_side_indexed(self.side(!buys), !buys, old_index, self.order_index@);
        }
        Ok(())
    }

    /// Cancels a resting order by id: removes it from its bucket, its side's totals
    /// and the index. Returns whether it was there; an unknown id changes nothing.
    pub fn cancel_order(&mut self, order_id: u64) -> (r: bool)
        requires
            old(self).wf(),
        ensures
            final(self).wf(),
            final(self).instance_tag == old(self).instance_tag,
            final(self).base_price == old(self).base_price,
            final(self).tick == old(self).tick,
            final(self).max_levels == old(self).max_levels,
            r == old(self).order_index@.contains_key(order_id),
            !r ==> *final(self) == *old(self),
            r ==> old(self).cancel_outcome(&*final(self), order_id),
    {
        let loc = match self.order_index.get(&order_id) {
            Some(l) => *l,
            None => {
                return false;
            },
        };
        let ghost old_index = self.order_index@;
        let base = Ghost(self.base_price);
        let tick = Ghost(self.tick);
        if loc.is_buy {
            cancel_in(&mut self.bids, &mut self.order_index, true, loc.level, order_id, base, tick);
        } else {
            cancel_in(&mut self.asks, &mut self.order_index, false, loc.level, order_id, base, tick);
        }
        proof {
            lemma_other_side_indexed(
                self.side(!loc.is_buy),
                !loc.is_buy,
                old_index,
                self.order_index@,
            );
            assert(loc == old_index[order_id]);
            assert(self.order_index@ == old_index.remove(order_id));
            assert(self.side(!loc.is_buy) == old(self).side(!loc.is_buy));
            let b = old(self).side(loc.is_buy).bucket(loc.level as int);
            assert(exists|p: int|
                0 <= p < b.len() && b[p].order_id == order_id && deep(
                    self.side(loc.is_buy).levels@,
                ) == deep(old(self).side(loc.is_buy).levels@).update(loc.level as int, b.remove(p)));
        }
        true
    }
}


// ----- laws -----

/// Each side's total is the sum of the quantities resting in its buckets.
pub proof fn lemma_totals_match_buckets(book: &ContinuousOrderBook)
    requires
        book.wf(),
    ensures
        book.bids.volume == sum_qty(book.bids.queue(true)),
        book.asks.volume == sum_qty(book.asks.queue(false)),
        book.bids.count == book.bids.queue(true).len(),
        book.asks.count == book.asks.queue(false).len(),
{
}

/// The best-bid cursor is -1 exactly when no bid rests, and the best-ask cursor is
/// the number of levels exactly when no ask rests.
pub proof fn lemma_cursors_mark_empty_sides(book: &ContinuousOrderBook)
    requires
        book.wf(),
    ensures
        book.bids.best == -1 <==> forall|l: int|
            0 <= l < book.max_levels ==> #[trigger] book.bids.bucket(l).len() == 0,
        book.asks.best == book.max_levels <==> forall|l: int|
            0 <= l < book.max_levels ==> #[trigger] book.asks.bucket(l).len() == 0,
{
    if book.bids.best != -1 {
        assert(book.bids.bucket(book.bids.best as int).len() > 0);
    }
    if book.asks.best != book.max_levels {
        assert(book.asks.bucket(book.asks.best as int).len() > 0);
    }
}

/// Every indexed id belongs to exactly one resting order, in the bucket at the
/// indexed side and level.
pub proof fn lemma_index_locates_exactly(book: &ContinuousOrderBook, id: u64)
    requires
        book.wf(),
        book.order_index@.contains_key(id),
    ensures
        ({
            let loc = book.order_index@[id];
            &&& loc.level < book.max_levels
            &&& exists|k: int|
                0 <= k < book.side(loc.is_buy).bucket(loc.level as int).len() && (#[trigger] book.side(
                    loc.is_buy,
                ).bucket(loc.level as int)[k]).order_id == id
            &&& forall|b: bool, l: int, k: int|
                0 <= l < book.max_levels && 0 <= k < book.side(b).bucket(l).len() && (
                #[trigger] book.side(b).levels@[l]@[k]).order_id == id ==> b == loc.is_buy && l
                    == loc.level
        }),
        forall|l: int, k1: int, k2: int|
            0 <= l < book.max_levels && 0 <= k1 < book.bids.bucket(l).len() && 0 <= k2
                < book.bids.bucket(l).len() && (#[trigger] book.bids.levels@[l]@[k1]).order_id == id
                && (#[trigger] book.bids.levels@[l]@[k2]).order_id == id ==> k1 == k2,
        forall|l: int, k1: int, k2: int|
            0 <= l < book.max_levels && 0 <= k1 < book.asks.bucket(l).len() && 0 <= k2
                < book.asks.bucket(l).len() && (#[trigger] book.asks.levels@[l]@[k1]).order_id == id
                && (#[trigger] book.asks.levels@[l]@[k2]).order_id == id ==> k1 == k2,
{
    let loc = book.order_index@[id];
    let bucket = book.side(loc.is_buy).bucket(loc.level as int);
    assert(holds_id(bucket, id));
    let k0 = choose|k: int| 0 <= k < bucket.len() && #[trigger] bucket[k].order_id == id;
    assert(book.side(loc.is_buy).bucket(loc.level as int)[k0].order_id == id);
    assert forall|b: bool, l: int, k: int|
        0 <= l < book.max_levels && 0 <= k < book.side(b).bucket(l).len() && (
        #[trigger] book.side(b).levels@[l]@[k]).order_id == id implies b == loc.is_buy && l
        == loc.level by {
        if b {
            assert(book.bids.levels@[l]@[k].order_id == id);
        } else {
            assert(book.asks.levels@[l]@[k].order_id == id);
        }
    }
    assert forall|l: int, k1: int, k2: int|
        0 <= l < book.max_levels && 0 <= k1 < book.bids.bucket(l).len() && 0 <= k2
            < book.bids.bucket(l).len() && (#[trigger] book.bids.levels@[l]@[k1]).order_id == id
            && (#[trigger] book.bids.levels@[l]@[k2]).order_id == id implies k1 == k2 by {
        if k1 < k2 {
            assert(book.bids.levels@[l]@[k1].order_id != book.bids.levels@[l]@[k2].order_id);
        } else if k2 < k1 {
            assert(book.bids.levels@[l]@[k2].order_id != book.bids.levels@[l]@[k1].order_id);
        }
    }
    assert forall|l: int, k1: int, k2: int|
        0 <= l < book.max_levels && 0 <= k1 < book.asks.bucket(l).len() && 0 <= k2
            < book.asks.bucket(l).len() && (#[trigger] book.asks.levels@[l]@[k1]).order_id == id
            && (#[trigger] book.asks.levels@[l]@[k2]).order_id == id implies k1 == k2 by {
        if k1 < k2 {
            assert(book.asks.levels@[l]@[k1].order_id != book.asks.levels@[l]@[k2].order_id);
        } else if k2 < k1 {
            assert(book.asks.levels@[l]@[k2].order_id != book.asks.levels@[l]@[k1].order_id);
        }
    }
}

/// The `i`-th execution of a walk is against the `i`-th resting order met: at that
/// order's price, for no more than either the order or the taker had.
pub proof fn lemma_execution_at_maker_price(
    q: Seq<Order>,
    rem: u32,
    taker: Order,
    tag: [u8; 16],
    now: u64,
    i: int,
)
    requires
        0 <= i < executions(q, rem, taker, tag, now).len(),
    ensures
        i < q.len(),
        executions(q, rem, taker, tag, now)[i].price == q[i].price,
        executions(q, rem, taker, tag, now)[i].quantity <= q[i].quantity,
        executions(q, rem, taker, tag, now)[i].quantity <= rem,
        is_buy_order(taker) ==> executions(q, rem, taker, tag, now)[i].sell_order_id
            == q[i].order_id && executions(q, rem, taker, tag, now)[i].buy_order_id == taker.order_id,
        !is_buy_order(taker) ==> executions(q, rem, taker, tag, now)[i].buy_order_id
            == q[i].order_id && executions(q, rem, taker, tag, now)[i].sell_order_id == taker.order_id,
    decreases q.len(),
{
    let x = min_u32(rem, q[0].quantity);
    let rest = executions(q.drop_first(), (rem - x) as u32, taker, tag, now);
    assert(executions(q, rem, taker, tag, now) == seq![execution_of(taker, q[0], x, tag, now)]
        + rest);
    if i > 0 {
        lemma_execution_at_maker_price(q.drop_first(), (rem - x) as u32, taker, tag, now, i - 1);
        assert(executions(q, rem, taker, tag, now)[i] == rest[i - 1]);
    }
}


/// Total quantity of a sequence of executions.
pub open spec fn executed_qty(e: Seq<OrderExecution>) -> int
    decreases e.len(),
{
    if e.len() == 0 {
        0
    } else {
        e[0].quantity + executed_qty(e.drop_first())
    }
}

/// The resting volume after a walk is what it was, less what was executed.
pub proof fn lemma_residual_volume(q: Seq<Order>, rem: u32, taker: Order, tag: [u8; 16], now: u64)
    ensures
        sum_qty(residual(q, rem, taker)) == sum_qty(q) - executed_qty(
            executions(q, rem, taker, tag, now),
        ),
    decreases q.len(),
{
    if !walk_stops(q, rem, taker) {
        let x = min_u32(rem, q[0].quantity);
        let rest = executions(q.drop_first(), (rem - x) as u32, taker, tag, now);
        let e = seq![execution_of(taker, q[0], x, tag, now)] + rest;
        assert(e.drop_first() =~= rest);
        if rem < q[0].quantity {
            assert(walk_stops(q.drop_first(), 0, taker));
            let q2 = q.update(0, Order { quantity: (q[0].quantity - rem) as u32, ..q[0] });
            assert(q2.drop_first() =~= q.drop_first());
            assert(rest =~= Seq::<OrderExecution>::empty());
            assert(executed_qty(rest) == 0);
            assert(residual(q, rem, taker) == q2);
            assert(sum_qty(q2) == q2[0].quantity + sum_qty(q2.drop_first()));
        } else {
            lemma_residual_volume(q.drop_first(), (rem - x) as u32, taker, tag, now);
        }
    }
}

/// A taker's quantity is either executed or left unfilled, never both and never
/// lost.
pub proof fn lemma_walk_conserves_quantity(
    q: Seq<Order>,
    rem: u32,
    taker: Order,
    tag: [u8; 16],
    now: u64,
)
    ensures
        executed_qty(executions(q, rem, taker, tag, now)) + unfilled(q, rem, taker) == rem,
    decreases q.len(),
{
    if !walk_stops(q, rem, taker) {
        let x = min_u32(rem, q[0].quantity);
        let rest = executions(q.drop_first(), (rem - x) as u32, taker, tag, now);
        lemma_walk_conserves_quantity(q.drop_first(), (rem - x) as u32, taker, tag, now);
        let e = seq![execution_of(taker, q[0], x, tag, now)] + rest;
        assert(e.drop_first() =~= rest);
        if rem < q[0].quantity {
            assert(walk_stops(q.drop_first(), 0, taker));
        }
    }
}

} // verus!
