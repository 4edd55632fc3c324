//! The price ladder as a mathematical object: levels of FIFO buckets, walked from the
//! best level outwards, and what such a walk sees.
use vstd::prelude::*;

use std::collections::VecDeque;

use crate::types::Order;

verus! {

/// The contents of each bucket.
pub open spec fn deep(levels: Seq<VecDeque<Order>>) -> Seq<Seq<Order>> {
    Seq::new(levels.len(), |j: int| levels[j]@)
}

/// The level after `i` in walk order: upwards for asks, downwards for bids.
pub open spec fn next_level(i: int, up: bool) -> int {
    if up {
        i + 1
    } else {
        i - 1
    }
}

/// Level `l` comes before level `i` in walk order.
pub open spec fn ahead_of(l: int, i: int, up: bool) -> bool {
    if up {
        l < i
    } else {
        l > i
    }
}

/// The resting orders met when walking the levels from `i` on: each bucket in FIFO
/// order, buckets in walk order. Walked from the best level, this is price-time
/// priority.
pub open spec fn queue_from(ls: Seq<Seq<Order>>, i: int, up: bool) -> Seq<Order>
    decreases (if up {
        ls.len() - i
    } else {
        i + 1
    }),
{
    if i < 0 || i >= ls.len() {
        seq![]
    } else {
        ls[i] + queue_from(ls, next_level(i, up), up)
    }
}

/// Sum of the quantities of a sequence of orders.
pub open spec fn sum_qty(s: Seq<Order>) -> int
    decreases s.len(),
{
    if s.len() == 0 {
        0
    } else {
        s[0].quantity + sum_qty(s.drop_first())
    }
}

pub proof fn lemma_sum_concat(a: Seq<Order>, b: Seq<Order>)
    ensures
        sum_qty(a + b) == sum_qty(a) + sum_qty(b),
    decreases a.len(),
{
    if a.len() > 0 {
        assert((a + b).drop_first() =~= a.drop_first() + b);
        lemma_sum_concat(a.drop_first(), b);
    } else {
        assert(a + b =~= b);
    }
}

pub proof fn lemma_sum_single(o: Order)
    ensures
        sum_qty(seq![o]) == o.quantity,
{
    let s = seq![o];
    assert(s.drop_first() =~= Seq::<Order>::empty());
    assert(sum_qty(s.drop_first()) == 0);
    assert(s[0] == o);
}

pub proof fn lemma_sum_remove(s: Seq<Order>, p: int)
    requires
        0 <= p < s.len(),
    ensures
        sum_qty(s.remove(p)) == sum_qty(s) - s[p].quantity,
{
    let a = s.subrange(0, p);
    let b = s.subrange(p + 1, s.len() as int);
    assert(s =~= a + (seq![s[p]] + b));
    assert(s.remove(p) =~= a + b);
    lemma_sum_concat(a, seq![s[p]] + b);
    lemma_sum_concat(seq![s[p]], b);
    lemma_sum_concat(a, b);
    lemma_sum_single(s[p]);
}

pub proof fn lemma_sum_nonneg(s: Seq<Order>)
    ensures
        sum_qty(s) >= 0,
    decreases s.len(),
{
    if s.len() > 0 {
        lemma_sum_nonneg(s.drop_first());
    }
}

/// With every quantity positive, there are no more orders than units of volume.
pub proof fn lemma_len_le_sum(s: Seq<Order>)
    requires
        forall|k: int| 0 <= k < s.len() ==> #[trigger] s[k].quantity > 0,
    ensures
        s.len() <= sum_qty(s),
    decreases s.len(),
{
    if s.len() > 0 {
        assert forall|k: int| 0 <= k < s.drop_first().len() implies #[trigger] s.drop_first()[
            k
        ].quantity > 0 by {
            assert(s.drop_first()[k] == s[k + 1]);
        }
        lemma_len_le_sum(s.drop_first());
    }
}

/// The walk from `i` reads only levels at or after `i`.
pub proof fn lemma_queue_frame(a: Seq<Seq<Order>>, b: Seq<Seq<Order>>, i: int, up: bool)
    requires
        a.len() == b.len(),
        forall|j: int| 0 <= j < a.len() && !ahead_of(j, i, up) ==> a[j] == b[j],
    ensures
        queue_from(a, i, up) == queue_from(b, i, up),
    decreases (if up {
        a.len() - i
    } else {
        i + 1
    }),
{
    if 0 <= i < a.len() {
        lemma_queue_frame(a, b, next_level(i, up), up);
    }
}

/// Empty levels add nothing to a walk.
pub proof fn lemma_queue_skip_empty(ls: Seq<Seq<Order>>, a: int, b: int, up: bool)
    requires
        0 <= a < ls.len(),
        0 <= b < ls.len() || b == (if up {
            ls.len() as int
        } else {
            -1
        }),
        !ahead_of(b, a, up),
        forall|l: int| 0 <= l < ls.len() && !ahead_of(l, a, up) && ahead_of(l, b, up) ==> #[trigger] ls[l].len() == 0,
    ensures
        queue_from(ls, a, up) == queue_from(ls, b, up),
    decreases (if up {
        b - a
    } else {
        a - b
    }),
{
    if a != b {
        assert(ls[a].len() == 0);
        let n = next_level(a, up);
        if n != b {
            lemma_queue_skip_empty(ls, n, b, up);
        }
        assert(ls[a] + queue_from(ls, n, up) =~= queue_from(ls, n, up));
    }
}

/// Replacing the bucket at `i` changes the walk from `i` in its first part only.
pub proof fn lemma_queue_update_here(ls: Seq<Seq<Order>>, i: int, x: Seq<Order>, up: bool)
    requires
        0 <= i < ls.len(),
    ensures
        queue_from(ls.update(i, x), i, up) == x + queue_from(ls, next_level(i, up), up),
{
    lemma_queue_frame(ls.update(i, x), ls, next_level(i, up), up);
}

/// Replacing one bucket anywhere on a walk changes the walk's volume and length by
/// the difference of the two buckets.
pub proof fn lemma_queue_update_totals(ls: Seq<Seq<Order>>, i: int, l: int, x: Seq<Order>, up: bool)
    requires
        0 <= l < ls.len(),
        0 <= i < ls.len() || i == (if up {
            ls.len() as int
        } else {
            -1
        }) || i == (if up {
            -1
        } else {
            ls.len() as int
        }),
    ensures
        !ahead_of(l, i, up) && 0 <= i < ls.len() ==> sum_qty(queue_from(ls.update(l, x), i, up))
            == sum_qty(queue_from(ls, i, up)) - sum_qty(ls[l]) + sum_qty(x),
        !ahead_of(l, i, up) && 0 <= i < ls.len() ==> queue_from(ls.update(l, x), i, up).len()
            == queue_from(ls, i, up).len() - ls[l].len() + x.len(),
        ahead_of(l, i, up) ==> queue_from(ls.update(l, x), i, up) == queue_from(ls, i, up),
    decreases (if up {
        ls.len() - i
    } else {
        i + 1
    }),
{
    let ls2 = ls.update(l, x);
    if 0 <= i < ls.len() {
        let n = next_level(i, up);
        lemma_queue_update_totals(ls, n, l, x, up);
        lemma_sum_concat(ls2[i], queue_from(ls2, n, up));
        lemma_sum_concat(ls[i], queue_from(ls, n, up));
        if ahead_of(l, i, up) {
            lemma_queue_frame(ls2, ls, i, up);
        } else if l == i {
            lemma_queue_frame(ls2, ls, n, up);
        }
    } else {
        if ahead_of(l, i, up) {
            lemma_queue_frame(ls2, ls, i, up);
        }
    }
}

/// Every order met on a walk rests in some bucket.
pub proof fn lemma_queue_members(ls: Seq<Seq<Order>>, i: int, up: bool, k: int)
    requires
        0 <= k < queue_from(ls, i, up).len(),
    ensures
        exists|l: int, j: int|
            0 <= l < ls.len() && 0 <= j < ls[l].len() && queue_from(ls, i, up)[k] == ls[l][j],
    decreases (if up {
        ls.len() - i
    } else {
        i + 1
    }),
{
    if 0 <= i < ls.len() {
        let n = next_level(i, up);
        if k < ls[i].len() {
            assert(queue_from(ls, i, up)[k] == ls[i][k]);
        } else {
            lemma_queue_members(ls, n, up, k - ls[i].len());
            assert(queue_from(ls, i, up)[k] == queue_from(ls, n, up)[k - ls[i].len()]);
        }
    }
}

/// The first order of a walk from a non-empty bucket is that bucket's head.
pub proof fn lemma_queue_head(ls: Seq<Seq<Order>>, i: int, up: bool)
    requires
        0 <= i < ls.len(),
        ls[i].len() > 0,
    ensures
        queue_from(ls, i, up).len() > 0,
        queue_from(ls, i, up)[0] == ls[i][0],
{
}

} // verus!
