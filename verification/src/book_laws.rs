//! Laws of the matching engine, proved once over the matching spec:
//! quantity conservation, trade well-formedness, FIFO fill order within a
//! price level, and preservation of the uncrossed-book invariant.

use vstd::prelude::*;

use crate::orderbook::{
    crossable, match_levels, match_queue, side_add, side_cancel, side_contains, side_find_level,
    side_wf, queue_find, queue_wf, lemma_level_lower_bound, lemma_queue_find,
    lemma_side_find_level, OrderBook,
};
use crate::orders::{Order, OrderType, Side};
use crate::trade::Trade;

verus! {

/// Total quantity across a sequence of trades.
pub open spec fn trades_qty(ts: Seq<Trade>) -> int
    decreases ts.len(),
{
    if ts.len() == 0 {
        0
    } else {
        ts[0].quantity + trades_qty(ts.skip(1))
    }
}

pub proof fn lemma_trades_qty_singleton(t: Trade)
    ensures
        trades_qty(seq![t]) == t.quantity,
{
    assert(seq![t].skip(1) =~= Seq::<Trade>::empty());
    assert(trades_qty(seq![t]) == t.quantity + trades_qty(seq![t].skip(1)));
}

pub proof fn lemma_trades_qty_concat(a: Seq<Trade>, b: Seq<Trade>)
    ensures
        trades_qty(a + b) == trades_qty(a) + trades_qty(b),
    decreases a.len(),
{
    if a.len() == 0 {
        assert(a + b =~= b);
    } else {
        lemma_trades_qty_concat(a.skip(1), b);
        assert((a + b).skip(1) =~= a.skip(1) + b);
        assert((a + b)[0] == a[0]);
    }
}

/// Matching against one FIFO queue fills strictly in queue order: the j-th
/// trade is against the j-th resting order, at the level's price, for no
/// more than either side had; and the filled quantity is exactly the
/// decrement of the incoming quantity.
pub proof fn lemma_match_queue_fifo(q: Seq<Order>, price: u64, inc: Order, qty: u64)
    requires
        queue_wf(q, price, maker_side_of(inc)),
    ensures
        ({
            let r = match_queue(q, price, inc, qty);
            &&& r.2 <= qty
            &&& trades_qty(r.0) == qty - r.2
            &&& r.0.len() <= q.len()
            &&& forall|j: int|
                0 <= j < r.0.len() ==> {
                    &&& (#[trigger] r.0[j]).maker_id == q[j].id as u128
                    &&& r.0[j].price == price
                    &&& r.0[j].taker_id == inc.id as u128
                    &&& r.0[j].timestamp == inc.timestamp
                    &&& r.0[j].symbol == inc.pair
                    &&& 0 < r.0[j].quantity <= q[j].quantity
                    &&& r.0[j].quantity <= qty
                }
        }),
    decreases q.len(),
{
    let r = match_queue(q, price, inc, qty);
    if qty == 0 || q.len() == 0 {
    } else {
        let m = q[0];
        if m.quantity <= qty {
            let rest = match_queue(q.skip(1), price, inc, (qty - m.quantity) as u64);
            lemma_match_queue_fifo(q.skip(1), price, inc, (qty - m.quantity) as u64);
            lemma_trades_qty_concat(
                seq![crate::orderbook::trade_of(inc, m, price, m.quantity)],
                rest.0,
            );
            lemma_trades_qty_singleton(crate::orderbook::trade_of(inc, m, price, m.quantity));
            assert forall|j: int| 0 <= j < r.0.len() implies {
                &&& (#[trigger] r.0[j]).maker_id == q[j].id as u128
                &&& r.0[j].price == price
                &&& r.0[j].taker_id == inc.id as u128
                &&& r.0[j].timestamp == inc.timestamp
                &&& r.0[j].symbol == inc.pair
                &&& 0 < r.0[j].quantity <= q[j].quantity
                &&& r.0[j].quantity <= qty
            } by {
                if j > 0 {
                    assert(r.0[j] == rest.0[j - 1]);
                    assert(q.skip(1)[j - 1] == q[j]);
                }
            }
        } else {
            lemma_trades_qty_singleton(crate::orderbook::trade_of(inc, m, price, qty));
        }
    }
}

/// The side a maker rests on, given the incoming order.
pub open spec fn maker_side_of(inc: Order) -> Side {
    crate::orderbook::maker_side(inc.side)
}

/// Matching against a side: the filled quantity is exactly the decrement of
/// the incoming quantity; every emitted trade carries the taker's
/// identity, executes at the resting price of its maker for no more than
/// either side had, and only at a crossable level; the levels left
/// behind all rested in the original side; and when the incoming order is
/// left unfilled with levels remaining, the best remaining level is not
/// crossable.
pub proof fn lemma_match_levels_props(
    s: Seq<(u64, Seq<Order>)>,
    inc: Order,
    qty: u64,
    from_back: bool,
)
    requires
        side_wf(s, maker_side_of(inc)),
    ensures
        ({
            let r = match_levels(s, inc, qty, from_back);
            &&& r.2 <= qty
            &&& trades_qty(r.0) == qty - r.2
            &&& forall|j: int|
                0 <= j < r.0.len() ==> {
                    &&& (#[trigger] r.0[j]).taker_id == inc.id as u128
                    &&& r.0[j].timestamp == inc.timestamp
                    &&& r.0[j].symbol == inc.pair
                    &&& r.0[j].quantity > 0
                    &&& r.0[j].quantity <= qty
                    &&& crossable(inc, r.0[j].price)
                    &&& exists|i: int, k: int|
                        0 <= i < s.len() && 0 <= k < s[i].1.len() && s[i].0 == r.0[j].price && (
                        #[trigger] s[i].1[k]).id as u128 == r.0[j].maker_id && r.0[j].quantity
                            <= s[i].1[k].quantity
                }
            &&& forall|l: int|
                0 <= l < r.1.len() ==> exists|i: int|
                    0 <= i < s.len() && (#[trigger] s[i]).0 == (#[trigger] r.1[l]).0
            &&& r.2 > 0 && r.1.len() > 0 ==> !crossable(
                inc,
                r.1[if from_back {
                    r.1.len() - 1
                } else {
                    0int
                }].0,
            )
        }),
    decreases s.len(),
{
    let r = match_levels(s, inc, qty, from_back);
    if qty == 0 || s.len() == 0 {
    } else {
        let idx = if from_back {
            s.len() - 1
        } else {
            0int
        };
        if !crossable(inc, s[idx].0) {
        } else {
            let step = match_queue(s[idx].1, s[idx].0, inc, qty);
            lemma_match_queue_fifo(s[idx].1, s[idx].0, inc, qty);
            if step.2 == 0 {
                assert forall|j: int| 0 <= j < r.0.len() implies (#[trigger] r.0[j]).taker_id
                    == inc.id as u128 && r.0[j].timestamp == inc.timestamp && r.0[j].symbol
                    == inc.pair && r.0[j].quantity > 0 && r.0[j].quantity <= qty && crossable(
                    inc,
                    r.0[j].price,
                ) && exists|i: int, k: int|
                    0 <= i < s.len() && 0 <= k < s[i].1.len() && s[i].0 == r.0[j].price && (
                    #[trigger] s[i].1[k]).id as u128 == r.0[j].maker_id && r.0[j].quantity
                        <= s[i].1[k].quantity by {
                    assert(s[idx].0 == r.0[j].price && s[idx].1[j].id as u128 == r.0[j].maker_id
                        && r.0[j].quantity <= s[idx].1[j].quantity);
                }
                assert forall|l: int| 0 <= l < r.1.len() implies exists|i: int|
                    0 <= i < s.len() && (#[trigger] s[i]).0 == (#[trigger] r.1[l]).0 by {
                    if step.1.len() == 0 {
                        let orig = if from_back || l < idx {
                            l
                        } else {
                            l + 1
                        };
                        assert(s[orig].0 == r.1[l].0);
                    } else {
                        assert(s[l].0 == r.1[l].0);
                    }
                }
            } else {
                let s2 = s.remove(idx);
                let rest = match_levels(s2, inc, step.2, from_back);
                assert(side_wf(s2, maker_side_of(inc))) by {
                    assert forall|a: int| 0 <= a < s2.len() implies (#[trigger] s2[a]).1.len() > 0
                        && queue_wf(s2[a].1, s2[a].0, maker_side_of(inc)) by {
                        assert(s2[a] == if a < idx {
                            s[a]
                        } else {
                            s[a + 1]
                        });
                    }
                    assert forall|a: int, b: int| 0 <= a < b < s2.len() implies s2[a].0
                        < s2[b].0 by {
                        assert(s2[a] == if a < idx {
                            s[a]
                        } else {
                            s[a + 1]
                        });
                        assert(s2[b] == if b < idx {
                            s[b]
                        } else {
                            s[b + 1]
                        });
                    }
                }
                lemma_match_levels_props(s2, inc, step.2, from_back);
                lemma_trades_qty_concat(step.0, rest.0);
                assert forall|j: int| 0 <= j < r.0.len() implies (#[trigger] r.0[j]).taker_id
                    == inc.id as u128 && r.0[j].timestamp == inc.timestamp && r.0[j].symbol
                    == inc.pair && r.0[j].quantity > 0 && r.0[j].quantity <= qty && crossable(
                    inc,
                    r.0[j].price,
                ) && exists|i: int, k: int|
                    0 <= i < s.len() && 0 <= k < s[i].1.len() && s[i].0 == r.0[j].price && (
                    #[trigger] s[i].1[k]).id as u128 == r.0[j].maker_id && r.0[j].quantity
                        <= s[i].1[k].quantity by {
                    if j < step.0.len() {
                        assert(r.0[j] == step.0[j]);
                        assert(s[idx].0 == r.0[j].price && s[idx].1[j].id as u128 == r.0[j].maker_id
                            && r.0[j].quantity <= s[idx].1[j].quantity);
                    } else {
                        assert(r.0[j] == rest.0[j - step.0.len()]);
                        let (i2, k2) = choose|i2: int, k2: int|
                            0 <= i2 < s2.len() && 0 <= k2 < s2[i2].1.len() && s2[i2].0 == rest.0[j
                                - step.0.len()].price && (#[trigger] s2[i2].1[k2]).id as u128
                                == rest.0[j - step.0.len()].maker_id && rest.0[j
                                - step.0.len()].quantity <= s2[i2].1[k2].quantity;
                        let orig = if i2 < idx {
                            i2
                        } else {
                            i2 + 1
                        };
                        assert(s[orig] == s2[i2]);
                    }
                }
                assert forall|l: int| 0 <= l < r.1.len() implies exists|i: int|
                    0 <= i < s.len() && (#[trigger] s[i]).0 == (#[trigger] r.1[l]).0 by {
                    let i2 = choose|i: int|
                        0 <= i < s2.len() && (#[trigger] s2[i]).0 == (#[trigger] r.1[l]).0;
                    let orig = if i2 < idx {
                        i2
                    } else {
                        i2 + 1
                    };
                    assert(s[orig] == s2[i2]);
                }
            }
        }
    }
}

/// Whether `price` is the price of some level of `s`.
pub open spec fn side_has_price(s: Seq<(u64, Seq<Order>)>, price: u64) -> bool {
    exists|i: int| 0 <= i < s.len() && (#[trigger] s[i]).0 == price
}

/// Every level price after an add was already there or is the added price.
pub proof fn lemma_side_add_prices(s: Seq<(u64, Seq<Order>)>, order: Order)
    ensures
        forall|l: int|
            0 <= l < side_add(s, order).len() ==> (#[trigger] side_add(s, order)[l]).0
                == order.price->0 || side_has_price(s, side_add(s, order)[l].0),
{
    let price = order.price->0;
    let i = crate::orderbook::level_lower_bound(s, price);
    lemma_level_lower_bound(s, price);
    let r = side_add(s, order);
    assert forall|l: int| 0 <= l < r.len() implies (#[trigger] r[l]).0 == price || side_has_price(
        s,
        r[l].0,
    ) by {
        if i < s.len() && s[i].0 == price {
            if l != i {
                assert(r[l] == s[l]);
            }
        } else {
            if l < i {
                assert(r[l] == s[l]);
            } else if l > i {
                assert(r[l] == s[l - 1]);
            }
        }
    }
}

/// Every level price after a cancel was already there.
pub proof fn lemma_side_cancel_prices(s: Seq<(u64, Seq<Order>)>, id: u64)
    requires
        side_contains(s, id),
    ensures
        forall|l: int|
            0 <= l < side_cancel(s, id).len() ==> side_has_price(
                s,
                (#[trigger] side_cancel(s, id)[l]).0,
            ),
{
    let i = side_find_level(s, id);
    lemma_side_find_level(s, id);
    lemma_queue_find(s[i].1, id);
    let q2 = s[i].1.remove(queue_find(s[i].1, id));
    let r = side_cancel(s, id);
    assert forall|l: int| 0 <= l < r.len() implies side_has_price(s, (#[trigger] r[l]).0) by {
        if q2.len() == 0 {
            let orig = if l < i {
                l
            } else {
                l + 1
            };
            assert(s[orig].0 == r[l].0);
        } else {
            assert(s[l].0 == r[l].0);
        }
    }
}

/// An uncrossed, well-formed book stays uncrossed through
/// a `match_order`, whatever the incoming order. The final sides are as
/// `match_order` states: the matched opposite side, and, for a limit order
/// with an unfilled remainder, the remainder added to its own side.
pub proof fn lemma_match_preserves_uncrossed(book: OrderBook, inc: Order)
    requires
        book.wf(),
        book.uncrossed(),
        inc.submittable(),
    ensures
        ({
            let res = book.spec_match(inc);
            let resid = Order { quantity: res.2, ..inc };
            let rests = inc.order_type == OrderType::Limit && res.2 > 0;
            let new_bids = if inc.side == Side::Buy {
                if rests {
                    side_add(book.bids_view(), resid)
                } else {
                    book.bids_view()
                }
            } else {
                res.1
            };
            let new_asks = if inc.side == Side::Sell {
                if rests {
                    side_add(book.asks_view(), resid)
                } else {
                    book.asks_view()
                }
            } else {
                res.1
            };
            new_bids.len() > 0 && new_asks.len() > 0 ==> new_bids.last().0 < new_asks.first().0
        }),
{
    let res = book.spec_match(inc);
    let resid = Order { quantity: res.2, ..inc };
    let rests = inc.order_type == OrderType::Limit && res.2 > 0;
    let bids0 = book.bids_view();
    let asks0 = book.asks_view();
    if inc.side == Side::Buy {
        lemma_match_levels_props(asks0, inc, inc.quantity, false);
        let new_asks = res.1;
        let new_bids = if rests {
            side_add(bids0, resid)
        } else {
            bids0
        };
        if new_bids.len() > 0 && new_asks.len() > 0 {
            // Remaining asks all rested before, so the best remaining ask is
            // at least the old best ask.
            assert(side_has_price(asks0, new_asks.first().0));
            let ai = choose|i: int| 0 <= i < asks0.len() && (#[trigger] asks0[i]).0
                == new_asks.first().0;
            assert(asks0.first().0 <= asks0[ai].0);
            if rests {
                lemma_side_add_prices(bids0, resid);
                let lst = new_bids.len() - 1;
                assert(new_bids[lst].0 == resid.price->0 || side_has_price(bids0, new_bids[lst].0));
                if new_bids[lst].0 == resid.price->0 {
                    // The match stopped at a level the limit could not cross.
                    assert(!crossable(inc, new_asks.first().0));
                    assert(new_asks.first().0 > inc.price->0);
                } else {
                    let bi = choose|i: int| 0 <= i < bids0.len() && (#[trigger] bids0[i]).0
                        == new_bids[lst].0;
                    assert(bids0[bi].0 <= bids0.last().0);
                    assert(bids0.len() > 0 && asks0.len() > 0);
                }
            } else {
                assert(new_bids == bids0);
                assert(bids0.last().0 < asks0.first().0);
            }
        }
    } else {
        lemma_match_levels_props(bids0, inc, inc.quantity, true);
        let new_bids = res.1;
        let new_asks = if rests {
            side_add(asks0, resid)
        } else {
            asks0
        };
        if new_bids.len() > 0 && new_asks.len() > 0 {
            assert(side_has_price(bids0, new_bids.last().0));
            let bi = choose|i: int| 0 <= i < bids0.len() && (#[trigger] bids0[i]).0
                == new_bids.last().0;
            assert(bids0[bi].0 <= bids0.last().0);
            if rests {
                lemma_side_add_prices(asks0, resid);
                assert(new_asks[0].0 == resid.price->0 || side_has_price(asks0, new_asks[0].0));
                if new_asks[0].0 == resid.price->0 {
                    assert(!crossable(inc, new_bids.last().0));
                    assert(new_bids.last().0 < inc.price->0);
                } else {
                    let ai = choose|i: int| 0 <= i < asks0.len() && (#[trigger] asks0[i]).0
                        == new_asks[0].0;
                    assert(asks0.first().0 <= asks0[ai].0);
                    assert(bids0.len() > 0 && asks0.len() > 0);
                }
            } else {
                assert(new_bids.last().0 <= bids0.last().0);
            }
        }
    }
}

/// Resting an order directly: adding a limit order that does not
/// cross the opposite side's best price keeps the book uncrossed. (An
/// aggressive limit order must instead enter through `match_order`, which
/// fills it before resting only the uncrossable remainder.)
pub proof fn lemma_add_preserves_uncrossed(book: OrderBook, order: Order)
    requires
        book.wf(),
        book.uncrossed(),
        order.price is Some,
        order.side == Side::Buy ==> book.asks_view().len() == 0 || order.price->0
            < book.asks_view().first().0,
        order.side == Side::Sell ==> book.bids_view().len() == 0 || order.price->0
            > book.bids_view().last().0,
    ensures
        order.side == Side::Buy ==> ({
            let nb = side_add(book.bids_view(), order);
            nb.len() > 0 && book.asks_view().len() > 0 ==> nb.last().0 < book.asks_view().first().0
        }),
        order.side == Side::Sell ==> ({
            let na = side_add(book.asks_view(), order);
            book.bids_view().len() > 0 && na.len() > 0 ==> book.bids_view().last().0
                < na.first().0
        }),
{
    let bids0 = book.bids_view();
    let asks0 = book.asks_view();
    if order.side == Side::Buy {
        lemma_side_add_prices(bids0, order);
        let nb = side_add(bids0, order);
        if nb.len() > 0 && asks0.len() > 0 {
            let lst = nb.len() - 1;
            if nb[lst].0 != order.price->0 {
                let bi = choose|i: int| 0 <= i < bids0.len() && (#[trigger] bids0[i]).0
                    == nb[lst].0;
                assert(bids0[bi].0 <= bids0.last().0);
            }
        }
    } else {
        lemma_side_add_prices(asks0, order);
        let na = side_add(asks0, order);
        if bids0.len() > 0 && na.len() > 0 {
            if na[0].0 != order.price->0 {
                let ai = choose|i: int| 0 <= i < asks0.len() && (#[trigger] asks0[i]).0
                    == na[0].0;
                assert(asks0.first().0 <= asks0[ai].0);
            }
        }
    }
}

/// Cancellation safety: an uncrossed book stays uncrossed when a resting
/// order is cancelled from either side.
pub proof fn lemma_cancel_preserves_uncrossed(book: OrderBook, id: u64)
    requires
        book.wf(),
        book.uncrossed(),
    ensures
        side_contains(book.bids_view(), id) ==> ({
            let nb = side_cancel(book.bids_view(), id);
            nb.len() > 0 && book.asks_view().len() > 0 ==> nb.last().0 < book.asks_view().first().0
        }),
        side_contains(book.asks_view(), id) ==> ({
            let na = side_cancel(book.asks_view(), id);
            book.bids_view().len() > 0 && na.len() > 0 ==> book.bids_view().last().0
                < na.first().0
        }),
{
    let bids0 = book.bids_view();
    let asks0 = book.asks_view();
    if side_contains(bids0, id) {
        lemma_side_cancel_prices(bids0, id);
        let nb = side_cancel(bids0, id);
        if nb.len() > 0 && asks0.len() > 0 {
            let bi = choose|i: int| 0 <= i < bids0.len() && (#[trigger] bids0[i]).0
                == nb.last().0;
            assert(bids0[bi].0 <= bids0.last().0);
        }
    }
    if side_contains(asks0, id) {
        lemma_side_cancel_prices(asks0, id);
        let na = side_cancel(asks0, id);
        if bids0.len() > 0 && na.len() > 0 {
            let ai = choose|i: int| 0 <= i < asks0.len() && (#[trigger] asks0[i]).0
                == na.first().0;
            assert(asks0.first().0 <= asks0[ai].0);
        }
    }
}

} // verus!
