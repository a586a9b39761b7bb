//! The per-instrument order book: price-time-priority resting orders,
//! matching, cancellation, and snapshot projection.
//!
//! Each side of the book is a vector of price levels kept sorted by price
//! ascending; every level holds a FIFO queue of resting limit orders. The
//! best bid is the last level of `bids`, the best ask is the first level of
//! `asks`.

use vstd::prelude::*;

use crate::instrument::Pair;
use crate::orders::{Order, OrderType, Side};
use crate::trade::Trade;

verus! {

/// One price level of a book side: the FIFO queue of resting orders that
/// share a single price. Index 0 is the head (the oldest order).
#[derive(Clone, Debug)]
pub struct Level {
    pub price: u64,
    pub orders: Vec<Order>,
}

/// The abstract value of one book side: the sequence of
/// `(price, order queue)` pairs, sorted by price ascending.
pub open spec fn side_view(levels: Seq<Level>) -> Seq<(u64, Seq<Order>)> {
    levels.map_values(|l: Level| (l.price, l.orders@))
}

/// Every order in the queue rests at `price`, on side `side`, as a limit
/// order with positive remaining quantity.
pub open spec fn queue_wf(q: Seq<Order>, price: u64, side: Side) -> bool {
    forall|k: int|
        0 <= k < q.len() ==> {
            &&& (#[trigger] q[k]).side == side
            &&& q[k].order_type == OrderType::Limit
            &&& q[k].price == Some(price)
            &&& q[k].quantity > 0
        }
}

/// Well-formedness of one book side: prices strictly ascending, no empty
/// level retained, and every queue well-formed at its level's price.
pub open spec fn side_wf(s: Seq<(u64, Seq<Order>)>, side: Side) -> bool {
    &&& forall|i: int| 0 <= i < s.len() ==> (#[trigger] s[i]).1.len() > 0
    &&& forall|i: int, j: int| 0 <= i < j < s.len() ==> s[i].0 < s[j].0
    &&& forall|i: int| 0 <= i < s.len() ==> queue_wf((#[trigger] s[i]).1, s[i].0, side)
}

/// The number of levels of `s` with a price strictly below `price`; since a
/// well-formed side is sorted, this is where `price` belongs.
pub open spec fn level_lower_bound(s: Seq<(u64, Seq<Order>)>, price: u64) -> int
    decreases s.len(),
{
    if s.len() == 0 {
        0
    } else if s[0].0 >= price {
        0
    } else {
        1 + level_lower_bound(s.skip(1), price)
    }
}

pub proof fn lemma_level_lower_bound(s: Seq<(u64, Seq<Order>)>, price: u64)
    ensures
        0 <= level_lower_bound(s, price) <= s.len(),
        forall|j: int| 0 <= j < level_lower_bound(s, price) ==> (#[trigger] s[j]).0 < price,
        level_lower_bound(s, price) < s.len() ==> s[level_lower_bound(s, price)].0 >= price,
    decreases s.len(),
{
    if s.len() > 0 && s[0].0 < price {
        lemma_level_lower_bound(s.skip(1), price);
        assert forall|j: int| 0 <= j < level_lower_bound(s, price) implies (#[trigger] s[j]).0
            < price by {
            if j > 0 {
                assert(s.skip(1)[j - 1] == s[j]);
            }
        }
    }
}

/// The side after a resting order is appended: the tail of the queue at its
/// price, with the level created at its sorted position if absent.
pub open spec fn side_add(s: Seq<(u64, Seq<Order>)>, order: Order) -> Seq<(u64, Seq<Order>)> {
    let price = order.price->0;
    let i = level_lower_bound(s, price);
    if i < s.len() && s[i].0 == price {
        s.update(i, (price, s[i].1.push(order)))
    } else {
        s.insert(i, (price, seq![order]))
    }
}

/// Appending a well-formed resting order keeps the side well-formed.
pub proof fn lemma_side_add_wf(s: Seq<(u64, Seq<Order>)>, order: Order, side: Side)
    requires
        side_wf(s, side),
        order.side == side,
        order.order_type == OrderType::Limit,
        order.price is Some,
        order.quantity > 0,
    ensures
        side_wf(side_add(s, order), side),
{
    let price = order.price->0;
    let i = level_lower_bound(s, price);
    lemma_level_lower_bound(s, price);
    let r = side_add(s, order);
    if i < s.len() && s[i].0 == price {
        assert forall|k: int| 0 <= k < r.len() implies queue_wf(
            (#[trigger] r[k]).1,
            r[k].0,
            side,
        ) by {
            if k != i {
                assert(r[k] == s[k]);
            }
        }
    } else {
        assert forall|a: int, b: int| 0 <= a < b < r.len() implies r[a].0 < r[b].0 by {
            if a < i && b == i {
                assert(r[a] == s[a]);
            } else if a == i && b > i {
                assert(r[b] == s[b - 1]);
                assert(s[b - 1].0 >= price);
                assert(s[b - 1].0 != price || b - 1 == i) by {
                    if b - 1 > i && s[b - 1].0 == price && i < s.len() {
                        assert(s[i].0 < s[b - 1].0);
                    }
                }
            } else if a < i && b > i {
                assert(r[a] == s[a] && r[b] == s[b - 1]);
            } else if b < i {
                assert(r[a] == s[a] && r[b] == s[b]);
            } else if a > i {
                assert(r[a] == s[a - 1] && r[b] == s[b - 1]);
            }
        }
        assert forall|k: int| 0 <= k < r.len() implies queue_wf(
            (#[trigger] r[k]).1,
            r[k].0,
            side,
        ) by {
            if k < i {
                assert(r[k] == s[k]);
            } else if k > i {
                assert(r[k] == s[k - 1]);
            }
        }
    }
}

/// Insert a resting order into one side kept sorted by price ascending.
fn insert_into_side(levels: &mut Vec<Level>, order: Order, price: u64)
    requires
        side_wf(side_view(old(levels)@), order.side),
        order.price == Some(price),
        order.order_type == OrderType::Limit,
        order.quantity > 0,
    ensures
        side_view(final(levels)@) == side_add(side_view(old(levels)@), order),
        side_wf(side_view(final(levels)@), order.side),
{
    let ghost s0 = side_view(old(levels)@);
    proof {
        lemma_level_lower_bound(s0, price);
    }
    let mut i: usize = 0;
    while i < levels.len() && levels[i].price < price
        invariant
            0 <= i <= levels.len(),
            levels@ == old(levels)@,
            forall|j: int| 0 <= j < i ==> (#[trigger] s0[j]).0 < price,
            s0 == side_view(levels@),
        decreases levels.len() - i,
    {
        assert(s0[i as int].0 == levels@[i as int].price);
        i += 1;
    }
    let ghost lb = level_lower_bound(s0, price);
    proof {
        // The scan stopped exactly at the lower bound.
        if i < lb {
            assert(s0[i as int].0 < price);
            assert(s0[i as int].0 == levels@[i as int].price);
            assert(false);
        }
        if lb < i {
            assert(s0[lb].0 < price);
            assert(s0[lb].0 >= price);
            assert(false);
        }
    }
    if i < levels.len() && levels[i].price == price {
        let mut lvl = levels.remove(i);
        lvl.orders.push(order);
        levels.insert(i, lvl);
        proof {
            assert(side_view(levels@) =~= s0.update(i as int, (price, s0[i as int].1.push(order))));
            lemma_side_add_wf(s0, order, order.side);
        }
    } else {
        let mut q: Vec<Order> = Vec::new();
        q.push(order);
        levels.insert(i, Level { price, orders: q });
        proof {
            assert(side_view(levels@) =~= s0.insert(i as int, (price, seq![order])));
            lemma_side_add_wf(s0, order, order.side);
        }
    }
}

/// The side whose resting orders an incoming order trades against.
pub open spec fn maker_side(side: Side) -> Side {
    match side {
        Side::Buy => Side::Sell,
        Side::Sell => Side::Buy,
    }
}

/// Whether the incoming order may trade at a level resting at `level_price`:
/// a market order always may; a limit buy only at or below its limit, a
/// limit sell only at or above it.
pub open spec fn crossable(inc: Order, level_price: u64) -> bool {
    inc.order_type == OrderType::Market || (match inc.side {
        Side::Buy => level_price <= inc.price->0,
        Side::Sell => level_price >= inc.price->0,
    })
}

/// The trade emitted when the incoming order fills `fill` units of maker
/// `m` resting at `price`.
pub open spec fn trade_of(inc: Order, m: Order, price: u64, fill: u64) -> Trade {
    Trade {
        price,
        quantity: fill,
        maker_id: m.id as u128,
        taker_id: inc.id as u128,
        timestamp: inc.timestamp,
        symbol: inc.pair,
    }
}

/// Match `qty` units of the incoming order against the FIFO queue `q`
/// resting at `price`: repeatedly fill `min(remaining, head)` against the
/// head. Returns the emitted trades in order, the remaining queue, and the
/// incoming quantity still unfilled.
pub open spec fn match_queue(q: Seq<Order>, price: u64, inc: Order, qty: u64) -> (Seq<Trade>, Seq<
    Order,
>, u64)
    decreases q.len(),
{
    if qty == 0 || q.len() == 0 {
        (Seq::<Trade>::empty(), q, qty)
    } else {
        let m = q[0];
        if m.quantity <= qty {
            let rest = match_queue(q.skip(1), price, inc, (qty - m.quantity) as u64);
            (seq![trade_of(inc, m, price, m.quantity)] + rest.0, rest.1, rest.2)
        } else {
            (
                seq![trade_of(inc, m, price, qty)],
                q.update(0, Order { quantity: (m.quantity - qty) as u64, ..m }),
                0u64,
            )
        }
    }
}

/// Match the incoming order against a whole side in priority order: the
/// first level when `from_back` is false (buys walking the asks upward),
/// the last level when it is true (sells walking the bids downward). Stops
/// at the first level a limit order cannot cross; drops each level the
/// moment its queue empties. Returns the trades, the remaining side, and
/// the unfilled incoming quantity.
pub open spec fn match_levels(s: Seq<(u64, Seq<Order>)>, inc: Order, qty: u64, from_back: bool) -> (
    Seq<Trade>,
    Seq<(u64, Seq<Order>)>,
    u64,
)
    decreases s.len(),
{
    if qty == 0 || s.len() == 0 {
        (Seq::<Trade>::empty(), s, qty)
    } else {
        let idx = if from_back {
            s.len() - 1
        } else {
            0int
        };
        if !crossable(inc, s[idx].0) {
            (Seq::<Trade>::empty(), s, qty)
        } else {
            let step = match_queue(s[idx].1, s[idx].0, inc, qty);
            if step.2 == 0 {
                let s2 = if step.1.len() == 0 {
                    s.remove(idx)
                } else {
                    s.update(idx, (s[idx].0, step.1))
                };
                (step.0, s2, 0u64)
            } else {
                let rest = match_levels(s.remove(idx), inc, step.2, from_back);
                (step.0 + rest.0, rest.1, rest.2)
            }
        }
    }
}

/// Match an incoming order against one side of the book, producing the
/// trades of [`match_levels`] and leaving the unfilled remainder in
/// `incoming.quantity`. `reversed` walks the levels from the back (used for
/// sells matching the highest bids first).
pub fn match_incoming_side(incoming: &mut Order, book_side: &mut Vec<Level>, reversed: bool) -> (
    trades: Vec<Trade>)
    requires
        old(incoming).submittable(),
        side_wf(side_view(old(book_side)@), maker_side(old(incoming).side)),
        reversed == (old(incoming).side == Side::Sell),
    ensures
        ({
            let res = match_levels(
                side_view(old(book_side)@),
                *old(incoming),
                old(incoming).quantity,
                reversed,
            );
            &&& trades@ == res.0
            &&& side_view(final(book_side)@) == res.1
            &&& *final(incoming) == (Order { quantity: res.2, ..*old(incoming) })
        }),
        side_wf(side_view(final(book_side)@), maker_side(old(incoming).side)),
{
    let ghost inc0 = *old(incoming);
    let ghost s0 = side_view(old(book_side)@);
    let ghost qty0 = old(incoming).quantity;
    let ghost mside = maker_side(inc0.side);
    let mut trades: Vec<Trade> = Vec::new();
    loop
        invariant
            inc0.submittable(),
            *incoming == (Order { quantity: incoming.quantity, ..inc0 }),
            side_wf(side_view(book_side@), mside),
            reversed == (inc0.side == Side::Sell),
            ({
                let res = match_levels(s0, inc0, qty0, reversed);
                let cur = match_levels(side_view(book_side@), inc0, incoming.quantity, reversed);
                &&& res.0 == trades@ + cur.0
                &&& res.1 == cur.1
                &&& res.2 == cur.2
            }),
        ensures
            ({
                let res = match_levels(s0, inc0, qty0, reversed);
                &&& res.0 == trades@
                &&& res.1 == side_view(book_side@)
                &&& res.2 == incoming.quantity
            }),
        decreases book_side.len(),
    {
        let ghost v_start = side_view(book_side@);
        let ghost qty_start = incoming.quantity;
        if book_side.len() == 0 || incoming.quantity == 0 {
            break ;
        }
        let idx: usize = if reversed {
            book_side.len() - 1
        } else {
            0
        };
        let price = book_side[idx].price;
        if incoming.order_type == OrderType::Limit {
            let lim = incoming.price.unwrap();
            let cross = match incoming.side {
                Side::Buy => price <= lim,
                Side::Sell => price >= lim,
            };
            if !cross {
                break ;
            }
        }
        assert(crossable(inc0, price));
        let mut lvl = book_side.remove(idx);
        let ghost v_hole = side_view(book_side@);
        proof {
            assert(v_hole =~= v_start.remove(idx as int));
        }
        let ghost q_entry = lvl.orders@;
        let ghost n_t0 = trades@.len();
        let ghost trades_prefix = trades@;
        while lvl.orders.len() > 0 && incoming.quantity > 0
            invariant
                inc0.submittable(),
                *incoming == (Order { quantity: incoming.quantity, ..inc0 }),
                lvl.price == price,
                queue_wf(lvl.orders@, price, mside),
                trades@.len() >= n_t0,
                trades@.take(n_t0 as int) == trades_prefix,
                ({
                    let full = match_queue(q_entry, price, inc0, qty_start);
                    let mq = match_queue(lvl.orders@, price, inc0, incoming.quantity);
                    &&& full.0 == trades@.skip(n_t0 as int) + mq.0
                    &&& full.1 == mq.1
                    &&& full.2 == mq.2
                }),
            decreases incoming.quantity,
        {
            let head_qty = lvl.orders[0].quantity;
            let maker_id = lvl.orders[0].id;
            let fill = if incoming.quantity < head_qty {
                incoming.quantity
            } else {
                head_qty
            };
            let ghost orders_before = lvl.orders@;
            let ghost trades_before = trades@;
            trades.push(
                Trade {
                    price,
                    quantity: fill,
                    maker_id: maker_id as u128,
                    taker_id: incoming.id as u128,
                    timestamp: incoming.timestamp,
                    symbol: incoming.pair,
                },
            );
            incoming.quantity = incoming.quantity - fill;
            if head_qty == fill {
                lvl.orders.remove(0);
            } else {
                let mut m = lvl.orders.remove(0);
                m.quantity = head_qty - fill;
                lvl.orders.insert(0, m);
                proof {
                    assert(lvl.orders@ =~= orders_before.update(
                        0,
                        Order { quantity: (head_qty - fill) as u64, ..orders_before[0] },
                    ));
                }
            }
            proof {
                assert(trades@.take(n_t0 as int) =~= trades_prefix);
                assert(trades@.skip(n_t0 as int) =~= trades_before.skip(n_t0 as int).push(
                    trade_of(inc0, orders_before[0], price, fill),
                ));
                assert(trades_before.skip(n_t0 as int) + seq![
                    trade_of(inc0, orders_before[0], price, fill),
                ] + match_queue(lvl.orders@, price, inc0, incoming.quantity).0 =~= trades@.skip(
                    n_t0 as int,
                ) + match_queue(lvl.orders@, price, inc0, incoming.quantity).0);
            }
        }
        // Reassemble: the level goes back unless its queue emptied.
        let ghost step = match_queue(q_entry, price, inc0, qty_start);
        proof {
            assert(step.0 == trades@.skip(n_t0 as int));
            assert(step.1 == lvl.orders@);
            assert(step.2 == incoming.quantity);
        }
        if lvl.orders.len() > 0 {
            book_side.insert(idx, lvl);
            proof {
                assert(side_view(book_side@) =~= v_start.update(idx as int, (price, step.1)));
                assert(incoming.quantity == 0);
                let res = match_levels(s0, inc0, qty0, reversed);
                let cur_start = match_levels(v_start, inc0, qty_start, reversed);
                assert(cur_start.0 == step.0 && cur_start.1 == side_view(book_side@) && cur_start.2
                    == 0);
                assert(trades_prefix + trades@.skip(n_t0 as int) =~= trades@);
                assert(res.0 == trades@ + match_levels(
                    side_view(book_side@),
                    inc0,
                    incoming.quantity,
                    reversed,
                ).0);
            }
            break ;
        } else {
            proof {
                let res = match_levels(s0, inc0, qty0, reversed);
                let cur_start = match_levels(v_start, inc0, qty_start, reversed);
                let cur_now = match_levels(v_hole, inc0, incoming.quantity, reversed);
                if incoming.quantity == 0 {
                    assert(cur_start.0 == step.0 && cur_start.1 == v_hole && cur_start.2 == 0);
                    assert(cur_now.0 =~= Seq::<Trade>::empty());
                } else {
                    assert(cur_start.0 == step.0 + cur_now.0 && cur_start.1 == cur_now.1
                        && cur_start.2 == cur_now.2);
                }
                assert(trades_prefix + trades@.skip(n_t0 as int) =~= trades@);
                assert(res.0 =~= trades@ + cur_now.0);
            }
        }
    }
    trades
}

/// Total resting quantity of a queue.
pub open spec fn queue_qty(q: Seq<Order>) -> int
    decreases q.len(),
{
    if q.len() == 0 {
        0
    } else {
        q[0].quantity + queue_qty(q.skip(1))
    }
}

pub proof fn lemma_queue_qty_take(q: Seq<Order>, k: int)
    requires
        0 <= k < q.len(),
    ensures
        queue_qty(q.take(k + 1)) == queue_qty(q.take(k)) + q[k].quantity,
    decreases q.len(),
{
    if k == 0 {
        assert(q.take(1) =~= seq![q[0]]);
        assert(q.take(1).skip(1) =~= Seq::<Order>::empty());
        assert(q.take(0) =~= Seq::<Order>::empty());
    } else {
        lemma_queue_qty_take(q.skip(1), k - 1);
        assert(q.take(k + 1).skip(1) =~= q.skip(1).take(k));
        assert(q.take(k).skip(1) =~= q.skip(1).take(k - 1));
        assert(q.take(k + 1)[0] == q[0]);
        assert(q.take(k)[0] == q[0]);
    }
}

/// One side of a snapshot, in the side's own storage order (price
/// ascending): `(price, total quantity at that price)`.
pub open spec fn snapshot_asc(s: Seq<(u64, Seq<Order>)>) -> Seq<(u64, u128)> {
    s.map_values(|lvl: (u64, Seq<Order>)| (lvl.0, queue_qty(lvl.1) as u128))
}

/// Total quantity resting in one FIFO queue.
fn level_total(q: &Vec<Order>) -> (t: u128)
    ensures
        t == queue_qty(q@),
{
    let mut t: u128 = 0;
    let mut k: usize = 0;
    proof {
        assert(q@.take(0) =~= Seq::<Order>::empty());
    }
    while k < q.len()
        invariant
            0 <= k <= q@.len(),
            t == queue_qty(q@.take(k as int)),
            t <= (k as int) * (u64::MAX as int),
        decreases q.len() - k,
    {
        proof {
            lemma_queue_qty_take(q@, k as int);
            assert((k as int) * (u64::MAX as int) + (u64::MAX as int) == ((k as int) + 1) * (
            u64::MAX as int)) by (nonlinear_arith);
            assert(((k as int) + 1) * (u64::MAX as int) <= (usize::MAX as int) * (
            u64::MAX as int)) by (nonlinear_arith)
                requires
                    0 <= k < usize::MAX,
            ;
            assert((usize::MAX as int) * (u64::MAX as int) < u128::MAX as int) by (nonlinear_arith);
        }
        t = t + (q[k].quantity as u128);
        k += 1;
    }
    proof {
        assert(q@.take(q@.len() as int) =~= q@);
    }
    t
}

/// An immutable point-in-time projection of a book: per-price totals, bids
/// in descending price order (best first), asks ascending (best first).
#[derive(Clone, Debug, PartialEq, Eq)]
pub struct BookSnapshot {
    pub pair: Pair,
    pub bids: Vec<(u64, u128)>,
    pub asks: Vec<(u64, u128)>,
}

impl BookSnapshot {
    /// The snapshot of an empty book.
    pub fn empty(pair: Pair) -> (r: BookSnapshot)
        ensures
            r.pair == pair,
            r.bids@ == Seq::<(u64, u128)>::empty(),
            r.asks@ == Seq::<(u64, u128)>::empty(),
    {
        BookSnapshot { pair, bids: Vec::new(), asks: Vec::new() }
    }

    /// Project the aggregate quantities of `book`, labelled with `pair`.
    pub fn for_pair(pair: Pair, book: &OrderBook) -> (r: BookSnapshot)
        ensures
            r.pair == pair,
            r.bids@ == snapshot_asc(book.bids_view()).reverse(),
            r.asks@ == snapshot_asc(book.asks_view()),
    {
        let ghost bsnap = snapshot_asc(book.bids_view());
        let mut bids: Vec<(u64, u128)> = Vec::new();
        let mut i: usize = book.bids.len();
        while i > 0
            invariant
                0 <= i <= book.bids.len(),
                bids@.len() == book.bids@.len() - i,
                bsnap == snapshot_asc(book.bids_view()),
                bsnap.len() == book.bids@.len(),
                forall|j: int|
                    0 <= j < bids@.len() ==> bids@[j] == bsnap[bsnap.len() - 1 - j],
            decreases i,
        {
            i -= 1;
            let t = level_total(&book.bids[i].orders);
            bids.push((book.bids[i].price, t));
        }
        let mut asks: Vec<(u64, u128)> = Vec::new();
        let ghost asnap = snapshot_asc(book.asks_view());
        let mut k: usize = 0;
        while k < book.asks.len()
            invariant
                0 <= k <= book.asks.len(),
                asnap == snapshot_asc(book.asks_view()),
                asnap.len() == book.asks@.len(),
                asks@ == asnap.take(k as int),
            decreases book.asks.len() - k,
        {
            let t = level_total(&book.asks[k].orders);
            asks.push((book.asks[k].price, t));
            proof {
                assert(asks@ =~= asnap.take(k as int + 1));
            }
            k += 1;
        }
        proof {
            assert(bids@ =~= bsnap.reverse());
            assert(asks@ =~= asnap.take(asnap.len() as int));
            assert(asnap.take(asnap.len() as int) =~= asnap);
        }
        BookSnapshot { pair, bids, asks }
    }
}

/// Whether some order in the queue has this id.
pub open spec fn queue_contains(q: Seq<Order>, id: u64) -> bool {
    exists|k: int| 0 <= k < q.len() && (#[trigger] q[k]).id == id
}

/// Whether some resting order on this side has this id.
pub open spec fn side_contains(s: Seq<(u64, Seq<Order>)>, id: u64) -> bool {
    exists|i: int| 0 <= i < s.len() && queue_contains((#[trigger] s[i]).1, id)
}

/// First position in the queue holding this id, or `q.len()` if absent.
pub open spec fn queue_find(q: Seq<Order>, id: u64) -> int
    decreases q.len(),
{
    if q.len() == 0 {
        0
    } else if q[0].id == id {
        0
    } else {
        1 + queue_find(q.skip(1), id)
    }
}

pub proof fn lemma_queue_find(q: Seq<Order>, id: u64)
    ensures
        0 <= queue_find(q, id) <= q.len(),
        forall|j: int| 0 <= j < queue_find(q, id) ==> (#[trigger] q[j]).id != id,
        queue_contains(q, id) ==> queue_find(q, id) < q.len() && q[queue_find(q, id)].id == id,
        !queue_contains(q, id) ==> queue_find(q, id) == q.len(),
    decreases q.len(),
{
    if q.len() > 0 && q[0].id != id {
        lemma_queue_find(q.skip(1), id);
        assert forall|j: int| 0 <= j < queue_find(q, id) implies (#[trigger] q[j]).id != id by {
            if j > 0 {
                assert(q.skip(1)[j - 1] == q[j]);
            }
        }
        if queue_contains(q, id) {
            let k = choose|k: int| 0 <= k < q.len() && (#[trigger] q[k]).id == id;
            assert(q.skip(1)[k - 1] == q[k]);
            assert(queue_contains(q.skip(1), id));
        }
        if queue_contains(q.skip(1), id) {
            let k = choose|k: int| 0 <= k < q.skip(1).len() && (#[trigger] q.skip(1)[k]).id == id;
            assert(q[k + 1] == q.skip(1)[k]);
            assert(queue_contains(q, id));
        }
    }
}

/// First level (in ascending price order) whose queue holds this id, or
/// `s.len()` if none does.
pub open spec fn side_find_level(s: Seq<(u64, Seq<Order>)>, id: u64) -> int
    decreases s.len(),
{
    if s.len() == 0 {
        0
    } else if queue_contains(s[0].1, id) {
        0
    } else {
        1 + side_find_level(s.skip(1), id)
    }
}

pub proof fn lemma_side_find_level(s: Seq<(u64, Seq<Order>)>, id: u64)
    ensures
        0 <= side_find_level(s, id) <= s.len(),
        forall|j: int| 0 <= j < side_find_level(s, id) ==> !queue_contains((#[trigger] s[j]).1, id),
        side_contains(s, id) ==> side_find_level(s, id) < s.len() && queue_contains(
            s[side_find_level(s, id)].1,
            id,
        ),
        !side_contains(s, id) ==> side_find_level(s, id) == s.len(),
    decreases s.len(),
{
    if s.len() > 0 && !queue_contains(s[0].1, id) {
        lemma_side_find_level(s.skip(1), id);
        assert forall|j: int| 0 <= j < side_find_level(s, id) implies !queue_contains(
            (#[trigger] s[j]).1,
            id,
        ) by {
            if j > 0 {
                assert(s.skip(1)[j - 1] == s[j]);
            }
        }
        if side_contains(s, id) {
            let k = choose|k: int| 0 <= k < s.len() && queue_contains((#[trigger] s[k]).1, id);
            assert(s.skip(1)[k - 1] == s[k]);
            assert(side_contains(s.skip(1), id));
        }
        if side_contains(s.skip(1), id) {
            let k = choose|k: int|
                0 <= k < s.skip(1).len() && queue_contains((#[trigger] s.skip(1)[k]).1, id);
            assert(s[k + 1] == s.skip(1)[k]);
            assert(side_contains(s, id));
        }
    }
}

/// The side after cancelling the order with this id: the first matching
/// order (scanning levels in ascending price order, then the queue from its
/// head) is removed, and its level is pruned if that empties it.
pub open spec fn side_cancel(s: Seq<(u64, Seq<Order>)>, id: u64) -> Seq<(u64, Seq<Order>)>
    recommends
        side_contains(s, id),
{
    let i = side_find_level(s, id);
    let q2 = s[i].1.remove(queue_find(s[i].1, id));
    if q2.len() == 0 {
        s.remove(i)
    } else {
        s.update(i, (s[i].0, q2))
    }
}

/// Cancelling keeps a side well-formed.
pub proof fn lemma_side_cancel_wf(s: Seq<(u64, Seq<Order>)>, id: u64, side: Side)
    requires
        side_wf(s, side),
        side_contains(s, id),
    ensures
        side_wf(side_cancel(s, id), side),
{
    let i = side_find_level(s, id);
    lemma_side_find_level(s, id);
    lemma_queue_find(s[i].1, id);
    let q2 = s[i].1.remove(queue_find(s[i].1, id));
    let r = side_cancel(s, id);
    if q2.len() == 0 {
        assert forall|a: int, b: int| 0 <= a < b < r.len() implies r[a].0 < r[b].0 by {
            assert(r[a] == if a < i {
                s[a]
            } else {
                s[a + 1]
            });
            assert(r[b] == if b < i {
                s[b]
            } else {
                s[b + 1]
            });
        }
        assert forall|k: int| 0 <= k < r.len() implies (#[trigger] r[k]).1.len() > 0 && queue_wf(
            r[k].1,
            r[k].0,
            side,
        ) by {
            assert(r[k] == if k < i {
                s[k]
            } else {
                s[k + 1]
            });
        }
    } else {
        assert forall|k: int| 0 <= k < r.len() implies (#[trigger] r[k]).1.len() > 0 && queue_wf(
            r[k].1,
            r[k].0,
            side,
        ) by {
            if k != i {
                assert(r[k] == s[k]);
            } else {
                let qf = queue_find(s[i].1, id);
                assert forall|l: int| 0 <= l < q2.len() implies {
                    &&& (#[trigger] q2[l]).side == side
                    &&& q2[l].order_type == OrderType::Limit
                    &&& q2[l].price == Some(r[k].0)
                    &&& q2[l].quantity > 0
                } by {
                    assert(q2[l] == if l < qf {
                        s[i].1[l]
                    } else {
                        s[i].1[l + 1]
                    });
                }
            }
        }
        assert forall|a: int, b: int| 0 <= a < b < r.len() implies r[a].0 < r[b].0 by {
            assert(r[a].0 == s[a].0 && r[b].0 == s[b].0);
        }
    }
}

/// Cancel the first order with this id on one side; prune its level if the
/// removal empties it.
fn cancel_in_side(levels: &mut Vec<Level>, order_id: u64, side: Side) -> (found: bool)
    requires
        side_wf(side_view(old(levels)@), side),
    ensures
        found == side_contains(side_view(old(levels)@), order_id),
        found ==> side_view(final(levels)@) == side_cancel(side_view(old(levels)@), order_id),
        !found ==> final(levels)@ == old(levels)@,
        side_wf(side_view(final(levels)@), side),
{
    let ghost s0 = side_view(old(levels)@);
    proof {
        lemma_side_find_level(s0, order_id);
    }
    let mut i: usize = 0;
    while i < levels.len()
        invariant
            0 <= i <= levels.len(),
            levels@ == old(levels)@,
            s0 == side_view(levels@),
            side_wf(s0, side),
            forall|j: int| 0 <= j < i ==> !queue_contains((#[trigger] s0[j]).1, order_id),
        decreases levels.len() - i,
    {
        let ghost q = s0[i as int].1;
        proof {
            lemma_queue_find(q, order_id);
        }
        let n = levels[i].orders.len();
        let mut k: usize = 0;
        let mut hit = false;
        while k < n && !hit
            invariant
                0 <= k <= n,
                levels@ == old(levels)@,
                s0 == side_view(levels@),
                0 <= i < levels.len(),
                n == levels@[i as int].orders.len(),
                q == s0[i as int].1,
                forall|l: int| 0 <= l < k ==> (#[trigger] q[l]).id != order_id,
                hit ==> k < n && q[k as int].id == order_id,
            decreases n - k, (if hit { 0int } else { 1int }),
        {
            if levels[i].orders[k].id == order_id {
                hit = true;
            } else {
                k += 1;
            }
        }
        if hit {
            proof {
                assert(queue_contains(q, order_id));
                assert(side_contains(s0, order_id));
                // This is the first level containing the id, and `k` is the
                // first position within it.
                lemma_side_find_level(s0, order_id);
                let sfl = side_find_level(s0, order_id);
                if sfl < i as int {
                    assert(!queue_contains((s0[sfl]).1, order_id));
                    assert(false);
                }
                if sfl > i as int {
                    assert(!queue_contains((s0[i as int]).1, order_id));
                    assert(false);
                }
                lemma_queue_find(q, order_id);
                let qf = queue_find(q, order_id);
                if qf < k as int {
                    assert(q[qf].id != order_id);
                    assert(false);
                }
                if qf > k as int {
                    assert(q[k as int].id != order_id);
                    assert(false);
                }
            }
            let mut lvl = levels.remove(i);
            lvl.orders.remove(k);
            if lvl.orders.len() > 0 {
                levels.insert(i, lvl);
                proof {
                    assert(side_view(levels@) =~= s0.update(
                        i as int,
                        (s0[i as int].0, q.remove(k as int)),
                    ));
                    lemma_side_cancel_wf(s0, order_id, side);
                }
            } else {
                proof {
                    assert(side_view(levels@) =~= s0.remove(i as int));
                    lemma_side_cancel_wf(s0, order_id, side);
                }
            }
            return true;
        }
        proof {
            assert(!queue_contains(q, order_id)) by {
                if queue_contains(q, order_id) {
                    lemma_queue_find(q, order_id);
                }
            }
        }
        i += 1;
    }
    proof {
        if side_contains(s0, order_id) {
            let j = side_find_level(s0, order_id);
            assert(!queue_contains(s0[j].1, order_id));
        }
    }
    false
}

/// An order book for one instrument: buy levels in `bids`, sell levels in
/// `asks`, both sorted by price ascending.
#[derive(Clone, Debug)]
pub struct OrderBook {
    pub bids: Vec<Level>,
    pub asks: Vec<Level>,
}

impl OrderBook {
    /// The abstract value of the bid side.
    pub open spec fn bids_view(&self) -> Seq<(u64, Seq<Order>)> {
        side_view(self.bids@)
    }

    /// The abstract value of the ask side.
    pub open spec fn asks_view(&self) -> Seq<(u64, Seq<Order>)> {
        side_view(self.asks@)
    }

    /// Both sides well-formed.
    pub open spec fn wf(&self) -> bool {
        &&& side_wf(self.bids_view(), Side::Buy)
        &&& side_wf(self.asks_view(), Side::Sell)
    }

    /// The book is not crossed: best bid strictly below best ask whenever
    /// both exist.
    pub open spec fn uncrossed(&self) -> bool {
        self.bids_view().len() > 0 && self.asks_view().len() > 0 ==> self.bids_view().last().0
            < self.asks_view().first().0
    }

    /// Create a new, empty book.
    pub fn new() -> (r: OrderBook)
        ensures
            r.bids_view() == Seq::<(u64, Seq<Order>)>::empty(),
            r.asks_view() == Seq::<(u64, Seq<Order>)>::empty(),
            r.wf(),
            r.uncrossed(),
    {
        let r = OrderBook { bids: Vec::new(), asks: Vec::new() };
        proof {
            assert(r.bids_view() =~= Seq::<(u64, Seq<Order>)>::empty());
            assert(r.asks_view() =~= Seq::<(u64, Seq<Order>)>::empty());
        }
        r
    }

    /// Add a limit order to the book. A market order (no price) never rests:
    /// it is ignored with no side effect.
    pub fn add_order(&mut self, order: Order)
        requires
            old(self).wf(),
            order.quantity > 0,
            order.price is Some ==> order.order_type == OrderType::Limit,
        ensures
            final(self).wf(),
            order.price is None ==> *final(self) == *old(self),
            order.price is Some && order.side == Side::Buy ==> final(self).bids_view() == side_add(
                old(self).bids_view(),
                order,
            ) && final(self).asks_view() == old(self).asks_view(),
            order.price is Some && order.side == Side::Sell ==> final(self).asks_view() == side_add(
                old(self).asks_view(),
                order,
            ) && final(self).bids_view() == old(self).bids_view(),
    {
        if let Some(price) = order.price {
            match order.side {
                Side::Buy => insert_into_side(&mut self.bids, order, price),
                Side::Sell => insert_into_side(&mut self.asks, order, price),
            }
        }
    }

    /// The exact outcome of matching `incoming` against this book: the
    /// trades, the opposite side left behind, and the unfilled remainder.
    pub open spec fn spec_match(&self, incoming: Order) -> (Seq<Trade>, Seq<(u64, Seq<Order>)>, u64) {
        let opp = if incoming.side == Side::Buy {
            self.asks_view()
        } else {
            self.bids_view()
        };
        match_levels(opp, incoming, incoming.quantity, incoming.side == Side::Sell)
    }

    /// How a book after a match relates to the book before it: the
    /// opposite side is what the matching spec left, and a limit order's
    /// unfilled remainder rests on its own side.
    pub open spec fn matched(self, after: OrderBook, incoming: Order) -> bool {
        let res = self.spec_match(incoming);
        let resid = Order { quantity: res.2, ..incoming };
        let rests = incoming.order_type == OrderType::Limit && res.2 > 0;
        &&& (incoming.side == Side::Buy ==> after.asks_view() == res.1 && after.bids_view() == (
        if rests {
            side_add(self.bids_view(), resid)
        } else {
            self.bids_view()
        }))
        &&& (incoming.side == Side::Sell ==> after.bids_view() == res.1 && after.asks_view() == (
        if rests {
            side_add(self.asks_view(), resid)
        } else {
            self.asks_view()
        }))
    }

    /// How a book after a cancellation relates to the book before it.
    pub open spec fn cancelled(self, after: OrderBook, order_id: u64, found: bool) -> bool {
        &&& found == (side_contains(self.bids_view(), order_id) || side_contains(
            self.asks_view(),
            order_id,
        ))
        &&& (side_contains(self.bids_view(), order_id) ==> after.bids_view() == side_cancel(
            self.bids_view(),
            order_id,
        ) && after.asks_view() == self.asks_view())
        &&& (!side_contains(self.bids_view(), order_id) && side_contains(
            self.asks_view(),
            order_id,
        ) ==> after.asks_view() == side_cancel(self.asks_view(), order_id) && after.bids_view()
            == self.bids_view())
        &&& (!found ==> after.bids_view() == self.bids_view() && after.asks_view()
            == self.asks_view())
    }

    /// Match an incoming order against the book.
    ///
    /// A buy consumes the asks from the lowest price upward, a sell the bids
    /// from the highest price downward; a limit order stops at the first
    /// level it cannot cross. A limit order's unfilled remainder then rests
    /// on its own side; a market order's remainder is discarded.
    pub fn match_order(&mut self, incoming: Order) -> (trades: Vec<Trade>)
        requires
            old(self).wf(),
            incoming.submittable(),
        ensures
            final(self).wf(),
            trades@ == old(self).spec_match(incoming).0,
            old(self).matched(*final(self), incoming),
            old(self).uncrossed() ==> final(self).uncrossed(),
    {
        let ghost pre = *old(self);
        let mut inc = incoming;
        let trades = match inc.side {
            Side::Buy => match_incoming_side(&mut inc, &mut self.asks, false),
            Side::Sell => match_incoming_side(&mut inc, &mut self.bids, true),
        };
        if inc.order_type == OrderType::Limit && inc.quantity > 0 {
            self.add_order(inc);
        }
        proof {
            if pre.uncrossed() {
                crate::book_laws::lemma_match_preserves_uncrossed(pre, incoming);
            }
        }
        trades
    }

    /// Cancel the resting order with this id, scanning the bids first and
    /// then the asks; prune the emptied level. Returns whether an order was
    /// found and removed.
    pub fn cancel_order(&mut self, order_id: u64) -> (found: bool)
        requires
            old(self).wf(),
        ensures
            final(self).wf(),
            old(self).cancelled(*final(self), order_id, found),
            old(self).uncrossed() ==> final(self).uncrossed(),
    {
        let ghost pre = *old(self);
        if cancel_in_side(&mut self.bids, order_id, Side::Buy) {
            proof {
                if pre.uncrossed() {
                    crate::book_laws::lemma_cancel_preserves_uncrossed(pre, order_id);
                }
            }
            return true;
        }
        let found = cancel_in_side(&mut self.asks, order_id, Side::Sell);
        proof {
            if pre.uncrossed() {
                crate::book_laws::lemma_cancel_preserves_uncrossed(pre, order_id);
            }
        }
        found
    }
}

} // verus!
