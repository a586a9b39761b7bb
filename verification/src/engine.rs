//! The submission coordinator: the single logical entry point per order
//! submission. It validates, matches against the right book, persists the
//! resulting trades, and hands the trades back so the caller can publish
//! events only after persistence — the ordering contract streaming clients
//! rely on.

use vstd::prelude::*;

use crate::codec::{cursor_bytes, key_prefix, trade_key, trade_key_of, trade_value, Cursor};
use crate::instrument::{Asset, Pair};
use crate::orderbook::{BookSnapshot, OrderBook};
use crate::orders::{Order, OrderType, Side};
use crate::store::{
    b64_of, db_contains_key, decoded_trade, key_index, kv_insert, spec_page_window, sym_entries,
    Store, StoreError,
};
use crate::store_laws::entries_consistent;
use crate::trade::Trade;

verus! {

/// A submission as the boundary hands it in.
#[derive(Debug)]
pub struct NewOrder {
    pub side: Side,
    pub order_type: OrderType,
    pub price: Option<u64>,
    pub quantity: u64,
    pub pair: Pair,
}

/// The answer to a submission: the fresh order id and the trades it
/// produced, in match order.
#[derive(Debug)]
pub struct OrderAck {
    pub order_id: u64,
    pub trades: Vec<Trade>,
}

/// A trade-paging request: the page size and the opaque cursor to resume
/// after, if any.
#[derive(Debug)]
pub struct TradesQuery {
    pub limit: usize,
    pub after: Option<String>,
}

/// One page of trades and the cursor of the next page, if one exists.
#[derive(Debug)]
pub struct TradesPage {
    pub items: Vec<Trade>,
    pub next: Option<String>,
}

/// The page size used when a request does not name one.
pub fn default_limit() -> (r: usize)
    ensures
        r == 100,
{
    100
}

/// The page size the server actually uses for a request.
pub open spec fn spec_effective_limit(requested: int) -> int {
    if requested < 1 {
        1
    } else if requested > 1000 {
        1000
    } else {
        requested
    }
}

/// Clamp a requested page size into `[1, 1000]`.
pub fn effective_limit(requested: usize) -> (r: usize)
    ensures
        r == spec_effective_limit(requested as int),
{
    if requested < 1 {
        1
    } else if requested > 1000 {
        1000
    } else {
        requested
    }
}

/// Errors a submission or query can answer with.
#[derive(Debug)]
pub enum EngineError {
    /// The quantity was zero.
    InvalidQuantity,
    /// The pair is not in the supported whitelist.
    UnsupportedPair,
    /// A limit order arrived without a price.
    MissingPrice,
    /// The trade log failed; already-applied book state is not rewound.
    Store(StoreError),
}

impl EngineError {
    /// The wire message of the error.
    pub fn message(&self) -> (r: &'static str)
        ensures
            self is InvalidQuantity ==> r@ == "quantity must be > 0"@,
            self is UnsupportedPair ==> r@ == "unsupported pair"@,
            self is MissingPrice ==> r@ == "missing price"@,
            self is Store ==> r@ == "internal error"@,
    {
        match self {
            EngineError::InvalidQuantity => "quantity must be > 0",
            EngineError::UnsupportedPair => "unsupported pair",
            EngineError::MissingPrice => "missing price",
            EngineError::Store(_) => "internal error",
        }
    }
}

/// One order book per supported pair, created empty at startup.
pub struct Books {
    pub btc_usd: OrderBook,
    pub eth_usd: OrderBook,
}

impl Books {
    /// The book of a supported pair.
    pub open spec fn spec_book(&self, pair: Pair) -> OrderBook {
        if pair == (Pair { base: Asset::BTC, quote: Asset::USD }) {
            self.btc_usd
        } else {
            self.eth_usd
        }
    }

    pub open spec fn wf(&self) -> bool {
        &&& self.btc_usd.wf()
        &&& self.eth_usd.wf()
    }

    pub open spec fn uncrossed(&self) -> bool {
        &&& self.btc_usd.uncrossed()
        &&& self.eth_usd.uncrossed()
    }

    /// One empty book per supported pair.
    pub fn new() -> (r: Books)
        ensures
            r.wf(),
            r.uncrossed(),
            r.btc_usd.bids_view().len() == 0 && r.btc_usd.asks_view().len() == 0,
            r.eth_usd.bids_view().len() == 0 && r.eth_usd.asks_view().len() == 0,
    {
        Books { btc_usd: OrderBook::new(), eth_usd: OrderBook::new() }
    }
}

/// Whether the pair is on the whitelist.
fn pair_supported(p: &Pair) -> (r: bool)
    ensures
        r == p.is_supported(),
{
    (p.base == Asset::BTC && p.quote == Asset::USD) || (p.base == Asset::ETH && p.quote
        == Asset::USD)
}

/// The order a valid request submits: a market order's price is dropped,
/// the acceptance time is stamped in.
pub open spec fn spec_order_of(req: NewOrder, order_id: u64, now: u128) -> Order {
    Order {
        id: order_id,
        side: req.side,
        order_type: req.order_type,
        price: if req.order_type == OrderType::Market {
            None
        } else {
            req.price
        },
        quantity: req.quantity,
        timestamp: now,
        pair: req.pair,
    }
}

/// Whether a request passes validation.
pub open spec fn spec_valid_request(req: NewOrder) -> bool {
    &&& req.quantity > 0
    &&& req.pair.is_supported()
    &&& (req.order_type == OrderType::Limit ==> req.price is Some)
}

/// The log after the trades were persisted one by one, in order.
pub open spec fn entries_after_inserts(s: Seq<(Seq<u8>, Seq<u8>)>, ts: Seq<Trade>) -> Seq<
    (Seq<u8>, Seq<u8>),
>
    decreases ts.len(),
{
    if ts.len() == 0 {
        s
    } else {
        entries_after_inserts(kv_insert(s, trade_key_of(ts[0]), trade_value(ts[0])), ts.skip(1))
    }
}

proof fn lemma_after_inserts_snoc(s: Seq<(Seq<u8>, Seq<u8>)>, ts: Seq<Trade>, k: int)
    requires
        0 <= k < ts.len(),
    ensures
        entries_after_inserts(s, ts.take(k + 1)) == kv_insert(
            entries_after_inserts(s, ts.take(k)),
            trade_key_of(ts[k]),
            trade_value(ts[k]),
        ),
    decreases k,
{
    if k == 0 {
        assert(ts.take(0) =~= Seq::<Trade>::empty());
        assert(ts.take(1) =~= seq![ts[0]]);
        assert(seq![ts[0]].skip(1) =~= Seq::<Trade>::empty());
        let s1 = kv_insert(s, trade_key_of(ts[0]), trade_value(ts[0]));
        assert(entries_after_inserts(s, ts.take(1)) == entries_after_inserts(
            s1,
            seq![ts[0]].skip(1),
        ));
        assert(entries_after_inserts(s1, Seq::<Trade>::empty()) == s1);
        assert(entries_after_inserts(s, ts.take(0)) == s);
    } else {
        let s1 = kv_insert(s, trade_key_of(ts[0]), trade_value(ts[0]));
        lemma_after_inserts_snoc(s1, ts.skip(1), k - 1);
        assert(ts.take(k + 1)[0] == ts[0]);
        assert(ts.take(k)[0] == ts[0]);
        assert(ts.take(k + 1).skip(1) =~= ts.skip(1).take(k));
        assert(ts.take(k).skip(1) =~= ts.skip(1).take(k - 1));
        assert(ts.skip(1)[k - 1] == ts[k]);
        assert(entries_after_inserts(s, ts.take(k + 1)) == entries_after_inserts(
            s1,
            ts.skip(1).take(k),
        ));
        assert(entries_after_inserts(s, ts.take(k)) == entries_after_inserts(
            s1,
            ts.skip(1).take(k - 1),
        ));
    }
}

/// The matching core behind one process: the books of every supported pair
/// and the durable trade log. The caller serializes access (one writer at
/// a time) and publishes events only after a submission returns.
pub struct Engine {
    pub books: Books,
    pub store: Store,
}

impl Engine {
    pub open spec fn wf(&self) -> bool {
        &&& self.books.wf()
        &&& self.store.wf()
    }

    /// Wrap an opened trade log with empty books.
    pub fn new(store: Store) -> (r: Engine)
        requires
            store.wf(),
        ensures
            r.wf(),
            r.books.uncrossed(),
            r.store == store,
    {
        Engine { books: Books::new(), store }
    }

    /// One order submission, steps in order: validate; match against the
    /// pair's book; persist every produced trade. Events for the trades
    /// must be published by the caller only after this returns, trades
    /// first and one book-update second.
    ///
    /// On a store failure the book state already applied is NOT rewound:
    /// the error is operator-visible.
    pub fn submit(&mut self, order_id: u64, req: &NewOrder, now_nanos: u128) -> (r: Result<
        OrderAck,
        EngineError,
    >)
        requires
            old(self).wf(),
        ensures
            final(self).wf(),
            old(self).books.uncrossed() ==> final(self).books.uncrossed(),
            req.quantity == 0 ==> (r matches Err(e) && e is InvalidQuantity) && *final(self)
                == *old(self),
            req.quantity > 0 && !req.pair.is_supported() ==> (r matches Err(e)
                && e is UnsupportedPair) && *final(self) == *old(self),
            req.quantity > 0 && req.pair.is_supported() && req.order_type == OrderType::Limit
                && req.price is None ==> (r matches Err(e) && e is MissingPrice) && *final(self)
                == *old(self),
            spec_valid_request(*req) ==> ({
                let order = spec_order_of(*req, order_id, now_nanos);
                let book0 = old(self).books.spec_book(req.pair);
                let res = book0.spec_match(order);
                &&& book0.matched(final(self).books.spec_book(req.pair), order)
                &&& (forall|p: Pair|
                    p.is_supported() && p != req.pair ==> (#[trigger] final(self).books.spec_book(
                        p,
                    )) == old(self).books.spec_book(p))
                &&& (r matches Ok(ack) ==> {
                    &&& ack.order_id == order_id
                    &&& ack.trades@ == res.0
                    &&& final(self).store.entries() == entries_after_inserts(
                        old(self).store.entries(),
                        res.0,
                    )
                    &&& (entries_consistent(old(self).store.entries()) ==> entries_consistent(
                        final(self).store.entries(),
                    ))
                })
                &&& (r matches Err(e) ==> e is Store && e->Store_0 is Backend && exists|jj: int|
                    0 <= jj <= res.0.len() && final(self).store.entries()
                        == #[trigger] entries_after_inserts(
                        old(self).store.entries(),
                        res.0.take(jj),
                    ))
            }),
    {
        if req.quantity == 0 {
            return Err(EngineError::InvalidQuantity);
        }
        if !pair_supported(&req.pair) {
            return Err(EngineError::UnsupportedPair);
        }
        if req.order_type == OrderType::Limit && req.price.is_none() {
            return Err(EngineError::MissingPrice);
        }
        let price = match req.order_type {
            OrderType::Market => None,
            OrderType::Limit => req.price,
        };
        let order = Order {
            id: order_id,
            side: req.side,
            order_type: req.order_type,
            price,
            quantity: req.quantity,
            timestamp: now_nanos,
            pair: req.pair,
        };
        let is_btc = req.pair.base == Asset::BTC && req.pair.quote == Asset::USD;
        let trades = if is_btc {
            self.books.btc_usd.match_order(order)
        } else {
            self.books.eth_usd.match_order(order)
        };
        let ghost gorder = spec_order_of(*req, order_id, now_nanos);
        let ghost books1 = self.books;
        proof {
            assert(order == gorder);
            assert forall|p: Pair|
                p.is_supported() && p != req.pair implies (#[trigger] self.books.spec_book(p))
                == old(self).books.spec_book(p) by {
            }
        }
        let ghost store0 = self.store.entries();
        let ghost consistent0 = entries_consistent(store0);
        let mut k: usize = 0;
        while k < trades.len()
            invariant
                0 <= k <= trades@.len(),
                spec_valid_request(*req),
                self.books == books1,
                books1.wf(),
                store0 == old(self).store.entries(),
                old(self).books.uncrossed() ==> books1.uncrossed(),
                old(self).books.spec_book(req.pair).matched(books1.spec_book(req.pair), gorder),
                gorder == spec_order_of(*req, order_id, now_nanos),
                trades@ == old(self).books.spec_book(req.pair).spec_match(gorder).0,
                forall|p: Pair|
                    p.is_supported() && p != req.pair ==> (#[trigger] books1.spec_book(p)) == old(
                        self,
                    ).books.spec_book(p),
                self.store.wf(),
                self.store.entries() == entries_after_inserts(store0, trades@.take(k as int)),
                consistent0 == entries_consistent(store0),
                consistent0 ==> entries_consistent(self.store.entries()),
            decreases trades@.len() - k,
        {
            proof {
                assert(trades@.take(k as int + 1) == trades@.take(k as int).push(
                    trades@[k as int],
                )) by {
                    assert(trades@.take(k as int + 1) =~= trades@.take(k as int).push(
                        trades@[k as int],
                    ));
                }
            }
            match self.store.insert_trade(&trades[k]) {
                Ok(_) => {
                    proof {
                        lemma_after_inserts_snoc(store0, trades@, k as int);
                    }
                },
                Err(e) => {
                    proof {
                        // the store keeps exactly the trades persisted so far
                        assert(self.store.entries() == entries_after_inserts(
                            store0,
                            trades@.take(k as int),
                        ));
                    }
                    return Err(EngineError::Store(e));
                },
            }
            k += 1;
        }
        proof {
            assert(trades@.take(trades@.len() as int) =~= trades@);
        }
        Ok(OrderAck { order_id, trades })
    }

    /// Cancel a resting order on the pair's book. On success the caller
    /// publishes one book-update. The trade log is untouched.
    pub fn cancel(&mut self, pair: &Pair, order_id: u64) -> (r: Result<bool, EngineError>)
        requires
            old(self).wf(),
        ensures
            final(self).wf(),
            old(self).books.uncrossed() ==> final(self).books.uncrossed(),
            !pair.is_supported() ==> (r matches Err(e) && e is UnsupportedPair) && *final(self)
                == *old(self),
            pair.is_supported() ==> ({
                &&& final(self).store == old(self).store
                &&& (r matches Ok(found) && old(self).books.spec_book(*pair).cancelled(
                    final(self).books.spec_book(*pair),
                    order_id,
                    found,
                ))
                &&& (forall|p: Pair|
                    p.is_supported() && p != *pair ==> (#[trigger] final(self).books.spec_book(p))
                        == old(self).books.spec_book(p))
            }),
    {
        if !pair_supported(pair) {
            return Err(EngineError::UnsupportedPair);
        }
        let is_btc = pair.base == Asset::BTC && pair.quote == Asset::USD;
        let found = if is_btc {
            self.books.btc_usd.cancel_order(order_id)
        } else {
            self.books.eth_usd.cancel_order(order_id)
        };
        Ok(found)
    }

    /// A point-in-time snapshot of the pair's book.
    pub fn snapshot(&self, pair: &Pair) -> (r: Result<BookSnapshot, EngineError>)
        ensures
            !pair.is_supported() ==> (r matches Err(e) && e is UnsupportedPair),
            pair.is_supported() ==> (r matches Ok(snap) && {
                let book = self.books.spec_book(*pair);
                &&& snap.pair == *pair
                &&& snap.bids@ == crate::orderbook::snapshot_asc(book.bids_view()).reverse()
                &&& snap.asks@ == crate::orderbook::snapshot_asc(book.asks_view())
            }),
    {
        if !pair_supported(pair) {
            return Err(EngineError::UnsupportedPair);
        }
        let is_btc = pair.base == Asset::BTC && pair.quote == Asset::USD;
        if is_btc {
            Ok(BookSnapshot::for_pair(*pair, &self.books.btc_usd))
        } else {
            Ok(BookSnapshot::for_pair(*pair, &self.books.eth_usd))
        }
    }

    /// Page through the pair's persisted trades, with the page size clamped
    /// to the server's bounds.
    pub fn page_trades(&self, pair: &Pair, query: &TradesQuery) -> (r: Result<
        TradesPage,
        EngineError,
    >)
        requires
            self.wf(),
        ensures
            ({
                let db = self.store.entries();
                let pfx = key_prefix(*pair);
                let s = sym_entries(db, pfx);
                let lim = spec_effective_limit(query.limit as int);
                match query.after {
                    None => {
                        &&& !(r matches Err(e) && e is Store && e->Store_0 is BadCursor)
                        &&& (r matches Err(e) && e is Store && e->Store_0 is Corrupt ==> exists|
                            j: int,
                        | 0 <= j < s.len() && decoded_trade((#[trigger] s[j]).1) is None)
                        &&& (r matches Ok(page) ==> spec_page_window(s, lim, page.items@, page.next))
                    },
                    Some(astr) => {
                        &&& ((forall|c: Cursor| astr@ != #[trigger] b64_of(cursor_bytes(c))) ==> (
                        r matches Err(e) && e is Store && e->Store_0 is BadCursor))
                        &&& (forall|c: Cursor|
                            astr@ == #[trigger] b64_of(cursor_bytes(c)) ==> {
                                let k = trade_key(
                                    *pair,
                                    c.ts_nanos,
                                    c.maker_id,
                                    c.taker_id,
                                    c.price,
                                    c.quantity,
                                );
                                &&& (c.v != 1 ==> (r matches Err(e) && e is Store && e->Store_0
                                    is BadCursor))
                                &&& (c.v == 1 ==> {
                                    &&& (!db_contains_key(db, k) && !(r matches Err(e) && e
                                        is Store && e->Store_0 is Backend) ==> (r matches Err(e)
                                        && e is Store && e->Store_0 is BadCursor))
                                    &&& (db_contains_key(db, k) ==> !(r matches Err(e) && e
                                        is Store && e->Store_0 is BadCursor))
                                    &&& (r matches Ok(page) ==> db_contains_key(db, k)
                                        && spec_page_window(
                                        s.skip(key_index(s, k) + 1),
                                        lim,
                                        page.items@,
                                        page.next,
                                    ))
                                })
                            })
                        &&& (r matches Err(e) && e is Store && e->Store_0 is Corrupt ==> exists|
                            j: int,
                        | 0 <= j < s.len() && decoded_trade((#[trigger] s[j]).1) is None)
                    },
                }
            }),
    {
        let lim = effective_limit(query.limit);
        let after: Option<&str> = match &query.after {
            Some(a) => Some(a.as_str()),
            None => None,
        };
        match self.store.page_trade_asc(pair, after, lim) {
            Ok((items, next)) => Ok(TradesPage { items, next }),
            Err(e) => Err(EngineError::Store(e)),
        }
    }
}

} // verus!
