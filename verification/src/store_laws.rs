//! Laws of the trade log, proved over the store's abstract contents:
//! cursor tamper-resistance, prefix safety across symbols, and the
//! exhaustive-paging guarantee that chained pages list a symbol's trades
//! exactly once, in order.

use vstd::prelude::*;

use crate::codec::{
    be_bytes, lemma_be_bytes_len, lemma_from_be_of_be_bytes, lemma_lex_is_numeric,
    lemma_pow256_16, lemma_symbol_bytes_injective, lemma_trade_key_injective, lemma_trade_key_len,
    lemma_trade_value_injective, key_prefix, symbol_bytes, trade_key, trade_key_of, trade_value,
};
use crate::instrument::Pair;
use crate::lex::{has_prefix, lex_lt};
use crate::store::{
    db_contains_key, db_sorted, first_ge, key_index, kv_insert, lemma_key_index,
    lemma_sym_entries_elements, sym_entries,
};
use crate::trade::Trade;

verus! {

/// Every entry of the log is a trade stored under its own composite key.
/// [`crate::store::Store::insert_trade`] only ever writes such entries.
pub open spec fn entries_consistent(s: Seq<(Seq<u8>, Seq<u8>)>) -> bool {
    forall|i: int|
        0 <= i < s.len() ==> exists|t: Trade|
            (#[trigger] s[i]) == (trade_key_of(t), trade_value(t))
}

/// Storing a trade under its own key keeps the log consistent.
pub proof fn lemma_insert_consistent(s: Seq<(Seq<u8>, Seq<u8>)>, t: Trade)
    requires
        entries_consistent(s),
    ensures
        entries_consistent(kv_insert(s, trade_key_of(t), trade_value(t))),
{
    let k = trade_key_of(t);
    let v = trade_value(t);
    let i = crate::store::kv_lower_bound(s, k);
    lemma_first_ge_range(s, k);
    let r = kv_insert(s, k, v);
    if i < s.len() && s[i].0 == k {
        assert forall|j: int| 0 <= j < r.len() implies exists|t2: Trade|
            (#[trigger] r[j]) == (trade_key_of(t2), trade_value(t2)) by {
            if j == i {
                assert(r[j] == (trade_key_of(t), trade_value(t)));
            } else {
                assert(r[j] == s[j]);
            }
        }
    } else {
        assert forall|j: int| 0 <= j < r.len() implies exists|t2: Trade|
            (#[trigger] r[j]) == (trade_key_of(t2), trade_value(t2)) by {
            if j == i {
                assert(r[j] == (trade_key_of(t), trade_value(t)));
            } else if j < i {
                assert(r[j] == s[j]);
            } else {
                assert(r[j] == s[j - 1]);
            }
        }
    }
}

proof fn lemma_first_ge_range(s: Seq<(Seq<u8>, Seq<u8>)>, k: Seq<u8>)
    ensures
        0 <= first_ge(s, k) <= s.len(),
    decreases s.len(),
{
    if s.len() > 0 && !crate::lex::lex_le(k, s[0].0) {
        lemma_first_ge_range(s.skip(1), k);
    }
}

/// One symbol's slice of a sorted log is itself sorted.
pub proof fn lemma_sym_entries_sorted(s: Seq<(Seq<u8>, Seq<u8>)>, p: Seq<u8>)
    requires
        db_sorted(s),
    ensures
        db_sorted(sym_entries(s, p)),
    decreases s.len(),
{
    if s.len() > 0 {
        assert forall|i: int, j: int| 0 <= i < j < s.skip(1).len() implies lex_lt(
            (#[trigger] s.skip(1)[i]).0,
            (#[trigger] s.skip(1)[j]).0,
        ) by {
            assert(s.skip(1)[i] == s[i + 1] && s.skip(1)[j] == s[j + 1]);
        }
        lemma_sym_entries_sorted(s.skip(1), p);
        let r = sym_entries(s, p);
        let r1 = sym_entries(s.skip(1), p);
        if has_prefix(s[0].0, p) {
            lemma_sym_entries_elements(s.skip(1), p);
            assert forall|i: int, j: int| 0 <= i < j < r.len() implies lex_lt(
                (#[trigger] r[i]).0,
                (#[trigger] r[j]).0,
            ) by {
                assert(r[j] == r1[j - 1]);
                if i == 0 {
                    let x = choose|x: int|
                        0 <= x < s.skip(1).len() && (#[trigger] s.skip(1)[x]) == r1[j - 1];
                    assert(s.skip(1)[x] == s[x + 1]);
                    assert(lex_lt(s[0].0, s[x + 1].0));
                } else {
                    assert(r[i] == r1[i - 1]);
                }
            }
        }
    }
}

/// In a sorted slice each key appears once: the cursor of the `q`-th entry
/// points back at exactly position `q`.
pub proof fn lemma_next_page_resumes(s: Seq<(Seq<u8>, Seq<u8>)>, q: int)
    requires
        db_sorted(s),
        0 <= q < s.len(),
    ensures
        key_index(s, s[q].0) == q,
{
    lemma_key_index(s, s[q].0);
    let ki = key_index(s, s[q].0);
    assert(crate::store::db_contains_key(s, s[q].0));
    if ki < q {
        assert(lex_lt(s[ki].0, s[q].0));
        crate::lex::lemma_lex_irrefl(s[q].0);
        assert(false);
    }
    if ki > q {
        assert(s[q].0 != s[q].0);
        assert(false);
    }
}

/// Tamper resistance: in a consistent log, a composite key names an
/// entry only if the very trade it spells out — same symbol, timestamp,
/// ids, price and quantity — was persisted. A fabricated cursor whose
/// tuple was never stored therefore matches no key, and paging with it
/// fails with `BadCursor`.
pub proof fn lemma_key_identifies_trade(
    db: Seq<(Seq<u8>, Seq<u8>)>,
    sym: Pair,
    ts: u128,
    maker: u128,
    taker: u128,
    price: u64,
    qty: u64,
)
    requires
        entries_consistent(db),
        db_contains_key(db, trade_key(sym, ts, maker, taker, price, qty)),
    ensures
        ({
            let t = Trade {
                price,
                quantity: qty,
                maker_id: maker,
                taker_id: taker,
                timestamp: ts,
                symbol: sym,
            };
            exists|i: int| 0 <= i < db.len() && #[trigger] db[i] == (trade_key_of(t), trade_value(t))
        }),
{
    let k = trade_key(sym, ts, maker, taker, price, qty);
    let i = choose|i: int| 0 <= i < db.len() && (#[trigger] db[i]).0 == k;
    let t2 = choose|t2: Trade| db[i] == (trade_key_of(t2), trade_value(t2));
    lemma_trade_key_injective(
        sym,
        ts,
        maker,
        taker,
        price,
        qty,
        t2.symbol,
        t2.timestamp,
        t2.maker_id,
        t2.taker_id,
        t2.price,
        t2.quantity,
    );
    let t = Trade { price, quantity: qty, maker_id: maker, taker_id: taker, timestamp: ts, symbol: sym };
    assert(t2 == t);
    assert(db[i] == (trade_key_of(t), trade_value(t)));
}

/// Prefix safety: in a consistent log, an entry under one symbol's
/// prefix is keyed by a trade of that very symbol. A cursor minted while
/// paging symbol X, replayed against symbol Y, therefore looks up the key
/// `trade_key(Y, tuple)`; unless Y itself persisted the identical tuple,
/// that key is absent and the page fails with `BadCursor`.
pub proof fn lemma_prefix_entries_own_symbol(db: Seq<(Seq<u8>, Seq<u8>)>, sym: Pair, i: int)
    requires
        entries_consistent(db),
        0 <= i < db.len(),
        has_prefix(db[i].0, key_prefix(sym)),
    ensures
        exists|t: Trade| t.symbol == sym && #[trigger] db[i] == (trade_key_of(t), trade_value(t)),
{
    let t = choose|t: Trade| db[i] == (trade_key_of(t), trade_value(t));
    lemma_trade_key_len(t.symbol, t.timestamp, t.maker_id, t.taker_id, t.price, t.quantity);
    assert(db[i].0.subrange(0, 8) =~= key_prefix(t.symbol)) by {
        assert(has_prefix(trade_key_of(t), key_prefix(t.symbol))) by {
            crate::store::lemma_trade_key_prefixed(
                t.symbol,
                t.timestamp,
                t.maker_id,
                t.taker_id,
                t.price,
                t.quantity,
            );
        }
    }
    assert(db[i].0.subrange(0, 8) =~= key_prefix(sym));
    assert(symbol_bytes(t.symbol) =~= key_prefix(t.symbol).take(7));
    assert(symbol_bytes(sym) =~= key_prefix(sym).take(7));
    lemma_symbol_bytes_injective(t.symbol, sym);
}

/// Exhaustive paging: in a sorted, consistent log, the continuation
/// cursor of a full page names the entry of its last item, and replaying
/// it resumes at exactly the next entry. Chained pages — with `limit` 1 or
/// any other — therefore concatenate to the uninterrupted listing of the
/// symbol's trades, each entry exactly once, in order.
pub proof fn lemma_page_chain(
    db: Seq<(Seq<u8>, Seq<u8>)>,
    sym: Pair,
    start: int,
    limit: int,
    items: Seq<Trade>,
)
    requires
        db_sorted(db),
        entries_consistent(db),
        limit > 0,
        0 <= start,
        start + limit <= sym_entries(db, key_prefix(sym)).len(),
        items.len() == limit,
        forall|j: int|
            0 <= j < items.len() ==> (#[trigger] sym_entries(db, key_prefix(sym))[start + j]).1
                == trade_value(items[j]),
    ensures
        ({
            // the last item's cursor key is the key of the entry it came
            // from, so the next page's window starts at `start + limit`
            let s = sym_entries(db, key_prefix(sym));
            let t = items.last();
            let k = trade_key(sym, t.timestamp, t.maker_id, t.taker_id, t.price, t.quantity);
            &&& k == s[start + limit - 1].0
            &&& db_contains_key(db, k)
            &&& key_index(s, k) + 1 == start + limit
        }),
{
    let pfx = key_prefix(sym);
    let s = sym_entries(db, pfx);
    let t = items.last();
    let q = start + limit - 1;
    assert(s[start + (limit - 1)].1 == trade_value(items[limit - 1]));
    assert(t == items[limit - 1]);
    assert(s[q].1 == trade_value(t));
    lemma_sym_entries_elements(db, pfx);
    let i = choose|i: int| 0 <= i < db.len() && (#[trigger] db[i]) == s[q];
    assert(has_prefix(s[q].0, pfx));
    lemma_prefix_entries_own_symbol(db, sym, i);
    let t2 = choose|t2: Trade|
        t2.symbol == sym && #[trigger] db[i] == (trade_key_of(t2), trade_value(t2));
    lemma_trade_value_injective(t, t2);
    assert(s[q].0 == trade_key_of(t));
    assert(trade_key_of(t) == trade_key(
        sym,
        t.timestamp,
        t.maker_id,
        t.taker_id,
        t.price,
        t.quantity,
    ));
    lemma_sym_entries_sorted(db, pfx);
    lemma_next_page_resumes(s, q);
    assert(db_contains_key(db, s[q].0)) by {
        assert(db[i].0 == s[q].0);
    }
}

/// A shared prefix decides nothing: appending it to both sides keeps the
/// order of the tails.
proof fn lemma_lex_common_prefix(c: Seq<u8>, a: Seq<u8>, b: Seq<u8>)
    ensures
        lex_lt(c + a, c + b) <==> lex_lt(a, b),
    decreases c.len(),
{
    if c.len() == 0 {
        assert(c + a =~= a);
        assert(c + b =~= b);
    } else {
        lemma_lex_common_prefix(c.skip(1), a, b);
        assert((c + a)[0] == c[0] && (c + b)[0] == c[0]);
        assert((c + a).skip(1) =~= c.skip(1) + a);
        assert((c + b).skip(1) =~= c.skip(1) + b);
    }
}

/// Equal-length byte strings that are strictly ordered stay strictly
/// ordered whatever follows them: the order is decided inside them.
proof fn lemma_lex_decided_prefix(a: Seq<u8>, b: Seq<u8>, x: Seq<u8>, y: Seq<u8>)
    requires
        a.len() == b.len(),
        lex_lt(a, b),
    ensures
        lex_lt(a + x, b + y),
    decreases a.len(),
{
    assert(a.len() > 0);
    assert((a + x)[0] == a[0] && (b + y)[0] == b[0]);
    if a[0] == b[0] {
        lemma_lex_decided_prefix(a.skip(1), b.skip(1), x, y);
        assert((a + x).skip(1) =~= a.skip(1) + x);
        assert((b + y).skip(1) =~= b.skip(1) + y);
    }
}

/// The key schema is chronological: under one symbol's prefix, a key with
/// an earlier timestamp sorts strictly earlier, and at equal timestamps
/// the maker id breaks the tie — fixed-width big-endian fields make
/// lexicographic order numeric order.
pub proof fn lemma_key_order_chronological(
    sym: Pair,
    ts1: u128,
    m1: u128,
    k1: u128,
    p1: u64,
    q1: u64,
    ts2: u128,
    m2: u128,
    k2: u128,
    p2: u64,
    q2: u64,
)
    requires
        ts1 < ts2 || (ts1 == ts2 && m1 < m2),
    ensures
        lex_lt(trade_key(sym, ts1, m1, k1, p1, q1), trade_key(sym, ts2, m2, k2, p2, q2)),
{
    let pre = key_prefix(sym);
    let rest1 = be_bytes(m1 as nat, 16) + be_bytes(k1 as nat, 16) + be_bytes(p1 as nat, 8)
        + be_bytes(q1 as nat, 8);
    let rest2 = be_bytes(m2 as nat, 16) + be_bytes(k2 as nat, 16) + be_bytes(p2 as nat, 8)
        + be_bytes(q2 as nat, 8);
    let tail1 = be_bytes(ts1 as nat, 16) + rest1;
    let tail2 = be_bytes(ts2 as nat, 16) + rest2;
    assert(trade_key(sym, ts1, m1, k1, p1, q1) =~= pre + tail1);
    assert(trade_key(sym, ts2, m2, k2, p2, q2) =~= pre + tail2);
    lemma_be_bytes_len(ts1 as nat, 16);
    lemma_be_bytes_len(ts2 as nat, 16);
    lemma_be_bytes_len(m1 as nat, 16);
    lemma_be_bytes_len(m2 as nat, 16);
    lemma_pow256_16();
    lemma_from_be_of_be_bytes(ts1 as nat, 16);
    lemma_from_be_of_be_bytes(ts2 as nat, 16);
    if ts1 < ts2 {
        lemma_lex_is_numeric(be_bytes(ts1 as nat, 16), be_bytes(ts2 as nat, 16));
        lemma_lex_decided_prefix(
            be_bytes(ts1 as nat, 16),
            be_bytes(ts2 as nat, 16),
            rest1,
            rest2,
        );
    } else {
        // equal timestamps: the maker id decides inside the next field
        lemma_from_be_of_be_bytes(m1 as nat, 16);
        lemma_from_be_of_be_bytes(m2 as nat, 16);
        lemma_lex_is_numeric(be_bytes(m1 as nat, 16), be_bytes(m2 as nat, 16));
        let rr1 = be_bytes(k1 as nat, 16) + be_bytes(p1 as nat, 8) + be_bytes(q1 as nat, 8);
        let rr2 = be_bytes(k2 as nat, 16) + be_bytes(p2 as nat, 8) + be_bytes(q2 as nat, 8);
        lemma_lex_decided_prefix(be_bytes(m1 as nat, 16), be_bytes(m2 as nat, 16), rr1, rr2);
        assert(tail1 =~= be_bytes(ts1 as nat, 16) + (be_bytes(m1 as nat, 16) + rr1));
        assert(tail2 =~= be_bytes(ts2 as nat, 16) + (be_bytes(m2 as nat, 16) + rr2));
        lemma_lex_common_prefix(
            be_bytes(ts1 as nat, 16),
            be_bytes(m1 as nat, 16) + rr1,
            be_bytes(m2 as nat, 16) + rr2,
        );
        assert(be_bytes(ts1 as nat, 16) == be_bytes(ts2 as nat, 16));
    }
    assert(lex_lt(tail1, tail2));
    lemma_lex_common_prefix(pre, tail1, tail2);
}

} // verus!
