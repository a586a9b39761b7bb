//! Fixed-width big-endian byte codecs for the trade log: the composite
//! store key, the stored trade value, and the pagination cursor.
//!
//! All integers are written most-significant byte first, so lexicographic
//! order on the fixed-width tails equals numeric order on the fields.

use vstd::prelude::*;

use crate::instrument::{Asset, Pair};
use crate::trade::Trade;

verus! {

/// 256 to the `n`-th power: the number of values `n` bytes can hold.
pub open spec fn pow256(n: nat) -> nat
    decreases n,
{
    if n == 0 {
        1nat
    } else {
        256 * pow256((n - 1) as nat)
    }
}

pub proof fn lemma_pow256_mono(a: nat, b: nat)
    requires
        a <= b,
    ensures
        pow256(a) <= pow256(b),
    decreases b,
{
    if a < b && b > 0 {
        lemma_pow256_mono(a, (b - 1) as nat);
    }
}

pub proof fn lemma_pow256_16()
    ensures
        pow256(8) == 0x10000000000000000,
        pow256(16) == 0x100000000000000000000000000000000,
{
    assert(pow256(0) == 1);
    assert(pow256(1) == 0x100);
    assert(pow256(2) == 0x10000);
    assert(pow256(3) == 0x1000000);
    assert(pow256(4) == 0x100000000);
    assert(pow256(5) == 0x10000000000);
    assert(pow256(6) == 0x1000000000000);
    assert(pow256(7) == 0x100000000000000);
    assert(pow256(8) == 0x10000000000000000);
    assert(pow256(9) == 0x1000000000000000000);
    assert(pow256(10) == 0x100000000000000000000);
    assert(pow256(11) == 0x10000000000000000000000);
    assert(pow256(12) == 0x1000000000000000000000000);
    assert(pow256(13) == 0x100000000000000000000000000);
    assert(pow256(14) == 0x10000000000000000000000000000);
    assert(pow256(15) == 0x1000000000000000000000000000000);
    assert(pow256(16) == 0x100000000000000000000000000000000);
}

/// The value `x` written in `n` bytes, most significant first.
pub open spec fn be_bytes(x: nat, n: nat) -> Seq<u8>
    decreases n,
{
    if n == 0 {
        Seq::<u8>::empty()
    } else {
        be_bytes(x / 256, (n - 1) as nat).push((x % 256) as u8)
    }
}

pub proof fn lemma_be_bytes_len(x: nat, n: nat)
    ensures
        be_bytes(x, n).len() == n,
    decreases n,
{
    if n > 0 {
        lemma_be_bytes_len(x / 256, (n - 1) as nat);
    }
}

/// The value a big-endian byte string denotes.
pub open spec fn from_be(s: Seq<u8>) -> nat
    decreases s.len(),
{
    if s.len() == 0 {
        0nat
    } else {
        (from_be(s.drop_last()) * 256 + s.last()) as nat
    }
}

pub proof fn lemma_from_be_bound(s: Seq<u8>)
    ensures
        from_be(s) < pow256(s.len()),
    decreases s.len(),
{
    if s.len() > 0 {
        lemma_from_be_bound(s.drop_last());
    }
}

/// Writing then reading is the identity on values that fit.
pub proof fn lemma_from_be_of_be_bytes(x: nat, n: nat)
    requires
        x < pow256(n),
    ensures
        from_be(be_bytes(x, n)) == x,
    decreases n,
{
    if n > 0 {
        lemma_be_bytes_len(x / 256, (n - 1) as nat);
        assert(be_bytes(x, n).drop_last() =~= be_bytes(x / 256, (n - 1) as nat));
        if x / 256 >= pow256((n - 1) as nat) {
            assert(x >= 256 * (x / 256));
            assert(false);
        }
        lemma_from_be_of_be_bytes(x / 256, (n - 1) as nat);
    }
}

/// Reading then writing is the identity on byte strings.
pub proof fn lemma_be_bytes_of_from_be(s: Seq<u8>)
    ensures
        be_bytes(from_be(s), s.len()) == s,
    decreases s.len(),
{
    if s.len() > 0 {
        let x = from_be(s);
        assert(x == from_be(s.drop_last()) * 256 + s.last());
        assert(x / 256 == from_be(s.drop_last()) && x % 256 == s.last());
        lemma_be_bytes_of_from_be(s.drop_last());
        assert(be_bytes(x, s.len()) =~= s);
    }
}

/// A big-endian byte string reads as its first byte weighted by the place
/// value of the remaining bytes, plus the rest.
pub proof fn lemma_from_be_head(s: Seq<u8>)
    requires
        s.len() > 0,
    ensures
        from_be(s) == s[0] * pow256((s.len() - 1) as nat) + from_be(s.skip(1)),
    decreases s.len(),
{
    if s.len() == 1 {
        assert(s.drop_last() =~= Seq::<u8>::empty());
        assert(s.skip(1) =~= Seq::<u8>::empty());
        assert(s.last() == s[0]);
        assert(from_be(Seq::<u8>::empty()) == 0);
        assert(pow256(0) == 1);
        assert(from_be(s) == from_be(s.drop_last()) * 256 + s.last());
        assert(from_be(s.drop_last()) == 0);
        assert(from_be(s.skip(1)) == 0);
        assert(from_be(s) == s[0]);
        assert(pow256((s.len() - 1) as nat) == 1);
        assert(s[0] * pow256((s.len() - 1) as nat) == s[0] * 1) by (nonlinear_arith)
            requires
                pow256((s.len() - 1) as nat) == 1,
        ;
        assert(from_be(s) == s[0] * pow256((s.len() - 1) as nat) + from_be(s.skip(1)));
    } else {
        let dl = s.drop_last();
        lemma_from_be_head(dl);
        assert(dl[0] == s[0]);
        assert(dl.skip(1) =~= s.skip(1).drop_last());
        assert(s.skip(1).last() == s.last());
        let p2 = pow256((s.len() - 2) as nat);
        assert(pow256((s.len() - 1) as nat) == 256 * p2);
        assert((s[0] * p2) * 256 == s[0] * (256 * p2)) by (nonlinear_arith);
        assert(from_be(s) == (s[0] * p2 + from_be(s.skip(1).drop_last())) * 256 + s.last());
        assert((s[0] * p2 + from_be(s.skip(1).drop_last())) * 256 == (s[0] * p2) * 256 + from_be(
            s.skip(1).drop_last(),
        ) * 256) by (nonlinear_arith);
        assert(s.skip(1).len() > 0);
        assert(from_be(s.skip(1)) == from_be(s.skip(1).drop_last()) * 256 + s.skip(1).last());
        assert(from_be(s) == s[0] * (256 * p2) + (from_be(s.skip(1).drop_last()) * 256
            + s.skip(1).last()));
        assert(from_be(s) == s[0] * pow256((s.len() - 1) as nat) + from_be(s.skip(1)));
    }
}

/// On equal-length byte strings, lexicographic order is numeric order.
pub proof fn lemma_lex_is_numeric(a: Seq<u8>, b: Seq<u8>)
    requires
        a.len() == b.len(),
    ensures
        crate::lex::lex_lt(a, b) <==> from_be(a) < from_be(b),
    decreases a.len(),
{
    if a.len() > 0 {
        lemma_from_be_head(a);
        lemma_from_be_head(b);
        lemma_from_be_bound(a.skip(1));
        lemma_from_be_bound(b.skip(1));
        let p = pow256((a.len() - 1) as nat);
        if a[0] < b[0] {
            assert(a[0] * p + p <= b[0] * p) by (nonlinear_arith)
                requires
                    a[0] < b[0],
                    p > 0,
            ;
            assert(from_be(a) < from_be(b));
        } else if a[0] > b[0] {
            assert(b[0] * p + p <= a[0] * p) by (nonlinear_arith)
                requires
                    b[0] < a[0],
                    p > 0,
            ;
            assert(from_be(b) < from_be(a));
        } else {
            lemma_lex_is_numeric(a.skip(1), b.skip(1));
        }
    }
}

/// Write `x` in `n` big-endian bytes.
pub fn be_bytes_exec(x: u128, n: usize) -> (r: Vec<u8>)
    ensures
        r@ == be_bytes(x as nat, n as nat),
    decreases n,
{
    if n == 0 {
        let r: Vec<u8> = Vec::new();
        proof {
            assert(r@ =~= be_bytes(x as nat, 0));
        }
        r
    } else {
        let mut r = be_bytes_exec(x / 256, n - 1);
        r.push((x % 256) as u8);
        r
    }
}

/// Read the `len` bytes of `s` starting at `start` as a big-endian value.
pub fn read_be(s: &Vec<u8>, start: usize, len: usize) -> (x: u128)
    requires
        start + len <= s@.len(),
        len <= 16,
    ensures
        x as nat == from_be(s@.subrange(start as int, start as int + len as int)),
{
    let slen = s.len();
    let mut acc: u128 = 0;
    let mut k: usize = 0;
    proof {
        assert(s@.subrange(start as int, start as int) =~= Seq::<u8>::empty());
    }
    while k < len
        invariant
            start + len <= s@.len(),
            s@.len() == slen,
            len <= 16,
            0 <= k <= len,
            acc as nat == from_be(s@.subrange(start as int, start as int + k as int)),
            acc < pow256(k as nat),
        decreases len - k,
    {
        proof {
            let sub1 = s@.subrange(start as int, start as int + k as int + 1);
            assert(sub1.drop_last() =~= s@.subrange(start as int, start as int + k as int));
            assert(sub1.last() == s@[start as int + k as int]);
            lemma_pow256_mono(k as nat + 1, 16);
            lemma_pow256_16();
        }
        acc = acc * 256 + (s[start + k] as u128);
        k += 1;
    }
    acc
}

/// The three bytes of an asset's mnemonic.
pub open spec fn asset_bytes(a: Asset) -> Seq<u8> {
    match a {
        Asset::BTC => seq![66u8, 84u8, 67u8],
        Asset::USD => seq![85u8, 83u8, 68u8],
        Asset::ETH => seq![69u8, 84u8, 72u8],
    }
}

/// The seven canonical `BASE-QUOTE` bytes of a pair.
pub open spec fn symbol_bytes(p: Pair) -> Seq<u8> {
    asset_bytes(p.base) + seq![45u8] + asset_bytes(p.quote)
}

pub proof fn lemma_symbol_bytes_len(p: Pair)
    ensures
        symbol_bytes(p).len() == 7,
{
}

/// Distinct pairs have distinct symbol bytes (the three mnemonics differ
/// pairwise in their first byte).
#[verifier::rlimit(50)]
pub proof fn lemma_symbol_bytes_injective(p1: Pair, p2: Pair)
    requires
        symbol_bytes(p1) == symbol_bytes(p2),
    ensures
        p1 == p2,
{
    assert(asset_bytes(p1.base)[0] == symbol_bytes(p1)[0]);
    assert(asset_bytes(p2.base)[0] == symbol_bytes(p2)[0]);
    assert(asset_bytes(p1.quote)[0] == symbol_bytes(p1)[4]);
    assert(asset_bytes(p2.quote)[0] == symbol_bytes(p2)[4]);
}

/// Append the seven symbol bytes of `p`.
pub fn push_symbol_bytes(out: &mut Vec<u8>, p: &Pair)
    ensures
        final(out)@ == old(out)@ + symbol_bytes(*p),
{
    let ghost before = out@;
    match p.base {
        Asset::BTC => {
            out.push(66);
            out.push(84);
            out.push(67);
        },
        Asset::USD => {
            out.push(85);
            out.push(83);
            out.push(68);
        },
        Asset::ETH => {
            out.push(69);
            out.push(84);
            out.push(72);
        },
    }
    out.push(45);
    match p.quote {
        Asset::BTC => {
            out.push(66);
            out.push(84);
            out.push(67);
        },
        Asset::USD => {
            out.push(85);
            out.push(83);
            out.push(68);
        },
        Asset::ETH => {
            out.push(69);
            out.push(84);
            out.push(72);
        },
    }
    proof {
        assert(out@ =~= before + symbol_bytes(*p));
    }
}

/// Read three bytes as an asset mnemonic.
pub open spec fn spec_parse_asset(s: Seq<u8>) -> Option<Asset> {
    if s == asset_bytes(Asset::BTC) {
        Some(Asset::BTC)
    } else if s == asset_bytes(Asset::USD) {
        Some(Asset::USD)
    } else if s == asset_bytes(Asset::ETH) {
        Some(Asset::ETH)
    } else {
        None
    }
}

/// Parse the three bytes at `start` as an asset mnemonic.
pub fn parse_asset(s: &Vec<u8>, start: usize) -> (r: Option<Asset>)
    requires
        start + 3 <= s@.len(),
    ensures
        r == spec_parse_asset(s@.subrange(start as int, start as int + 3)),
{
    let ghost sub = s@.subrange(start as int, start as int + 3);
    let slen = s.len();
    let b0 = s[start];
    let b1 = s[start + 1];
    let b2 = s[start + 2];
    proof {
        assert(sub[0] == b0 && sub[1] == b1 && sub[2] == b2 && sub.len() == 3);
        assert(sub == asset_bytes(Asset::BTC) <==> (b0 == 66 && b1 == 84 && b2 == 67)) by {
            if b0 == 66 && b1 == 84 && b2 == 67 {
                assert(sub =~= asset_bytes(Asset::BTC));
            }
        }
        assert(sub == asset_bytes(Asset::USD) <==> (b0 == 85 && b1 == 83 && b2 == 68)) by {
            if b0 == 85 && b1 == 83 && b2 == 68 {
                assert(sub =~= asset_bytes(Asset::USD));
            }
        }
        assert(sub == asset_bytes(Asset::ETH) <==> (b0 == 69 && b1 == 84 && b2 == 72)) by {
            if b0 == 69 && b1 == 84 && b2 == 72 {
                assert(sub =~= asset_bytes(Asset::ETH));
            }
        }
    }
    if b0 == 66 && b1 == 84 && b2 == 67 {
        Some(Asset::BTC)
    } else if b0 == 85 && b1 == 83 && b2 == 68 {
        Some(Asset::USD)
    } else if b0 == 69 && b1 == 84 && b2 == 72 {
        Some(Asset::ETH)
    } else {
        None
    }
}

/// The store key prefix that bounds a symbol's scan: the symbol bytes and a
/// colon. No symbol's prefix is a prefix of another's: all symbols are
/// seven bytes long.
pub open spec fn key_prefix(sym: Pair) -> Seq<u8> {
    symbol_bytes(sym) + seq![58u8]
}

/// The composite store key: symbol prefix, then the fixed-width big-endian
/// tail `(ts_nanos, maker_id, taker_id, price, quantity)`, so lexicographic
/// key order is chronological per symbol with deterministic tie-breakers.
pub open spec fn trade_key(
    sym: Pair,
    ts: u128,
    maker: u128,
    taker: u128,
    price: u64,
    qty: u64,
) -> Seq<u8> {
    key_prefix(sym) + be_bytes(ts as nat, 16) + be_bytes(maker as nat, 16) + be_bytes(
        taker as nat,
        16,
    ) + be_bytes(price as nat, 8) + be_bytes(qty as nat, 8)
}

/// The key under which a trade is stored.
pub open spec fn trade_key_of(t: Trade) -> Seq<u8> {
    trade_key(t.symbol, t.timestamp, t.maker_id, t.taker_id, t.price, t.quantity)
}

pub proof fn lemma_trade_key_len(sym: Pair, ts: u128, maker: u128, taker: u128, price: u64, qty: u64)
    ensures
        trade_key(sym, ts, maker, taker, price, qty).len() == 72,
{
    lemma_be_bytes_len(ts as nat, 16);
    lemma_be_bytes_len(maker as nat, 16);
    lemma_be_bytes_len(taker as nat, 16);
    lemma_be_bytes_len(price as nat, 8);
    lemma_be_bytes_len(qty as nat, 8);
}

/// Equal keys carry equal symbols and fields.
pub proof fn lemma_trade_key_injective(
    s1: Pair,
    t1: u128,
    m1: u128,
    k1: u128,
    p1: u64,
    q1: u64,
    s2: Pair,
    t2: u128,
    m2: u128,
    k2: u128,
    p2: u64,
    q2: u64,
)
    requires
        trade_key(s1, t1, m1, k1, p1, q1) == trade_key(s2, t2, m2, k2, p2, q2),
    ensures
        s1 == s2 && t1 == t2 && m1 == m2 && k1 == k2 && p1 == p2 && q1 == q2,
{
    let a = trade_key(s1, t1, m1, k1, p1, q1);
    let b = trade_key(s2, t2, m2, k2, p2, q2);
    lemma_trade_key_len(s1, t1, m1, k1, p1, q1);
    lemma_trade_key_len(s2, t2, m2, k2, p2, q2);
    lemma_be_bytes_len(t1 as nat, 16);
    lemma_be_bytes_len(m1 as nat, 16);
    lemma_be_bytes_len(k1 as nat, 16);
    lemma_be_bytes_len(p1 as nat, 8);
    lemma_be_bytes_len(q1 as nat, 8);
    lemma_be_bytes_len(t2 as nat, 16);
    lemma_be_bytes_len(m2 as nat, 16);
    lemma_be_bytes_len(k2 as nat, 16);
    lemma_be_bytes_len(p2 as nat, 8);
    lemma_be_bytes_len(q2 as nat, 8);
    assert(a.subrange(0, 7) =~= symbol_bytes(s1));
    assert(b.subrange(0, 7) =~= symbol_bytes(s2));
    lemma_symbol_bytes_injective(s1, s2);
    assert(a.subrange(8, 24) =~= be_bytes(t1 as nat, 16));
    assert(b.subrange(8, 24) =~= be_bytes(t2 as nat, 16));
    assert(a.subrange(24, 40) =~= be_bytes(m1 as nat, 16));
    assert(b.subrange(24, 40) =~= be_bytes(m2 as nat, 16));
    assert(a.subrange(40, 56) =~= be_bytes(k1 as nat, 16));
    assert(b.subrange(40, 56) =~= be_bytes(k2 as nat, 16));
    assert(a.subrange(56, 64) =~= be_bytes(p1 as nat, 8));
    assert(b.subrange(56, 64) =~= be_bytes(p2 as nat, 8));
    assert(a.subrange(64, 72) =~= be_bytes(q1 as nat, 8));
    assert(b.subrange(64, 72) =~= be_bytes(q2 as nat, 8));
    lemma_pow256_16();
    lemma_pow256_mono(8, 16);
    lemma_from_be_of_be_bytes(t1 as nat, 16);
    lemma_from_be_of_be_bytes(t2 as nat, 16);
    lemma_from_be_of_be_bytes(m1 as nat, 16);
    lemma_from_be_of_be_bytes(m2 as nat, 16);
    lemma_from_be_of_be_bytes(k1 as nat, 16);
    lemma_from_be_of_be_bytes(k2 as nat, 16);
    lemma_from_be_of_be_bytes(p1 as nat, 8);
    lemma_from_be_of_be_bytes(p2 as nat, 8);
    lemma_from_be_of_be_bytes(q1 as nat, 8);
    lemma_from_be_of_be_bytes(q2 as nat, 8);
}

/// Build the key prefix that bounds one symbol's scan.
pub fn encode_prefix(sym: &Pair) -> (r: Vec<u8>)
    ensures
        r@ == key_prefix(*sym),
{
    let mut out: Vec<u8> = Vec::new();
    push_symbol_bytes(&mut out, sym);
    out.push(58);
    proof {
        assert(out@ =~= key_prefix(*sym));
    }
    out
}

/// Build the composite store key from cursor-style fields.
pub fn encode_key_fields(sym: &Pair, ts: u128, maker: u128, taker: u128, price: u64, qty: u64) -> (
    r: Vec<u8>)
    ensures
        r@ == trade_key(*sym, ts, maker, taker, price, qty),
{
    let mut out = encode_prefix(sym);
    let mut part = be_bytes_exec(ts, 16);
    out.append(&mut part);
    let mut part = be_bytes_exec(maker, 16);
    out.append(&mut part);
    let mut part = be_bytes_exec(taker, 16);
    out.append(&mut part);
    let mut part = be_bytes_exec(price as u128, 8);
    out.append(&mut part);
    let mut part = be_bytes_exec(qty as u128, 8);
    out.append(&mut part);
    proof {
        assert(out@ =~= trade_key(*sym, ts, maker, taker, price, qty));
    }
    out
}

/// Build the store key of a trade.
pub fn encode_trade_key(t: &Trade) -> (r: Vec<u8>)
    ensures
        r@ == trade_key_of(*t),
{
    encode_key_fields(&t.symbol, t.timestamp, t.maker_id, t.taker_id, t.price, t.quantity)
}

/// The stored value of a trade: every field in fixed-width big-endian form,
/// then the symbol bytes. The encode/decode roundtrip is exact.
pub open spec fn trade_value(t: Trade) -> Seq<u8> {
    be_bytes(t.price as nat, 8) + be_bytes(t.quantity as nat, 8) + be_bytes(t.maker_id as nat, 16)
        + be_bytes(t.taker_id as nat, 16) + be_bytes(t.timestamp as nat, 16) + symbol_bytes(
        t.symbol,
    )
}

pub proof fn lemma_trade_value_len(t: Trade)
    ensures
        trade_value(t).len() == 71,
{
    lemma_be_bytes_len(t.price as nat, 8);
    lemma_be_bytes_len(t.quantity as nat, 8);
    lemma_be_bytes_len(t.maker_id as nat, 16);
    lemma_be_bytes_len(t.taker_id as nat, 16);
    lemma_be_bytes_len(t.timestamp as nat, 16);
}

/// Encode a trade for storage.
pub fn encode_trade_value(t: &Trade) -> (r: Vec<u8>)
    ensures
        r@ == trade_value(*t),
{
    let mut out = be_bytes_exec(t.price as u128, 8);
    let mut part = be_bytes_exec(t.quantity as u128, 8);
    out.append(&mut part);
    let mut part = be_bytes_exec(t.maker_id, 16);
    out.append(&mut part);
    let mut part = be_bytes_exec(t.taker_id, 16);
    out.append(&mut part);
    let mut part = be_bytes_exec(t.timestamp, 16);
    out.append(&mut part);
    push_symbol_bytes(&mut out, &t.symbol);
    proof {
        assert(out@ =~= trade_value(*t));
    }
    out
}

/// Decode a stored trade value. Returns the trade exactly when the bytes
/// are the encoding of one.
pub fn decode_trade_value(b: &Vec<u8>) -> (r: Option<Trade>)
    ensures
        r matches Some(t) ==> b@ == trade_value(t),
        r is None ==> forall|t: Trade| b@ != trade_value(t),
{
    if b.len() != 71 {
        proof {
            assert forall|t: Trade| b@ != trade_value(t) by {
                lemma_trade_value_len(t);
            }
        }
        return None;
    }
    let price128 = read_be(b, 0, 8);
    let qty128 = read_be(b, 8, 8);
    let maker = read_be(b, 16, 16);
    let taker = read_be(b, 32, 16);
    let ts = read_be(b, 48, 16);
    let base = parse_asset(b, 64);
    let dash = b[67];
    let quote = parse_asset(b, 68);
    proof {
        lemma_from_be_bound(b@.subrange(0, 8));
        lemma_from_be_bound(b@.subrange(8, 16));
        lemma_pow256_16();
    }
    if let (Some(base), Some(quote)) = (base, quote) {
        if dash == 45 {
            let t = Trade {
                price: price128 as u64,
                quantity: qty128 as u64,
                maker_id: maker,
                taker_id: taker,
                timestamp: ts,
                symbol: Pair { base, quote },
            };
            proof {
                lemma_be_bytes_of_from_be(b@.subrange(0, 8));
                lemma_be_bytes_of_from_be(b@.subrange(8, 16));
                lemma_be_bytes_of_from_be(b@.subrange(16, 32));
                lemma_be_bytes_of_from_be(b@.subrange(32, 48));
                lemma_be_bytes_of_from_be(b@.subrange(48, 64));
                assert(b@.subrange(64, 67) =~= asset_bytes(base));
                assert(b@.subrange(68, 71) =~= asset_bytes(quote));
                assert(symbol_bytes(t.symbol) =~= b@.subrange(64, 71));
                assert(b@ =~= b@.subrange(0, 8) + b@.subrange(8, 16) + b@.subrange(16, 32)
                    + b@.subrange(32, 48) + b@.subrange(48, 64) + b@.subrange(64, 71));
                assert(b@ == trade_value(t));
            }
            return Some(t);
        }
    }
    proof {
        assert forall|t: Trade| b@ != trade_value(t) by {
            if b@ == trade_value(t) {
                lemma_be_bytes_len(t.price as nat, 8);
                lemma_be_bytes_len(t.quantity as nat, 8);
                lemma_be_bytes_len(t.maker_id as nat, 16);
                lemma_be_bytes_len(t.taker_id as nat, 16);
                lemma_be_bytes_len(t.timestamp as nat, 16);
                assert(b@.subrange(64, 67) =~= asset_bytes(t.symbol.base));
                assert(b@.subrange(68, 71) =~= asset_bytes(t.symbol.quote));
                assert(b@[67] == 45);
                assert(spec_parse_asset(b@.subrange(64, 67)) is Some);
                assert(spec_parse_asset(b@.subrange(68, 71)) is Some);
            }
        }
    }
    None
}

/// Equal stored values carry equal trades.
pub proof fn lemma_trade_value_injective(t1: Trade, t2: Trade)
    requires
        trade_value(t1) == trade_value(t2),
    ensures
        t1 == t2,
{
    let a = trade_value(t1);
    let b = trade_value(t2);
    lemma_trade_value_len(t1);
    lemma_trade_value_len(t2);
    lemma_be_bytes_len(t1.price as nat, 8);
    lemma_be_bytes_len(t1.quantity as nat, 8);
    lemma_be_bytes_len(t1.maker_id as nat, 16);
    lemma_be_bytes_len(t1.taker_id as nat, 16);
    lemma_be_bytes_len(t1.timestamp as nat, 16);
    lemma_be_bytes_len(t2.price as nat, 8);
    lemma_be_bytes_len(t2.quantity as nat, 8);
    lemma_be_bytes_len(t2.maker_id as nat, 16);
    lemma_be_bytes_len(t2.taker_id as nat, 16);
    lemma_be_bytes_len(t2.timestamp as nat, 16);
    assert(a.subrange(0, 8) =~= be_bytes(t1.price as nat, 8));
    assert(b.subrange(0, 8) =~= be_bytes(t2.price as nat, 8));
    assert(a.subrange(8, 16) =~= be_bytes(t1.quantity as nat, 8));
    assert(b.subrange(8, 16) =~= be_bytes(t2.quantity as nat, 8));
    assert(a.subrange(16, 32) =~= be_bytes(t1.maker_id as nat, 16));
    assert(b.subrange(16, 32) =~= be_bytes(t2.maker_id as nat, 16));
    assert(a.subrange(32, 48) =~= be_bytes(t1.taker_id as nat, 16));
    assert(b.subrange(32, 48) =~= be_bytes(t2.taker_id as nat, 16));
    assert(a.subrange(48, 64) =~= be_bytes(t1.timestamp as nat, 16));
    assert(b.subrange(48, 64) =~= be_bytes(t2.timestamp as nat, 16));
    assert(a.subrange(64, 71) =~= symbol_bytes(t1.symbol));
    assert(b.subrange(64, 71) =~= symbol_bytes(t2.symbol));
    lemma_symbol_bytes_injective(t1.symbol, t2.symbol);
    lemma_pow256_16();
    lemma_pow256_mono(8, 16);
    lemma_from_be_of_be_bytes(t1.price as nat, 8);
    lemma_from_be_of_be_bytes(t2.price as nat, 8);
    lemma_from_be_of_be_bytes(t1.quantity as nat, 8);
    lemma_from_be_of_be_bytes(t2.quantity as nat, 8);
    lemma_from_be_of_be_bytes(t1.maker_id as nat, 16);
    lemma_from_be_of_be_bytes(t2.maker_id as nat, 16);
    lemma_from_be_of_be_bytes(t1.taker_id as nat, 16);
    lemma_from_be_of_be_bytes(t2.taker_id as nat, 16);
    lemma_from_be_of_be_bytes(t1.timestamp as nat, 16);
    lemma_from_be_of_be_bytes(t2.timestamp as nat, 16);
}

/// A versioned reference to one trade-log entry. Only version 1 cursors are
/// honoured; the wire form is URL-safe base64 of [`cursor_bytes`].
#[derive(Clone, Copy, Debug, PartialEq, Eq, Structural)]
pub struct Cursor {
    pub v: u8,
    pub ts_nanos: u128,
    pub maker_id: u128,
    pub taker_id: u128,
    pub price: u64,
    pub quantity: u64,
}

/// The binary form of a cursor: the version byte, then the same fixed-width
/// big-endian tail as the store key.
pub open spec fn cursor_bytes(c: Cursor) -> Seq<u8> {
    seq![c.v] + be_bytes(c.ts_nanos as nat, 16) + be_bytes(c.maker_id as nat, 16) + be_bytes(
        c.taker_id as nat,
        16,
    ) + be_bytes(c.price as nat, 8) + be_bytes(c.quantity as nat, 8)
}

pub proof fn lemma_cursor_bytes_len(c: Cursor)
    ensures
        cursor_bytes(c).len() == 65,
{
    lemma_be_bytes_len(c.ts_nanos as nat, 16);
    lemma_be_bytes_len(c.maker_id as nat, 16);
    lemma_be_bytes_len(c.taker_id as nat, 16);
    lemma_be_bytes_len(c.price as nat, 8);
    lemma_be_bytes_len(c.quantity as nat, 8);
}

/// The cursor that identifies a trade's log entry.
pub open spec fn spec_cursor_of_trade(t: Trade) -> Cursor {
    Cursor {
        v: 1,
        ts_nanos: t.timestamp,
        maker_id: t.maker_id,
        taker_id: t.taker_id,
        price: t.price,
        quantity: t.quantity,
    }
}

/// Build the version-1 cursor for a trade.
pub fn cursor_of_trade(t: &Trade) -> (c: Cursor)
    ensures
        c == spec_cursor_of_trade(*t),
{
    Cursor {
        v: 1,
        ts_nanos: t.timestamp,
        maker_id: t.maker_id,
        taker_id: t.taker_id,
        price: t.price,
        quantity: t.quantity,
    }
}

/// Encode a cursor to its binary form.
pub fn encode_cursor_bytes(c: &Cursor) -> (r: Vec<u8>)
    ensures
        r@ == cursor_bytes(*c),
{
    let mut out: Vec<u8> = Vec::new();
    out.push(c.v);
    let mut part = be_bytes_exec(c.ts_nanos, 16);
    out.append(&mut part);
    let mut part = be_bytes_exec(c.maker_id, 16);
    out.append(&mut part);
    let mut part = be_bytes_exec(c.taker_id, 16);
    out.append(&mut part);
    let mut part = be_bytes_exec(c.price as u128, 8);
    out.append(&mut part);
    let mut part = be_bytes_exec(c.quantity as u128, 8);
    out.append(&mut part);
    proof {
        assert(out@ =~= cursor_bytes(*c));
    }
    out
}

/// Decode a binary cursor. Returns the cursor exactly when the bytes are
/// the encoding of one; the version is not inspected here.
pub fn decode_cursor_bytes(b: &Vec<u8>) -> (r: Option<Cursor>)
    ensures
        r matches Some(c) ==> b@ == cursor_bytes(c),
        r is None ==> forall|c: Cursor| b@ != cursor_bytes(c),
{
    if b.len() != 65 {
        proof {
            assert forall|c: Cursor| b@ != cursor_bytes(c) by {
                lemma_cursor_bytes_len(c);
            }
        }
        return None;
    }
    let v = b[0];
    let ts = read_be(b, 1, 16);
    let maker = read_be(b, 17, 16);
    let taker = read_be(b, 33, 16);
    let price128 = read_be(b, 49, 8);
    let qty128 = read_be(b, 57, 8);
    proof {
        lemma_from_be_bound(b@.subrange(49, 57));
        lemma_from_be_bound(b@.subrange(57, 65));
        lemma_pow256_16();
    }
    let c = Cursor {
        v,
        ts_nanos: ts,
        maker_id: maker,
        taker_id: taker,
        price: price128 as u64,
        quantity: qty128 as u64,
    };
    proof {
        lemma_be_bytes_of_from_be(b@.subrange(1, 17));
        lemma_be_bytes_of_from_be(b@.subrange(17, 33));
        lemma_be_bytes_of_from_be(b@.subrange(33, 49));
        lemma_be_bytes_of_from_be(b@.subrange(49, 57));
        lemma_be_bytes_of_from_be(b@.subrange(57, 65));
        assert(b@ =~= seq![b@[0]] + b@.subrange(1, 17) + b@.subrange(17, 33) + b@.subrange(33, 49)
            + b@.subrange(49, 57) + b@.subrange(57, 65));
        assert(b@ == cursor_bytes(c));
    }
    Some(c)
}

/// Cursor roundtrip at the binary layer: the codec is exact.
pub proof fn lemma_cursor_roundtrip(c: Cursor)
    ensures
        forall|b: Seq<u8>| b == cursor_bytes(c) ==> #[trigger] decoded_cursor(b) == Some(c),
{
    assert forall|b: Seq<u8>| b == cursor_bytes(c) implies #[trigger] decoded_cursor(b) == Some(
        c,
    ) by {
        lemma_cursor_bytes_injective_inner(b, c);
    }
}

/// The cursor a byte string denotes, if any.
pub open spec fn decoded_cursor(b: Seq<u8>) -> Option<Cursor> {
    if exists|c: Cursor| b == cursor_bytes(c) {
        Some(choose|c: Cursor| b == cursor_bytes(c))
    } else {
        None
    }
}

proof fn lemma_cursor_bytes_injective_inner(b: Seq<u8>, c: Cursor)
    requires
        b == cursor_bytes(c),
    ensures
        decoded_cursor(b) == Some(c),
{
    let c2 = choose|c2: Cursor| b == cursor_bytes(c2);
    lemma_cursor_bytes_injective(c, c2);
}

/// Equal cursor bytes carry equal fields.
pub proof fn lemma_cursor_bytes_injective(c1: Cursor, c2: Cursor)
    requires
        cursor_bytes(c1) == cursor_bytes(c2),
    ensures
        c1 == c2,
{
    let a = cursor_bytes(c1);
    let b = cursor_bytes(c2);
    lemma_cursor_bytes_len(c1);
    lemma_cursor_bytes_len(c2);
    lemma_be_bytes_len(c1.ts_nanos as nat, 16);
    lemma_be_bytes_len(c1.maker_id as nat, 16);
    lemma_be_bytes_len(c1.taker_id as nat, 16);
    lemma_be_bytes_len(c1.price as nat, 8);
    lemma_be_bytes_len(c1.quantity as nat, 8);
    lemma_be_bytes_len(c2.ts_nanos as nat, 16);
    lemma_be_bytes_len(c2.maker_id as nat, 16);
    lemma_be_bytes_len(c2.taker_id as nat, 16);
    lemma_be_bytes_len(c2.price as nat, 8);
    lemma_be_bytes_len(c2.quantity as nat, 8);
    assert(a[0] == c1.v && b[0] == c2.v);
    assert(a.subrange(1, 17) =~= be_bytes(c1.ts_nanos as nat, 16));
    assert(b.subrange(1, 17) =~= be_bytes(c2.ts_nanos as nat, 16));
    assert(a.subrange(17, 33) =~= be_bytes(c1.maker_id as nat, 16));
    assert(b.subrange(17, 33) =~= be_bytes(c2.maker_id as nat, 16));
    assert(a.subrange(33, 49) =~= be_bytes(c1.taker_id as nat, 16));
    assert(b.subrange(33, 49) =~= be_bytes(c2.taker_id as nat, 16));
    assert(a.subrange(49, 57) =~= be_bytes(c1.price as nat, 8));
    assert(b.subrange(49, 57) =~= be_bytes(c2.price as nat, 8));
    assert(a.subrange(57, 65) =~= be_bytes(c1.quantity as nat, 8));
    assert(b.subrange(57, 65) =~= be_bytes(c2.quantity as nat, 8));
    lemma_pow256_16();
    lemma_pow256_mono(8, 16);
    lemma_from_be_of_be_bytes(c1.ts_nanos as nat, 16);
    lemma_from_be_of_be_bytes(c2.ts_nanos as nat, 16);
    lemma_from_be_of_be_bytes(c1.maker_id as nat, 16);
    lemma_from_be_of_be_bytes(c2.maker_id as nat, 16);
    lemma_from_be_of_be_bytes(c1.taker_id as nat, 16);
    lemma_from_be_of_be_bytes(c2.taker_id as nat, 16);
    lemma_from_be_of_be_bytes(c1.price as nat, 8);
    lemma_from_be_of_be_bytes(c2.price as nat, 8);
    lemma_from_be_of_be_bytes(c1.quantity as nat, 8);
    lemma_from_be_of_be_bytes(c2.quantity as nat, 8);
}

} // verus!
