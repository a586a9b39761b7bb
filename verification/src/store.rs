//! The durable trade log: an ordered key-value store of executed trades,
//! prefix-scannable per symbol, with opaque cursor-based forward paging.
//!
//! The store itself is parity-db behind a small set of trusted wrappers;
//! the key schema, the value codec, the cursor wire format and the paging
//! algorithm are the library's own and are verified against the wrappers'
//! contracts.

use vstd::prelude::*;

use base64::Engine;

use crate::codec::{
    cursor_bytes, cursor_of_trade, decode_cursor_bytes, encode_cursor_bytes, encode_key_fields,
    encode_prefix, encode_trade_key, encode_trade_value, key_prefix, spec_cursor_of_trade,
    trade_key, trade_key_of, trade_value, Cursor,
};
use crate::instrument::Pair;
use crate::lex::{has_prefix, lex_le, lex_lt};
use crate::trade::Trade;

verus! {

// ---------------------------------------------------------------------
// The abstract store contents
// ---------------------------------------------------------------------
/// Entries in ascending key order.
pub open spec fn db_sorted(s: Seq<(Seq<u8>, Seq<u8>)>) -> bool {
    forall|i: int, j: int| 0 <= i < j < s.len() ==> lex_lt((#[trigger] s[i]).0, (#[trigger] s[j]).0)
}

/// Whether some entry has this key.
pub open spec fn db_contains_key(s: Seq<(Seq<u8>, Seq<u8>)>, k: Seq<u8>) -> bool {
    exists|i: int| 0 <= i < s.len() && (#[trigger] s[i]).0 == k
}

/// The first position of `s` whose key is at or after `k`, or `s.len()`.
pub open spec fn first_ge(s: Seq<(Seq<u8>, Seq<u8>)>, k: Seq<u8>) -> int
    decreases s.len(),
{
    if s.len() == 0 {
        0
    } else if lex_le(k, s[0].0) {
        0
    } else {
        1 + first_ge(s.skip(1), k)
    }
}

/// The entries whose key is at or after `start`, in order.
pub open spec fn entries_from(s: Seq<(Seq<u8>, Seq<u8>)>, start: Seq<u8>) -> Seq<
    (Seq<u8>, Seq<u8>),
>
    decreases s.len(),
{
    if s.len() == 0 {
        Seq::<(Seq<u8>, Seq<u8>)>::empty()
    } else if lex_le(start, s[0].0) {
        seq![s[0]] + entries_from(s.skip(1), start)
    } else {
        entries_from(s.skip(1), start)
    }
}

/// The entries whose key starts with `p`, in order: one symbol's slice of
/// the log.
pub open spec fn sym_entries(s: Seq<(Seq<u8>, Seq<u8>)>, p: Seq<u8>) -> Seq<(Seq<u8>, Seq<u8>)>
    decreases s.len(),
{
    if s.len() == 0 {
        Seq::<(Seq<u8>, Seq<u8>)>::empty()
    } else if has_prefix(s[0].0, p) {
        seq![s[0]] + sym_entries(s.skip(1), p)
    } else {
        sym_entries(s.skip(1), p)
    }
}

/// The entries whose key does not start with `p`, in order.
pub open spec fn non_sym_entries(s: Seq<(Seq<u8>, Seq<u8>)>, p: Seq<u8>) -> Seq<(Seq<u8>, Seq<u8>)>
    decreases s.len(),
{
    if s.len() == 0 {
        Seq::<(Seq<u8>, Seq<u8>)>::empty()
    } else if !has_prefix(s[0].0, p) {
        seq![s[0]] + non_sym_entries(s.skip(1), p)
    } else {
        non_sym_entries(s.skip(1), p)
    }
}

/// The entries whose key is not among `ks`, in order.
pub open spec fn remove_keys(s: Seq<(Seq<u8>, Seq<u8>)>, ks: Seq<Seq<u8>>) -> Seq<
    (Seq<u8>, Seq<u8>),
>
    decreases s.len(),
{
    if s.len() == 0 {
        Seq::<(Seq<u8>, Seq<u8>)>::empty()
    } else if !ks.contains(s[0].0) {
        seq![s[0]] + remove_keys(s.skip(1), ks)
    } else {
        remove_keys(s.skip(1), ks)
    }
}

/// The position where `k` belongs in sorted `s`.
pub open spec fn kv_lower_bound(s: Seq<(Seq<u8>, Seq<u8>)>, k: Seq<u8>) -> int
    decreases s.len(),
{
    first_ge(s, k)
}

/// The store after a put: the value at `k` overwritten, or the entry
/// created at its sorted position.
pub open spec fn kv_insert(s: Seq<(Seq<u8>, Seq<u8>)>, k: Seq<u8>, v: Seq<u8>) -> Seq<
    (Seq<u8>, Seq<u8>),
> {
    let i = kv_lower_bound(s, k);
    if i < s.len() && s[i].0 == k {
        s.update(i, (k, v))
    } else {
        s.insert(i, (k, v))
    }
}

/// Up to `max` entries at or after `start`, in order.
pub open spec fn scan_spec(s: Seq<(Seq<u8>, Seq<u8>)>, start: Seq<u8>, max: nat) -> Seq<
    (Seq<u8>, Seq<u8>),
> {
    let t = entries_from(s, start);
    t.take(if max < t.len() {
        max as int
    } else {
        t.len() as int
    })
}

/// The view of one raw entry.
pub open spec fn entry_view(e: (Vec<u8>, Vec<u8>)) -> (Seq<u8>, Seq<u8>) {
    (e.0@, e.1@)
}

/// The views of a vector of raw entries.
pub open spec fn entry_views(v: Seq<(Vec<u8>, Vec<u8>)>) -> Seq<(Seq<u8>, Seq<u8>)> {
    v.map_values(|e: (Vec<u8>, Vec<u8>)| entry_view(e))
}

/// The views of a vector of raw keys.
pub open spec fn key_views(ks: Seq<Vec<u8>>) -> Seq<Seq<u8>> {
    ks.map_values(|k: Vec<u8>| k@)
}

// ---------------------------------------------------------------------
// The trusted layer over parity-db
// ---------------------------------------------------------------------
#[verifier::external_type_specification]
#[verifier::external_body]
pub struct ExParityError(parity_db::Error);

/// Holds the parity-db database. Opaque to the verifier: its contents are
/// named by [`db_seq`], and the wrappers below say what each call does in
/// terms of that name.
#[verifier::external_body]
pub struct DbHandle {
    db: parity_db::Db,
}

/// The entries of the database, in ascending lexicographic key order, as
/// `(key, value)` byte strings.
pub uninterp spec fn db_seq(h: DbHandle) -> Seq<(Seq<u8>, Seq<u8>)>;

/// Relies on parity_db::Options::with_columns and Db::open_or_create: opens
/// or creates the store directory with one btree-indexed column, whose
/// iteration order is ascending byte order of keys.
#[verifier::external_body]
fn db_open(path: &str) -> (r: Result<DbHandle, parity_db::Error>)
    ensures
        r matches Ok(h) ==> db_sorted(db_seq(h)),
{
    let mut opts = parity_db::Options::with_columns(std::path::Path::new(path), 1);
    opts.columns[0].btree_index = true;
    match parity_db::Db::open_or_create(&opts) {
        Ok(db) => Ok(DbHandle { db }),
        Err(e) => Err(e),
    }
}

/// Relies on parity_db::Db::commit: a single-entry batch with a `Some`
/// value inserts or overwrites that key; the btree keeps keys in ascending
/// order either way. A failed commit leaves the contents untouched: every
/// error path runs before the overlay write, and copying a set operation
/// into the overlay cannot fail.
#[verifier::external_body]
fn db_put(h: &mut DbHandle, key: &Vec<u8>, value: &Vec<u8>) -> (r: Result<(), parity_db::Error>)
    ensures
        r is Ok ==> db_seq(*final(h)) == kv_insert(db_seq(*old(h)), key@, value@),
        r is Err ==> db_seq(*final(h)) == db_seq(*old(h)),
        db_sorted(db_seq(*old(h))) ==> db_sorted(db_seq(*final(h))),
{
    let batch: Vec<(u8, Vec<u8>, Option<Vec<u8>>)> =
        vec![(0, key.clone(), Some(value.clone()))];
    h.db.commit(batch)
}

/// Relies on parity_db::Db::commit: a batch of `None` values deletes those
/// keys; other entries and their order are untouched. A failed commit
/// leaves the contents untouched: every error path runs before the overlay
/// write, and copying a dereference into the overlay cannot fail.
#[verifier::external_body]
fn db_delete_batch(h: &mut DbHandle, keys: &Vec<Vec<u8>>) -> (r: Result<(), parity_db::Error>)
    ensures
        r is Ok ==> db_seq(*final(h)) == remove_keys(db_seq(*old(h)), key_views(keys@)),
        r is Err ==> db_seq(*final(h)) == db_seq(*old(h)),
        db_sorted(db_seq(*old(h))) ==> db_sorted(db_seq(*final(h))),
{
    let mut batch: Vec<(u8, Vec<u8>, Option<Vec<u8>>)> = Vec::new();
    for k in keys {
        batch.push((0, k.clone(), None));
    }
    h.db.commit(batch)
}

/// Relies on parity_db::Db::iter and BTreeIterator::{seek, next}: seek
/// positions the iterator inclusively, and next() then yields the entries
/// whose key is at or after the sought key, in ascending key order.
#[verifier::external_body]
fn db_scan_from(h: &DbHandle, start: &Vec<u8>, max: usize) -> (r: Result<
    Vec<(Vec<u8>, Vec<u8>)>,
    parity_db::Error,
>)
    ensures
        r matches Ok(v) ==> entry_views(v@) == scan_spec(db_seq(*h), start@, max as nat),
{
    let mut it = h.db.iter(0)?;
    it.seek(start)?;
    let mut out: Vec<(Vec<u8>, Vec<u8>)> = Vec::new();
    while out.len() < max {
        match it.next()? {
            Some((k, v)) => out.push((k, v)),
            None => break,
        }
    }
    Ok(out)
}

/// Relies on parity_db::Db::iter and BTreeIterator::{seek, next}: as
/// [`db_scan_from`], but reads to the end of the column.
#[verifier::external_body]
fn db_scan_all(h: &DbHandle, start: &Vec<u8>) -> (r: Result<
    Vec<(Vec<u8>, Vec<u8>)>,
    parity_db::Error,
>)
    ensures
        r matches Ok(v) ==> entry_views(v@) == entries_from(db_seq(*h), start@),
{
    let mut it = h.db.iter(0)?;
    it.seek(start)?;
    let mut out: Vec<(Vec<u8>, Vec<u8>)> = Vec::new();
    while let Some((k, v)) = it.next()? {
        out.push((k, v));
    }
    Ok(out)
}

// ---------------------------------------------------------------------
// The trusted layer over base64
// ---------------------------------------------------------------------
/// The URL-safe, unpadded base64 rendering of a byte string.
pub uninterp spec fn b64_of(bytes: Seq<u8>) -> Seq<char>;

/// Relies on base64::Engine::encode with the URL_SAFE_NO_PAD engine: the
/// result is a function of the input bytes alone.
#[verifier::external_body]
fn b64_encode(bytes: &Vec<u8>) -> (r: String)
    ensures
        r@ == b64_of(bytes@),
{
    base64::engine::general_purpose::URL_SAFE_NO_PAD.encode(bytes)
}

/// Relies on base64::Engine::decode with the URL_SAFE_NO_PAD engine: it
/// accepts exactly the canonical encodings (non-canonical trailing bits or
/// padding are errors), so decoding succeeds precisely on `b64_of` images
/// and inverts it there.
#[verifier::external_body]
fn b64_decode(s: &str) -> (r: Option<Vec<u8>>)
    ensures
        r matches Some(v) ==> s@ == b64_of(v@),
        r matches Some(v) ==> forall|b: Seq<u8>| s@ == #[trigger] b64_of(b) ==> v@ == b,
        r is None ==> forall|b: Seq<u8>| s@ != #[trigger] b64_of(b),
{
    match base64::engine::general_purpose::URL_SAFE_NO_PAD.decode(s) {
        Ok(v) => Some(v),
        Err(_) => None,
    }
}

// ---------------------------------------------------------------------
// Errors
// ---------------------------------------------------------------------
/// Errors from the trade log.
#[derive(Debug)]
pub enum StoreError {
    /// The backing key-value store failed; the in-memory book state is not
    /// rewound, so callers must treat this as operator-visible.
    Backend(parity_db::Error),
    /// A stored value was not the encoding of a trade.
    Corrupt,
    /// An opaque cursor was malformed, of the wrong version, or does not
    /// identify an existing key for the requested symbol.
    BadCursor,
}


pub type StoreResult<T> = Result<T, StoreError>;

// ---------------------------------------------------------------------
// The store
// ---------------------------------------------------------------------
/// A parity-db-backed store of trades.
///
/// Key layout (big-endian throughout, so lexicographic order is numeric
/// order): `symbol ":" ts_nanos(u128) maker_id(u128) taker_id(u128)
/// price(u64) quantity(u64)`. This keeps each symbol's trades
/// chronologically ordered under its prefix, with deterministic
/// tie-breakers for colliding timestamps.
pub struct Store {
    db: DbHandle,
}

impl Store {
    /// The entries of the log, in ascending key order.
    pub closed spec fn entries(&self) -> Seq<(Seq<u8>, Seq<u8>)> {
        db_seq(self.db)
    }

    pub open spec fn wf(&self) -> bool {
        db_sorted(self.entries())
    }

    /// Open (or create) the store at `path`, with a single btree-indexed
    /// column.
    pub fn open(path: &str) -> (r: StoreResult<Store>)
        ensures
            r matches Ok(s) ==> s.wf(),
            r matches Err(e) ==> e is Backend,
    {
        match db_open(path) {
            Ok(db) => Ok(Store { db }),
            Err(e) => Err(StoreError::Backend(e)),
        }
    }

    /// Persist a trade under its composite key. Identical records overwrite
    /// in place, so the operation is idempotent.
    pub fn insert_trade(&mut self, trade: &Trade) -> (r: StoreResult<()>)
        requires
            old(self).wf(),
        ensures
            final(self).wf(),
            r is Ok ==> final(self).entries() == kv_insert(
                old(self).entries(),
                trade_key_of(*trade),
                trade_value(*trade),
            ),
            r is Ok && crate::store_laws::entries_consistent(old(self).entries())
                ==> crate::store_laws::entries_consistent(final(self).entries()),
            r matches Err(e) ==> e is Backend,
            r is Err ==> final(self).entries() == old(self).entries(),
    {
        let key = encode_trade_key(trade);
        let value = encode_trade_value(trade);
        match db_put(&mut self.db, &key, &value) {
            Ok(_) => {
                proof {
                    if crate::store_laws::entries_consistent(old(self).entries()) {
                        crate::store_laws::lemma_insert_consistent(old(self).entries(), *trade);
                    }
                }
                Ok(())
            },
            Err(e) => Err(StoreError::Backend(e)),
        }
    }

    /// Every trade in the store, in key order.
    pub fn iter_trades(&self) -> (r: StoreResult<Vec<Trade>>)
        requires
            self.wf(),
        ensures
            r matches Ok(v) ==> {
                &&& v@.len() == self.entries().len()
                &&& forall|j: int|
                    0 <= j < v@.len() ==> (#[trigger] self.entries()[j]).1 == trade_value(v@[j])
            },
            r matches Err(e) ==> e is Backend || (e is Corrupt && exists|j: int|
                0 <= j < self.entries().len() && decoded_trade(
                    (#[trigger] self.entries()[j]).1,
                ) is None),
    {
        let empty_key: Vec<u8> = Vec::new();
        let raw = match db_scan_all(&self.db, &empty_key) {
            Ok(raw) => raw,
            Err(e) => {
                return Err(StoreError::Backend(e));
            },
        };
        proof {
            lemma_entries_from_empty_start(self.entries());
            assert(entry_views(raw@) =~= self.entries());
        }
        let mut out: Vec<Trade> = Vec::new();
        let mut j: usize = 0;
        while j < raw.len()
            invariant
                0 <= j <= raw@.len(),
                entry_views(raw@) == self.entries(),
                out@.len() == j,
                forall|i: int|
                    0 <= i < j ==> (#[trigger] self.entries()[i]).1 == trade_value(out@[i]),
            decreases raw@.len() - j,
        {
            proof {
                assert(entry_view(raw@[j as int]) == self.entries()[j as int]);
            }
            match crate::codec::decode_trade_value(&raw[j].1) {
                Some(t) => out.push(t),
                None => {
                    proof {
                        assert(decoded_trade(self.entries()[j as int].1) is None) by {
                            if exists|t: Trade| self.entries()[j as int].1 == trade_value(t) {
                                let t = choose|t: Trade|
                                    self.entries()[j as int].1 == trade_value(t);
                            }
                        }
                    }
                    return Err(StoreError::Corrupt);
                },
            }
            j += 1;
        }
        Ok(out)
    }

    /// Page forward through one symbol's trades in chronological order,
    /// starting strictly after the entry `after` points at (or at the
    /// beginning when `after` is absent).
    ///
    /// Returns up to `limit` trades and, when at least one more entry
    /// follows a non-empty page, the opaque cursor of the last returned
    /// trade. Fails with `BadCursor` exactly when the cursor is malformed,
    /// not of version 1, or does not name a key persisted for this symbol.
    pub fn page_trade_asc(&self, symbol: &Pair, after: Option<&str>, limit: usize) -> (r:
        StoreResult<(Vec<Trade>, Option<String>)>)
        requires
            self.wf(),
            limit < usize::MAX - 1,
        ensures
            ({
                let db = self.entries();
                let pfx = key_prefix(*symbol);
                let s = sym_entries(db, pfx);
                match after {
                    None => {
                        &&& !(r matches Err(e) && e is BadCursor)
                        &&& (r matches Err(e) && e is Corrupt ==> exists|j: int|
                            0 <= j < s.len() && decoded_trade((#[trigger] s[j]).1) is None)
                        &&& (r matches Ok(page) ==> spec_page_window(
                            s,
                            limit as int,
                            page.0@,
                            page.1,
                        ))
                    },
                    Some(astr) => {
                        &&& ((forall|c: Cursor| astr@ != #[trigger] b64_of(cursor_bytes(c))) ==> (
                        r matches Err(e) && e is BadCursor))
                        &&& (forall|c: Cursor|
                            astr@ == #[trigger] b64_of(cursor_bytes(c)) ==> {
                                let k = trade_key(
                                    *symbol,
                                    c.ts_nanos,
                                    c.maker_id,
                                    c.taker_id,
                                    c.price,
                                    c.quantity,
                                );
                                &&& (c.v != 1 ==> (r matches Err(e) && e is BadCursor))
                                &&& (c.v == 1 ==> {
                                    &&& (!db_contains_key(db, k) && !(r matches Err(e)
                                        && e is Backend) ==> (r matches Err(e) && e is BadCursor))
                                    &&& (db_contains_key(db, k) ==> !(r matches Err(e)
                                        && e is BadCursor))
                                    &&& (r matches Ok(page) ==> db_contains_key(db, k)
                                        && spec_page_window(
                                        s.skip(key_index(s, k) + 1),
                                        limit as int,
                                        page.0@,
                                        page.1,
                                    ))
                                })
                            })
                        &&& (r matches Err(e) && e is Corrupt ==> exists|j: int|
                            0 <= j < s.len() && decoded_trade((#[trigger] s[j]).1) is None)
                    },
                }
            }),
    {
        let ghost db = self.entries();
        let ghost pfx = key_prefix(*symbol);
        let ghost s = sym_entries(db, pfx);
        let pfx_v = encode_prefix(symbol);
        match after {
            None => {
                let raw = match db_scan_from(&self.db, &pfx_v, limit + 1) {
                    Ok(x) => x,
                    Err(e) => {
                        return Err(StoreError::Backend(e));
                    },
                };
                proof {
                    lemma_entries_from_sorted(db, pfx);
                    lemma_sym_entries_from_prefix(db, pfx);
                    let e = entries_from(db, pfx);
                    let m = first_ge(db, pfx);
                    assert(e == db.skip(m));
                    assert forall|i: int, j: int| 0 <= i < j < e.len() implies lex_lt(
                        (#[trigger] e[i]).0,
                        (#[trigger] e[j]).0,
                    ) by {
                        assert(e[i] == db[m + i] && e[j] == db[m + j]);
                    }
                    lemma_entries_from_ge(db, pfx);
                    lemma_sym_run(e, pfx);
                    lemma_sym_entries_elements(db, pfx);
                    let c = if limit as int + 1 < e.len() {
                        limit as int + 1
                    } else {
                        e.len() as int
                    };
                    assert(entry_views(raw@) == e.take(c));
                    assert(raw@.len() == c);
                    assert forall|j: int| 0 <= j < raw@.len() implies {
                        let ev = entry_view(#[trigger] raw@[j]);
                        &&& (j < s.len() ==> ev == s[j])
                        &&& (j >= s.len() ==> !has_prefix(ev.0, pfx))
                    } by {
                        assert(entry_views(raw@)[j]
                            == entry_view(raw@[j]));
                        assert(entry_view(raw@[j]) == e.take(c)[j]);
                        assert(e.take(c)[j] == e[j]);
                        if j < s.len() {
                            assert(s[j] == e.take(s.len() as int)[j]);
                        }
                    }
                }
                collect_page(&raw, 0, &pfx_v, limit, Ghost(s))
            },
            Some(astr) => {
                let bytes = match b64_decode(astr) {
                    Some(b) => b,
                    None => {
                        proof {
                            assert forall|c: Cursor| astr@ != #[trigger] b64_of(
                                cursor_bytes(c),
                            ) by {}
                        }
                        return Err(StoreError::BadCursor);
                    },
                };
                let cur = match decode_cursor_bytes(&bytes) {
                    Some(c) => c,
                    None => {
                        proof {
                            assert forall|c: Cursor| astr@ != #[trigger] b64_of(
                                cursor_bytes(c),
                            ) by {
                                if astr@ == b64_of(cursor_bytes(c)) {
                                    assert(bytes@ == cursor_bytes(c));
                                }
                            }
                        }
                        return Err(StoreError::BadCursor);
                    },
                };
                proof {
                    // every cursor the wire string denotes is this one
                    assert(astr@ == b64_of(cursor_bytes(cur)));
                    assert forall|c: Cursor| astr@ == #[trigger] b64_of(cursor_bytes(c)) implies c
                        == cur by {
                        assert(bytes@ == cursor_bytes(c));
                        crate::codec::lemma_cursor_bytes_injective(c, cur);
                    }
                }
                if cur.v != 1 {
                    return Err(StoreError::BadCursor);
                }
                let k = encode_key_fields(
                    symbol,
                    cur.ts_nanos,
                    cur.maker_id,
                    cur.taker_id,
                    cur.price,
                    cur.quantity,
                );
                let raw = match db_scan_from(&self.db, &k, limit + 2) {
                    Ok(x) => x,
                    Err(e) => {
                        return Err(StoreError::Backend(e));
                    },
                };
                proof {
                    lemma_entries_from_sorted(db, k@);
                }
                let ghost ek = entries_from(db, k@);
                let ghost m = first_ge(db, k@);
                proof {
                    let c = if limit as int + 2 < ek.len() {
                        limit as int + 2
                    } else {
                        ek.len() as int
                    };
                    assert(entry_views(raw@) == ek.take(c));
                    assert(raw@.len() == c);
                    if db_contains_key(db, k@) {
                        let i = choose|i: int| 0 <= i < db.len() && (#[trigger] db[i]).0 == k@;
                        crate::lex::lemma_lex_irrefl(k@);
                        assert(i >= m);
                        if i > m {
                            assert(lex_lt(db[m].0, db[i].0));
                            crate::lex::lemma_lex_asym(db[m].0, k@);
                        }
                        assert(db[m].0 == k@);
                        assert(ek[0] == db[m]);
                        assert(entry_views(raw@)[0]
                            == entry_view(raw@[0]));
                        assert(ek.take(c)[0] == ek[0]);
                        assert(raw@.len() > 0 && entry_view(raw@[0]).0 == k@);
                    }
                }
                if raw.len() == 0 {
                    proof {
                        assert(!db_contains_key(db, k@));
                    }
                    return Err(StoreError::BadCursor);
                }
                if !bytes_eq(&raw[0].0, &k) {
                    proof {
                        assert(entry_view(raw@[0]).0 == raw@[0].0@);
                        assert(!db_contains_key(db, k@));
                    }
                    return Err(StoreError::BadCursor);
                }
                proof {
                    // the exact key exists: position the window just after it
                    assert(entry_view(raw@[0]) == ek.take(
                        if limit as int + 2 < ek.len() {
                            limit as int + 2
                        } else {
                            ek.len() as int
                        },
                    )[0]);
                    assert(ek[0].0 == k@);
                    assert(m < db.len() && db[m] == ek[0]) by {
                        assert(ek == db.skip(m));
                    }
                    assert(db_contains_key(db, k@));
                }
                proof {
                    lemma_page_cursor_position(db, pfx, k@, *symbol, cur);
                }
                let ghost q = key_index(s, k@);
                let ghost w = s.skip(q + 1);
                proof {
                    let c = if limit as int + 2 < ek.len() {
                        limit as int + 2
                    } else {
                        ek.len() as int
                    };
                    assert(entry_views(raw@) == ek.take(c));
                    assert(raw@.len() == c);
                    assert(w == ek.skip(1).take(w.len() as int));
                    assert(w.len() <= ek.skip(1).len()) by {
                        lemma_sym_entries_len(ek.skip(1), pfx);
                    }
                    // w entries are prefixed
                    lemma_sym_entries_elements(db, pfx);
                    lemma_key_index(s, k@);
                    assert forall|j: int| 0 <= j < w.len() implies has_prefix(
                        (#[trigger] w[j]).0,
                        pfx,
                    ) by {
                        assert(w[j] == s[q + 1 + j]);
                    }
                    // raw beyond the first entry tracks the window
                    assert forall|j: int| 0 <= j < raw@.len() - 1 implies {
                        let ev = entry_view(#[trigger] raw@[1 + j]);
                        &&& (j < w.len() ==> ev == w[j])
                        &&& (j >= w.len() ==> !has_prefix(ev.0, pfx))
                    } by {
                        assert(entry_views(raw@)[1 + j]
                            == entry_view(raw@[1 + j]));
                        assert(entry_view(raw@[1 + j]) == ek.take(c)[1 + j]);
                        assert(ek.take(c)[1 + j] == ek[1 + j]);
                        assert(ek[1 + j] == ek.skip(1)[j]);
                        if j < w.len() {
                            assert(w[j] == ek.skip(1).take(w.len() as int)[j]);
                        }
                    }
                    // and covers at least min(limit + 1, w.len()) of it
                    lemma_sym_entries_len(ek.skip(1), pfx);
                    assert(w.len() <= ek.skip(1).len());
                    assert(raw@.len() - 1 >= (if w.len() < limit + 1 {
                        w.len() as int
                    } else {
                        limit + 1
                    }));
                }
                match collect_page(&raw, 1, &pfx_v, limit, Ghost(w)) {
                    Ok(page) => Ok(page),
                    Err(e) => {
                        proof {
                            if e is Corrupt {
                                let j = choose|j: int|
                                    0 <= j < w.len() && decoded_trade((#[trigger] w[j]).1) is None;
                                assert(w[j] == s[q + 1 + j]);
                                assert(0 <= q + 1 + j < s.len());
                            }
                        }
                        Err(e)
                    },
                }
            },
        }
    }

    /// Delete every trade stored for this symbol.
    pub fn delete_trades(&mut self, symbol: &Pair) -> (r: StoreResult<()>)
        requires
            old(self).wf(),
        ensures
            final(self).wf(),
            r is Ok ==> final(self).entries() == non_sym_entries(
                old(self).entries(),
                key_prefix(*symbol),
            ),
            r matches Err(e) ==> e is Backend,
            r is Err ==> final(self).entries() == old(self).entries(),
    {
        let ghost db = self.entries();
        let ghost pfx = key_prefix(*symbol);
        let ghost s = sym_entries(db, pfx);
        let pfx_v = encode_prefix(symbol);
        let raw = match db_scan_all(&self.db, &pfx_v) {
            Ok(x) => x,
            Err(e) => {
                return Err(StoreError::Backend(e));
            },
        };
        proof {
            lemma_entries_from_sorted(db, pfx);
            lemma_sym_entries_from_prefix(db, pfx);
            let e = entries_from(db, pfx);
            let m = first_ge(db, pfx);
            assert forall|i: int, j: int| 0 <= i < j < e.len() implies lex_lt(
                (#[trigger] e[i]).0,
                (#[trigger] e[j]).0,
            ) by {
                assert(e[i] == db[m + i] && e[j] == db[m + j]);
            }
            lemma_entries_from_ge(db, pfx);
            lemma_sym_run(e, pfx);
        }
        let mut keys: Vec<Vec<u8>> = Vec::new();
        let rlen = raw.len();
        let mut j: usize = 0;
        while j < raw.len() && bytes_has_prefix(&raw[j].0, &pfx_v)
            invariant
                raw@.len() == rlen,
                0 <= j <= raw@.len(),
                j <= s.len(),
                pfx_v@ == pfx,
                entry_views(raw@) == entries_from(db, pfx),
                s == entries_from(db, pfx).take(s.len() as int),
                s.len() <= entries_from(db, pfx).len(),
                forall|i: int|
                    s.len() <= i < entries_from(db, pfx).len() ==> !has_prefix(
                        (#[trigger] entries_from(db, pfx)[i]).0,
                        pfx,
                    ),
                keys@.len() == j,
                forall|i: int| 0 <= i < j ==> (#[trigger] keys@[i])@ == s[i].0,
            decreases raw@.len() - j,
        {
            proof {
                assert(entry_views(raw@)[j as int]
                    == entry_view(raw@[j as int]));
                assert(entry_view(raw@[j as int]) == entries_from(db, pfx)[j as int]);
                if j >= s.len() {
                    assert(!has_prefix(entry_view(raw@[j as int]).0, pfx));
                    assert(false);
                }
                assert(s[j as int] == entries_from(db, pfx).take(s.len() as int)[j as int]);
            }
            let key = raw[j].0.clone();
            keys.push(key);
            j += 1;
        }
        proof {
            // the walk reached the end of the symbol's run
            assert(j == s.len()) by {
                lemma_sym_entries_elements(db, pfx);
                if (j as int) < s.len() {
                    assert(has_prefix(s[j as int].0, pfx));
                    assert(s[j as int] == entries_from(db, pfx).take(s.len() as int)[j as int]);
                    assert(entry_views(raw@)[j as int] == entry_view(raw@[j as int]));
                    assert(entry_view(raw@[j as int]) == entries_from(db, pfx)[j as int]);
                    assert(raw@.len() == entries_from(db, pfx).len());
                    assert(has_prefix(raw@[j as int].0@, pfx));
                    assert(false);
                }
            }
            let ks = key_views(keys@);
            lemma_sym_entries_elements(db, pfx);
            assert forall|i: int| 0 <= i < db.len() implies (ks.contains((#[trigger] db[i]).0)
                <==> has_prefix(db[i].0, pfx)) by {
                if has_prefix(db[i].0, pfx) {
                    assert(s.contains(db[i]));
                    let x = choose|x: int| 0 <= x < s.len() && s[x] == db[i];
                    assert(ks[x] == s[x].0);
                }
                if ks.contains(db[i].0) {
                    let x = choose|x: int| 0 <= x < ks.len() && ks[x] == db[i].0;
                    assert(keys@[x]@ == s[x].0);
                    assert(has_prefix(s[x].0, pfx));
                }
            }
            lemma_remove_sym_keys(db, pfx, ks);
        }
        match db_delete_batch(&mut self.db, &keys) {
            Ok(_) => Ok(()),
            Err(e) => Err(StoreError::Backend(e)),
        }
    }
}

/// Positioning a valid cursor: its key's position among the symbol's
/// entries is exactly the count of symbol entries strictly before it in
/// the log.
proof fn lemma_page_cursor_position(
    db: Seq<(Seq<u8>, Seq<u8>)>,
    pfx: Seq<u8>,
    k: Seq<u8>,
    sym: Pair,
    cur: Cursor,
)
    requires
        db_sorted(db),
        pfx == key_prefix(sym),
        k == trade_key(sym, cur.ts_nanos, cur.maker_id, cur.taker_id, cur.price, cur.quantity),
        db_contains_key(db, k),
    ensures
        ({
            let s = sym_entries(db, pfx);
            let q = key_index(s, k);
            let ek = entries_from(db, k);
            &&& 0 <= q < s.len()
            &&& s[q].0 == k
            &&& ek.len() > 0 && ek[0].0 == k
            &&& s.skip(q + 1) == sym_entries(ek.skip(1), pfx)
            &&& db_sorted(ek.skip(1))
            &&& forall|i: int| 0 <= i < ek.skip(1).len() ==> lex_le(pfx, (#[trigger] ek.skip(1)[i]).0)
            &&& s.skip(q + 1) == ek.skip(1).take(s.skip(q + 1).len() as int)
            &&& forall|i: int|
                s.skip(q + 1).len() <= i < ek.skip(1).len() ==> !has_prefix(
                    (#[trigger] ek.skip(1)[i]).0,
                    pfx,
                )
        }),
{
    let s = sym_entries(db, pfx);
    let ek = entries_from(db, k);
    let m = first_ge(db, k);
    lemma_entries_from_sorted(db, k);
    lemma_trade_key_prefixed(sym, cur.ts_nanos, cur.maker_id, cur.taker_id, cur.price, cur.quantity);
    // the first entry at or after k is k itself
    let i0 = choose|i: int| 0 <= i < db.len() && (#[trigger] db[i]).0 == k;
    crate::lex::lemma_lex_irrefl(k);
    assert(i0 >= m);
    if i0 > m {
        assert(lex_lt(db[m].0, db[i0].0));
        crate::lex::lemma_lex_asym(db[m].0, k);
    }
    assert(db[m].0 == k);
    assert(ek == db.skip(m));
    assert(ek[0] == db[m]);
    // split the log at m
    assert(db =~= db.take(m) + db.skip(m));
    lemma_sym_entries_concat(db.take(m), db.skip(m), pfx);
    let q: int = sym_entries(db.take(m), pfx).len() as int;
    lemma_sym_entries_len(db.take(m), pfx);
    // the head of the suffix is k itself, prefixed
    assert(sym_entries(ek, pfx) == seq![ek[0]] + sym_entries(ek.skip(1), pfx)) by {
        assert(has_prefix(ek[0].0, pfx));
    }
    assert(s == sym_entries(db.take(m), pfx) + sym_entries(ek, pfx));
    assert(s.len() == q + 1 + sym_entries(ek.skip(1), pfx).len());
    assert(s[q as int] == ek[0]);
    assert(s.skip(q + 1) =~= sym_entries(ek.skip(1), pfx)) by {
        assert forall|j: int| 0 <= j < s.len() - q - 1 implies s[q + 1 + j] == sym_entries(
            ek.skip(1),
            pfx,
        )[j] by {
            assert(s[q + 1 + j] == sym_entries(ek, pfx)[1 + j]);
            assert(sym_entries(ek, pfx)[1 + j] == sym_entries(ek.skip(1), pfx)[j]);
        }
    }
    // q is the first occurrence of k among the symbol's entries
    lemma_sym_entries_elements(db.take(m), pfx);
    lemma_key_index(s, k);
    assert forall|i: int| 0 <= i < q implies (#[trigger] s[i]).0 != k by {
        assert(s[i] == sym_entries(db.take(m), pfx)[i]);
        let x = choose|x: int|
            0 <= x < db.take(m).len() && (#[trigger] db.take(m)[x]) == sym_entries(db.take(m), pfx)[i];
        assert(db.take(m)[x] == db[x]);
        assert(lex_lt(db[x].0, k));
        crate::lex::lemma_lex_irrefl(k);
    }
    assert(key_index(s, k) == q) by {
        let ki = key_index(s, k);
        if ki < q {
            assert(s[ki].0 != k);
            assert(false);
        }
        if ki > q {
            assert(s[q as int].0 != k);
            assert(false);
        }
    }
    // the tail after k is sorted, sits at or after the prefix, and its
    // prefixed entries are its leading run
    assert forall|i: int, j: int| 0 <= i < j < ek.skip(1).len() implies lex_lt(
        (#[trigger] ek.skip(1)[i]).0,
        (#[trigger] ek.skip(1)[j]).0,
    ) by {
        assert(ek.skip(1)[i] == db[m + 1 + i] && ek.skip(1)[j] == db[m + 1 + j]);
    }
    assert forall|i: int| 0 <= i < ek.skip(1).len() implies lex_le(
        pfx,
        (#[trigger] ek.skip(1)[i]).0,
    ) by {
        assert(ek.skip(1)[i] == db[m + 1 + i]);
        assert(lex_lt(db[m].0, db[m + 1 + i].0));
        crate::lex::lemma_prefix_le(pfx, k);
        if pfx == k {
        } else {
            crate::lex::lemma_lex_trans(pfx, k, db[m + 1 + i].0);
        }
    }
    lemma_sym_run(ek.skip(1), pfx);
}

/// Removing exactly the keys that carry a prefix leaves exactly the
/// entries that do not.
proof fn lemma_remove_sym_keys(s: Seq<(Seq<u8>, Seq<u8>)>, p: Seq<u8>, ks: Seq<Seq<u8>>)
    requires
        forall|i: int|
            0 <= i < s.len() ==> (ks.contains((#[trigger] s[i]).0) <==> has_prefix(s[i].0, p)),
    ensures
        remove_keys(s, ks) == non_sym_entries(s, p),
    decreases s.len(),
{
    if s.len() > 0 {
        assert forall|i: int| 0 <= i < s.skip(1).len() implies (ks.contains(
            (#[trigger] s.skip(1)[i]).0,
        ) <==> has_prefix(s.skip(1)[i].0, p)) by {
            assert(s.skip(1)[i] == s[i + 1]);
        }
        lemma_remove_sym_keys(s.skip(1), p, ks);
    }
}

/// Elements of `entries_from` are at or after `start`.
pub proof fn lemma_entries_from_ge(s: Seq<(Seq<u8>, Seq<u8>)>, start: Seq<u8>)
    ensures
        forall|j: int|
            0 <= j < entries_from(s, start).len() ==> lex_le(
                start,
                (#[trigger] entries_from(s, start)[j]).0,
            ),
    decreases s.len(),
{
    if s.len() > 0 {
        lemma_entries_from_ge(s.skip(1), start);
        if lex_le(start, s[0].0) {
            assert forall|j: int| 0 <= j < entries_from(s, start).len() implies lex_le(
                start,
                (#[trigger] entries_from(s, start)[j]).0,
            ) by {
                if j > 0 {
                    assert(entries_from(s, start)[j] == entries_from(s.skip(1), start)[j - 1]);
                }
            }
        } else {
            assert forall|j: int| 0 <= j < entries_from(s, start).len() implies lex_le(
                start,
                (#[trigger] entries_from(s, start)[j]).0,
            ) by {
                assert(entries_from(s, start)[j] == entries_from(s.skip(1), start)[j]);
            }
        }
    }
}

/// A side's slice is never longer than the log.
pub proof fn lemma_sym_entries_len(s: Seq<(Seq<u8>, Seq<u8>)>, p: Seq<u8>)
    ensures
        sym_entries(s, p).len() <= s.len(),
    decreases s.len(),
{
    if s.len() > 0 {
        lemma_sym_entries_len(s.skip(1), p);
    }
}

/// When every key passes the bound, the scan is the whole sequence.
pub proof fn lemma_entries_from_all(s: Seq<(Seq<u8>, Seq<u8>)>, start: Seq<u8>)
    requires
        forall|i: int| 0 <= i < s.len() ==> lex_le(start, (#[trigger] s[i]).0),
    ensures
        entries_from(s, start) == s,
    decreases s.len(),
{
    if s.len() > 0 {
        assert forall|i: int| 0 <= i < s.skip(1).len() implies lex_le(
            start,
            (#[trigger] s.skip(1)[i]).0,
        ) by {
            assert(s.skip(1)[i] == s[i + 1]);
        }
        lemma_entries_from_all(s.skip(1), start);
        assert(entries_from(s, start) =~= s);
    }
}

/// On a sorted sequence the scan is exactly the suffix from [`first_ge`].
pub proof fn lemma_entries_from_sorted(s: Seq<(Seq<u8>, Seq<u8>)>, k: Seq<u8>)
    requires
        db_sorted(s),
    ensures
        0 <= first_ge(s, k) <= s.len(),
        forall|i: int| 0 <= i < first_ge(s, k) ==> lex_lt((#[trigger] s[i]).0, k),
        first_ge(s, k) < s.len() ==> lex_le(k, s[first_ge(s, k)].0),
        entries_from(s, k) == s.skip(first_ge(s, k)),
    decreases s.len(),
{
    if s.len() > 0 {
        assert forall|i: int, j: int| 0 <= i < j < s.skip(1).len() implies lex_lt(
            (#[trigger] s.skip(1)[i]).0,
            (#[trigger] s.skip(1)[j]).0,
        ) by {
            assert(s.skip(1)[i] == s[i + 1] && s.skip(1)[j] == s[j + 1]);
        }
        if lex_le(k, s[0].0) {
            assert forall|i: int| 0 <= i < s.len() implies lex_le(k, (#[trigger] s[i]).0) by {
                if i > 0 {
                    assert(lex_lt(s[0].0, s[i].0));
                    if k == s[0].0 {
                    } else {
                        crate::lex::lemma_lex_trans(k, s[0].0, s[i].0);
                    }
                }
            }
            lemma_entries_from_all(s, k);
            assert(entries_from(s, k) =~= s.skip(0));
        } else {
            lemma_entries_from_sorted(s.skip(1), k);
            assert forall|i: int| 0 <= i < first_ge(s, k) implies lex_lt(
                (#[trigger] s[i]).0,
                k,
            ) by {
                if i == 0 {
                    crate::lex::lemma_lex_total(k, s[0].0);
                } else {
                    assert(s.skip(1)[i - 1] == s[i]);
                }
            }
            assert(s.skip(1).skip(first_ge(s.skip(1), k)) =~= s.skip(first_ge(s, k)));
            if first_ge(s, k) < s.len() {
                assert(s[first_ge(s, k)] == s.skip(1)[first_ge(s.skip(1), k)]);
            }
        }
    }
}

/// Filtering a concatenation filters the parts.
pub proof fn lemma_sym_entries_concat(a: Seq<(Seq<u8>, Seq<u8>)>, b: Seq<(Seq<u8>, Seq<u8>)>, p: Seq<u8>)
    ensures
        sym_entries(a + b, p) == sym_entries(a, p) + sym_entries(b, p),
    decreases a.len(),
{
    if a.len() == 0 {
        assert(a + b =~= b);
        assert(sym_entries(a, p) + sym_entries(b, p) =~= sym_entries(b, p));
    } else {
        lemma_sym_entries_concat(a.skip(1), b, p);
        assert((a + b).skip(1) =~= a.skip(1) + b);
        assert((a + b)[0] == a[0]);
        if has_prefix(a[0].0, p) {
            assert(sym_entries(a + b, p) =~= sym_entries(a, p) + sym_entries(b, p));
        }
    }
}

/// Every element of `sym_entries` is an element of `s` and carries the
/// prefix; and every prefixed element of `s` appears in it.
pub proof fn lemma_sym_entries_elements(s: Seq<(Seq<u8>, Seq<u8>)>, p: Seq<u8>)
    ensures
        forall|j: int|
            0 <= j < sym_entries(s, p).len() ==> has_prefix(
                (#[trigger] sym_entries(s, p)[j]).0,
                p,
            ) && exists|i: int| 0 <= i < s.len() && (#[trigger] s[i]) == sym_entries(s, p)[j],
        forall|i: int|
            0 <= i < s.len() && has_prefix((#[trigger] s[i]).0, p) ==> sym_entries(s, p).contains(
                s[i],
            ),
    decreases s.len(),
{
    if s.len() > 0 {
        lemma_sym_entries_elements(s.skip(1), p);
        let r = sym_entries(s, p);
        assert forall|j: int| 0 <= j < r.len() implies has_prefix((#[trigger] r[j]).0, p) && exists|
            i: int,
        | 0 <= i < s.len() && (#[trigger] s[i]) == r[j] by {
            if has_prefix(s[0].0, p) && j == 0 {
                assert(s[0] == r[0]);
            } else {
                let jj = if has_prefix(s[0].0, p) {
                    j - 1
                } else {
                    j
                };
                assert(r[j] == sym_entries(s.skip(1), p)[jj]);
                let i = choose|i: int|
                    0 <= i < s.skip(1).len() && (#[trigger] s.skip(1)[i]) == sym_entries(
                        s.skip(1),
                        p,
                    )[jj];
                assert(s[i + 1] == r[j]);
            }
        }
        assert forall|i: int| 0 <= i < s.len() && has_prefix((#[trigger] s[i]).0, p) implies r
            .contains(s[i]) by {
            if i == 0 {
                assert(r[0] == s[0]);
            } else {
                assert(s.skip(1)[i - 1] == s[i]);
                assert(sym_entries(s.skip(1), p).contains(s[i]));
                let j = choose|j: int|
                    0 <= j < sym_entries(s.skip(1), p).len() && sym_entries(s.skip(1), p)[j] == s[i];
                let off = if has_prefix(s[0].0, p) {
                    1int
                } else {
                    0int
                };
                assert(r[j + off] == s[i]);
            }
        }
    }
}

/// In a sorted run whose keys all sit at or after the prefix, the prefixed
/// entries are exactly the leading run.
pub proof fn lemma_sym_run(e: Seq<(Seq<u8>, Seq<u8>)>, p: Seq<u8>)
    requires
        db_sorted(e),
        forall|i: int| 0 <= i < e.len() ==> lex_le(p, (#[trigger] e[i]).0),
    ensures
        sym_entries(e, p).len() <= e.len(),
        sym_entries(e, p) == e.take(sym_entries(e, p).len() as int),
        forall|j: int|
            sym_entries(e, p).len() <= j < e.len() ==> !has_prefix((#[trigger] e[j]).0, p),
    decreases e.len(),
{
    lemma_sym_entries_len(e, p);
    if e.len() > 0 {
        assert forall|i: int, j: int| 0 <= i < j < e.skip(1).len() implies lex_lt(
            (#[trigger] e.skip(1)[i]).0,
            (#[trigger] e.skip(1)[j]).0,
        ) by {
            assert(e.skip(1)[i] == e[i + 1] && e.skip(1)[j] == e[j + 1]);
        }
        assert forall|i: int| 0 <= i < e.skip(1).len() implies lex_le(
            p,
            (#[trigger] e.skip(1)[i]).0,
        ) by {
            assert(e.skip(1)[i] == e[i + 1]);
        }
        lemma_sym_run(e.skip(1), p);
        let r = sym_entries(e, p);
        let r1 = sym_entries(e.skip(1), p);
        if has_prefix(e[0].0, p) {
            assert(r == seq![e[0]] + r1);
            assert(r.len() == r1.len() + 1);
            assert forall|j: int| 0 <= j < r.len() implies r[j] == e.take(r.len() as int)[j] by {
                if j > 0 {
                    assert(r[j] == r1[j - 1]);
                    assert(r1[j - 1] == e.skip(1).take(r1.len() as int)[j - 1]);
                    assert(e.skip(1).take(r1.len() as int)[j - 1] == e.skip(1)[j - 1]);
                    assert(e.skip(1)[j - 1] == e[j]);
                }
            }
            assert(r =~= e.take(r.len() as int));
            assert forall|j: int| r.len() <= j < e.len() implies !has_prefix(
                (#[trigger] e[j]).0,
                p,
            ) by {
                assert(e.skip(1)[j - 1] == e[j]);
                assert(r1.len() <= j - 1 < e.skip(1).len());
            }
        } else {
            // nothing later carries the prefix either: it would sort before
            // this first, unprefixed key
            assert(r == r1);
            lemma_sym_entries_elements(e.skip(1), p);
            if r1.len() > 0 {
                let x = r1[0];
                assert(has_prefix(x.0, p));
                let i = choose|i: int| 0 <= i < e.skip(1).len() && (#[trigger] e.skip(1)[i]) == x;
                crate::lex::lemma_after_prefix_block(p, e[0].0, x.0);
                assert(e.skip(1)[i] == e[i + 1]);
                assert(lex_lt(e[0].0, e[i + 1].0));
                crate::lex::lemma_lex_asym(e[0].0, e[i + 1].0);
                assert(false);
            }
            assert(r =~= e.take(0));
            assert forall|j: int| r.len() <= j < e.len() implies !has_prefix(
                (#[trigger] e[j]).0,
                p,
            ) by {
                if j > 0 {
                    assert(e.skip(1)[j - 1] == e[j]);
                    assert(0 <= j - 1 < e.skip(1).len());
                }
            }
        }
    }
}

/// The prefixed entries at or after the prefix itself are all of them.
pub proof fn lemma_sym_entries_from_prefix(s: Seq<(Seq<u8>, Seq<u8>)>, p: Seq<u8>)
    ensures
        sym_entries(entries_from(s, p), p) == sym_entries(s, p),
    decreases s.len(),
{
    if s.len() > 0 {
        lemma_sym_entries_from_prefix(s.skip(1), p);
        if lex_le(p, s[0].0) {
            assert(entries_from(s, p) =~= seq![s[0]] + entries_from(s.skip(1), p));
            lemma_sym_entries_concat(seq![s[0]], entries_from(s.skip(1), p), p);
            assert(seq![s[0]].skip(1) =~= Seq::<(Seq<u8>, Seq<u8>)>::empty());
            assert(sym_entries(Seq::<(Seq<u8>, Seq<u8>)>::empty(), p) =~= Seq::<
                (Seq<u8>, Seq<u8>),
            >::empty());
            assert(sym_entries(seq![s[0]].skip(1), p) =~= Seq::<(Seq<u8>, Seq<u8>)>::empty());
            if has_prefix(s[0].0, p) {
                assert(sym_entries(seq![s[0]], p) =~= seq![s[0]]);
                assert(sym_entries(entries_from(s, p), p) =~= sym_entries(s, p));
            } else {
                assert(sym_entries(seq![s[0]], p) =~= Seq::<(Seq<u8>, Seq<u8>)>::empty());
                assert(sym_entries(entries_from(s, p), p) =~= sym_entries(s, p));
            }
        } else {
            if has_prefix(s[0].0, p) {
                crate::lex::lemma_prefix_le(p, s[0].0);
            }
        }
    }
}

/// First position of `s` holding key `k`, or `s.len()`.
pub open spec fn key_index(s: Seq<(Seq<u8>, Seq<u8>)>, k: Seq<u8>) -> int
    decreases s.len(),
{
    if s.len() == 0 {
        0
    } else if s[0].0 == k {
        0
    } else {
        1 + key_index(s.skip(1), k)
    }
}

pub proof fn lemma_key_index(s: Seq<(Seq<u8>, Seq<u8>)>, k: Seq<u8>)
    ensures
        0 <= key_index(s, k) <= s.len(),
        forall|j: int| 0 <= j < key_index(s, k) ==> (#[trigger] s[j]).0 != k,
        key_index(s, k) < s.len() ==> s[key_index(s, k)].0 == k,
        !db_contains_key(s, k) ==> key_index(s, k) == s.len(),
    decreases s.len(),
{
    if s.len() > 0 && s[0].0 != k {
        lemma_key_index(s.skip(1), k);
        assert forall|j: int| 0 <= j < key_index(s, k) implies (#[trigger] s[j]).0 != k by {
            if j > 0 {
                assert(s.skip(1)[j - 1] == s[j]);
            }
        }
        if key_index(s, k) < s.len() {
            if key_index(s.skip(1), k) < s.skip(1).len() {
                assert(s[key_index(s, k)] == s.skip(1)[key_index(s.skip(1), k)]);
            } else {
                assert(db_contains_key(s.skip(1), k)) by {
                    if !db_contains_key(s.skip(1), k) {
                    }
                }
            }
        }
        if !db_contains_key(s, k) {
            assert(!db_contains_key(s.skip(1), k)) by {
                if db_contains_key(s.skip(1), k) {
                    let i = choose|i: int|
                        0 <= i < s.skip(1).len() && (#[trigger] s.skip(1)[i]).0 == k;
                    assert(s[i + 1] == s.skip(1)[i]);
                }
            }
        }
    }
}

/// The trade a stored value denotes, if any.
pub open spec fn decoded_trade(v: Seq<u8>) -> Option<Trade> {
    if exists|t: Trade| v == trade_value(t) {
        Some(choose|t: Trade| v == trade_value(t))
    } else {
        None
    }
}

/// One page out of the remaining symbol entries `w`: the first
/// `min(limit, w.len())` trades, with a continuation cursor exactly when
/// more entries follow a non-empty page.
pub open spec fn spec_page_window(
    w: Seq<(Seq<u8>, Seq<u8>)>,
    limit: int,
    items: Seq<Trade>,
    next: Option<String>,
) -> bool {
    &&& items.len() == (if w.len() < limit {
        w.len() as int
    } else {
        limit
    })
    &&& forall|j: int| 0 <= j < items.len() ==> (#[trigger] w[j]).1 == trade_value(items[j])
    &&& match next {
        Some(ns) => w.len() > limit && limit > 0 && ns@ == b64_of(
            cursor_bytes(spec_cursor_of_trade(items.last())),
        ),
        None => !(w.len() > limit && limit > 0),
    }
}

/// Byte-for-byte equality of two byte vectors.
fn bytes_eq(a: &Vec<u8>, b: &Vec<u8>) -> (r: bool)
    ensures
        r == (a@ == b@),
{
    if a.len() != b.len() {
        return false;
    }
    let mut i: usize = 0;
    while i < a.len()
        invariant
            0 <= i <= a@.len(),
            a@.len() == b@.len(),
            forall|j: int| 0 <= j < i ==> a@[j] == b@[j],
        decreases a@.len() - i,
    {
        if a[i] != b[i] {
            return false;
        }
        i += 1;
    }
    proof {
        assert(a@ =~= b@);
    }
    true
}

/// Whether `k` starts with the bytes of `p`.
fn bytes_has_prefix(k: &Vec<u8>, p: &Vec<u8>) -> (r: bool)
    ensures
        r == has_prefix(k@, p@),
{
    if k.len() < p.len() {
        return false;
    }
    let mut i: usize = 0;
    while i < p.len()
        invariant
            0 <= i <= p@.len(),
            p@.len() <= k@.len(),
            forall|j: int| 0 <= j < i ==> k@[j] == p@[j],
        decreases p@.len() - i,
    {
        if k[i] != p[i] {
            proof {
                assert(k@.subrange(0, p@.len() as int)[i as int] == k@[i as int]);
            }
            return false;
        }
        i += 1;
    }
    proof {
        assert(k@.subrange(0, p@.len() as int) =~= p@);
    }
    true
}

/// Walk the scanned entries: collect up to `limit` decoded trades from the
/// window `w` of remaining symbol entries, detect whether more follow, and
/// build the continuation cursor.
fn collect_page(
    raw: &Vec<(Vec<u8>, Vec<u8>)>,
    skip0: usize,
    pfx_v: &Vec<u8>,
    limit: usize,
    Ghost(w): Ghost<Seq<(Seq<u8>, Seq<u8>)>>,
) -> (r: StoreResult<(Vec<Trade>, Option<String>)>)
    requires
        limit < usize::MAX - 1,
        skip0 <= raw@.len(),
        forall|j: int| 0 <= j < w.len() ==> has_prefix((#[trigger] w[j]).0, pfx_v@),
        forall|j: int|
            0 <= j < raw@.len() - skip0 ==> {
                let e = entry_view(#[trigger] raw@[skip0 + j]);
                &&& (j < w.len() ==> e == w[j])
                &&& (j >= w.len() ==> !has_prefix(e.0, pfx_v@))
            },
        raw@.len() - skip0 >= (if w.len() < limit + 1 {
            w.len() as int
        } else {
            limit + 1
        }),
    ensures
        r matches Ok(page) ==> spec_page_window(w, limit as int, page.0@, page.1),
        !(r matches Err(e) && (e is BadCursor || e is Backend)),
        r matches Err(e) && e is Corrupt ==> exists|j: int|
            0 <= j < w.len() && decoded_trade((#[trigger] w[j]).1) is None,
{
    let mut items: Vec<Trade> = Vec::new();
    let rlen = raw.len();
    let mut j: usize = 0;
    while skip0 + j < raw.len() && j < limit + 1 && bytes_has_prefix(&raw[skip0 + j].0, pfx_v)
        invariant
            limit < usize::MAX - 1,
            raw@.len() == rlen,
            skip0 + j <= raw@.len(),
            0 <= j <= limit + 1,
            j <= w.len(),
            items@.len() == (if j < limit {
                j as int
            } else {
                limit as int
            }),
            forall|i: int| 0 <= i < items@.len() ==> (#[trigger] w[i]).1 == trade_value(items@[i]),
            forall|i: int| 0 <= i < w.len() ==> has_prefix((#[trigger] w[i]).0, pfx_v@),
            forall|i: int|
                0 <= i < raw@.len() - skip0 ==> {
                    let e = entry_view(#[trigger] raw@[skip0 + i]);
                    &&& (i < w.len() ==> e == w[i])
                    &&& (i >= w.len() ==> !has_prefix(e.0, pfx_v@))
                },
        decreases raw@.len() - skip0 - j,
    {
        proof {
            // the entry is prefixed, so it is still inside the window
            assert(entry_view(raw@[skip0 + j]) == w[j as int]) by {
                if j >= w.len() {
                    assert(!has_prefix(entry_view(raw@[skip0 + j as int]).0, pfx_v@));
                }
            }
        }
        match crate::codec::decode_trade_value(&raw[skip0 + j].1) {
            Some(t) => {
                if items.len() < limit {
                    items.push(t);
                }
            },
            None => {
                proof {
                    assert(decoded_trade(w[j as int].1) is None) by {
                        if exists|t: Trade| w[j as int].1 == trade_value(t) {
                            let t = choose|t: Trade| w[j as int].1 == trade_value(t);
                        }
                    }
                }
                return Err(StoreError::Corrupt);
            },
        }
        j += 1;
    }
    proof {
        // at loop exit, exactly min(limit + 1, w.len()) entries were walked
        if skip0 + j < raw.len() && j < limit + 1 {
            // stopped at an unprefixed entry: the window is exhausted
            assert(j == w.len()) by {
                if (j as int) < w.len() {
                    assert(entry_view(raw@[skip0 + j as int]) == w[j as int]);
                }
            }
        } else if j < limit + 1 {
            // the scan itself ran out: it covered the whole window
            assert(j == raw@.len() - skip0);
            assert(j as int == (if w.len() < limit + 1 {
                w.len() as int
            } else {
                limit as int + 1
            }));
        }
        assert(j as int == (if w.len() < limit + 1 {
            w.len() as int
        } else {
            limit as int + 1
        }));
    }
    let next: Option<String> = if j == limit + 1 && items.len() > 0 {
        let last = &items[items.len() - 1];
        let cb = encode_cursor_bytes(&cursor_of_trade(last));
        Some(b64_encode(&cb))
    } else {
        None
    };
    Ok((items, next))
}

/// `k` starts with the symbol's prefix.
pub proof fn lemma_trade_key_prefixed(
    sym: Pair,
    ts: u128,
    maker: u128,
    taker: u128,
    price: u64,
    qty: u64,
)
    ensures
        has_prefix(trade_key(sym, ts, maker, taker, price, qty), key_prefix(sym)),
{
    let k = trade_key(sym, ts, maker, taker, price, qty);
    crate::codec::lemma_trade_key_len(sym, ts, maker, taker, price, qty);
    assert(k.subrange(0, key_prefix(sym).len() as int) =~= key_prefix(sym));
}

/// Every key is at or after the empty key.
pub proof fn lemma_entries_from_empty_start(s: Seq<(Seq<u8>, Seq<u8>)>)
    ensures
        entries_from(s, Seq::<u8>::empty()) == s,
    decreases s.len(),
{
    if s.len() > 0 {
        lemma_entries_from_empty_start(s.skip(1));
        assert(lex_le(Seq::<u8>::empty(), s[0].0)) by {
            if s[0].0.len() == 0 {
                assert(Seq::<u8>::empty() =~= s[0].0);
            }
        }
        assert(entries_from(s, Seq::<u8>::empty()) =~= s);
    }
}

} // verus!
