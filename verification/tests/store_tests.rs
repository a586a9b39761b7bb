use base64::engine::general_purpose::URL_SAFE_NO_PAD as B64;
use base64::Engine;
use order_book_engine::codec::{encode_cursor_bytes, Cursor};
use order_book_engine::instrument::{Asset, Pair};
use order_book_engine::store::{Store, StoreError};
use order_book_engine::trade::Trade;
use tempfile::tempdir;

fn btc_usd() -> Pair {
    Pair::crypto_usd(Asset::BTC)
}

fn eth_usd() -> Pair {
    Pair::crypto_usd(Asset::ETH)
}

fn trade(symbol: Pair, ts: u128, maker: u128, taker: u128, price: u64, qty: u64) -> Trade {
    Trade {
        price,
        quantity: qty,
        maker_id: maker,
        taker_id: taker,
        timestamp: ts,
        symbol,
    }
}

fn open_store(dir: &tempfile::TempDir) -> Store {
    Store::open(dir.path().to_str().unwrap()).unwrap()
}

#[test]
fn test_paging_two_items_limit_one() {
    let dir = tempdir().unwrap();
    let mut store = open_store(&dir);

    let t_old = trade(btc_usd(), 1, 10, 20, 50, 1);
    let t_new = trade(btc_usd(), 2, 11, 21, 51, 2);
    store.insert_trade(&t_old).unwrap();
    store.insert_trade(&t_new).unwrap();

    // Page 1
    let (p1, c1) = store.page_trade_asc(&btc_usd(), None, 1).unwrap();
    assert_eq!(p1.len(), 1);
    assert_eq!(p1[0].price, 50);
    assert!(c1.is_some(), "there should be a next page");

    // Page 2 (last page) should have no next
    let (p2, c2) = store.page_trade_asc(&btc_usd(), c1.as_deref(), 1).unwrap();
    assert_eq!(p2.len(), 1);
    assert_eq!(p2[0].price, 51);
    assert!(c2.is_none(), "no next after final page");
}

#[test]
fn test_reject_cross_pair_cursor() {
    let dir = tempdir().unwrap();
    let mut store = open_store(&dir);

    // Two BTC trades and one ETH trade
    let t_btc1 = trade(btc_usd(), 1, 100, 200, 50, 1);
    let t_eth = trade(eth_usd(), 2, 101, 201, 70, 2);
    let t_btc2 = trade(btc_usd(), 3, 102, 202, 52, 3);
    store.insert_trade(&t_btc1).unwrap();
    store.insert_trade(&t_eth).unwrap();
    store.insert_trade(&t_btc2).unwrap();

    // Page BTC with limit=1 to get a BTC cursor (since there is another BTC after it)
    let (_page, btc_cursor) = store.page_trade_asc(&btc_usd(), None, 1).unwrap();
    assert!(btc_cursor.is_some(), "expected BTC next cursor");

    // Using a BTC cursor on ETH should be rejected
    let bad = store.page_trade_asc(&eth_usd(), btc_cursor.as_deref(), 1);
    assert!(matches!(bad, Err(StoreError::BadCursor)));

    // Using the BTC cursor on BTC should succeed and return the second BTC trade
    let (page2, _c2) = store
        .page_trade_asc(&btc_usd(), btc_cursor.as_deref(), 1)
        .unwrap();
    assert_eq!(page2.len(), 1);
    assert_eq!(page2[0].price, 52);
}

#[test]
fn test_bad_cursor_malformed() {
    let dir = tempdir().unwrap();
    let store = open_store(&dir);

    // Not base64 at all
    let c1 = "!!!notbase64!!!";
    assert!(matches!(
        store.page_trade_asc(&btc_usd(), Some(c1), 10),
        Err(StoreError::BadCursor)
    ));

    // Base64, but not a cursor's worth of bytes
    let c2 = B64.encode(b"\xFF\xFE\xFD");
    assert!(matches!(
        store.page_trade_asc(&btc_usd(), Some(&c2), 10),
        Err(StoreError::BadCursor)
    ));

    // Base64 of a well-formed length minus one: still not a cursor
    let c3 = B64.encode([0u8; 64]);
    assert!(matches!(
        store.page_trade_asc(&btc_usd(), Some(&c3), 10),
        Err(StoreError::BadCursor)
    ));
}

#[test]
fn test_bad_cursor_wrong_version() {
    let dir = tempdir().unwrap();
    let mut store = open_store(&dir);

    // Insert one trade so the store is non-empty
    store.insert_trade(&trade(btc_usd(), 1, 10, 20, 50, 1)).unwrap();

    // Proper shape but v != 1
    let bogus = Cursor {
        v: 2,
        ts_nanos: 1,
        maker_id: 999,
        taker_id: 888,
        price: 123,
        quantity: 7,
    };
    let bogus_cursor = B64.encode(encode_cursor_bytes(&bogus));

    let res = store.page_trade_asc(&btc_usd(), Some(&bogus_cursor), 10);
    assert!(matches!(res, Err(StoreError::BadCursor)));
}

#[test]
fn test_bad_cursor_nonexistent_key() {
    let dir = tempdir().unwrap();
    let mut store = open_store(&dir);

    // Insert one real trade so the store is non-empty
    store.insert_trade(&trade(btc_usd(), 1, 10, 20, 50, 1)).unwrap();

    // Craft a valid-looking v=1 cursor that doesn't match any persisted key
    let bogus = Cursor {
        v: 1,
        ts_nanos: 2, // different than inserted trade
        maker_id: 999,
        taker_id: 888,
        price: 123,
        quantity: 7,
    };
    let bogus_cursor = B64.encode(encode_cursor_bytes(&bogus));

    // Should be rejected by the exact-key validation
    let res = store.page_trade_asc(&btc_usd(), Some(&bogus_cursor), 10);
    assert!(matches!(res, Err(StoreError::BadCursor)));
}

#[test]
fn paging_in_chunks_equals_one_big_page() {
    let dir = tempdir().unwrap();
    let mut store = open_store(&dir);
    for i in 0..5u128 {
        store
            .insert_trade(&trade(btc_usd(), i + 1, i, 1000 + i, 10 + i as u64, 1))
            .unwrap();
    }

    let (all, none) = store.page_trade_asc(&btc_usd(), None, 100).unwrap();
    assert_eq!(all.len(), 5);
    assert!(none.is_none());

    let mut chunked = Vec::new();
    let mut cursor: Option<String> = None;
    loop {
        let (items, next) = store
            .page_trade_asc(&btc_usd(), cursor.as_deref(), 1)
            .unwrap();
        chunked.extend(items);
        match next {
            Some(c) => cursor = Some(c),
            None => break,
        }
    }
    // the final single page returned no continuation, but may have held the
    // last item already; walk once more from the last cursor to be sure we
    // saw everything
    assert_eq!(chunked.len(), all.len());
    for (a, b) in chunked.iter().zip(all.iter()) {
        assert_eq!(a, b);
    }
}

#[test]
fn insert_is_idempotent_for_identical_records() {
    let dir = tempdir().unwrap();
    let mut store = open_store(&dir);
    let t = trade(btc_usd(), 7, 1, 2, 42, 3);
    store.insert_trade(&t).unwrap();
    store.insert_trade(&t).unwrap();
    let (items, _) = store.page_trade_asc(&btc_usd(), None, 10).unwrap();
    assert_eq!(items.len(), 1);
    assert_eq!(items[0], t);
}

#[test]
fn delete_trades_clears_only_the_symbol() {
    let dir = tempdir().unwrap();
    let mut store = open_store(&dir);
    store.insert_trade(&trade(btc_usd(), 1, 1, 2, 50, 1)).unwrap();
    store.insert_trade(&trade(btc_usd(), 2, 3, 4, 51, 1)).unwrap();
    store.insert_trade(&trade(eth_usd(), 3, 5, 6, 70, 2)).unwrap();

    store.delete_trades(&btc_usd()).unwrap();

    let (btc, _) = store.page_trade_asc(&btc_usd(), None, 10).unwrap();
    assert!(btc.is_empty());
    let (eth, _) = store.page_trade_asc(&eth_usd(), None, 10).unwrap();
    assert_eq!(eth.len(), 1);
    assert_eq!(eth[0].price, 70);

    let all = store.iter_trades().unwrap();
    assert_eq!(all.len(), 1);
    assert_eq!(all[0].symbol, eth_usd());
}

#[test]
fn chronological_order_with_tie_breakers() {
    let dir = tempdir().unwrap();
    let mut store = open_store(&dir);
    // same timestamp, distinct maker ids: both kept, ordered by maker id
    store.insert_trade(&trade(btc_usd(), 5, 9, 1, 50, 1)).unwrap();
    store.insert_trade(&trade(btc_usd(), 5, 2, 1, 51, 1)).unwrap();
    store.insert_trade(&trade(btc_usd(), 1, 99, 1, 52, 1)).unwrap();

    let (items, _) = store.page_trade_asc(&btc_usd(), None, 10).unwrap();
    assert_eq!(items.len(), 3);
    assert_eq!(items[0].timestamp, 1);
    assert_eq!(items[1].timestamp, 5);
    assert_eq!(items[1].maker_id, 2);
    assert_eq!(items[2].maker_id, 9);
}
