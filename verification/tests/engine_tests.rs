use order_book_engine::engine::{
    default_limit, effective_limit, Engine, EngineError, NewOrder, TradesQuery,
};
use order_book_engine::instrument::{Asset, Pair};
use order_book_engine::market_maker::{mid_price, quote_prices, should_requote};
use order_book_engine::orders::{OrderType, Side};
use order_book_engine::session::{session_step, SessionAction, SessionEvent};
use order_book_engine::store::Store;
use order_book_engine::trade::Trade;
use tempfile::tempdir;

fn btc_usd() -> Pair {
    Pair::crypto_usd(Asset::BTC)
}

fn eth_usd() -> Pair {
    Pair::crypto_usd(Asset::ETH)
}

fn new_engine(dir: &tempfile::TempDir) -> Engine {
    Engine::new(Store::open(dir.path().to_str().unwrap()).unwrap())
}

fn limit(side: Side, price: u64, quantity: u64) -> NewOrder {
    NewOrder {
        side,
        order_type: OrderType::Limit,
        price: Some(price),
        quantity,
        pair: btc_usd(),
    }
}

fn market(side: Side, quantity: u64) -> NewOrder {
    NewOrder {
        side,
        order_type: OrderType::Market,
        price: None,
        quantity,
        pair: btc_usd(),
    }
}

#[test]
fn submit_rejects_zero_quantity() {
    let dir = tempdir().unwrap();
    let mut engine = new_engine(&dir);
    let res = engine.submit(1, &limit(Side::Buy, 50, 0), 1);
    assert!(matches!(res, Err(EngineError::InvalidQuantity)));
    assert_eq!(res.unwrap_err().message(), "quantity must be > 0");
}

#[test]
fn submit_rejects_unsupported_pair() {
    let dir = tempdir().unwrap();
    let mut engine = new_engine(&dir);
    let req = NewOrder {
        side: Side::Buy,
        order_type: OrderType::Limit,
        price: Some(50),
        quantity: 1,
        pair: Pair {
            base: Asset::BTC,
            quote: Asset::ETH,
        },
    };
    let res = engine.submit(1, &req, 1);
    assert!(matches!(res, Err(EngineError::UnsupportedPair)));
    assert_eq!(res.unwrap_err().message(), "unsupported pair");
}

#[test]
fn submit_rejects_priceless_limit() {
    let dir = tempdir().unwrap();
    let mut engine = new_engine(&dir);
    let req = NewOrder {
        side: Side::Buy,
        order_type: OrderType::Limit,
        price: None,
        quantity: 1,
        pair: btc_usd(),
    };
    let res = engine.submit(1, &req, 1);
    assert!(matches!(res, Err(EngineError::MissingPrice)));
}

#[test]
fn submit_matches_persists_and_acks() {
    let dir = tempdir().unwrap();
    let mut engine = new_engine(&dir);

    let ack = engine.submit(1, &limit(Side::Sell, 101, 5), 10).unwrap();
    assert_eq!(ack.order_id, 1);
    assert!(ack.trades.is_empty());
    let ack = engine.submit(2, &limit(Side::Sell, 102, 3), 11).unwrap();
    assert!(ack.trades.is_empty());

    let ack = engine.submit(100, &market(Side::Buy, 6), 12).unwrap();
    assert_eq!(ack.trades.len(), 2);
    assert_eq!(
        (ack.trades[0].price, ack.trades[0].quantity, ack.trades[0].maker_id),
        (101, 5, 1)
    );
    assert_eq!(
        (ack.trades[1].price, ack.trades[1].quantity, ack.trades[1].maker_id),
        (102, 1, 2)
    );

    // every trade of the submission was persisted before submit returned
    let page = engine
        .page_trades(&btc_usd(), &TradesQuery { limit: 10, after: None })
        .unwrap();
    assert_eq!(page.items.len(), 2);
    assert!(page.next.is_none());
    assert_eq!(page.items[0].price, 101);
    assert_eq!(page.items[1].price, 102);
}

#[test]
fn cancel_requires_supported_pair() {
    let dir = tempdir().unwrap();
    let mut engine = new_engine(&dir);
    let bad = Pair {
        base: Asset::USD,
        quote: Asset::BTC,
    };
    assert!(matches!(
        engine.cancel(&bad, 1),
        Err(EngineError::UnsupportedPair)
    ));
}

#[test]
fn cancel_reports_found_and_prunes() {
    let dir = tempdir().unwrap();
    let mut engine = new_engine(&dir);
    engine.submit(42, &limit(Side::Buy, 101, 10), 1).unwrap();

    assert_eq!(engine.cancel(&btc_usd(), 42).unwrap(), true);
    assert_eq!(engine.cancel(&btc_usd(), 42).unwrap(), false);

    let snap = engine.snapshot(&btc_usd()).unwrap();
    assert!(snap.bids.is_empty());
}

#[test]
fn snapshot_orders_best_first() {
    let dir = tempdir().unwrap();
    let mut engine = new_engine(&dir);
    engine.submit(1, &limit(Side::Buy, 90, 2), 1).unwrap();
    engine.submit(2, &limit(Side::Buy, 95, 3), 2).unwrap();
    engine.submit(3, &limit(Side::Sell, 100, 4), 3).unwrap();
    engine.submit(4, &limit(Side::Sell, 105, 5), 4).unwrap();
    // two resting orders on one level aggregate
    engine.submit(5, &limit(Side::Buy, 95, 7), 5).unwrap();

    let snap = engine.snapshot(&btc_usd()).unwrap();
    assert_eq!(snap.pair, btc_usd());
    // bids descending, best (highest) first, quantities aggregated
    assert_eq!(snap.bids, vec![(95, 10), (90, 2)]);
    // asks ascending, best (lowest) first
    assert_eq!(snap.asks, vec![(100, 4), (105, 5)]);

    let empty = engine.snapshot(&eth_usd()).unwrap();
    assert!(empty.bids.is_empty() && empty.asks.is_empty());
}

#[test]
fn page_limit_is_clamped() {
    assert_eq!(default_limit(), 100);
    assert_eq!(effective_limit(0), 1);
    assert_eq!(effective_limit(1), 1);
    assert_eq!(effective_limit(100), 100);
    assert_eq!(effective_limit(1000), 1000);
    assert_eq!(effective_limit(5000), 1000);
}

#[test]
fn session_filters_by_instrument() {
    let t_btc = Trade {
        price: 50,
        quantity: 1,
        maker_id: 1,
        taker_id: 2,
        timestamp: 3,
        symbol: btc_usd(),
    };
    let t_eth = Trade {
        symbol: eth_usd(),
        ..t_btc
    };

    assert_eq!(
        session_step(&btc_usd(), SessionEvent::Trade(t_btc)),
        SessionAction::ForwardTrade(t_btc)
    );
    assert_eq!(
        session_step(&btc_usd(), SessionEvent::Trade(t_eth)),
        SessionAction::Ignore
    );
    assert_eq!(
        session_step(&btc_usd(), SessionEvent::BookUpdate(btc_usd())),
        SessionAction::SendSnapshot
    );
    assert_eq!(
        session_step(&btc_usd(), SessionEvent::BookUpdate(eth_usd())),
        SessionAction::Ignore
    );
    assert_eq!(
        session_step(&btc_usd(), SessionEvent::Closed),
        SessionAction::Stop
    );
}

#[test]
fn market_maker_quotes_around_mid() {
    assert_eq!(mid_price(48, 52), 50);
    assert_eq!(mid_price(49, 52), 50);
    assert_eq!(mid_price(u64::MAX, u64::MAX), u64::MAX);

    assert_eq!(quote_prices(50, 2), (48, 52));
    assert_eq!(quote_prices(1, 5), (0, 6));
    assert_eq!(quote_prices(u64::MAX - 1, 3), (u64::MAX - 4, u64::MAX));

    assert!(should_requote(Some(50), None));
    assert!(should_requote(Some(50), Some(49)));
    assert!(!should_requote(Some(50), Some(50)));
    assert!(!should_requote(None, Some(50)));
    assert!(!should_requote(None, None));
}

#[test]
fn store_failure_error_maps_to_internal_message() {
    let dir = tempdir().unwrap();
    let mut engine = new_engine(&dir);
    // a bad cursor surfaces as a store error wrapped by the engine
    let res = engine.page_trades(
        &btc_usd(),
        &TradesQuery {
            limit: 1,
            after: Some("not-a-cursor".to_string()),
        },
    );
    let err = res.unwrap_err();
    assert!(matches!(err, EngineError::Store(_)));
    assert_eq!(err.message(), "internal error");
}
