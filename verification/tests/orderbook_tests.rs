use order_book_engine::instrument::{Asset, Pair};
use order_book_engine::orderbook::{BookSnapshot, Level, OrderBook};
use order_book_engine::orders::{Order, OrderType, Side};

fn btc_usd() -> Pair {
    Pair::crypto_usd(Asset::BTC)
}

fn sample_limit_order(id: u64, side: Side, price: u64, quantity: u64) -> Order {
    Order {
        id,
        side,
        order_type: OrderType::Limit,
        price: Some(price),
        quantity,
        timestamp: id as u128,
        pair: btc_usd(),
    }
}

fn sample_market_order(id: u64, side: Side, quantity: u64) -> Order {
    Order {
        id,
        side,
        order_type: OrderType::Market,
        price: None,
        quantity,
        timestamp: id as u128,
        pair: btc_usd(),
    }
}

fn level_at<'a>(side: &'a [Level], price: u64) -> Option<&'a Level> {
    side.iter().find(|l| l.price == price)
}

/// Tests a market buy order that partially fills against multiple sell orders.
#[test]
fn test_partial_fill_market_buy() {
    let mut ob = OrderBook::new();

    ob.add_order(sample_limit_order(1, Side::Sell, 101, 5));
    ob.add_order(sample_limit_order(2, Side::Sell, 102, 3));

    let market_buy = sample_market_order(100, Side::Buy, 6);
    let trades = ob.match_order(market_buy);

    assert_eq!(trades.len(), 2);
    assert_eq!(trades[0].quantity, 5);
    assert_eq!(trades[0].price, 101);
    assert_eq!(trades[1].quantity, 1);
    assert_eq!(trades[1].price, 102);
    assert_eq!(trades[0].maker_id, 1);
    assert_eq!(trades[1].maker_id, 2);
    assert_eq!(trades[0].taker_id, 100);
    assert_eq!(trades[1].taker_id, 100);

    let remaining = level_at(&ob.asks, 102).unwrap();
    assert_eq!(remaining.orders[0].quantity, 2);
    assert_eq!(remaining.orders[0].id, 2);
    assert!(level_at(&ob.asks, 101).is_none());
}

/// Tests a market sell order that partially fills against a smaller bid.
#[test]
fn test_partial_fill_market_sell() {
    let mut ob = OrderBook::new();

    ob.add_order(sample_limit_order(1, Side::Buy, 100, 4));

    let market_sell = sample_market_order(200, Side::Sell, 10);
    let trades = ob.match_order(market_sell);

    assert_eq!(trades.len(), 1);
    assert_eq!(trades[0].quantity, 4);
    assert_eq!(trades[0].price, 100);
    assert!(level_at(&ob.bids, 100).is_none());
}

/// Tests that a market order does not match when there is no liquidity.
#[test]
fn test_no_match_for_market_order() {
    let mut ob = OrderBook::new();

    let market_buy = sample_market_order(300, Side::Buy, 10);
    let trades = ob.match_order(market_buy);

    assert!(trades.is_empty());
    assert!(ob.asks.is_empty());
    assert!(ob.bids.is_empty());
}

/// Tests a market order that exactly matches an available quantity.
#[test]
fn test_exact_match_market_order() {
    let mut ob = OrderBook::new();

    ob.add_order(sample_limit_order(1, Side::Sell, 100, 5));
    let market_buy = sample_market_order(400, Side::Buy, 5);
    assert!(ob.asks.len() == 1);
    let trades = ob.match_order(market_buy);

    assert_eq!(trades.len(), 1);
    assert_eq!(trades[0].quantity, 5);
    assert!(ob.asks.is_empty());
}

/// Tests a limit buy order that partially fills and rests the remainder.
#[test]
fn test_limit_order_partial_match_and_remainder() {
    let mut ob = OrderBook::new();

    ob.add_order(sample_limit_order(1, Side::Sell, 100, 5));

    let limit_buy = sample_limit_order(2, Side::Buy, 101, 10);
    let trades = ob.match_order(limit_buy);

    assert_eq!(trades.len(), 1);
    assert_eq!(trades[0].quantity, 5);
    assert_eq!(trades[0].price, 100);
    assert_eq!(trades[0].maker_id, 1);
    assert_eq!(trades[0].taker_id, 2);
    assert!(ob.asks.is_empty());
    assert_eq!(ob.bids.len(), 1);
    let rest = level_at(&ob.bids, 101).unwrap();
    assert_eq!(rest.orders[0].quantity, 5);
    assert_eq!(rest.orders[0].id, 2);
}

/// Tests a limit buy order that finds no match and gets added to the book.
#[test]
fn test_limit_order_no_match_goes_to_book() {
    let mut ob = OrderBook::new();

    let limit_buy = sample_limit_order(10, Side::Buy, 90, 8);
    let trades = ob.match_order(limit_buy);

    assert!(trades.is_empty());
    assert_eq!(ob.bids.len(), 1);
    assert_eq!(level_at(&ob.bids, 90).unwrap().orders[0].quantity, 8);
}

/// Tests that FIFO order is respected for multiple orders at the same price.
#[test]
fn test_queue_fairness_fifo_fill_order() {
    let mut ob = OrderBook::new();

    ob.add_order(sample_limit_order(1, Side::Sell, 100, 4));
    ob.add_order(sample_limit_order(2, Side::Sell, 100, 6));

    let market_buy = sample_market_order(3, Side::Buy, 9);
    let trades = ob.match_order(market_buy);

    assert_eq!(trades.len(), 2);
    assert_eq!(trades[0].maker_id, 1);
    assert_eq!(trades[0].quantity, 4);
    assert_eq!(trades[1].maker_id, 2);
    assert_eq!(trades[1].quantity, 5);

    let remaining = level_at(&ob.asks, 100).unwrap();
    assert_eq!(remaining.orders.len(), 1);
    assert_eq!(remaining.orders[0].id, 2);
    assert_eq!(remaining.orders[0].quantity, 1);
}

/// Tests that a limit buy above the ask price matches immediately (crossing).
#[test]
fn test_price_level_collision_limit_buy_matches_instead_of_resting() {
    let mut ob = OrderBook::new();

    ob.add_order(sample_limit_order(1, Side::Sell, 105, 5));

    let crossing_buy = sample_limit_order(2, Side::Buy, 110, 3);
    let trades = ob.match_order(crossing_buy);

    assert_eq!(trades.len(), 1);
    assert_eq!(trades[0].price, 105);
    assert_eq!(trades[0].quantity, 3);

    let remaining = level_at(&ob.asks, 105).unwrap();
    assert_eq!(remaining.orders[0].quantity, 2);
    assert!(level_at(&ob.bids, 110).is_none());
}

/// Tests that a limit sell below the bid price matches immediately (crossing).
#[test]
fn test_price_level_collision_limit_sell_matches_instead_of_resting() {
    let mut ob = OrderBook::new();

    ob.add_order(sample_limit_order(1, Side::Buy, 100, 5));

    let crossing_sell = sample_limit_order(2, Side::Sell, 90, 4);
    let trades = ob.match_order(crossing_sell);

    assert_eq!(trades.len(), 1);
    assert_eq!(trades[0].price, 100);
    assert_eq!(trades[0].quantity, 4);

    let remaining = level_at(&ob.bids, 100).unwrap();
    assert_eq!(remaining.orders[0].quantity, 1);
    assert!(level_at(&ob.asks, 90).is_none());
}

#[test]
fn test_cancel_existing_order() {
    let mut ob = OrderBook::new();
    let order = sample_limit_order(42, Side::Buy, 101, 10);
    ob.add_order(order.clone());

    let was_cancelled = ob.cancel_order(order.id);

    assert!(was_cancelled);
    // the emptied level is pruned: the bids hold no level at 101
    assert!(level_at(&ob.bids, 101).is_none());
}

#[test]
fn test_cancel_nonexistent_order() {
    let mut ob = OrderBook::new();
    ob.add_order(sample_limit_order(1, Side::Sell, 99, 5));

    let result = ob.cancel_order(999);
    assert!(!result);
}

/// A limit order that does not cross never leaves a crossed book; neither
/// does a crossing one, which fills first and rests only the remainder.
#[test]
fn book_never_crossed_after_mixed_flow() {
    let mut ob = OrderBook::new();
    ob.add_order(sample_limit_order(1, Side::Buy, 90, 5));
    ob.add_order(sample_limit_order(2, Side::Sell, 95, 5));
    let _ = ob.match_order(sample_limit_order(3, Side::Buy, 97, 3));
    let _ = ob.match_order(sample_limit_order(4, Side::Sell, 85, 20));
    let _ = ob.match_order(sample_market_order(5, Side::Buy, 1));
    let best_bid = ob.bids.last().map(|l| l.price);
    let best_ask = ob.asks.first().map(|l| l.price);
    if let (Some(b), Some(a)) = (best_bid, best_ask) {
        assert!(b < a, "book crossed: best bid {} >= best ask {}", b, a);
    }
    // no empty price level is retained on either side
    assert!(ob.bids.iter().all(|l| !l.orders.is_empty()));
    assert!(ob.asks.iter().all(|l| !l.orders.is_empty()));
}

/// A match conserves quantity: the trades sum to the taker's decrement.
#[test]
fn match_conserves_quantity() {
    let mut ob = OrderBook::new();
    ob.add_order(sample_limit_order(1, Side::Sell, 100, 4));
    ob.add_order(sample_limit_order(2, Side::Sell, 101, 2));
    ob.add_order(sample_limit_order(3, Side::Sell, 102, 9));

    let trades = ob.match_order(sample_limit_order(9, Side::Buy, 101, 10));
    let filled: u64 = trades.iter().map(|t| t.quantity).sum();
    // levels 100 and 101 held 6 in total; the rest rests at 101
    assert_eq!(filled, 6);
    let rest = level_at(&ob.bids, 101).unwrap();
    assert_eq!(rest.orders[0].quantity, 10 - filled);
}

/// Quantities at the top of the range neither wrap in matching nor in
/// snapshot aggregation.
#[test]
fn largest_quantities_do_not_wrap() {
    let mut ob = OrderBook::new();
    ob.add_order(sample_limit_order(1, Side::Sell, 100, u64::MAX));
    ob.add_order(sample_limit_order(2, Side::Sell, 100, u64::MAX));

    let snap = BookSnapshot::for_pair(btc_usd(), &ob);
    assert_eq!(snap.asks, vec![(100u64, (u64::MAX as u128) * 2)]);

    let trades = ob.match_order(sample_market_order(3, Side::Buy, u64::MAX));
    assert_eq!(trades.len(), 1);
    assert_eq!(trades[0].quantity, u64::MAX);
    assert_eq!(trades[0].maker_id, 1);

    let remaining = level_at(&ob.asks, 100).unwrap();
    assert_eq!(remaining.orders.len(), 1);
    assert_eq!(remaining.orders[0].quantity, u64::MAX);
}
