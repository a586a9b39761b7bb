use order_book_engine::instrument::{Asset, Pair};
use std::collections::HashMap;

fn btc_usd() -> Pair {
    Pair::crypto_usd(Asset::BTC)
}

fn eth_usd() -> Pair {
    Pair::crypto_usd(Asset::ETH)
}

#[test]
fn asset_display_and_parse() {
    assert_eq!(Asset::BTC.code(), "BTC");
    assert_eq!(Asset::ETH.code(), "ETH");
    assert_eq!(Asset::USD.code(), "USD");

    assert_eq!("BTC".parse::<Asset>().unwrap(), Asset::BTC);
    assert_eq!("ETH".parse::<Asset>().unwrap(), Asset::ETH);
    assert_eq!("USD".parse::<Asset>().unwrap(), Asset::USD);
    assert!("DOGE".parse::<Asset>().is_err());
}

#[test]
fn pair_display_and_parse_supported() {
    assert_eq!(btc_usd().code(), "BTC-USD");
    assert_eq!(eth_usd().code(), "ETH-USD");

    assert_eq!("BTC-USD".parse::<Pair>().unwrap(), btc_usd());
    assert_eq!("ETH-USD".parse::<Pair>().unwrap(), eth_usd());
}

#[test]
fn pair_parse_rejects_unsupported() {
    let e = "BTC-EUR".parse::<Pair>().unwrap_err();
    assert!(e.contains("unsupported"));
}

#[test]
fn supported_and_fromstr_in_sync() {
    // Every supported pair should parse from its code and round-trip
    for p in Pair::supported() {
        let parsed = p.code().parse::<Pair>().unwrap();
        assert_eq!(parsed, p);
        assert_eq!(parsed.code(), p.code());
    }
}

#[test]
fn crypto_usd_factory_sets_usd_quote() {
    let p = Pair::crypto_usd(Asset::BTC);
    assert_eq!(p, btc_usd());

    let p2 = Pair::crypto_usd(Asset::ETH);
    assert_eq!(p2, eth_usd());
}

#[test]
fn pair_is_hashable_and_equatable() {
    let mut m = HashMap::new();
    m.insert(btc_usd().clone(), 42u32);
    assert_eq!(m.get(&"BTC-USD".parse::<Pair>().unwrap()), Some(&42));
}
