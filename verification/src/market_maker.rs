//! The quoting rules of the market-making bot: where to place the two
//! sided quotes and when to refresh them. The bot's networking lives with
//! the rest of the I/O; every number it sends is computed here.

use vstd::prelude::*;

verus! {

/// Errors of the market-making bot.
#[derive(Debug)]
pub enum MarketMakerError {
    ConnectError(String),
}

impl MarketMakerError {
    /// A short description of the failure.
    pub fn message(&self) -> (r: &'static str)
        ensures
            r@ == "connection error"@,
    {
        match self {
            MarketMakerError::ConnectError(_) => "connection error",
        }
    }
}

/// The midpoint of the best bid and best ask, rounded down.
pub fn mid_price(best_bid: u64, best_ask: u64) -> (r: u64)
    ensures
        r == (best_bid + best_ask) / 2,
{
    (((best_bid as u128) + (best_ask as u128)) / 2) as u64
}

/// The two quotes around a midpoint: a bid `spread` below and an ask
/// `spread` above, saturating at the ends of the price range.
pub fn quote_prices(mid: u64, spread: u64) -> (r: (u64, u64))
    ensures
        r.0 == (if mid >= spread {
            (mid - spread) as int
        } else {
            0int
        }),
        r.1 == (if mid + spread <= u64::MAX {
            (mid + spread) as u64
        } else {
            u64::MAX
        }),
{
    let bid = if mid >= spread {
        mid - spread
    } else {
        0
    };
    let ask = if mid <= u64::MAX - spread {
        mid + spread
    } else {
        u64::MAX
    };
    (bid, ask)
}

/// Whether the bot must refresh its quotes: only when a midpoint is known
/// and it moved since the last quote, avoiding needless cancel/post churn.
pub fn should_requote(mid: Option<u64>, last: Option<u64>) -> (r: bool)
    ensures
        r == (mid is Some && mid != last),
{
    match (mid, last) {
        (Some(m), Some(l)) => m != l,
        (Some(_), None) => true,
        (None, _) => false,
    }
}

} // verus!
