//! Executed trades: the immutable record born at a match.

use vstd::prelude::*;

use crate::instrument::Pair;

verus! {

/// A matched transaction between two orders.
///
/// - The *maker* is the order that was resting in the book; the *taker* is
///   the incoming order that triggered the match.
/// - `price` is always the maker's resting price.
/// - `timestamp` is the execution time in nanoseconds since the Unix epoch.
/// - `symbol` is the pair the trade executed on.
#[derive(Clone, Copy, Debug, PartialEq, Eq, Structural)]
pub struct Trade {
    pub price: u64,
    pub quantity: u64,
    pub maker_id: u128,
    pub taker_id: u128,
    pub timestamp: u128,
    pub symbol: Pair,
}

} // verus!
