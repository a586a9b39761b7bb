//! Orders as submitted by traders: side, kind, and the order record itself.

use vstd::prelude::*;

use crate::instrument::Pair;

verus! {

/// Which side of the market the order is on.
///
/// - `Buy` (bid): matched against the lowest asks first.
/// - `Sell` (ask): matched against the highest bids first.
#[derive(Clone, Copy, Debug, PartialEq, Eq, Structural)]
pub enum Side {
    Buy,
    Sell,
}

/// Whether an order rests at a specific price or executes immediately at the
/// best available prices.
#[derive(Clone, Copy, Debug, PartialEq, Eq, Structural)]
pub enum OrderType {
    Limit,
    Market,
}

/// An order submitted by a trader.
///
/// - `price` is present exactly when `order_type` is `Limit`.
/// - `timestamp` is the wall-clock acceptance time in nanoseconds since the
///   Unix epoch; it gives time priority within a price level.
#[derive(Clone, Copy, Debug)]
pub struct Order {
    pub id: u64,
    pub side: Side,
    pub order_type: OrderType,
    pub price: Option<u64>,
    pub quantity: u64,
    pub timestamp: u128,
    pub pair: Pair,
}

impl Order {
    /// A submittable order: positive quantity, and a price exactly when the
    /// order is a limit order.
    pub open spec fn submittable(self) -> bool {
        &&& self.quantity > 0
        &&& (self.order_type == OrderType::Limit <==> self.price is Some)
    }
}

} // verus!
