//! The per-subscriber stream session: the decision core of one live
//! streaming connection. The surrounding task performs the waiting and the
//! socket sends; every decision about what a subscriber is shown is here.

use vstd::prelude::*;

use crate::instrument::Pair;
use crate::orderbook::BookSnapshot;
use crate::trade::Trade;

verus! {

/// One frame pushed to a subscriber: a point-in-time book snapshot or a
/// single executed trade.
pub enum WsFrame {
    BookSnapshot(BookSnapshot),
    Trade(Trade),
}

/// One event a session observes while running.
pub enum SessionEvent {
    /// A trade was published on the trades topic.
    Trade(Trade),
    /// The book of this pair changed.
    BookUpdate(Pair),
    /// The subscriber went away or the bus subscription ended.
    Closed,
}

/// What the session does with an observed event.
#[derive(Debug, PartialEq, Eq)]
pub enum SessionAction {
    /// Push the trade as a frame: it belongs to the session's instrument.
    ForwardTrade(Trade),
    /// Capture a fresh snapshot of the session's book and push it.
    SendSnapshot,
    /// The event concerns another instrument: drop it.
    Ignore,
    /// Tear the session down.
    Stop,
}

/// Decide how a session for `pair` reacts to one event: trades of the
/// session's instrument are forwarded (never coalesced), its book updates
/// trigger a fresh snapshot (idempotent, so coalescing is sound), foreign
/// events are dropped, and closure stops the session.
pub fn session_step(pair: &Pair, event: SessionEvent) -> (r: SessionAction)
    ensures
        match event {
            SessionEvent::Trade(t) => r == (if t.symbol == *pair {
                SessionAction::ForwardTrade(t)
            } else {
                SessionAction::Ignore
            }),
            SessionEvent::BookUpdate(p) => r == (if p == *pair {
                SessionAction::SendSnapshot
            } else {
                SessionAction::Ignore
            }),
            SessionEvent::Closed => r == SessionAction::Stop,
        },
{
    match event {
        SessionEvent::Trade(t) => {
            if t.symbol == *pair {
                SessionAction::ForwardTrade(t)
            } else {
                SessionAction::Ignore
            }
        },
        SessionEvent::BookUpdate(p) => {
            if p == *pair {
                SessionAction::SendSnapshot
            } else {
                SessionAction::Ignore
            }
        },
        SessionEvent::Closed => SessionAction::Stop,
    }
}

} // verus!
