//! Wire-level data carried by the venue's depth stream and snapshot endpoint.
//!
//! Prices and quantities arrive as decimal strings; they stay strings here
//! and are parsed into fixed-point integers only when a book consumes them.

use vstd::prelude::*;

verus! {

/// One incremental depth event from the WebSocket stream.
///
/// Field names follow the venue's JSON keys: `U` is the first update id in
/// the event, `u` the final id, `pu` the final id of the previous event.
/// `b` and `a` list bid and ask changes as `(price, quantity)` decimal
/// strings; a quantity of zero removes the level.
#[allow(non_snake_case)]
#[derive(Debug, Clone)]
pub struct DepthUpdate {
    pub e: String,
    pub E: u64,
    pub T: u64,
    pub s: String,
    pub U: u64,
    pub u: u64,
    pub pu: u64,
    pub b: Vec<(String, String)>,
    pub a: Vec<(String, String)>,
}

/// A combined-stream envelope: the stream name and the event it carries.
#[derive(Debug, Clone)]
pub struct CombinedDepthUpdate {
    pub stream: String,
    pub data: DepthUpdate,
}

/// A REST depth snapshot: the book as of `last_update_id`.
#[allow(non_snake_case)]
#[derive(Debug, Clone)]
pub struct DepthSnapshot {
    pub last_update_id: u64,
    pub E: u64,
    pub T: u64,
    pub bids: Vec<(String, String)>,
    pub asks: Vec<(String, String)>,
}

/// The cause of a required resync: what predecessor id the book expected
/// (if it had one) and what the offending event carried.
#[derive(Debug, Clone)]
pub struct ResyncNeeded {
    pub symbol: String,
    pub expected_pu: Option<u64>,
    pub got_pu: u64,
    pub got_u: u64,
}

/// What a book decided about one incoming event.
#[derive(Debug)]
pub enum UpdateDecision {
    /// The event is stale or out of order; ignore it.
    Drop,
    /// The event is in sequence; the caller should apply it now.
    Apply,
    /// Continuity is broken; the caller must fetch a fresh snapshot and reseed.
    Resync(ResyncNeeded),
}

} // verus!
