//! The per-symbol driver: owns one book, reacts to queue events and
//! snapshot fetches, and tells its surroundings when to publish and when
//! to fetch.
//!
//! The surrounding task performs the fetches and the publishing; this
//! type makes every decision.  While a resync is pending, incoming events
//! are drained and discarded until a snapshot arrives.

use vstd::prelude::*;

use crate::depth::{DepthSnapshot, DepthUpdate, ResyncNeeded, UpdateDecision};
use crate::order_book::{
    event_applies, event_stale, fold_levels, levels_ok, levels_parse, parsed_levels, side_map,
    OrderBook,
};

verus! {

/// What the driver asks its surroundings to do after an event.
#[derive(Debug)]
pub enum TaskAction {
    /// The book changed: publish it to the observable slot.
    Publish,
    /// Nothing to do: the event was stale, malformed, or drained during
    /// a pending resync.
    Ignore,
    /// Continuity broke: log the cause, fetch a fresh snapshot, and hand
    /// it to `on_snapshot`.
    Resync(ResyncNeeded),
}

/// One symbol's book together with the resync flag of its driving loop.
pub struct BookTask {
    pub book: OrderBook,
    pub resync_pending: bool,
}

impl BookTask {
    /// The owned book is internally consistent.
    pub open spec fn wf(self) -> bool {
        self.book.wf()
    }

    /// A fresh driver: an empty book, waiting for its first snapshot.
    pub fn new(symbol: &str) -> (r: BookTask)
        ensures
            r.wf(),
            r.book.symbol@ == symbol@.map_values(|c: char| crate::text::upper_char(c)),
            r.book.bids@ =~= Seq::<(u64, u64)>::empty(),
            r.book.asks@ =~= Seq::<(u64, u64)>::empty(),
            r.book.snapshot_id is None,
            r.book.last_u is None,
            r.resync_pending,
    {
        BookTask { book: OrderBook::new(symbol), resync_pending: true }
    }

    /// Seeds the book from a fetched snapshot and clears the resync
    /// flag.  A snapshot with malformed numbers is refused whole and the
    /// state is left as it was.
    pub fn on_snapshot(&mut self, snap: &DepthSnapshot) -> (r: bool)
        requires
            old(self).wf(),
        ensures
            final(self).wf(),
            r == (levels_ok(snap.bids@) && levels_ok(snap.asks@)),
            r ==> {
                &&& side_map(final(self).book.bids@) == fold_levels(
                    Map::<u64, u64>::empty(),
                    parsed_levels(snap.bids@),
                    false,
                )
                &&& side_map(final(self).book.asks@) == fold_levels(
                    Map::<u64, u64>::empty(),
                    parsed_levels(snap.asks@),
                    false,
                )
                &&& final(self).book.snapshot_id == Option::Some(snap.last_update_id)
                &&& final(self).book.last_u is None
                &&& final(self).book.symbol == old(self).book.symbol
                &&& !final(self).resync_pending
            },
            !r ==> *final(self) == *old(self),
    {
        if levels_parse(&snap.bids) && levels_parse(&snap.asks) {
            self.book.from_snapshot(snap);
            self.resync_pending = false;
            true
        } else {
            false
        }
    }

    /// Reacts to one event from the symbol's queue.  Pending resyncs
    /// drain events; malformed events are dropped; otherwise the book's
    /// continuity rule decides: apply and publish, ignore, or mark a
    /// resync and report its cause.
    pub fn on_event(&mut self, ev: &DepthUpdate) -> (r: TaskAction)
        requires
            old(self).wf(),
        ensures
            final(self).wf(),
            final(self).book.symbol == old(self).book.symbol,
            old(self).resync_pending ==> r is Ignore && *final(self) == *old(self),
            !old(self).resync_pending && !(levels_ok(ev.b@) && levels_ok(ev.a@)) ==> r is Ignore
                && *final(self) == *old(self),
            (!old(self).resync_pending && levels_ok(ev.b@) && levels_ok(ev.a@)) ==> {
                let b0 = old(self).book;
                let applies = event_applies(b0.snapshot_id, b0.last_u, ev.U, ev.u, ev.pu);
                let stale = event_stale(b0.snapshot_id, b0.last_u, ev.U, ev.u, ev.pu);
                &&& (applies ==> {
                    &&& r is Publish
                    &&& side_map(final(self).book.bids@) == fold_levels(
                        side_map(b0.bids@),
                        parsed_levels(ev.b@),
                        true,
                    )
                    &&& side_map(final(self).book.asks@) == fold_levels(
                        side_map(b0.asks@),
                        parsed_levels(ev.a@),
                        true,
                    )
                    &&& final(self).book.last_u == Option::Some(ev.u)
                    &&& final(self).book.snapshot_id == b0.snapshot_id
                    &&& !final(self).resync_pending
                })
                &&& (stale ==> r is Ignore && *final(self) == *old(self))
                &&& (!applies && !stale ==> {
                    &&& r matches TaskAction::Resync(c) && c.symbol@ == b0.symbol@
                        && c.expected_pu == b0.last_u && c.got_pu == ev.pu && c.got_u == ev.u
                    &&& final(self).book.last_u is None
                    &&& final(self).book.bids == b0.bids
                    &&& final(self).book.asks == b0.asks
                    &&& final(self).book.snapshot_id == b0.snapshot_id
                    &&& final(self).resync_pending
                })
            },
    {
        if self.resync_pending {
            return TaskAction::Ignore;
        }
        if !(levels_parse(&ev.b) && levels_parse(&ev.a)) {
            return TaskAction::Ignore;
        }
        match self.book.continuity_check(ev) {
            UpdateDecision::Drop => TaskAction::Ignore,
            UpdateDecision::Apply => {
                self.book.apply_update(ev);
                TaskAction::Publish
            },
            UpdateDecision::Resync(c) => {
                self.resync_pending = true;
                TaskAction::Resync(c)
            },
        }
    }
}

} // verus!
