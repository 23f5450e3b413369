//! Engine output events.
//!
//! The engine never allocates for output: it pushes events into an
//! [`EventSink`] supplied by the caller. A sink says in [`EventSink::ready`]
//! which events it can take and in [`EventSink::takes`] what taking one does
//! to it; the engine's contracts are stated over [`delivered`], which chains
//! those steps along a sequence of events.
use vstd::prelude::*;

use crate::types::{OrderId, Price, Qty, RejectReason};

verus! {

#[derive(Clone, Copy, PartialEq, Eq, Structural, Debug)]
pub enum Event {
    /// Order passed validation and entered the matching path.
    Accepted { id: OrderId },
    /// A match occurred. Price is always the resting (maker) order's price.
    Trade { maker: OrderId, taker: OrderId, price: Price, qty: Qty },
    /// Order left the book with quantity unfilled (explicit cancel, IOC
    /// remainder, or unfillable market remainder).
    Canceled { id: OrderId, remaining: Qty },
    /// A cancel/replace was applied; the order keeps its id.
    Replaced { id: OrderId },
    Rejected { id: OrderId, reason: RejectReason },
}

/// Receives engine events one at a time, in order.
pub trait EventSink {
    /// Whether the sink can take `ev` in its current state. A sink that does
    /// not say can always.
    open spec fn ready(&self, ev: Event) -> bool {
        true
    }

    /// Whether taking `ev` may lead from `self` to `after`. A sink that does
    /// not say may become anything.
    open spec fn takes(&self, ev: Event, after: &Self) -> bool {
        true
    }

    fn on_event(&mut self, ev: Event)
        requires
            old(self).ready(ev),
        ensures
            old(self).takes(ev, final(self)),
    ;
}

/// `after` is what `before` becomes by taking exactly the events `evs`, in order.
pub open spec fn delivered<S: EventSink>(before: S, evs: Seq<Event>, after: S) -> bool
    decreases evs.len(),
{
    if evs.len() == 0 {
        before == after
    } else {
        exists|mid: S|
            delivered(before, evs.drop_last(), mid) && #[trigger] mid.takes(evs.last(), &after)
    }
}

/// Whatever prefix of `evs` the sink has taken, it can take the next event.
pub open spec fn ready_for<S: EventSink>(sink: S, evs: Seq<Event>) -> bool {
    forall|i: int, mid: S|
        0 <= i < evs.len() && #[trigger] delivered(sink, evs.take(i), mid) ==> mid.ready(evs[i])
}

/// Collects events into a `Vec`.
pub struct VecSink {
    pub events: Vec<Event>,
}

impl Default for VecSink {
    fn default() -> (sink: Self)
        ensures
            sink.events@ == Seq::<Event>::empty(),
    {
        VecSink { events: Vec::new() }
    }
}

impl EventSink for VecSink {
    open spec fn ready(&self, ev: Event) -> bool {
        true
    }

    open spec fn takes(&self, ev: Event, after: &Self) -> bool {
        after.events@ == self.events@.push(ev)
    }

    fn on_event(&mut self, ev: Event) {
        self.events.push(ev);
    }
}

/// Discards all events.
pub struct NullSink;

impl EventSink for NullSink {
    open spec fn ready(&self, ev: Event) -> bool {
        true
    }

    open spec fn takes(&self, ev: Event, after: &Self) -> bool {
        after == self
    }

    fn on_event(&mut self, _ev: Event) {
    }
}

/// Counts events without storing them.
pub struct CountingSink {
    pub trades: u64,
    pub traded_qty: u64,
    pub accepts: u64,
    pub cancels: u64,
    pub rejects: u64,
}

impl Default for CountingSink {
    fn default() -> (sink: Self)
        ensures
            sink == (CountingSink { trades: 0, traded_qty: 0, accepts: 0, cancels: 0, rejects: 0 }),
    {
        CountingSink { trades: 0, traded_qty: 0, accepts: 0, cancels: 0, rejects: 0 }
    }
}

impl EventSink for CountingSink {
    /// Each counter that the event raises has room for it.
    open spec fn ready(&self, ev: Event) -> bool {
        match ev {
            Event::Trade { qty, .. } => self.trades < u64::MAX && self.traded_qty + qty <= u64::MAX,
            Event::Accepted { .. } => self.accepts < u64::MAX,
            Event::Canceled { .. } => self.cancels < u64::MAX,
            Event::Rejected { .. } => self.rejects < u64::MAX,
            Event::Replaced { .. } => true,
        }
    }

    open spec fn takes(&self, ev: Event, after: &Self) -> bool {
        match ev {
            Event::Trade { qty, .. } => *after == (CountingSink {
                trades: (self.trades + 1) as u64,
                traded_qty: (self.traded_qty + qty) as u64,
                ..*self
            }),
            Event::Accepted { .. } => *after == (CountingSink {
                accepts: (self.accepts + 1) as u64,
                ..*self
            }),
            Event::Canceled { .. } => *after == (CountingSink {
                cancels: (self.cancels + 1) as u64,
                ..*self
            }),
            Event::Rejected { .. } => *after == (CountingSink {
                rejects: (self.rejects + 1) as u64,
                ..*self
            }),
            Event::Replaced { .. } => *after == *self,
        }
    }

    fn on_event(&mut self, ev: Event) {
        match ev {
            Event::Trade { qty, .. } => {
                self.trades += 1;
                self.traded_qty += qty;
            },
            Event::Accepted { .. } => {
                self.accepts += 1;
            },
            Event::Canceled { .. } => {
                self.cancels += 1;
            },
            Event::Rejected { .. } => {
                self.rejects += 1;
            },
            Event::Replaced { .. } => {},
        }
    }
}

/// A [`VecSink`] ends up with the delivered events appended to what it held.
pub proof fn law_vec_sink_appends(before: VecSink, evs: Seq<Event>, after: VecSink)
    requires
        delivered(before, evs, after),
    ensures
        after.events@ == before.events@ + evs,
    decreases evs.len(),
{
    if evs.len() == 0 {
        assert(before.events@ + evs =~= before.events@);
    } else {
        let mid = choose|mid: VecSink|
            delivered(before, evs.drop_last(), mid) && #[trigger] mid.takes(evs.last(), &after);
        law_vec_sink_appends(before, evs.drop_last(), mid);
        assert(before.events@ + evs =~= (before.events@ + evs.drop_last()).push(evs.last()));
    }
}

} // verus!
