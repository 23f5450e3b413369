//! What the book is and what each request does to it, as mathematics.
//!
//! A [`BookState`] holds, per side and price, the queue of resting orders,
//! oldest first. Every engine request is a function from a state to an
//! [`Outcome`]: the next state and the exact events, in order.
use vstd::prelude::*;

use crate::events::Event;
use crate::types::{OrderId, Price, Qty, RejectReason, Side, Tif};

verus! {

/// An order in a queue.
pub struct Resting {
    pub id: OrderId,
    pub qty: Qty,
}

/// The queues of one side, by price; the front of a queue is its oldest order.
pub type Queues = Map<Price, Seq<Resting>>;

/// Whether an order at `p` on `side` goes before one at `q`.
pub open spec fn better(side: Side, p: Price, q: Price) -> bool {
    match side {
        Side::Bid => p > q,
        Side::Ask => p < q,
    }
}

/// Whether a taker with this limit trades with a maker of side `maker` at
/// `price`. Without a limit it trades at any price.
pub open spec fn crosses(maker: Side, price: Price, limit: Option<Price>) -> bool {
    match limit {
        None => true,
        Some(lim) => match maker {
            Side::Bid => lim <= price,
            Side::Ask => price <= lim,
        },
    }
}

/// `p` is a price of the side, and no other price of the side goes before it.
pub open spec fn is_best<V>(levels: Map<Price, V>, side: Side, p: Price) -> bool {
    &&& levels.contains_key(p)
    &&& forall|q: Price| #[trigger] levels.contains_key(q) ==> q == p || better(side, p, q)
}

/// The best price of a side, if it has any.
pub open spec fn best<V>(levels: Map<Price, V>, side: Side) -> Option<Price> {
    if exists|p: Price| is_best(levels, side, p) {
        Some(choose|p: Price| is_best(levels, side, p))
    } else {
        None
    }
}

/// The entries of a side from the best price outwards.
pub open spec fn ladder<V>(levels: Map<Price, V>, side: Side) -> Seq<(Price, V)>
    decreases levels.dom().len(),
    when levels.dom().finite()
{
    match best(levels, side) {
        Some(p) => if levels.contains_key(p) {
            seq![(p, levels[p])] + ladder(levels.remove(p), side)
        } else {
            Seq::empty()
        },
        None => Seq::empty(),
    }
}

/// `entries` lists the prices of a side, best first, each with its value.
pub open spec fn lists<V>(levels: Map<Price, V>, side: Side, entries: Seq<(Price, V)>) -> bool {
    &&& forall|i: int, j: int|
        0 <= i < j < entries.len() ==> better(
            side,
            (#[trigger] entries[i]).0,
            (#[trigger] entries[j]).0,
        )
    &&& forall|i: int|
        0 <= i < entries.len() ==> levels.contains_key((#[trigger] entries[i]).0)
            && levels[entries[i].0] == entries[i].1
    &&& forall|p: Price| #[trigger]
        levels.contains_key(p) ==> exists|i: int|
            0 <= i < entries.len() && (#[trigger] entries[i]).0 == p
}

/// Total quantity of a queue.
pub open spec fn total(queue: Seq<Resting>) -> nat
    decreases queue.len(),
{
    if queue.len() == 0 {
        0
    } else {
        queue[0].qty as nat + total(queue.drop_first())
    }
}

/// The queue at a price; empty where there is no level.
pub open spec fn queue_at(queues: Queues, price: Price) -> Seq<Resting> {
    if queues.contains_key(price) {
        queues[price]
    } else {
        Seq::empty()
    }
}

/// Total quantity per price.
pub open spec fn totals(queues: Queues) -> Map<Price, nat> {
    Map::new(|p: Price| queues.contains_key(p), |p: Price| total(queues[p]))
}

/// Quantity at the prices of one side that a limit reaches, summed from the
/// best price outwards.
pub open spec fn liquidity(totals: Map<Price, nat>, side: Side, limit: Option<Price>) -> nat
    decreases totals.dom().len(),
    when totals.dom().finite()
{
    match best(totals, side) {
        Some(p) => if totals.contains_key(p) && crosses(side, p, limit) {
            totals[p] + liquidity(totals.remove(p), side, limit)
        } else {
            0
        },
        None => 0,
    }
}

/// Takes the order at position `i` out of the queue at `price`; a level that
/// this empties is gone.
pub open spec fn take_out(queues: Queues, price: Price, i: int) -> Queues {
    if queues[price].len() == 1 {
        queues.remove(price)
    } else {
        queues.insert(price, queues[price].remove(i))
    }
}

/// Sets the quantity of the order at position `i`; its place in the queue stays.
pub open spec fn resize(queues: Queues, price: Price, i: int, qty: Qty) -> Queues {
    queues.insert(
        price,
        queues[price].update(i, Resting { id: queues[price][i].id, qty }),
    )
}

/// Puts an order at the back of the queue at `price`.
pub open spec fn append(queues: Queues, price: Price, order: Resting) -> Queues {
    queues.insert(price, queue_at(queues, price).push(order))
}

/// What is left after a taker has matched against one side.
pub struct Swept {
    pub queues: Queues,
    pub trades: Seq<Event>,
    pub remaining: nat,
}

/// One fill against the order at the front of the queue at `p`: that order
/// shrinks by `fill`, and leaves if nothing of it is left.
pub open spec fn fill_front(queues: Queues, p: Price, fill: nat) -> Queues {
    let maker = queues[p][0];
    if fill >= maker.qty {
        take_out(queues, p, 0)
    } else {
        resize(queues, p, 0, (maker.qty - fill) as Qty)
    }
}

/// Matches `qty` lots of `taker` against one side: as long as lots are left
/// and the best price crosses, the oldest order at that price is filled, at
/// its own price, with as much as both orders allow.
pub open spec fn sweep(
    queues: Queues,
    side: Side,
    limit: Option<Price>,
    qty: nat,
    taker: OrderId,
) -> Swept
    decreases qty,
{
    match best(queues, side) {
        Some(p) => if qty > 0 && crosses(side, p, limit) && queues[p].len() > 0 && queues[p][0].qty
            > 0 {
            let maker = queues[p][0];
            let fill: nat = if qty <= maker.qty {
                qty
            } else {
                maker.qty as nat
            };
            let after = sweep(fill_front(queues, p, fill), side, limit, (qty - fill) as nat, taker);
            Swept {
                trades: seq![Event::Trade { maker: maker.id, taker, price: p, qty: fill as Qty }]
                    + after.trades,
                ..after
            }
        } else {
            Swept { queues, trades: Seq::empty(), remaining: qty }
        },
        None => Swept { queues, trades: Seq::empty(), remaining: qty },
    }
}

/// The resting orders of a book.
#[verifier::ext_equal]
pub struct BookState {
    pub bids: Queues,
    pub asks: Queues,
}

/// The next book and the events of one request.
pub struct Outcome {
    pub book: BookState,
    pub events: Seq<Event>,
}

impl BookState {
    /// The book without orders.
    pub open spec fn empty() -> BookState {
        BookState { bids: Map::empty(), asks: Map::empty() }
    }

    pub open spec fn queues(self, side: Side) -> Queues {
        match side {
            Side::Bid => self.bids,
            Side::Ask => self.asks,
        }
    }

    pub open spec fn with_queues(self, side: Side, queues: Queues) -> BookState {
        match side {
            Side::Bid => BookState { bids: queues, ..self },
            Side::Ask => BookState { asks: queues, ..self },
        }
    }

    /// There is an order at position `i` of the queue at `price`.
    pub open spec fn has(self, side: Side, price: Price, i: int) -> bool {
        self.queues(side).contains_key(price) && 0 <= i < self.queues(side)[price].len()
    }

    pub open spec fn order_at(self, side: Side, price: Price, i: int) -> Resting {
        self.queues(side)[price][i]
    }

    /// The order with this id is at position `i` of the queue at `price`.
    pub open spec fn sits_at(self, id: OrderId, side: Side, price: Price, i: int) -> bool {
        self.has(side, price, i) && self.order_at(side, price, i).id == id
    }

    /// An order with this id rests in the book.
    pub open spec fn holds(self, id: OrderId) -> bool {
        exists|side: Side, price: Price, i: int| self.sits_at(id, side, price, i)
    }

    /// Side, price and queue position of a resting order.
    pub open spec fn find(self, id: OrderId) -> (Side, Price, int) {
        choose|side: Side, price: Price, i: int| self.sits_at(id, side, price, i)
    }

    /// Price and total quantity of each level of a side, best first.
    pub open spec fn depth(self, side: Side) -> Seq<(Price, Qty)> {
        let queues = self.queues(side);
        ladder(
            Map::new(|p: Price| queues.contains_key(p), |p: Price| total(queues[p]) as Qty),
            side,
        )
    }

    /// The ids of all resting orders.
    pub open spec fn ids(self) -> Set<OrderId> {
        Set::new(|id: OrderId| self.holds(id))
    }

    /// Remaining quantity of a resting order.
    pub open spec fn qty_of(self, id: OrderId) -> Option<Qty> {
        if self.holds(id) {
            let (side, price, i) = self.find(id);
            Some(self.order_at(side, price, i).qty)
        } else {
            None
        }
    }

    /// Every bid price lies below every ask price.
    pub open spec fn uncrossed(self) -> bool {
        forall|b: Price, a: Price| #[trigger]
            self.bids.contains_key(b) && #[trigger] self.asks.contains_key(a) ==> b < a
    }

    /// What holds of every book the engine can reach: finitely many levels,
    /// none of them empty, every order with lots left, ids unique, and no bid
    /// at or above an ask.
    pub open spec fn valid(self) -> bool {
        &&& self.well_formed()
        &&& self.uncrossed()
    }

    /// [`BookState::valid`] without the relation between the two sides.
    pub open spec fn well_formed(self) -> bool {
        &&& self.bids.dom().finite()
        &&& self.asks.dom().finite()
        &&& forall|side: Side, price: Price| #[trigger]
            self.queues(side).contains_key(price) ==> self.queues(side)[price].len() > 0
        &&& forall|side: Side, price: Price, i: int| #[trigger]
            self.has(side, price, i) ==> self.order_at(side, price, i).qty > 0
        &&& forall|side1: Side, price1: Price, i1: int, side2: Side, price2: Price, i2: int|
            #![trigger self.has(side1, price1, i1), self.has(side2, price2, i2)]
            self.has(side1, price1, i1) && self.has(side2, price2, i2) && self.order_at(
                side1,
                price1,
                i1,
            ).id == self.order_at(side2, price2, i2).id ==> side1 == side2 && price1 == price2 && i1
                == i2
    }

    /// The request is refused and the book stays as it is.
    pub open spec fn refuse(self, id: OrderId, reason: RejectReason) -> Outcome {
        Outcome { book: self, events: seq![Event::Rejected { id, reason }] }
    }

    /// Visible liquidity within the limit of an order of `side`.
    pub open spec fn fillable(self, side: Side, limit: Price) -> nat {
        liquidity(totals(self.queues(side.opposite())), side.opposite(), Some(limit))
    }

    /// The opposite side after an order of `side` has matched against it.
    pub open spec fn swept(self, id: OrderId, side: Side, limit: Option<Price>, qty: Qty) -> Swept {
        sweep(self.queues(side.opposite()), side.opposite(), limit, qty as nat, id)
    }

    /// The book after an order of `side` has matched, before any of it rests.
    pub open spec fn after_match(
        self,
        id: OrderId,
        side: Side,
        limit: Option<Price>,
        qty: Qty,
    ) -> BookState {
        self.with_queues(side.opposite(), self.swept(id, side, limit, qty).queues)
    }

    /// An order joins the back of the queue at its price.
    pub open spec fn rested(self, id: OrderId, side: Side, price: Price, qty: Qty) -> BookState {
        self.with_queues(side, append(self.queues(side), price, Resting { id, qty }))
    }

    /// Matches an order and rests what is left (GTC) or cancels it; `first`
    /// is the event that announces the order.
    pub open spec fn enter(
        self,
        first: Event,
        id: OrderId,
        side: Side,
        price: Price,
        qty: Qty,
        tif: Tif,
    ) -> Outcome {
        let swept = self.swept(id, side, Some(price), qty);
        let book = self.after_match(id, side, Some(price), qty);
        let events = seq![first] + swept.trades;
        if swept.remaining == 0 {
            Outcome { book, events }
        } else if tif == Tif::Gtc {
            Outcome { book: book.rested(id, side, price, swept.remaining as Qty), events }
        } else {
            Outcome {
                book,
                events: events.push(Event::Canceled { id, remaining: swept.remaining as Qty }),
            }
        }
    }

    /// A limit order.
    pub open spec fn limit(
        self,
        id: OrderId,
        side: Side,
        price: Price,
        qty: Qty,
        tif: Tif,
    ) -> Outcome {
        if qty == 0 {
            self.refuse(id, RejectReason::ZeroQty)
        } else if self.holds(id) {
            self.refuse(id, RejectReason::DuplicateId)
        } else if tif == Tif::Fok && self.fillable(side, price) < qty {
            self.refuse(id, RejectReason::FokUnfillable)
        } else {
            self.enter(Event::Accepted { id }, id, side, price, qty, tif)
        }
    }

    /// A market order: matches at any price, never rests.
    pub open spec fn market(self, id: OrderId, side: Side, qty: Qty) -> Outcome {
        if qty == 0 {
            self.refuse(id, RejectReason::ZeroQty)
        } else if self.holds(id) {
            self.refuse(id, RejectReason::DuplicateId)
        } else {
            let swept = self.swept(id, side, None, qty);
            let book = self.after_match(id, side, None, qty);
            let events = seq![Event::Accepted { id }] + swept.trades;
            if swept.remaining == 0 {
                Outcome { book, events }
            } else {
                Outcome {
                    book,
                    events: events.push(Event::Canceled { id, remaining: swept.remaining as Qty }),
                }
            }
        }
    }

    /// The book without one order.
    pub open spec fn without(self, id: OrderId) -> BookState {
        let (side, price, i) = self.find(id);
        self.with_queues(side, take_out(self.queues(side), price, i))
    }

    /// A cancel request.
    pub open spec fn cancel(self, id: OrderId) -> Outcome {
        if !self.holds(id) {
            self.refuse(id, RejectReason::UnknownOrder)
        } else {
            let (side, price, i) = self.find(id);
            let remaining = self.order_at(side, price, i).qty;
            Outcome { book: self.without(id), events: seq![Event::Canceled { id, remaining }] }
        }
    }

    /// A cancel/replace request: a smaller quantity at the same price is set
    /// in place; anything else leaves the book and enters it again as a GTC
    /// order of the same id and side.
    pub open spec fn replace(self, id: OrderId, price: Price, qty: Qty) -> Outcome {
        if !self.holds(id) {
            self.refuse(id, RejectReason::UnknownOrder)
        } else if qty == 0 {
            self.refuse(id, RejectReason::ZeroQty)
        } else {
            let (side, old_price, i) = self.find(id);
            if price == old_price && qty < self.order_at(side, old_price, i).qty {
                Outcome {
                    book: self.with_queues(side, resize(self.queues(side), price, i, qty)),
                    events: seq![Event::Replaced { id }],
                }
            } else {
                self.without(id).enter(Event::Replaced { id }, id, side, price, qty, Tif::Gtc)
            }
        }
    }

    /// Machine limits let `qty` lots join the queue at `price`: the level's
    /// total stays a `Qty` and the slab can address one more order.
    pub open spec fn can_rest(self, side: Side, price: Price, qty: nat) -> bool {
        &&& total(queue_at(self.queues(side), price)) + qty <= Qty::MAX
        &&& self.ids().len() < u32::MAX
    }

    /// Whatever is left of an order after matching can rest.
    pub open spec fn enter_fits(self, id: OrderId, side: Side, price: Price, qty: Qty) -> bool {
        let remaining = self.swept(id, side, Some(price), qty).remaining;
        remaining > 0 ==> self.after_match(id, side, Some(price), qty).can_rest(
            side,
            price,
            remaining,
        )
    }

    /// Machine limits allow the limit order.
    pub open spec fn limit_fits(
        self,
        id: OrderId,
        side: Side,
        price: Price,
        qty: Qty,
        tif: Tif,
    ) -> bool {
        qty > 0 && !self.holds(id) && tif == Tif::Gtc ==> self.enter_fits(id, side, price, qty)
    }

    /// Machine limits allow the cancel/replace request.
    pub open spec fn replace_fits(self, id: OrderId, price: Price, qty: Qty) -> bool {
        if self.holds(id) && qty > 0 {
            let (side, old_price, i) = self.find(id);
            price == old_price && qty < self.order_at(side, old_price, i).qty || self.without(
                id,
            ).enter_fits(id, side, price, qty)
        } else {
            true
        }
    }
}

} // verus!
