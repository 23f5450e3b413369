//! The strategy interface and two example strategies.
//!
//! A [`Strategy`] says in [`Strategy::wakes`] how it may answer a wake-up and
//! in [`Strategy::hears`] what an event makes of it; the simulator's contract
//! is stated over those two. The example strategies are deterministic: their
//! answers are given by functions of a view of their state.
use vstd::prelude::*;

use crate::book::OrderBook;
use crate::events::Event;
use crate::lemmas::lemma_best;
use crate::model::{best, BookState};
use crate::types::{OrderId, Price, Qty, Side, Tif};
use crate::wire::Msg;

verus! {

/// Order ids at or above this base belong to the strategy; everything below
/// is background flow. Keeps participant attribution to one comparison.
pub const STRATEGY_ID_BASE: OrderId = 0x100_0000_0000;

/// What a strategy may do each time it is woken.
#[derive(Clone, Copy, PartialEq, Eq, Structural, Debug)]
pub enum Action {
    Limit { id: OrderId, side: Side, price: Price, qty: Qty, tif: Tif },
    Market { id: OrderId, side: Side, qty: Qty },
    Cancel { id: OrderId },
    Replace { id: OrderId, price: Price, qty: Qty },
}

impl Action {
    /// The request that an action makes of the exchange.
    pub open spec fn spec_request(self) -> Msg {
        match self {
            Action::Limit { id, side, price, qty, tif } => Msg::New { id, side, price, qty, tif },
            Action::Market { id, side, qty } => Msg::Market { id, side, qty },
            Action::Cancel { id } => Msg::Cancel { id },
            Action::Replace { id, price, qty } => Msg::Replace { id, price, qty },
        }
    }

    #[verifier::when_used_as_spec(spec_request)]
    pub fn request(self) -> (msg: Msg)
        ensures
            msg == self.spec_request(),
    {
        match self {
            Action::Limit { id, side, price, qty, tif } => Msg::New { id, side, price, qty, tif },
            Action::Market { id, side, qty } => Msg::Market { id, side, qty },
            Action::Cancel { id } => Msg::Cancel { id },
            Action::Replace { id, price, qty } => Msg::Replace { id, price, qty },
        }
    }
}

/// What a strategy sees when it is woken.
#[verifier::ext_equal]
pub struct Sight {
    pub book: BookState,
    pub step: u64,
    pub last_trade: Option<Price>,
    pub position: i64,
    pub cash: i128,
}

/// A number divided by a positive one, rounded towards zero.
pub open spec fn towards_zero(x: int, d: int) -> int {
    if x >= 0 {
        x / d
    } else {
        -((-x) / d)
    }
}

fn divide_towards_zero(x: i128, d: i128) -> (q: i128)
    requires
        d > 0,
        x > i128::MIN,
    ensures
        q == towards_zero(x as int, d as int),
        x >= 0 ==> 0 <= q <= x,
        x < 0 ==> x <= q <= 0,
{
    if x >= 0 {
        assert(0 <= x / d <= x) by (nonlinear_arith)
            requires
                x >= 0,
                d > 0,
        ;
        x / d
    } else {
        assert(0 <= (-x) / (d as int) <= -x) by (nonlinear_arith)
            requires
                x < 0,
                d > 0,
        ;
        -((-x) / d)
    }
}

/// Midpoint of best bid and best ask, rounded towards zero; the last trade
/// where a side is empty.
pub open spec fn mid_of(book: BookState, last_trade: Option<Price>) -> Option<Price> {
    match (best(book.bids, Side::Bid), best(book.asks, Side::Ask)) {
        (Some(b), Some(a)) => Some(towards_zero(b + a, 2) as Price),
        _ => last_trade,
    }
}

/// The mid that anyone can observe.
pub fn book_mid(book: &OrderBook, last_trade: Option<Price>) -> (mid: Option<Price>)
    requires
        book.wf(),
    ensures
        mid == mid_of(book@, last_trade),
{
    match (book.best_bid(), book.best_ask()) {
        (Some(b), Some(a)) => Some(divide_towards_zero(b as i128 + a as i128, 2) as i64),
        _ => last_trade,
    }
}

/// Read-only view handed to the strategy on each wake-up.
pub struct MarketView<'a> {
    pub book: &'a OrderBook,
    pub step: u64,
    /// Price of the most recent trade by anyone, if any.
    pub last_trade: Option<Price>,
    /// Current position (signed lots) and cash of the strategy's account.
    pub position: i64,
    pub cash: i128,
}

impl<'a> View for MarketView<'a> {
    type V = Sight;

    open spec fn view(&self) -> Sight {
        Sight {
            book: self.book@,
            step: self.step,
            last_trade: self.last_trade,
            position: self.position,
            cash: self.cash,
        }
    }
}

impl<'a> MarketView<'a> {
    /// Midpoint of best bid/ask; falls back to last trade.
    pub fn mid(&self) -> (mid: Option<Price>)
        requires
            self.book.wf(),
        ensures
            mid == mid_of(self@.book, self@.last_trade),
    {
        book_mid(self.book, self.last_trade)
    }
}

/// Hands out strategy order ids from the reserved range.
pub struct IdGen {
    next: OrderId,
}

impl View for IdGen {
    type V = OrderId;

    /// The next id to hand out.
    closed spec fn view(&self) -> OrderId {
        self.next
    }
}

impl IdGen {
    pub fn new() -> (ids: Self)
        ensures
            ids@ == STRATEGY_ID_BASE,
    {
        IdGen { next: STRATEGY_ID_BASE }
    }

    pub fn next_id(&mut self) -> (id: OrderId)
        requires
            old(self)@ < u64::MAX,
        ensures
            id == old(self)@,
            final(self)@ == old(self)@ + 1,
    {
        let id: OrderId = self.next;
        self.next = self.next + 1;
        id
    }

    /// Number of ids left to hand out.
    pub fn left(&self) -> (n: u64)
        ensures
            n == u64::MAX - self@,
    {
        u64::MAX - self.next
    }
}

pub trait Strategy: Sized {
    /// Woken with this sight and this next free id, the strategy may ask for
    /// these actions and become `after`, with ids up to `next_after` taken.
    /// A strategy that does not say may answer anything.
    open spec fn wakes(
        &self,
        sight: Sight,
        next_id: OrderId,
        actions: Seq<Action>,
        after: &Self,
        next_after: OrderId,
    ) -> bool {
        true
    }

    /// Told of this event, the strategy may become `after`. A strategy that
    /// does not say may become anything.
    open spec fn hears(&self, ev: Event, after: &Self) -> bool {
        true
    }

    /// Called every `wake_every` background messages. Push desired actions
    /// into `out`, which is handed over empty. Use [`IdGen`] for fresh order
    /// ids.
    fn on_wake(&mut self, view: &MarketView, ids: &mut IdGen, out: &mut Vec<Action>)
        requires
            view.book.wf(),
            old(out)@.len() == 0,
        ensures
            old(self).wakes(view@, old(ids)@, final(out)@, final(self), final(ids)@),
    ;

    /// Called for every engine event that involves one of the strategy's
    /// orders (fills as maker or taker, acks, cancels, rejects).
    fn on_event(&mut self, ev: &Event)
        ensures
            old(self).hears(*ev, final(self)),
    ;
}

/// An order of the market maker and what is left of it.
#[derive(Clone, Copy, PartialEq, Eq, Structural, Debug)]
pub struct Quote {
    pub id: OrderId,
    pub price: Price,
    pub remaining: Qty,
}

/// Symmetric quoter with inventory skew: quotes `qty` on each side
/// `half_spread` ticks around a center shifted against current inventory, so
/// a long book leans quotes downward to shed and vice versa. It stays out
/// where there is no mid, where a quote would lie beyond the price type, or
/// where the ids for its orders have run out.
pub struct MarketMaker {
    pub half_spread: Price,
    pub qty: Qty,
    /// Ticks to shift the quote center per lot of inventory.
    pub skew_per_lot_x100: i64,
    pub max_position: i64,
    bid: Option<Quote>,
    ask: Option<Quote>,
}

/// What the market maker knows.
pub struct Maker {
    pub half_spread: Price,
    pub qty: Qty,
    pub skew_per_lot_x100: i64,
    pub max_position: i64,
    pub bid: Option<Quote>,
    pub ask: Option<Quote>,
}

impl View for MarketMaker {
    type V = Maker;

    closed spec fn view(&self) -> Maker {
        Maker {
            half_spread: self.half_spread,
            qty: self.qty,
            skew_per_lot_x100: self.skew_per_lot_x100,
            max_position: self.max_position,
            bid: self.bid,
            ask: self.ask,
        }
    }
}

/// A quote after a trade: smaller if it took part, gone if nothing is left.
pub open spec fn after_trade(
    quote: Option<Quote>,
    maker: OrderId,
    taker: OrderId,
    qty: Qty,
) -> Option<Quote> {
    match quote {
        Some(q) => if q.id == maker || q.id == taker {
            if q.remaining <= qty {
                None
            } else {
                Some(Quote { remaining: (q.remaining - qty) as Qty, ..q })
            }
        } else {
            quote
        },
        None => None,
    }
}

/// A quote unless it is the order `id`.
pub open spec fn forgotten(quote: Option<Quote>, id: OrderId) -> Option<Quote> {
    match quote {
        Some(q) => if q.id == id {
            None
        } else {
            quote
        },
        None => None,
    }
}

impl Maker {
    /// A market maker without quotes.
    pub open spec fn fresh(
        half_spread: Price,
        qty: Qty,
        skew_per_lot_x100: i64,
        max_position: i64,
    ) -> Maker {
        Maker { half_spread, qty, skew_per_lot_x100, max_position, bid: None, ask: None }
    }

    /// Center of the quotes: the mid, shifted against inventory.
    pub open spec fn center(self, mid: Price, position: i64) -> int {
        mid - towards_zero(position * self.skew_per_lot_x100, 100)
    }

    /// Price to buy at: below the center, and below the best ask.
    pub open spec fn want_bid(self, sight: Sight, mid: Price) -> int {
        let want = self.center(mid, sight.position) - self.half_spread;
        match best(sight.book.asks, Side::Ask) {
            Some(ask) => if want <= ask - 1 {
                want
            } else {
                ask - 1
            },
            None => want,
        }
    }

    /// Price to sell at: above the center, and above the best bid.
    pub open spec fn want_ask(self, sight: Sight, mid: Price) -> int {
        let want = self.center(mid, sight.position) + self.half_spread;
        match best(sight.book.bids, Side::Bid) {
            Some(bid) => if want >= bid + 1 {
                want
            } else {
                bid + 1
            },
            None => want,
        }
    }

    /// There is a mid to quote around, and both quotes are prices.
    pub open spec fn can_quote(self, sight: Sight) -> bool {
        mid_of(sight.book, sight.last_trade) matches Some(mid) && {
            &&& i64::MIN <= self.want_bid(sight, mid) <= i64::MAX
            &&& i64::MIN <= self.want_ask(sight, mid) <= i64::MAX
        }
    }

    /// The market maker pulls a quote whose price target moved.
    pub open spec fn pulls(quote: Option<Quote>, want: Price) -> bool {
        quote matches Some(q) && q.price != want
    }

    /// Price of the bid, where the market maker can quote.
    pub open spec fn bid_at(self, sight: Sight) -> Price {
        self.want_bid(sight, mid_of(sight.book, sight.last_trade)->0) as Price
    }

    /// Price of the ask, where the market maker can quote.
    pub open spec fn ask_at(self, sight: Sight) -> Price {
        self.want_ask(sight, mid_of(sight.book, sight.last_trade)->0) as Price
    }

    /// A new bid is due: there is none or it is pulled, and the position is
    /// below its limit.
    pub open spec fn bids_anew(self, sight: Sight) -> bool {
        (self.bid is None || Maker::pulls(self.bid, self.bid_at(sight))) && sight.position
            < self.max_position
    }

    /// A new ask is due: there is none or it is pulled, and the position is
    /// above its limit.
    pub open spec fn asks_anew(self, sight: Sight) -> bool {
        (self.ask is None || Maker::pulls(self.ask, self.ask_at(sight))) && sight.position
            > -self.max_position
    }

    /// Number of ids that the new quotes take.
    pub open spec fn ids_due(self, sight: Sight) -> int {
        (if self.bids_anew(sight) {
            1int
        } else {
            0
        }) + (if self.asks_anew(sight) {
            1int
        } else {
            0
        })
    }

    /// Answer to a wake-up: the actions, the next state and the next free id.
    pub open spec fn wake(self, sight: Sight, next_id: OrderId) -> (Seq<Action>, Maker, OrderId) {
        if !self.can_quote(sight) || next_id + self.ids_due(sight) > u64::MAX {
            (Seq::empty(), self, next_id)
        } else {
            let bid_at = self.bid_at(sight);
            let ask_at = self.ask_at(sight);
            let pull_bid = Maker::pulls(self.bid, bid_at);
            let pull_ask = Maker::pulls(self.ask, ask_at);
            let new_bid = self.bids_anew(sight);
            let new_ask = self.asks_anew(sight);
            let ask_id: OrderId = if new_bid {
                (next_id + 1) as OrderId
            } else {
                next_id
            };
            let last_id: OrderId = if new_ask {
                (ask_id + 1) as OrderId
            } else {
                ask_id
            };
            let pulled_bid = if pull_bid {
                seq![Action::Cancel { id: self.bid->0.id }]
            } else {
                Seq::empty()
            };
            let pulled_ask = if pull_ask {
                seq![Action::Cancel { id: self.ask->0.id }]
            } else {
                Seq::empty()
            };
            let bids = if new_bid {
                seq![
                    Action::Limit {
                        id: next_id,
                        side: Side::Bid,
                        price: bid_at,
                        qty: self.qty,
                        tif: Tif::Gtc,
                    },
                ]
            } else {
                Seq::empty()
            };
            let asks = if new_ask {
                seq![
                    Action::Limit {
                        id: ask_id,
                        side: Side::Ask,
                        price: ask_at,
                        qty: self.qty,
                        tif: Tif::Gtc,
                    },
                ]
            } else {
                Seq::empty()
            };
            (
                pulled_bid + pulled_ask + bids + asks,
                Maker {
                    bid: if new_bid {
                        Some(Quote { id: next_id, price: bid_at, remaining: self.qty })
                    } else if pull_bid {
                        None
                    } else {
                        self.bid
                    },
                    ask: if new_ask {
                        Some(Quote { id: ask_id, price: ask_at, remaining: self.qty })
                    } else if pull_ask {
                        None
                    } else {
                        self.ask
                    },
                    ..self
                },
                last_id,
            )
        }
    }

    /// What an event makes of the market maker.
    pub open spec fn hear(self, ev: Event) -> Maker {
        match ev {
            Event::Canceled { id, .. } => Maker {
                bid: forgotten(self.bid, id),
                ask: forgotten(self.ask, id),
                ..self
            },
            Event::Rejected { id, .. } => Maker {
                bid: forgotten(self.bid, id),
                ask: forgotten(self.ask, id),
                ..self
            },
            Event::Trade { maker, taker, qty, .. } => Maker {
                bid: after_trade(self.bid, maker, taker, qty),
                ask: after_trade(self.ask, maker, taker, qty),
                ..self
            },
            _ => self,
        }
    }
}

fn fill_quote(quote: Option<Quote>, maker: OrderId, taker: OrderId, qty: Qty) -> (left: Option<
    Quote,
>)
    ensures
        left == after_trade(quote, maker, taker, qty),
{
    match quote {
        Some(q) => if q.id == maker || q.id == taker {
            if q.remaining <= qty {
                None
            } else {
                Some(Quote { id: q.id, price: q.price, remaining: q.remaining - qty })
            }
        } else {
            Some(q)
        },
        None => None,
    }
}

/// The id of a quote whose price target moved.
fn stale(quote: Option<Quote>, want: Price) -> (id: Option<OrderId>)
    ensures
        id == (if Maker::pulls(quote, want) {
            Some(quote->0.id)
        } else {
            None
        }),
{
    match quote {
        Some(q) => if q.price != want {
            Some(q.id)
        } else {
            None
        },
        None => None,
    }
}

fn forget_quote(quote: Option<Quote>, id: OrderId) -> (left: Option<Quote>)
    ensures
        left == forgotten(quote, id),
{
    match quote {
        Some(q) => if q.id == id {
            None
        } else {
            Some(q)
        },
        None => None,
    }
}

/// A wide number as a price, where it is one.
fn as_price(x: i128) -> (price: Option<Price>)
    ensures
        price == (if i64::MIN <= x <= i64::MAX {
            Some(x as Price)
        } else {
            None
        }),
{
    if i64::MIN as i128 <= x && x <= i64::MAX as i128 {
        Some(x as i64)
    } else {
        None
    }
}

impl MarketMaker {
    pub fn new(half_spread: Price, qty: Qty, skew_per_lot_x100: i64, max_position: i64) -> (mm:
        Self)
        ensures
            mm@ == Maker::fresh(half_spread, qty, skew_per_lot_x100, max_position),
    {
        MarketMaker { half_spread, qty, skew_per_lot_x100, max_position, bid: None, ask: None }
    }

    /// The prices to quote at, where there is a mid and both are prices.
    fn targets(&self, view: &MarketView) -> (targets: Option<(Price, Price)>)
        requires
            view.book.wf(),
        ensures
            targets == (if self@.can_quote(view@) {
                Some((self@.bid_at(view@), self@.ask_at(view@)))
            } else {
                None
            }),
    {
        let mid: Price = match view.mid() {
            Some(mid) => mid,
            None => {
                return None;
            },
        };
        let position: i128 = view.position as i128;
        let skew: i128 = self.skew_per_lot_x100 as i128;
        assert(-0x4000_0000_0000_0000_0000_0000_0000_0000 <= position * skew
            <= 0x4000_0000_0000_0000_0000_0000_0000_0000) by (nonlinear_arith)
            requires
                -0x8000_0000_0000_0000 <= position <= 0x7FFF_FFFF_FFFF_FFFF,
                -0x8000_0000_0000_0000 <= skew <= 0x7FFF_FFFF_FFFF_FFFF,
        ;
        let center: i128 = mid as i128 - divide_towards_zero(position * skew, 100);
        let mut want_bid: i128 = center - self.half_spread as i128;
        let mut want_ask: i128 = center + self.half_spread as i128;
        // Never quote through the opposite touch: a skewed center after a
        // mid jump would otherwise turn a passive quote into an accidental
        // aggressive order that pays the spread instead of earning it.
        if let Some(best_ask) = view.book.best_ask() {
            let below: i128 = best_ask as i128 - 1;
            if below < want_bid {
                want_bid = below;
            }
        }
        if let Some(best_bid) = view.book.best_bid() {
            let above: i128 = best_bid as i128 + 1;
            if above > want_ask {
                want_ask = above;
            }
        }
        match (as_price(want_bid), as_price(want_ask)) {
            (Some(bid), Some(ask)) => Some((bid, ask)),
            _ => None,
        }
    }
}

impl Strategy for MarketMaker {
    open spec fn wakes(
        &self,
        sight: Sight,
        next_id: OrderId,
        actions: Seq<Action>,
        after: &Self,
        next_after: OrderId,
    ) -> bool {
        self@.wake(sight, next_id) == (actions, after@, next_after)
    }

    open spec fn hears(&self, ev: Event, after: &Self) -> bool {
        after@ == self@.hear(ev)
    }

    fn on_wake(&mut self, view: &MarketView, ids: &mut IdGen, out: &mut Vec<Action>) {
        let (want_bid, want_ask) = match self.targets(view) {
            Some(targets) => targets,
            None => {
                assert(out@ =~= Seq::empty());
                return;
            },
        };
        // Re-quote a side only when its price target moved: needless
        // cancel/replace churn would forfeit queue position.
        let pulled_bid: Option<OrderId> = stale(self.bid, want_bid);
        let pulled_ask: Option<OrderId> = stale(self.ask, want_ask);
        let new_bid: bool = (self.bid.is_none() || pulled_bid.is_some()) && view.position
            < self.max_position;
        let new_ask: bool = (self.ask.is_none() || pulled_ask.is_some()) && view.position as i128
            > -(self.max_position as i128);
        let due: u64 = if new_bid && new_ask {
            2
        } else if new_bid || new_ask {
            1
        } else {
            0
        };
        if ids.left() < due {
            assert(out@ =~= Seq::empty());
            return;
        }
        if let Some(id) = pulled_bid {
            out.push(Action::Cancel { id });
            self.bid = None;
        }
        if let Some(id) = pulled_ask {
            out.push(Action::Cancel { id });
            self.ask = None;
        }
        if new_bid {
            let id: OrderId = ids.next_id();
            out.push(
                Action::Limit {
                    id,
                    side: Side::Bid,
                    price: want_bid,
                    qty: self.qty,
                    tif: Tif::Gtc,
                },
            );
            self.bid = Some(Quote { id, price: want_bid, remaining: self.qty });
        }
        if new_ask {
            let id: OrderId = ids.next_id();
            out.push(
                Action::Limit {
                    id,
                    side: Side::Ask,
                    price: want_ask,
                    qty: self.qty,
                    tif: Tif::Gtc,
                },
            );
            self.ask = Some(Quote { id, price: want_ask, remaining: self.qty });
        }
        assert(out@ =~= old(self)@.wake(view@, old(ids)@).0);
    }

    fn on_event(&mut self, ev: &Event) {
        match *ev {
            // Forget a quote once it is gone from the book.
            Event::Canceled { id, .. } => {
                self.bid = forget_quote(self.bid, id);
                self.ask = forget_quote(self.ask, id);
            },
            Event::Rejected { id, .. } => {
                self.bid = forget_quote(self.bid, id);
                self.ask = forget_quote(self.ask, id);
            },
            // Decrement resting size on fills as maker (resting) or as taker
            // (lots consumed before the remainder rested); a fully-filled
            // quote is gone from the book and must be forgotten so the next
            // wake can re-quote that side.
            Event::Trade { maker, taker, qty, .. } => {
                self.bid = fill_quote(self.bid, maker, taker, qty);
                self.ask = fill_quote(self.ask, maker, taker, qty);
            },
            _ => {},
        }
    }
}

/// Naive momentum taker: compares mid to its value `lookback` wakes ago and
/// crosses the spread when the move exceeds `threshold` ticks. It stays out
/// where the ids for its orders have run out.
pub struct Momentum {
    pub lookback: usize,
    pub threshold: Price,
    pub clip: Qty,
    pub max_position: i64,
    mids: Vec<Price>,
}

/// What the momentum taker knows.
#[verifier::ext_equal]
pub struct Trend {
    pub lookback: usize,
    pub threshold: Price,
    pub clip: Qty,
    pub max_position: i64,
    pub mids: Seq<Price>,
}

impl View for Momentum {
    type V = Trend;

    closed spec fn view(&self) -> Trend {
        Trend {
            lookback: self.lookback,
            threshold: self.threshold,
            clip: self.clip,
            max_position: self.max_position,
            mids: self.mids@,
        }
    }
}

impl Trend {
    /// A momentum taker that has seen no mid.
    pub open spec fn fresh(
        lookback: usize,
        threshold: Price,
        clip: Qty,
        max_position: i64,
    ) -> Trend {
        Trend { lookback, threshold, clip, max_position, mids: Seq::empty() }
    }

    /// Answer to a wake-up: the actions, the next state and the next free id.
    pub open spec fn wake(self, sight: Sight, next_id: OrderId) -> (Seq<Action>, Trend, OrderId) {
        match mid_of(sight.book, sight.last_trade) {
            None => (Seq::empty(), self, next_id),
            Some(mid) => {
                let mids = self.mids.push(mid);
                let after = Trend { mids, ..self };
                if mids.len() <= self.lookback || next_id == u64::MAX {
                    (Seq::empty(), after, next_id)
                } else {
                    let mv = mid - mids[mids.len() - 1 - self.lookback];
                    if mv > self.threshold && sight.position < self.max_position {
                        (
                            seq![Action::Market { id: next_id, side: Side::Bid, qty: self.clip }],
                            after,
                            (next_id + 1) as OrderId,
                        )
                    } else if mv < -self.threshold && sight.position > -self.max_position {
                        (
                            seq![Action::Market { id: next_id, side: Side::Ask, qty: self.clip }],
                            after,
                            (next_id + 1) as OrderId,
                        )
                    } else {
                        (Seq::empty(), after, next_id)
                    }
                }
            },
        }
    }
}

impl Momentum {
    pub fn new(lookback: usize, threshold: Price, clip: Qty, max_position: i64) -> (momentum: Self)
        ensures
            momentum@ == Trend::fresh(lookback, threshold, clip, max_position),
    {
        Momentum { lookback, threshold, clip, max_position, mids: Vec::new() }
    }
}

impl Strategy for Momentum {
    open spec fn wakes(
        &self,
        sight: Sight,
        next_id: OrderId,
        actions: Seq<Action>,
        after: &Self,
        next_after: OrderId,
    ) -> bool {
        self@.wake(sight, next_id) == (actions, after@, next_after)
    }

    open spec fn hears(&self, ev: Event, after: &Self) -> bool {
        after@ == self@
    }

    fn on_wake(&mut self, view: &MarketView, ids: &mut IdGen, out: &mut Vec<Action>) {
        assert(out@ =~= Seq::empty());
        let mid: Price = match view.mid() {
            Some(mid) => mid,
            None => {
                return;
            },
        };
        self.mids.push(mid);
        if self.mids.len() <= self.lookback || ids.left() == 0 {
            return;
        }
        let earlier: Price = self.mids[self.mids.len() - 1 - self.lookback];
        let mv: i128 = mid as i128 - earlier as i128;
        if mv > self.threshold as i128 && view.position < self.max_position {
            out.push(Action::Market { id: ids.next_id(), side: Side::Bid, qty: self.clip });
        } else if mv < -(self.threshold as i128) && view.position as i128 > -(
        self.max_position as i128) {
            out.push(Action::Market { id: ids.next_id(), side: Side::Ask, qty: self.clip });
        }
        assert(out@ =~= old(self)@.wake(view@, old(ids)@).0);
    }

    fn on_event(&mut self, _ev: &Event) {
    }
}

/// The market maker is never the aggressor: it buys below every resting ask
/// and sells above every resting bid.
pub proof fn law_maker_never_crosses_the_touch(
    maker: Maker,
    sight: Sight,
    next_id: OrderId,
    i: int,
)
    requires
        sight.book.valid(),
        0 <= i < maker.wake(sight, next_id).0.len(),
    ensures
        maker.wake(sight, next_id).0[i] matches Action::Limit { side, price, .. } ==> match side {
            Side::Bid => forall|a: Price| #[trigger]
                sight.book.asks.contains_key(a) ==> price < a,
            Side::Ask => forall|b: Price| #[trigger]
                sight.book.bids.contains_key(b) ==> price > b,
        },
{
    lemma_best(sight.book.bids, Side::Bid);
    lemma_best(sight.book.asks, Side::Ask);
}

/// A side of the market maker has what it wants: a quote at the right price,
/// or none because its position limit holds it back.
pub open spec fn settled(quote: Option<Quote>, want: Price, held_back: bool) -> bool {
    match quote {
        Some(q) => q.price == want,
        None => held_back,
    }
}

/// A side that has what it wants is left alone, so that a quote keeps its
/// place in the queue: where both sides have, a wake-up is answered with
/// nothing.
pub proof fn law_maker_keeps_settled_quotes(maker: Maker, sight: Sight, next_id: OrderId)
    requires
        settled(maker.bid, maker.bid_at(sight), sight.position >= maker.max_position),
        settled(maker.ask, maker.ask_at(sight), sight.position <= -maker.max_position),
    ensures
        maker.wake(sight, next_id) == (Seq::<Action>::empty(), maker, next_id),
{
    assert(maker.wake(sight, next_id).0 =~= Seq::empty());
}

/// Woken again at once with the same sight, the market maker has nothing to
/// add: whatever it answered first, the second answer is empty and changes
/// neither it nor the ids.
pub proof fn law_second_wake_up_is_idle(
    maker: Maker,
    sight: Sight,
    next_id: OrderId,
    later_id: OrderId,
)
    requires
        maker.wake(sight, next_id).2 <= later_id,
    ensures
        ({
            let after = maker.wake(sight, next_id).1;
            after.wake(sight, later_id) == (Seq::<Action>::empty(), after, later_id)
        }),
{
    let after = maker.wake(sight, next_id).1;
    assert(after.wake(sight, later_id).0 =~= Seq::empty());
}

/// Without a mid the market maker does nothing and stays as it is.
pub proof fn law_maker_needs_a_mid(maker: Maker, sight: Sight, next_id: OrderId)
    requires
        mid_of(sight.book, sight.last_trade) is None,
    ensures
        maker.wake(sight, next_id) == (Seq::<Action>::empty(), maker, next_id),
{
}

/// The momentum taker acts only on a move beyond its threshold, up or down,
/// and only while its position is within its limit.
pub proof fn law_momentum_acts_beyond_its_threshold(trend: Trend, sight: Sight, next_id: OrderId)
    ensures
        trend.wake(sight, next_id).0.len() <= 1,
        trend.wake(sight, next_id).0.len() == 1 ==> {
            let mids = trend.wake(sight, next_id).1.mids;
            let mv = mids.last() - mids[mids.len() - 1 - trend.lookback];
            &&& mids.len() > trend.lookback
            &&& trend.wake(sight, next_id).0[0] matches Action::Market { id, side, qty } && {
                &&& id == next_id
                &&& qty == trend.clip
                &&& side == Side::Bid ==> mv > trend.threshold && sight.position
                    < trend.max_position
                &&& side == Side::Ask ==> mv < -trend.threshold && sight.position
                    > -trend.max_position
            }
        },
{
}

/// At its position limit the market maker stops adding to the position.
pub proof fn law_maker_stops_at_its_limit(maker: Maker, sight: Sight, next_id: OrderId, i: int)
    requires
        0 <= i < maker.wake(sight, next_id).0.len(),
    ensures
        maker.wake(sight, next_id).0[i] matches Action::Limit { side, qty, .. } ==> {
            &&& qty == maker.qty
            &&& side == Side::Bid ==> sight.position < maker.max_position
            &&& side == Side::Ask ==> sight.position > -maker.max_position
        },
{
}

/// Every order of the market maker has an id of its own, taken from the
/// generator in order.
pub proof fn law_maker_uses_fresh_ids(maker: Maker, sight: Sight, next_id: OrderId, i: int)
    requires
        0 <= i < maker.wake(sight, next_id).0.len(),
    ensures
        next_id <= maker.wake(sight, next_id).2 <= next_id + 2,
        maker.wake(sight, next_id).0[i] matches Action::Limit { id, .. } ==> next_id <= id
            < maker.wake(sight, next_id).2,
        forall|j: int|
            0 <= j < i ==> match (
                #[trigger] maker.wake(sight, next_id).0[j],
                maker.wake(sight, next_id).0[i],
            ) {
                (Action::Limit { id: a, .. }, Action::Limit { id: b, .. }) => a < b,
                _ => true,
            },
{
}

} // verus!
