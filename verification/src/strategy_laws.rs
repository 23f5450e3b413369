//! What the example strategies promise, wake-up by wake-up.
use vstd::prelude::*;

use crate::events::Event;
use crate::lemmas::{lemma_best, lemma_best_unique};
use crate::model::{best, is_best, BookState};
use crate::strategy::{
    mid_of, towards_zero, Action, Maker, MarketMaker, Momentum, Quote, Sight, Strategy, Trend,
};
use crate::types::{OrderId, Price, Qty, Side, Tif};
use crate::wire::Msg;

verus! {

/// Division towards zero: the quotient is the largest number, in size, whose
/// product with the divisor does not exceed the dividend in size, and has the
/// dividend's sign.
pub proof fn law_division_rounds_towards_zero(x: int, d: int)
    requires
        d > 0,
    ensures
        x >= 0 ==> towards_zero(x, d) >= 0 && towards_zero(x, d) * d <= x < (towards_zero(x, d)
            + 1) * d,
        towards_zero(-x, d) == -towards_zero(x, d),
{
    let q = x / d;
    assert(x >= 0 ==> q >= 0 && q * d <= x < (q + 1) * d) by (nonlinear_arith)
        requires
            d > 0,
            q == x / d,
    ;
    assert(0int / d == 0) by (nonlinear_arith)
        requires
            d > 0,
    ;
}

/// The mid lies halfway between the best bid and the best ask: twice the mid
/// is their sum, or short of it by one in size where the sum is odd. It lies
/// within the touch of a valid book. Where a side is empty, the mid is the
/// last trade.
pub proof fn law_mid_splits_the_touch(
    book: BookState,
    last_trade: Option<Price>,
    bid: Price,
    ask: Price,
)
    requires
        book.bids.dom().finite(),
        book.asks.dom().finite(),
    ensures
        is_best(book.bids, Side::Bid, bid) && is_best(book.asks, Side::Ask, ask) ==> {
            &&& mid_of(book, last_trade) matches Some(mid) && {
                &&& bid + ask >= 0 ==> 0 <= bid + ask - 2 * mid <= 1
                &&& bid + ask <= 0 ==> -1 <= bid + ask - 2 * mid <= 0
                &&& bid <= ask ==> bid <= mid <= ask
            }
        },
        book.bids.dom().len() == 0 || book.asks.dom().len() == 0 ==> mid_of(book, last_trade)
            == last_trade,
{
    if is_best(book.bids, Side::Bid, bid) && is_best(book.asks, Side::Ask, ask) {
        lemma_best_unique(book.bids, Side::Bid, bid);
        lemma_best_unique(book.asks, Side::Ask, ask);
    }
    lemma_best(book.bids, Side::Bid);
    lemma_best(book.asks, Side::Ask);
    if book.bids.dom().len() == 0 {
        assert(book.bids.dom() =~= Set::empty());
    }
    if book.asks.dom().len() == 0 {
        assert(book.asks.dom() =~= Set::empty());
    }
}

/// Where the market maker wants to buy: as far below the center as its half
/// spread says, however wide, but where an ask is in the way, one tick below
/// the best ask.
pub open spec fn wants_to_buy_at(maker: Maker, sight: Sight, mid: Price, price: int) -> bool {
    let far = mid - towards_zero(sight.position * maker.skew_per_lot_x100, 100)
        - maker.half_spread;
    match best(sight.book.asks, Side::Ask) {
        Some(ask) => {
            &&& far < ask ==> price == far
            &&& far >= ask ==> price == ask - 1
        },
        None => price == far,
    }
}

/// Where the market maker wants to sell: as far above the center as its half
/// spread says, however wide, but where a bid is in the way, one tick above
/// the best bid.
pub open spec fn wants_to_sell_at(maker: Maker, sight: Sight, mid: Price, price: int) -> bool {
    let far = mid - towards_zero(sight.position * maker.skew_per_lot_x100, 100)
        + maker.half_spread;
    match best(sight.book.bids, Side::Bid) {
        Some(bid) => {
            &&& far > bid ==> price == far
            &&& far <= bid ==> price == bid + 1
        },
        None => price == far,
    }
}

/// Every new quote is exactly where it is wanted: half a spread from the
/// center on its side, or one tick inside a touch that is in the way.
pub proof fn law_maker_quotes_half_a_spread_out(
    maker: Maker,
    sight: Sight,
    next_id: OrderId,
    i: int,
)
    requires
        0 <= i < maker.wake(sight, next_id).0.len(),
    ensures
        mid_of(sight.book, sight.last_trade) matches Some(mid) && {
            maker.wake(sight, next_id).0[i] matches Action::Limit { side, price, .. } ==> match side {
                Side::Bid => wants_to_buy_at(maker, sight, mid, price as int),
                Side::Ask => wants_to_sell_at(maker, sight, mid, price as int),
            }
        },
{
}

/// Where no touch is in the way, the two sides that the market maker quotes
/// lie exactly twice the half spread apart, whatever the half spread, around
/// a center that is the mid while the position is flat.
pub proof fn law_maker_quotes_its_spread(
    maker: Maker,
    sight: Sight,
    next_id: OrderId,
    i: int,
    j: int,
)
    requires
        0 <= i < maker.wake(sight, next_id).0.len(),
        0 <= j < maker.wake(sight, next_id).0.len(),
        maker.wake(sight, next_id).0[i] matches Action::Limit { side, .. } && side == Side::Bid,
        maker.wake(sight, next_id).0[j] matches Action::Limit { side, .. } && side == Side::Ask,
        sight.book.valid(),
    ensures
        ({
            let mid = mid_of(sight.book, sight.last_trade)->0;
            let bid = maker.wake(sight, next_id).0[i]->Limit_price;
            let ask = maker.wake(sight, next_id).0[j]->Limit_price;
            let free = (forall|a: Price| #[trigger]
                sight.book.asks.contains_key(a) ==> bid + 1 < a) && (forall|b: Price| #[trigger]
                sight.book.bids.contains_key(b) ==> b + 1 < ask);
            &&& free ==> ask - bid == 2 * maker.half_spread
            &&& free && sight.position == 0 ==> mid - bid == maker.half_spread && ask - mid
                == maker.half_spread
        }),
{
    lemma_best(sight.book.bids, Side::Bid);
    lemma_best(sight.book.asks, Side::Ask);
    law_maker_quotes_half_a_spread_out(maker, sight, next_id, i);
    law_maker_quotes_half_a_spread_out(maker, sight, next_id, j);
    let s = maker.skew_per_lot_x100 as int;
    assert(0 * s == 0);
}

/// Ids that a wake-up takes: one for each side without a quote at the price
/// wanted there whose position limit allows one.
pub open spec fn ids_needed(maker: Maker, sight: Sight, bid_at: Price, ask_at: Price) -> int {
    let bid_in_place = maker.bid matches Some(q) && q.price == bid_at;
    let ask_in_place = maker.ask matches Some(q) && q.price == ask_at;
    (if !bid_in_place && sight.position < maker.max_position {
        1int
    } else {
        0
    }) + (if !ask_in_place && -sight.position < maker.max_position {
        1int
    } else {
        0
    })
}

/// A quote that is where it is wanted is kept, and any other is pulled: the
/// cancels are exactly those of quotes off their price, one each, the bid's
/// first, and come before the new quotes.
pub proof fn law_maker_pulls_exactly_stale_quotes(
    maker: Maker,
    sight: Sight,
    next_id: OrderId,
    mid: Price,
    bid_at: Price,
    ask_at: Price,
    id: OrderId,
)
    requires
        mid_of(sight.book, sight.last_trade) == Some(mid),
        wants_to_buy_at(maker, sight, mid, bid_at as int),
        wants_to_sell_at(maker, sight, mid, ask_at as int),
        next_id + ids_needed(maker, sight, bid_at, ask_at) <= u64::MAX,
    ensures
        maker.wake(sight, next_id).0.contains(Action::Cancel { id }) <==> {
            ||| maker.bid matches Some(q) && q.id == id && q.price != bid_at
            ||| maker.ask matches Some(q) && q.id == id && q.price != ask_at
        },
        forall|i: int, j: int|
            0 <= i < maker.wake(sight, next_id).0.len() && 0 <= j < maker.wake(
                sight,
                next_id,
            ).0.len() && #[trigger] maker.wake(sight, next_id).0[i] is Limit
                && #[trigger] maker.wake(sight, next_id).0[j] is Cancel ==> j < i,
        forall|i: int|
            0 <= i < maker.wake(sight, next_id).0.len() ==> maker.wake(sight, next_id).0[i] is Limit
                || #[trigger] maker.wake(sight, next_id).0[i] is Cancel,
        maker.bid matches Some(q) ==> (q.price != bid_at ==> maker.wake(sight, next_id).0[0] == (
        Action::Cancel { id: q.id })),
        maker.wake(sight, next_id).0.len() == ids_needed(maker, sight, bid_at, ask_at) + (
        if maker.bid matches Some(q) && q.price != bid_at {
            1int
        } else {
            0
        }) + (if maker.ask matches Some(q) && q.price != ask_at {
            1int
        } else {
            0
        }),
{
    let actions = maker.wake(sight, next_id).0;
    assert(maker.want_bid(sight, mid) == bid_at);
    assert(maker.want_ask(sight, mid) == ask_at);
    assert(maker.can_quote(sight));
    if maker.bid matches Some(q) && q.price != bid_at {
        assert(actions[0] == Action::Cancel { id: maker.bid->0.id });
    }
    if maker.ask matches Some(q) && q.price != ask_at {
        let at: int = if maker.bid matches Some(b) && b.price != bid_at {
            1
        } else {
            0
        };
        assert(actions[at] == Action::Cancel { id: maker.ask->0.id });
    }
}

/// One side after a wake-up: the old quote where it is at the price wanted,
/// else a fresh one where the side may grow, else none.
pub open spec fn quoted(
    before: Option<Quote>,
    want: Price,
    may_grow: bool,
    fresh: Quote,
) -> Option<Quote> {
    if before matches Some(q) && q.price == want {
        before
    } else if may_grow {
        Some(fresh)
    } else {
        None
    }
}

/// What is newly quoted on a side is what was asked of the exchange there, and
/// nothing else was.
pub open spec fn asked_for(
    actions: Seq<Action>,
    before: Option<Quote>,
    after: Option<Quote>,
    side: Side,
) -> bool {
    &&& after != before ==> (after matches Some(q) ==> actions.contains(
        Action::Limit { id: q.id, side, price: q.price, qty: q.remaining, tif: Tif::Gtc },
    ))
    &&& forall|i: int|
        0 <= i < actions.len() ==> (#[trigger] actions[i] matches Action::Limit {
            id,
            side: s,
            price,
            qty,
            tif,
        } ==> (s == side ==> {
            &&& after != before
            &&& after == Some(Quote { id, price, remaining: qty })
            &&& tif == Tif::Gtc
        }))
}

/// After a wake-up each side that may grow has a quote at the price that is
/// wanted there: the old one, if it was there already, else a new one of full
/// size. A side at its position limit keeps an old quote that is in place and
/// gets no new one. What is newly quoted is what was asked of the exchange,
/// under the next ids; nothing else of the market maker changes.
pub proof fn law_maker_ends_up_quoting(
    maker: Maker,
    sight: Sight,
    next_id: OrderId,
    mid: Price,
    bid_at: Price,
    ask_at: Price,
)
    requires
        mid_of(sight.book, sight.last_trade) == Some(mid),
        wants_to_buy_at(maker, sight, mid, bid_at as int),
        wants_to_sell_at(maker, sight, mid, ask_at as int),
        next_id + ids_needed(maker, sight, bid_at, ask_at) <= u64::MAX,
    ensures
        ({
            let (actions, after, next) = maker.wake(sight, next_id);
            let new_bid = Quote { id: next_id, price: bid_at, remaining: maker.qty };
            let new_ask = Quote { id: (next - 1) as OrderId, price: ask_at, remaining: maker.qty };
            &&& after.bid == quoted(
                maker.bid,
                bid_at,
                sight.position < maker.max_position,
                new_bid,
            )
            &&& after.ask == quoted(
                maker.ask,
                ask_at,
                -sight.position < maker.max_position,
                new_ask,
            )
            &&& asked_for(actions, maker.bid, after.bid, Side::Bid)
            &&& asked_for(actions, maker.ask, after.ask, Side::Ask)
            &&& next - next_id == (if after.bid != maker.bid && after.bid is Some {
                1int
            } else {
                0
            }) + (if after.ask != maker.ask && after.ask is Some {
                1int
            } else {
                0
            })
            &&& after.half_spread == maker.half_spread && after.qty == maker.qty
            &&& after.skew_per_lot_x100 == maker.skew_per_lot_x100
            &&& after.max_position == maker.max_position
        }),
{
    let (actions, after, next) = maker.wake(sight, next_id);
    assert(maker.want_bid(sight, mid) == bid_at);
    assert(maker.want_ask(sight, mid) == ask_at);
    assert(maker.can_quote(sight));
    if maker.bids_anew(sight) {
        let at: int = (if Maker::pulls(maker.bid, bid_at) {
            1int
        } else {
            0
        }) + (if Maker::pulls(maker.ask, ask_at) {
            1int
        } else {
            0
        });
        assert(actions[at] is Limit);
    }
    if maker.asks_anew(sight) {
        assert(actions[actions.len() - 1] is Limit);
    }
}

/// The market maker stays out only where it has to: where there is no mid,
/// where a price that it wants is beyond the price type, or where ids have run
/// out for the quotes that are due. It then stays as it is.
pub proof fn law_maker_stays_out_only_where_it_must(
    maker: Maker,
    sight: Sight,
    next_id: OrderId,
    mid: Price,
    bid_at: int,
    ask_at: int,
)
    requires
        mid_of(sight.book, sight.last_trade) == Some(mid),
        wants_to_buy_at(maker, sight, mid, bid_at),
        wants_to_sell_at(maker, sight, mid, ask_at),
    ensures
        maker.can_quote(sight) <==> {
            &&& i64::MIN <= bid_at <= i64::MAX
            &&& i64::MIN <= ask_at <= i64::MAX
        },
        !maker.can_quote(sight) || next_id + ids_needed(
            maker,
            sight,
            bid_at as Price,
            ask_at as Price,
        ) > u64::MAX ==> maker.wake(sight, next_id) == (Seq::<Action>::empty(), maker, next_id),
{
    assert(maker.want_bid(sight, mid) == bid_at);
    assert(maker.want_ask(sight, mid) == ask_at);
}

/// What becomes of a quote of the market maker by an event.
pub open spec fn quote_after(quote: Option<Quote>, ev: Event) -> Option<Quote> {
    match (quote, ev) {
        (Some(q), Event::Trade { maker, taker, qty, .. }) => if q.id != maker && q.id != taker {
            quote
        } else if qty < q.remaining {
            Some(Quote { id: q.id, price: q.price, remaining: (q.remaining - qty) as Qty })
        } else {
            None
        },
        (Some(q), Event::Canceled { id, .. }) => if q.id == id {
            None
        } else {
            quote
        },
        (Some(q), Event::Rejected { id, .. }) => if q.id == id {
            None
        } else {
            quote
        },
        _ => quote,
    }
}

/// The market maker follows its quotes through the events: one that trades is
/// left with what did not trade, one that is filled, canceled or rejected is
/// forgotten, and any other stays as it was. The two sides are followed in the
/// same way, and nothing else of it changes.
pub proof fn law_maker_follows_its_quotes(maker: Maker, ev: Event)
    ensures
        maker.hear(ev).bid == quote_after(maker.bid, ev),
        maker.hear(ev).ask == quote_after(maker.ask, ev),
        maker.hear(ev).half_spread == maker.half_spread && maker.hear(ev).qty == maker.qty,
        maker.hear(ev).skew_per_lot_x100 == maker.skew_per_lot_x100,
        maker.hear(ev).max_position == maker.max_position,
{
}

/// A quote is forgotten exactly when all of it has traded: trades of its lots
/// in any two parts leave the same as one trade of both, and a quote never
/// grows.
pub proof fn law_quotes_shrink_by_what_trades(
    maker: Maker,
    quote: Quote,
    other: OrderId,
    price: Price,
    a: Qty,
    b: Qty,
)
    requires
        maker.bid == Some(quote),
        quote.id != other,
        quote.remaining > 0,
        a + b <= u64::MAX,
    ensures
        ({
            let fill = |qty: int|
                Event::Trade { maker: quote.id, taker: other, price, qty: qty as Qty };
            let after = maker.hear(fill(a as int)).hear(fill(b as int));
            &&& after.bid == maker.hear(fill(a + b)).bid
            &&& after.bid is None <==> a + b >= quote.remaining
            &&& after.bid matches Some(left) ==> left.remaining + a + b == quote.remaining
                && left.id == quote.id && left.price == quote.price
        }),
{
}

/// The momentum taker remembers every mid it was woken with, in order, and
/// nothing else of it changes. It does nothing without a mid or an id.
pub proof fn law_momentum_remembers_mids(trend: Trend, sight: Sight, next_id: OrderId)
    ensures
        ({
            let after = trend.wake(sight, next_id).1;
            &&& after.mids == (match mid_of(sight.book, sight.last_trade) {
                Some(mid) => trend.mids.push(mid),
                None => trend.mids,
            })
            &&& after.lookback == trend.lookback && after.threshold == trend.threshold
            &&& after.clip == trend.clip && after.max_position == trend.max_position
        }),
        mid_of(sight.book, sight.last_trade) is None || next_id == u64::MAX ==> {
            let (actions, after, next) = trend.wake(sight, next_id);
            actions.len() == 0 && next == next_id
        },
{
}

/// The momentum taker acts whenever the move since `lookback` wake-ups ago
/// exceeds its threshold and its position allows it: it buys its clip after a
/// rise and sells it after a fall, with the next id. It has to have been woken
/// often enough to look back that far.
pub proof fn law_momentum_follows_every_move(trend: Trend, sight: Sight, next_id: OrderId)
    requires
        mid_of(sight.book, sight.last_trade) is Some,
        next_id < u64::MAX,
    ensures
        ({
            let mid = mid_of(sight.book, sight.last_trade)->0;
            let mids = trend.mids.push(mid);
            let (actions, after, next) = trend.wake(sight, next_id);
            let ready = trend.mids.len() >= trend.lookback;
            let mv = mid - mids[trend.mids.len() - trend.lookback];
            let buys = ready && mv > trend.threshold && sight.position < trend.max_position;
            let sells = ready && !buys && mv < -trend.threshold && sight.position
                > -trend.max_position;
            &&& buys <==> actions == seq![
                Action::Market { id: next_id, side: Side::Bid, qty: trend.clip },
            ]
            &&& sells <==> actions == seq![
                Action::Market { id: next_id, side: Side::Ask, qty: trend.clip },
            ]
            &&& !buys && !sells <==> actions.len() == 0
            &&& next == next_id + actions.len()
        }),
{
    let bought = seq![Action::Market { id: next_id, side: Side::Bid, qty: trend.clip }];
    let sold = seq![Action::Market { id: next_id, side: Side::Ask, qty: trend.clip }];
    assert(bought[0] != sold[0]);
}

/// An action asks of the exchange what it says: the request of its kind with
/// all of its fields.
pub proof fn law_actions_ask_what_they_say(action: Action)
    ensures
        match action {
            Action::Limit { id, side, price, qty, tif } => action.request() matches Msg::New {
                id: id1,
                side: side1,
                price: price1,
                qty: qty1,
                tif: tif1,
            } && id1 == id && side1 == side && price1 == price && qty1 == qty && tif1 == tif,
            Action::Market { id, side, qty } => action.request() matches Msg::Market {
                id: id1,
                side: side1,
                qty: qty1,
            } && id1 == id && side1 == side && qty1 == qty,
            Action::Cancel { id } => action.request() matches Msg::Cancel { id: id1 } && id1 == id,
            Action::Replace { id, price, qty } => action.request() matches Msg::Replace {
                id: id1,
                price: price1,
                qty: qty1,
            } && id1 == id && price1 == price && qty1 == qty,
        },
{
}

/// The example strategies answer by what their views show, and by nothing
/// else: the market maker as [`Maker`] wakes and hears, the momentum taker as
/// [`Trend`] wakes, deaf to events.
pub proof fn law_strategies_answer_by_their_views(
    maker: MarketMaker,
    maker_after: MarketMaker,
    momentum: Momentum,
    momentum_after: Momentum,
    sight: Sight,
    next_id: OrderId,
    actions: Seq<Action>,
    next_after: OrderId,
    ev: Event,
)
    ensures
        maker.wakes(sight, next_id, actions, &maker_after, next_after) <==> {
            &&& maker@.wake(sight, next_id).0 == actions
            &&& maker@.wake(sight, next_id).1 == maker_after@
            &&& maker@.wake(sight, next_id).2 == next_after
        },
        maker.hears(ev, &maker_after) <==> maker@.hear(ev) == maker_after@,
        momentum.wakes(sight, next_id, actions, &momentum_after, next_after) <==> {
            &&& momentum@.wake(sight, next_id).0 == actions
            &&& momentum@.wake(sight, next_id).1 == momentum_after@
            &&& momentum@.wake(sight, next_id).2 == next_after
        },
        momentum.hears(ev, &momentum_after) <==> momentum_after@ == momentum@,
{
}

/// A new strategy is set up as it was asked to be, whatever the settings, and
/// has done nothing yet: the market maker has no quotes, the momentum taker
/// has seen no mid.
pub proof fn law_strategies_are_set_up_as_asked(
    half_spread: Price,
    qty: Qty,
    skew_per_lot_x100: i64,
    lookback: usize,
    threshold: Price,
    max_position: i64,
)
    ensures
        ({
            let maker = Maker::fresh(half_spread, qty, skew_per_lot_x100, max_position);
            &&& maker.half_spread == half_spread && maker.qty == qty
            &&& maker.skew_per_lot_x100 == skew_per_lot_x100
            &&& maker.max_position == max_position
            &&& maker.bid is None && maker.ask is None
        }),
        ({
            let trend = Trend::fresh(lookback, threshold, qty, max_position);
            &&& trend.lookback == lookback && trend.threshold == threshold
            &&& trend.clip == qty && trend.max_position == max_position
            &&& trend.mids.len() == 0
        }),
{
}

} // verus!
