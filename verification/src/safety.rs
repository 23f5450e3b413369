//! When a simulation is safe, so that a run owes a report.
//!
//! A strategy with modest [`Habits`] asks for few actions at a time, of few
//! lots each, priced not far from what it sees. Over a run that is short
//! enough for those habits no number comes near the end of its type, and every
//! order of the strategy that trades has its side noted.
use vstd::prelude::*;

use crate::account::Account;
use crate::events::Event;
use crate::flow::{law_flow_stays_orderly, law_messages_keep_to_terms, orderly, FlowState};
use crate::laws::{
    gone, law_price_time_priority, law_trades_at_maker_price, lemma_traded_last, traded,
};
use crate::lemmas::{lemma_best, lemma_sweep};
use crate::model::{best, queue_at, total, BookState, Resting};
use crate::replay::{law_message_events_are_bounded, lots_of};
use crate::requests::{
    law_matching_keeps_book_valid, law_removal_keeps_book_valid, law_room_admits_limit,
    law_room_admits_replace, lemma_found, lemma_ids_finite, lemma_lively,
};
use crate::rng::stepped;
use crate::sim::{
    answered, answers, booked, drawdown, is_strategy, law_drawdown_is_largest_fall, left_book, ran,
    stopped, Call, Ledger, Report, SimConfig, SimState,
};
use crate::sim_laws::{
    law_messages_keep_book_valid, lemma_answers_split, lemma_background_extends_calls,
    lemma_consulted_calls, lemma_one_call, lemma_step_answered,
};
use crate::strategy::{
    mid_of, towards_zero, Action, Maker, MarketMaker, Momentum, Sight, Strategy, Trend,
};
use crate::types::{OrderId, Price, Qty, Side, Tif};
use crate::wire::Msg;

verus! {

/// The order that a message is about.
pub open spec fn subject(msg: Msg) -> OrderId {
    match msg {
        Msg::New { id, .. } => id,
        Msg::Cancel { id } => id,
        Msg::Replace { id, .. } => id,
        Msg::Market { id, .. } => id,
    }
}

/// The side that a message trades for: its own or that of the order that it
/// replaces.
pub open spec fn trading_side(book: BookState, msg: Msg) -> Side {
    match msg {
        Msg::New { side, .. } => side,
        Msg::Market { side, .. } => side,
        Msg::Cancel { id } => book.find(id).0,
        Msg::Replace { id, .. } => book.find(id).0,
    }
}

/// The event, if it is a trade, is one of `taker` with an order that rests on
/// side `maker_side` of the book, at that order's price.
pub open spec fn trades_with(book: BookState, maker_side: Side, taker: OrderId, ev: Event) -> bool {
    match ev {
        Event::Trade { maker, taker: t, price, qty } => {
            &&& t == taker
            &&& qty > 0
            &&& exists|i: int| #[trigger] book.sits_at(maker, maker_side, price, i)
        },
        _ => true,
    }
}

proof fn lemma_entry_trades(
    book: BookState,
    first: Event,
    id: OrderId,
    side: Side,
    limit: Option<Price>,
    qty: Qty,
    last: Event,
)
    requires
        book.valid(),
        !(first is Trade),
        !(last is Trade),
    ensures
        ({
            let short = seq![first] + book.swept(id, side, limit, qty).trades;
            let long = short.push(last);
            &&& forall|i: int|
                0 <= i < short.len() ==> trades_with(book, side.opposite(), id, #[trigger] short[i])
            &&& forall|i: int|
                0 <= i < long.len() ==> trades_with(book, side.opposite(), id, #[trigger] long[i])
        }),
{
    let maker = side.opposite();
    let queues = book.queues(maker);
    let trades = book.swept(id, side, limit, qty).trades;
    let short = seq![first] + trades;
    let long = short.push(last);
    lemma_lively(book, maker);
    law_trades_at_maker_price(queues, maker, limit, qty as nat, id);
    assert forall|i: int| 0 <= i < short.len() implies trades_with(
        book,
        maker,
        id,
        #[trigger] short[i],
    ) by {
        if i > 0 {
            let ev = trades[i - 1];
            assert(short[i] == ev);
            let k = choose|k: int|
                queues.contains_key(ev->price) && 0 <= k < queues[ev->price].len()
                    && #[trigger] queues[ev->price][k].id == ev->maker && 0 < ev->Trade_qty
                    <= queues[ev->price][k].qty;
            assert(book.sits_at(ev->maker, maker, ev->price, k));
        }
    }
    assert forall|i: int| 0 <= i < long.len() implies trades_with(
        book,
        maker,
        id,
        #[trigger] long[i],
    ) by {
        if i < short.len() {
            assert(long[i] == short[i]);
        }
    }
}

/// Every trade of a message is one of its subject with an order that rests on
/// the other side, at that order's price.
pub proof fn law_messages_trade_with_resting_orders(book: BookState, msg: Msg, i: int)
    requires
        book.valid(),
        0 <= i < book.apply(msg).events.len(),
    ensures
        trades_with(
            book,
            trading_side(book, msg).opposite(),
            subject(msg),
            book.apply(msg).events[i],
        ),
{
    match msg {
        Msg::New { id, side, price, qty, .. } => {
            let left = book.swept(id, side, Some(price), qty).remaining as Qty;
            lemma_entry_trades(
                book,
                Event::Accepted { id },
                id,
                side,
                Some(price),
                qty,
                Event::Canceled { id, remaining: left },
            );
        },
        Msg::Market { id, side, qty } => {
            let left = book.swept(id, side, None, qty).remaining as Qty;
            lemma_entry_trades(
                book,
                Event::Accepted { id },
                id,
                side,
                None,
                qty,
                Event::Canceled { id, remaining: left },
            );
        },
        Msg::Replace { id, price, qty } => {
            if book.holds(id) {
                law_removal_keeps_book_valid(book, id);
                let side = book.find(id).0;
                let out = book.without(id);
                assert(out.queues(side.opposite()) == book.queues(side.opposite()));
                lemma_entry_trades(
                    out,
                    Event::Replaced { id },
                    id,
                    side,
                    Some(price),
                    qty,
                    Event::Replaced { id },
                );
                let ev = book.apply(msg).events[i];
                assert(trades_with(out, side.opposite(), id, ev) || !(ev is Trade));
                if ev is Trade {
                    let k = choose|k: int| #[trigger]
                        out.sits_at(ev->maker, side.opposite(), ev->price, k);
                    assert(book.sits_at(ev->maker, side.opposite(), ev->price, k));
                }
            }
        },
        Msg::Cancel { .. } => {},
    }
}

/// An order of this id rested at this price, with at least these lots.
pub open spec fn rested_before(book: BookState, side: Side, price: Price, o: Resting) -> bool {
    exists|k: int| #[trigger]
        book.has(side, price, k) && book.order_at(side, price, k).id == o.id && o.qty
            <= book.order_at(side, price, k).qty
}

proof fn lemma_orders_after_match(
    book: BookState,
    id: OrderId,
    side: Side,
    limit: Option<Price>,
    qty: Qty,
)
    requires
        book.valid(),
    ensures
        forall|s: Side, p: Price, j: int| #[trigger]
            book.after_match(id, side, limit, qty).has(s, p, j) ==> rested_before(
                book,
                s,
                p,
                book.after_match(id, side, limit, qty).order_at(s, p, j),
            ),
{
    let maker = side.opposite();
    let before = book.queues(maker);
    let after = book.after_match(id, side, limit, qty);
    let swept = book.swept(id, side, limit, qty);
    lemma_lively(book, maker);
    law_price_time_priority(before, maker, limit, qty as nat, id);
    assert(after.queues(maker) == swept.queues);
    assert(after.queues(side) == book.queues(side));
    assert forall|s: Side, p: Price, j: int| #[trigger] after.has(s, p, j) implies rested_before(
        book,
        s,
        p,
        after.order_at(s, p, j),
    ) by {
        if s == maker {
            let k = j + gone(before, swept.queues, p);
            assert(swept.queues.contains_key(p));
            assert(swept.queues[p][j].id == before[p][k].id);
            assert(book.has(s, p, k));
        } else {
            assert(s == side);
            assert(book.has(s, p, j));
        }
    }
}

proof fn lemma_orders_without(book: BookState, id: OrderId)
    requires
        book.valid(),
        book.holds(id),
    ensures
        forall|s: Side, p: Price, j: int| #[trigger]
            book.without(id).has(s, p, j) ==> rested_before(
                book,
                s,
                p,
                book.without(id).order_at(s, p, j),
            ),
{
    lemma_found(book, id);
    let (side, price, i) = book.find(id);
    let after = book.without(id);
    assert forall|s: Side, p: Price, j: int| #[trigger] after.has(s, p, j) implies rested_before(
        book,
        s,
        p,
        after.order_at(s, p, j),
    ) by {
        assert(s == side || s == side.opposite());
        let k = if s == side && p == price && j >= i {
            j + 1
        } else {
            j
        };
        assert(book.has(s, p, k));
        assert(book.order_at(s, p, k) == after.order_at(s, p, j));
    }
}

/// The order was there before the message, at the same price and with at least
/// as many lots, or is what the message left.
pub open spec fn accounted_for(
    book: BookState,
    msg: Msg,
    side: Side,
    price: Price,
    o: Resting,
) -> bool {
    ||| rested_before(book, side, price, o)
    ||| {
        &&& o.id == subject(msg)
        &&& o.qty <= lots_of(msg)
        &&& match msg {
            Msg::New { price: at, .. } => price == at,
            Msg::Replace { price: at, .. } => price == at,
            _ => false,
        }
    }
}

proof fn lemma_orders_after_entry(
    start: BookState,
    book: BookState,
    first: Event,
    msg: Msg,
    side: Side,
    price: Price,
    qty: Qty,
    tif: Tif,
)
    requires
        start.valid(),
        book.valid(),
        forall|s: Side, p: Price, j: int| #[trigger]
            book.has(s, p, j) ==> rested_before(start, s, p, book.order_at(s, p, j)),
        lots_of(msg) == qty,
        match msg {
            Msg::New { price: at, .. } => price == at,
            Msg::Replace { price: at, .. } => price == at,
            _ => false,
        },
    ensures
        ({
            let after = book.enter(first, subject(msg), side, price, qty, tif).book;
            forall|s: Side, p: Price, j: int| #[trigger]
                after.has(s, p, j) ==> accounted_for(start, msg, s, p, after.order_at(s, p, j))
        }),
{
    let id = subject(msg);
    let mid = book.after_match(id, side, Some(price), qty);
    let after = book.enter(first, id, side, price, qty, tif).book;
    let swept = book.swept(id, side, Some(price), qty);
    lemma_orders_after_match(book, id, side, Some(price), qty);
    lemma_lively(book, side.opposite());
    lemma_sweep(
        book.queues(side.opposite()),
        side.opposite(),
        Some(price),
        qty as nat,
        id,
    );
    assert forall|s: Side, p: Price, j: int| #[trigger] after.has(s, p, j) implies accounted_for(
        start,
        msg,
        s,
        p,
        after.order_at(s, p, j),
    ) by {
        let o = after.order_at(s, p, j);
        if mid.has(s, p, j) && mid.order_at(s, p, j) == o {
            assert(rested_before(book, s, p, o));
            let k = choose|k: int| #[trigger]
                book.has(s, p, k) && book.order_at(s, p, k).id == o.id && o.qty
                    <= book.order_at(s, p, k).qty;
            assert(rested_before(start, s, p, book.order_at(s, p, k)));
        } else {
            assert(s == side || s == side.opposite());
            assert(s == side && p == price && o.id == id && o.qty <= qty);
        }
    }
}

/// Whatever rests after a message rested before it, or is what the message
/// left.
pub proof fn law_messages_account_for_orders(
    book: BookState,
    msg: Msg,
    side: Side,
    price: Price,
    j: int,
)
    requires
        book.valid(),
        book.apply(msg).book.has(side, price, j),
    ensures
        accounted_for(
            book,
            msg,
            side,
            price,
            book.apply(msg).book.order_at(side, price, j),
        ),
{
    let after = book.apply(msg).book;
    assert forall|s: Side, p: Price, k: int| #[trigger] book.has(s, p, k) implies rested_before(
        book,
        s,
        p,
        book.order_at(s, p, k),
    ) by {}
    match msg {
        Msg::New { id, side: s, price: at, qty, tif } => {
            let first = Event::Accepted { id };
            lemma_orders_after_entry(book, book, first, msg, s, at, qty, tif);
            if after == book {
                assert(book.has(side, price, j));
            } else {
                assert(after == book.enter(first, subject(msg), s, at, qty, tif).book);
                assert(after.has(side, price, j));
            }
        },
        Msg::Market { id, side: s, qty } => {
            lemma_orders_after_match(book, id, s, None, qty);
        },
        Msg::Cancel { id } => {
            if book.holds(id) {
                lemma_orders_without(book, id);
            }
        },
        Msg::Replace { id, price: at, qty } => {
            if book.holds(id) && qty > 0 {
                lemma_found(book, id);
                let (s, old_price, i) = book.find(id);
                if at == old_price && qty < book.order_at(s, old_price, i).qty {
                    assert(side == s || side == s.opposite());
                    assert(book.has(side, price, j));
                } else {
                    law_removal_keeps_book_valid(book, id);
                    lemma_orders_without(book, id);
                    lemma_orders_after_entry(
                        book,
                        book.without(id),
                        Event::Replaced { id },
                        msg,
                        s,
                        at,
                        qty,
                        Tif::Gtc,
                    );
                }
            }
        },
    }
}

/// An order that a message cancels does not rest after it.
pub proof fn law_canceled_orders_are_gone(book: BookState, msg: Msg, i: int)
    requires
        book.valid(),
        0 <= i < book.apply(msg).events.len(),
    ensures
        book.apply(msg).events[i] matches Event::Canceled { id, .. } ==> !book.apply(
            msg,
        ).book.holds(id),
{
    law_messages_trade_with_resting_orders(book, msg, i);
    let ev = book.apply(msg).events[i];
    match msg {
        Msg::New { id, side, price, qty, tif } => {
            law_matching_keeps_book_valid(book, id, side, Some(price), qty);
            lemma_entry_cancels(book, id, side, Some(price), qty);
        },
        Msg::Market { id, side, qty } => {
            law_matching_keeps_book_valid(book, id, side, None, qty);
            lemma_entry_cancels(book, id, side, None, qty);
        },
        Msg::Cancel { id } => {
            if book.holds(id) {
                law_removal_keeps_book_valid(book, id);
            }
        },
        Msg::Replace { id, price, qty } => {
            if book.holds(id) && qty > 0 {
                law_removal_keeps_book_valid(book, id);
                lemma_entry_cancels(
                    book.without(id),
                    id,
                    book.find(id).0,
                    Some(price),
                    qty,
                );
            }
        },
    }
}

/// The fills of an order are trades.
proof fn lemma_entry_cancels(
    book: BookState,
    id: OrderId,
    side: Side,
    limit: Option<Price>,
    qty: Qty,
)
    requires
        book.valid(),
    ensures
        forall|i: int|
            0 <= i < book.swept(id, side, limit, qty).trades.len() ==> #[trigger] book.swept(
                id,
                side,
                limit,
                qty,
            ).trades[i] is Trade,
{
    lemma_lively(book, side.opposite());
    law_trades_at_maker_price(
        book.queues(side.opposite()),
        side.opposite(),
        limit,
        qty as nat,
        id,
    );
}

/// Largest size of a price that a safe simulation meets: 2^62.
pub open spec fn price_cap() -> int {
    0x4000_0000_0000_0000
}

/// The account has traded at most `x` lots, at prices within the cap.
pub open spec fn within(account: Account, x: int) -> bool {
    &&& -x <= account.position <= x
    &&& account.fills <= x
    &&& account.traded_lots <= x
    &&& account.bought_lots <= x
    &&& account.sold_lots <= x
    &&& -(x * price_cap()) <= account.cash <= x * price_cap()
    &&& -(x * price_cap()) <= account.bought_notional <= x * price_cap()
    &&& -(x * price_cap()) <= account.sold_notional <= x * price_cap()
}

proof fn lemma_fill_within(account: Account, side: Side, price: Price, qty: Qty, x: int)
    requires
        within(account, x),
        qty > 0,
        -price_cap() <= price <= price_cap(),
        x + qty <= 0x0200_0000_0000_0000,
    ensures
        account.can_fill(side, price, qty),
        within(account.filled(side, price, qty), x + qty),
{
    assert(-(qty * 0x4000_0000_0000_0000) <= price * qty <= qty * 0x4000_0000_0000_0000)
        by (nonlinear_arith)
        requires
            qty > 0,
            -0x4000_0000_0000_0000 <= price <= 0x4000_0000_0000_0000,
    ;
}

/// The event can be booked, if it is a trade: it is of some lots at a price
/// within the cap, and the sides of the strategy's orders are noted.
pub open spec fn routable(sides: Map<OrderId, Side>, ev: Event) -> bool {
    match ev {
        Event::Trade { maker, taker, price, qty } => {
            &&& qty > 0
            &&& -price_cap() <= price <= price_cap()
            &&& is_strategy(maker) ==> sides.contains_key(maker)
            &&& is_strategy(taker) ==> sides.contains_key(taker)
        },
        _ => true,
    }
}

/// Routing books every trade at most twice.
proof fn lemma_routing_within(
    ledger: Ledger,
    sides: Map<OrderId, Side>,
    events: Seq<Event>,
    x: int,
)
    requires
        within(ledger.account, x),
        x >= 0,
        x + 2 * traded(events) <= 0x0200_0000_0000_0000,
        forall|i: int| 0 <= i < events.len() ==> routable(sides, #[trigger] events[i]),
    ensures
        ledger.can_route(sides, events),
        within(ledger.routed(sides, events).account, x + 2 * traded(events)),
    decreases events.len(),
{
    if events.len() > 0 {
        let front = events.drop_last();
        lemma_traded_last(events);
        assert forall|i: int| 0 <= i < front.len() implies routable(sides, #[trigger] front[i]) by {
            assert(front[i] == events[i]);
        }
        lemma_routing_within(ledger, sides, front, x);
        let at = ledger.routed(sides, front);
        let y = x + 2 * traded(front);
        assert(routable(sides, events[events.len() - 1]));
        match events.last() {
            Event::Trade { maker, taker, price, qty } => {
                if is_strategy(maker) {
                    lemma_fill_within(at.account, sides[maker], price, qty, y);
                }
                let half = booked(at.account, sides, maker, price, qty);
                assert(within(half, y + qty));
                if is_strategy(taker) {
                    lemma_fill_within(half, sides[taker], price, qty, y + qty);
                }
            },
            _ => {},
        }
    }
}

/// A price, if there is one, lies between two.
pub open spec fn between(price: Option<Price>, lo: int, hi: int) -> bool {
    price matches Some(p) ==> lo <= p <= hi
}

proof fn lemma_last_trade_between(
    ledger: Ledger,
    sides: Map<OrderId, Side>,
    events: Seq<Event>,
    lo: int,
    hi: int,
)
    requires
        between(ledger.last_trade, lo, hi),
        forall|i: int|
            0 <= i < events.len() ==> (#[trigger] events[i] matches Event::Trade { price, .. }
                ==> lo <= price <= hi),
    ensures
        between(ledger.routed(sides, events).last_trade, lo, hi),
    decreases events.len(),
{
    if events.len() > 0 {
        let front = events.drop_last();
        assert forall|i: int| 0 <= i < front.len() implies (#[trigger] front[i] matches
            Event::Trade { price, .. } ==> lo <= price <= hi) by {
            assert(front[i] == events[i]);
        }
        lemma_last_trade_between(ledger, sides, front, lo, hi);
        assert(events[events.len() - 1] == events.last());
    }
}

proof fn lemma_queue_total(queue: Seq<Resting>, q: nat)
    requires
        forall|i: int| 0 <= i < queue.len() ==> (#[trigger] queue[i]).qty <= q,
    ensures
        total(queue) <= queue.len() * q,
    decreases queue.len(),
{
    if queue.len() > 0 {
        let rest = queue.drop_first();
        assert forall|i: int| 0 <= i < rest.len() implies (#[trigger] rest[i]).qty <= q by {
            assert(rest[i] == queue[i + 1]);
        }
        lemma_queue_total(rest, q);
        assert(queue.len() * q == rest.len() * q + q) by (nonlinear_arith)
            requires
                queue.len() == rest.len() + 1,
        ;
        assert(queue[0].qty <= q);
    }
}

/// A queue is no longer than the book has orders.
proof fn lemma_queue_len(book: BookState, side: Side, price: Price)
    requires
        book.valid(),
    ensures
        queue_at(book.queues(side), price).len() <= book.ids().len(),
{
    let queue = queue_at(book.queues(side), price);
    let ids = queue.map_values(|o: Resting| o.id);
    lemma_ids_finite(book);
    assert(ids.no_duplicates()) by {
        assert forall|i: int, j: int| 0 <= i < j < ids.len() implies ids[i] != ids[j] by {
            assert(book.has(side, price, i) && book.has(side, price, j));
        }
    }
    ids.unique_seq_to_set();
    assert(ids.to_set().subset_of(book.ids())) by {
        assert forall|id: OrderId| ids.to_set().contains(id) implies book.ids().contains(id) by {
            let i = choose|i: int| 0 <= i < ids.len() && ids[i] == id;
            assert(book.sits_at(id, side, price, i));
        }
    }
    vstd::set_lib::lemma_len_subset(ids.to_set(), book.ids());
}

/// What a strategy keeps to whenever it is woken, as long as its position is
/// within the stake: a number of actions, lots per action, and a distance of
/// its prices from those in sight.
pub struct Habits {
    pub actions: nat,
    pub lots: nat,
    pub reach: nat,
    pub stake: nat,
}

impl Habits {
    /// Lots of a message, of the strategy or of the background flow.
    pub open spec fn size(self) -> nat {
        if self.lots < 200 {
            200
        } else {
            self.lots
        }
    }

    /// How far `m` messages can carry prices.
    pub open spec fn span(self, m: nat) -> nat {
        m * (16 + self.reach)
    }

    /// Lots that `m` messages can book.
    pub open spec fn volume(self, m: nat) -> nat {
        2 * self.size() * m
    }

    /// Number of messages of a run.
    pub open spec fn messages(self, cfg: SimConfig) -> nat {
        cfg.steps as nat * (1 + self.actions)
    }

    /// The run is short enough for the habits: the slab can address an order
    /// per message, the lots stay within the stake and the stake within what
    /// an account can hold, and prices within the cap.
    pub open spec fn afford(self, cfg: SimConfig) -> bool {
        let m = self.messages(cfg);
        &&& m < u32::MAX
        &&& self.volume(m) <= self.stake <= 0x0100_0000_0000_0000
        &&& self.span(m) <= 0x2000_0000_0000_0000
        &&& -0x2000_0000_0000_0000 <= cfg.start_mid <= 0x2000_0000_0000_0000
    }

    proof fn lemma_more(self, m: nat, n: nat)
        requires
            m <= n,
        ensures
            0 <= self.span(m) <= self.span(n),
            0 <= self.volume(m) <= self.volume(n),
            self.span(m + 1) == self.span(m) + 16 + self.reach,
            self.volume(m + 1) == self.volume(m) + 2 * self.size(),
            m * self.size() <= self.volume(m),
    {
        let r: int = 16 + self.reach as int;
        let q: int = self.size() as int;
        assert(0 <= m * r <= n * r && (m + 1) * r == m * r + r) by (nonlinear_arith)
            requires
                0 <= m <= n,
                r >= 0,
        ;
        assert(0 <= (2 * q) * m <= (2 * q) * n && (2 * q) * (m + 1) == (2 * q) * m + 2 * q && m * q
            <= (2 * q) * m) by (nonlinear_arith)
            requires
                0 <= m <= n,
                q >= 0,
        ;
    }
}

/// What holds of book, account and curve of a safe simulation after `m`
/// messages.
pub open spec fn steady(cfg: SimConfig, h: Habits, state: SimState, m: nat) -> bool {
    let lo = cfg.start_mid - h.span(m);
    let hi = cfg.start_mid + h.span(m);
    &&& state.book.valid()
    &&& state.book.ids().len() <= m
    &&& forall|side: Side, p: Price, i: int| #[trigger]
        state.book.has(side, p, i) ==> {
            let o = state.book.order_at(side, p, i);
            &&& o.qty <= h.size()
            &&& lo <= p <= hi
            &&& is_strategy(o.id) ==> state.sides.contains_key(o.id)
        }
    &&& between(state.last_trade, lo, hi)
    &&& lo <= state.last_mark <= hi
    &&& within(state.account, h.volume(m) as int)
    &&& forall|i: int|
        0 <= i < state.curve.len() ==> -worth_cap() <= (#[trigger] state.curve[i]).1 <= worth_cap()
}

/// What holds of the background flow after `m` messages.
pub open spec fn paced(cfg: SimConfig, flow: FlowState, m: nat) -> bool {
    &&& orderly(flow)
    &&& flow.live.len() <= m
    &&& flow.next_id <= 1 + m
    &&& cfg.start_mid - m <= flow.mid <= cfg.start_mid + m
}

/// Largest size of an equity that a safe simulation meets: 2^119.
pub open spec fn worth_cap() -> int {
    0x0080_0000_0000_0000_0000_0000_0000_0000
}

/// More messages allow more.
proof fn lemma_steady_longer(cfg: SimConfig, h: Habits, state: SimState, m: nat, n: nat)
    requires
        steady(cfg, h, state, m),
        m <= n,
    ensures
        steady(cfg, h, state, n),
{
    h.lemma_more(m, n);
    assert(h.volume(m) * price_cap() <= h.volume(n) * price_cap());
}

/// The message is of few lots, its price not far from what was seen, and its
/// side is noted if it is the strategy's.
pub open spec fn mild(cfg: SimConfig, h: Habits, state: SimState, m: nat, msg: Msg) -> bool {
    let lo = cfg.start_mid - h.span(m + 1);
    let hi = cfg.start_mid + h.span(m + 1);
    &&& lots_of(msg) <= h.size()
    &&& match msg {
        Msg::New { id, price, .. } => lo <= price <= hi && (is_strategy(id)
            ==> state.sides.contains_key(id)),
        Msg::Market { id, .. } => is_strategy(id) ==> state.sides.contains_key(id),
        Msg::Replace { price, .. } => lo <= price <= hi,
        Msg::Cancel { .. } => true,
    }
}

/// Every trade of a mild message can be booked.
proof fn lemma_mild_trades(cfg: SimConfig, h: Habits, state: SimState, m: nat, msg: Msg, i: int)
    requires
        steady(cfg, h, state, m),
        mild(cfg, h, state, m, msg),
        h.span(m) <= 0x2000_0000_0000_0000,
        -0x2000_0000_0000_0000 <= cfg.start_mid <= 0x2000_0000_0000_0000,
        0 <= i < state.book.apply(msg).events.len(),
    ensures
        routable(state.sides, state.book.apply(msg).events[i]),
        state.book.apply(msg).events[i] matches Event::Trade { price, .. } ==> cfg.start_mid
            - h.span(m) <= price <= cfg.start_mid + h.span(m),
{
    let ev = state.book.apply(msg).events[i];
    let side = trading_side(state.book, msg).opposite();
    law_messages_trade_with_resting_orders(state.book, msg, i);
    if let Event::Trade { maker, taker, price, qty } = ev {
        let k = choose|k: int| #[trigger] state.book.sits_at(maker, side, price, k);
        assert(state.book.has(side, price, k));
        if let Msg::Replace { id, .. } = msg {
            if !state.book.holds(id) {
                assert(false);
            }
            lemma_found(state.book, id);
            let (s, p, j) = state.book.find(id);
            assert(state.book.has(s, p, j));
        }
    }
}

/// Machine limits allow a mild message.
proof fn lemma_mild_fits(cfg: SimConfig, h: Habits, state: SimState, m: nat, msg: Msg)
    requires
        steady(cfg, h, state, m),
        mild(cfg, h, state, m, msg),
        m < u32::MAX,
        h.volume(m + 1) <= 0x0100_0000_0000_0000,
    ensures
        state.book.fits(msg),
{
    h.lemma_more(m, m + 1);
    let book = state.book;
    assert forall|side: Side, price: Price, qty: Qty| qty <= h.size() implies #[trigger]
        book.can_rest(side, price, qty as nat) by {
        let queue = queue_at(book.queues(side), price);
        lemma_queue_len(book, side, price);
        assert forall|i: int| 0 <= i < queue.len() implies (#[trigger] queue[i]).qty
            <= h.size() by {
            assert(book.has(side, price, i));
        }
        lemma_queue_total(queue, h.size());
        let q = h.size() as int;
        assert(queue.len() * q <= m * q) by (nonlinear_arith)
            requires
                queue.len() <= m,
                q >= 0,
        ;
    }
    match msg {
        Msg::New { id, side, price, qty, tif } => {
            assert(book.can_rest(side, price, qty as nat));
            law_room_admits_limit(book, id, side, price, qty, tif);
        },
        Msg::Replace { id, price, qty } => {
            assert(book.can_rest(Side::Bid, price, qty as nat));
            assert(book.can_rest(Side::Ask, price, qty as nat));
            law_room_admits_replace(book, id, price, qty);
        },
        _ => {},
    }
}

/// A message brings in at most its subject.
proof fn lemma_ids_after(book: BookState, msg: Msg)
    requires
        book.valid(),
    ensures
        book.apply(msg).book.valid(),
        book.apply(msg).book.ids().len() <= book.ids().len() + 1,
{
    let after = book.apply(msg).book;
    law_messages_keep_book_valid(book, msg);
    lemma_ids_finite(book);
    let more = book.ids().insert(subject(msg));
    assert(after.ids().subset_of(more)) by {
        assert forall|id: OrderId| after.ids().contains(id) implies more.contains(id) by {
            lemma_found(after, id);
            let (side, price, j) = after.find(id);
            law_messages_account_for_orders(book, msg, side, price, j);
            let o = after.order_at(side, price, j);
            if rested_before(book, side, price, o) {
                let k = choose|k: int| #[trigger]
                    book.has(side, price, k) && book.order_at(side, price, k).id == o.id && o.qty
                        <= book.order_at(side, price, k).qty;
                assert(book.sits_at(id, side, price, k));
            }
        }
    }
    vstd::set_lib::lemma_len_subset(after.ids(), more);
}

/// A mild message is safe and keeps a simulation steady.
proof fn lemma_message_steady(cfg: SimConfig, h: Habits, state: SimState, m: nat, msg: Msg)
    requires
        steady(cfg, h, state, m),
        mild(cfg, h, state, m, msg),
        m < u32::MAX,
        h.volume(m + 1) <= 0x0100_0000_0000_0000,
        h.span(m + 1) <= 0x2000_0000_0000_0000,
        -0x2000_0000_0000_0000 <= cfg.start_mid <= 0x2000_0000_0000_0000,
    ensures
        state.exchange_safe(msg),
        steady(cfg, h, state.exchanged(msg), m + 1),
{
    let book = state.book;
    let events = book.apply(msg).events;
    let after = state.exchanged(msg);
    let lo = cfg.start_mid - h.span(m);
    let hi = cfg.start_mid + h.span(m);
    h.lemma_more(m, m + 1);
    lemma_mild_fits(cfg, h, state, m, msg);
    law_message_events_are_bounded(book, msg);
    assert forall|i: int| 0 <= i < events.len() implies routable(
        state.sides,
        #[trigger] events[i],
    ) && (events[i] matches Event::Trade { price, .. } ==> lo <= price <= hi) by {
        lemma_mild_trades(cfg, h, state, m, msg, i);
    }
    lemma_routing_within(state.ledger(), state.sides, events, h.volume(m) as int);
    lemma_last_trade_between(state.ledger(), state.sides, events, lo, hi);
    lemma_ids_after(book, msg);
    assert(within(after.account, h.volume(m + 1) as int)) by {
        let x = h.volume(m) as int + 2 * traded(events);
        assert(within(after.account, x));
        assert(x * price_cap() <= h.volume(m + 1) * price_cap());
    }
    assert forall|side: Side, p: Price, j: int| #[trigger] after.book.has(side, p, j) implies {
        let o = after.book.order_at(side, p, j);
        &&& o.qty <= h.size()
        &&& cfg.start_mid - h.span(m + 1) <= p <= cfg.start_mid + h.span(m + 1)
        &&& is_strategy(o.id) ==> after.sides.contains_key(o.id)
    } by {
        let o = after.book.order_at(side, p, j);
        law_messages_account_for_orders(book, msg, side, p, j);
        if rested_before(book, side, p, o) {
            let k = choose|k: int| #[trigger]
                book.has(side, p, k) && book.order_at(side, p, k).id == o.id && o.qty
                    <= book.order_at(side, p, k).qty;
            assert(book.has(side, p, k));
        } else if let Msg::Replace { id, .. } = msg {
            assert(book.holds(id));
            lemma_found(book, id);
            let (s, q, i) = book.find(id);
            assert(book.has(s, q, i));
        }
        if is_strategy(o.id) {
            assert(state.sides.contains_key(o.id));
            if left_book(events, o.id) {
                let i = choose|i: int|
                    0 <= i < events.len() && (#[trigger] events[i] matches Event::Canceled {
                        id: x,
                        ..
                    } && x == o.id);
                law_canceled_orders_are_gone(book, msg, i);
                assert(after.book.sits_at(o.id, side, p, j));
                assert(false);
            }
        }
    }
}

/// Every price in sight lies between `lo` and `hi`.
pub open spec fn in_sight(sight: Sight, lo: int, hi: int) -> bool {
    &&& forall|side: Side, p: Price| #[trigger]
        sight.book.queues(side).contains_key(p) ==> lo <= p <= hi
    &&& between(sight.last_trade, lo, hi)
}

/// The mid lies among the prices in sight.
proof fn lemma_mid_between(sight: Sight, lo: int, hi: int)
    requires
        sight.book.valid(),
        in_sight(sight, lo, hi),
    ensures
        between(mid_of(sight.book, sight.last_trade), lo, hi),
{
    lemma_best(sight.book.bids, Side::Bid);
    lemma_best(sight.book.asks, Side::Ask);
    match (best(sight.book.bids, Side::Bid), best(sight.book.asks, Side::Ask)) {
        (Some(b), Some(a)) => {
            assert(sight.book.queues(Side::Bid).contains_key(b));
            assert(sight.book.queues(Side::Ask).contains_key(a));
        },
        _ => {},
    }
}

proof fn lemma_steady_sight(cfg: SimConfig, h: Habits, state: SimState, m: nat)
    requires
        steady(cfg, h, state, m),
    ensures
        in_sight(state.sight(), cfg.start_mid - h.span(m), cfg.start_mid + h.span(m)),
        between(state.mid(), cfg.start_mid - h.span(m), cfg.start_mid + h.span(m)),
{
    assert forall|side: Side, p: Price| #[trigger]
        state.book.queues(side).contains_key(p) implies cfg.start_mid - h.span(m) <= p
        <= cfg.start_mid + h.span(m) by {
        assert(state.book.has(side, p, 0));
    }
    lemma_mid_between(state.sight(), cfg.start_mid - h.span(m), cfg.start_mid + h.span(m));
}

/// The background flow has a mild message, and keeps its pace.
proof fn lemma_flow_paced(cfg: SimConfig, h: Habits, state: SimState, m: nat)
    requires
        steady(cfg, h, state, m),
        paced(cfg, state.flow, m),
        m < u32::MAX,
        h.span(m + 1) <= 0x2000_0000_0000_0000,
        -0x2000_0000_0000_0000 <= cfg.start_mid <= 0x2000_0000_0000_0000,
    ensures
        state.flow.can_next_op(state.mid(), cfg.informed_pct),
        ({
            let (msg, flow) = state.flow.next_op(state.mid(), cfg.informed_pct);
            &&& paced(cfg, flow, m + 1)
            &&& mild(cfg, h, state, m, msg)
        }),
{
    h.lemma_more(m, m + 1);
    lemma_steady_sight(cfg, h, state, m);
    assert(h.span(m) >= 16 * m) by (nonlinear_arith)
        requires
            h.span(m) == m * (16 + h.reach),
    ;
    let moved = state.flow.drifted();
    let reference = moved.reference(state.mid(), cfg.informed_pct);
    let flow0 = FlowState { rng: stepped(moved.rng), ..moved };
    assert(cfg.start_mid - (m + 1) <= moved.mid <= cfg.start_mid + (m + 1));
    assert(cfg.start_mid - h.span(m) - 1 <= reference <= cfg.start_mid + h.span(m) + 1);
    assert(flow0.can_pick(reference));
    law_messages_keep_to_terms(flow0, reference);
    law_flow_stays_orderly(flow0, reference);
}

/// A background message is safe and keeps a simulation steady.
proof fn lemma_background_steady(cfg: SimConfig, h: Habits, state: SimState, m: nat)
    requires
        steady(cfg, h, state, m),
        paced(cfg, state.flow, m),
        m < u32::MAX,
        h.volume(m + 1) <= 0x0100_0000_0000_0000,
        h.span(m + 1) <= 0x2000_0000_0000_0000,
        -0x2000_0000_0000_0000 <= cfg.start_mid <= 0x2000_0000_0000_0000,
    ensures
        state.background_safe(cfg),
        steady(cfg, h, state.background(cfg), m + 1),
        paced(cfg, state.background(cfg).flow, m + 1),
{
    lemma_flow_paced(cfg, h, state, m);
    let (msg, flow) = state.flow.next_op(state.mid(), cfg.informed_pct);
    let ready = SimState { flow, events: Seq::empty(), ..state };
    assert(steady(cfg, h, ready, m));
    assert(mild(cfg, h, ready, m, msg));
    lemma_message_steady(cfg, h, ready, m, msg);
}

/// The price is at most the habitual distance from the prices in sight.
pub open spec fn near(h: Habits, sight: Sight, price: Price) -> bool {
    forall|lo: int, hi: int|
        lo <= hi && #[trigger] in_sight(sight, lo, hi) ==> lo - h.reach <= price <= hi + h.reach
}

/// The action keeps to the habits.
pub open spec fn modest_action(h: Habits, sight: Sight, action: Action) -> bool {
    match action {
        Action::Limit { price, qty, .. } => qty <= h.lots && near(h, sight, price),
        Action::Market { qty, .. } => qty <= h.lots,
        Action::Cancel { .. } => true,
        Action::Replace { price, qty, .. } => qty <= h.lots && near(h, sight, price),
    }
}

/// The answer to a wake-up keeps to the habits.
pub open spec fn modest_answer(h: Habits, sight: Sight, actions: Seq<Action>) -> bool {
    &&& actions.len() <= h.actions
    &&& forall|i: int| 0 <= i < actions.len() ==> modest_action(h, sight, #[trigger] actions[i])
}

/// Strategies of the kind keep to the habits and stay of the kind.
pub open spec fn modest<S: Strategy>(h: Habits, kind: spec_fn(S) -> bool) -> bool {
    &&& forall|
        s: S,
        sight: Sight,
        next_id: OrderId,
        actions: Seq<Action>,
        after: S,
        next_after: OrderId,
    |
        kind(s) && #[trigger] s.wakes(sight, next_id, actions, &after, next_after) ==> {
            &&& kind(after)
            &&& sight.book.valid() && -h.stake <= sight.position <= h.stake ==> modest_answer(
                h,
                sight,
                actions,
            )
        }
    &&& forall|s: S, ev: Event, after: S|
        kind(s) && #[trigger] s.hears(ev, &after) ==> kind(after)
}

/// Actions that keep to the habits are safe and keep a simulation steady.
proof fn lemma_acts_steady(
    cfg: SimConfig,
    h: Habits,
    state: SimState,
    m: nat,
    sight: Sight,
    actions: Seq<Action>,
)
    requires
        steady(cfg, h, state, m),
        in_sight(sight, cfg.start_mid - h.span(m), cfg.start_mid + h.span(m)),
        forall|i: int| 0 <= i < actions.len() ==> modest_action(h, sight, #[trigger] actions[i]),
        m + actions.len() <= u32::MAX,
        h.volume(m + actions.len()) <= 0x0100_0000_0000_0000,
        h.span(m + actions.len()) <= 0x2000_0000_0000_0000,
        -0x2000_0000_0000_0000 <= cfg.start_mid <= 0x2000_0000_0000_0000,
    ensures
        state.acts_safe(actions),
        steady(cfg, h, state.acts(actions), m + actions.len()),
        state.acts(actions).flow == state.flow,
    decreases actions.len(),
{
    if actions.len() > 0 {
        let front = actions.drop_last();
        let last = actions.last();
        let n = m + front.len();
        assert forall|i: int| 0 <= i < front.len() implies modest_action(
            h,
            sight,
            #[trigger] front[i],
        ) by {
            assert(front[i] == actions[i]);
        }
        h.lemma_more(n, n + 1);
        h.lemma_more(m, n);
        lemma_acts_steady(cfg, h, state, m, sight, front);
        let at = state.acts(front);
        let noted = at.noted(last);
        assert(modest_action(h, sight, actions[actions.len() - 1]));
        assert(steady(cfg, h, noted, n));
        assert(mild(cfg, h, noted, n, last.request()));
        lemma_message_steady(cfg, h, noted, n, last.request());
    }
}

/// The equity of a steady simulation is far from the ends of its type.
proof fn lemma_worth_bounded(account: Account, x: int, mark: Price)
    requires
        within(account, x),
        0 <= x <= 0x0100_0000_0000_0000,
        -price_cap() <= mark <= price_cap(),
    ensures
        -worth_cap() <= account.worth(mark) <= worth_cap(),
{
    let p = account.position;
    assert(-0x0040_0000_0000_0000_0000_0000_0000_0000 <= p * mark
        <= 0x0040_0000_0000_0000_0000_0000_0000_0000) by (nonlinear_arith)
        requires
            -0x0100_0000_0000_0000 <= p <= 0x0100_0000_0000_0000,
            -0x4000_0000_0000_0000 <= mark <= 0x4000_0000_0000_0000,
    ;
}

/// The equity sample is safe and keeps a simulation steady.
proof fn lemma_sample_steady(cfg: SimConfig, h: Habits, state: SimState, m: nat)
    requires
        steady(cfg, h, state, m),
        h.volume(m) <= 0x0100_0000_0000_0000,
        h.span(m) <= 0x2000_0000_0000_0000,
        -0x2000_0000_0000_0000 <= cfg.start_mid <= 0x2000_0000_0000_0000,
    ensures
        state.sample_safe(cfg),
        steady(cfg, h, state.sampled(cfg), m),
        state.sampled(cfg).flow == state.flow,
{
    lemma_steady_sight(cfg, h, state, m);
    lemma_worth_bounded(state.account, h.volume(m) as int, state.mark());
}

/// A step in which the strategy keeps to its habits is safe and keeps a
/// simulation steady.
proof fn lemma_step_steady(
    cfg: SimConfig,
    h: Habits,
    state: SimState,
    m: nat,
    actions: Seq<Action>,
    next_after: OrderId,
)
    requires
        steady(cfg, h, state, m),
        paced(cfg, state.flow, m),
        h.afford(cfg),
        m + 1 + h.actions <= h.messages(cfg),
        cfg.awake(state.step) ==> modest_answer(h, state.background(cfg).sight(), actions),
    ensures
        state.step_safe(cfg, actions, next_after),
        steady(cfg, h, state.stepped(cfg, actions, next_after), m + 1 + h.actions),
        paced(cfg, state.stepped(cfg, actions, next_after).flow, m + 1 + h.actions),
{
    let n = m + 1 + h.actions;
    h.lemma_more(n, h.messages(cfg));
    h.lemma_more(m + 1, n);
    lemma_background_steady(cfg, h, state, m);
    let b = state.background(cfg);
    lemma_steady_sight(cfg, h, b, m + 1);
    let told = state.consulted(cfg, actions, next_after);
    assert(steady(cfg, h, told, m + 1));
    assert(told.flow == b.flow);
    let done = if cfg.awake(state.step) {
        let k = m + 1 + actions.len();
        h.lemma_more(k, n);
        lemma_acts_steady(cfg, h, told, m + 1, b.sight(), actions);
        lemma_steady_longer(cfg, h, told.acts(actions), k, n);
        told.acts(actions)
    } else {
        lemma_steady_longer(cfg, h, told, m + 1, n);
        told
    };
    lemma_sample_steady(cfg, h, done, n);
}

/// A simulation starts steady.
proof fn lemma_start_steady(cfg: SimConfig, h: Habits)
    requires
        -0x2000_0000_0000_0000 <= cfg.start_mid <= 0x2000_0000_0000_0000,
    ensures
        steady(cfg, h, SimState::start(cfg), 0),
        paced(cfg, SimState::start(cfg).flow, 0),
{
    let start = SimState::start(cfg);
    h.lemma_more(0, 0);
    assert forall|side: Side, price: Price, i: int| !(#[trigger] start.book.has(
        side,
        price,
        i,
    )) by {}
    assert(start.book.ids() =~= Set::empty()) by {
        assert forall|id: OrderId| !start.book.holds(id) by {
            if start.book.holds(id) {
                lemma_found(start.book, id);
            }
        }
    }
}

/// A strategy stays of its kind whatever calls it answers.
proof fn lemma_kind_kept<S: Strategy>(
    h: Habits,
    kind: spec_fn(S) -> bool,
    before: S,
    calls: Seq<Call>,
    after: S,
)
    requires
        modest(h, kind),
        kind(before),
        answers(before, calls, after),
    ensures
        kind(after),
    decreases calls.len(),
{
    if calls.len() > 0 {
        let mid = choose|mid: S|
            answers(before, calls.drop_last(), mid) && #[trigger] answered(
                mid,
                calls.last(),
                after,
            );
        lemma_kind_kept(h, kind, before, calls.drop_last(), mid);
        match calls.last() {
            Call::Wake { sight, next_id, actions, next_after } => {
                assert(mid.wakes(sight, next_id, actions, &after, next_after));
            },
            Call::Hear { ev } => {
                assert(mid.hears(ev, &after));
            },
        }
    }
}

/// Whatever a strategy of the kind may answer in a step keeps to the habits.
proof fn lemma_answer_modest<S: Strategy>(
    cfg: SimConfig,
    h: Habits,
    kind: spec_fn(S) -> bool,
    state: SimState,
    m: nat,
    s: S,
    actions: Seq<Action>,
    next_after: OrderId,
    after: S,
)
    requires
        modest(h, kind),
        kind(s),
        steady(cfg, h, state, m),
        paced(cfg, state.flow, m),
        h.afford(cfg),
        m + 1 <= h.messages(cfg),
        cfg.awake(state.step),
        state.may_answer(cfg, s, actions, next_after, after),
    ensures
        modest_answer(h, state.background(cfg).sight(), actions),
{
    h.lemma_more(m + 1, h.messages(cfg));
    lemma_background_steady(cfg, h, state, m);
    let b = state.background(cfg);
    let heard = lemma_background_extends_calls(state, cfg);
    let wake = lemma_consulted_calls(state, cfg, actions, next_after);
    assert((state.calls + heard + wake).skip(state.calls.len() as int) =~= heard + wake);
    let told = lemma_answers_split(s, heard, wake, after);
    lemma_kind_kept(h, kind, s, heard, told);
    lemma_one_call(told, wake, after);
    assert(told.wakes(b.sight(), b.next_id, actions, &after, next_after));
}

/// A simulation with a strategy of the kind stays steady.
proof fn lemma_script_steady<S: Strategy>(
    cfg: SimConfig,
    h: Habits,
    kind: spec_fn(S) -> bool,
    before: S,
    script: Seq<(Seq<Action>, OrderId)>,
    after: S,
)
    requires
        modest(h, kind),
        kind(before),
        h.afford(cfg),
        script.len() <= cfg.steps,
        answers(before, SimState::scripted(cfg, script).calls, after),
    ensures
        steady(cfg, h, SimState::scripted(cfg, script), script.len() * (1 + h.actions)),
        paced(cfg, SimState::scripted(cfg, script).flow, script.len() * (1 + h.actions)),
    decreases script.len(),
{
    let k = 1 + h.actions;
    if script.len() == 0 {
        assert(0 * k == 0);
        lemma_start_steady(cfg, h);
    } else {
        let n = (script.len() - 1) as nat;
        let front = script.drop_last();
        assert(script.take(n as int) =~= front);
        assert(script[n as int] == script.last());
        let (actions, next_after) = script.last();
        let state = SimState::scripted(cfg, front);
        let (p, t) = lemma_step_answered(cfg, before, script, after, n as int);
        lemma_script_steady(cfg, h, kind, before, front, p);
        lemma_kind_kept(h, kind, before, state.calls, p);
        let m = n * k;
        assert(m + k == script.len() * k && m + k <= cfg.steps * k) by (nonlinear_arith)
            requires
                m == n * k,
                script.len() == n + 1,
                script.len() <= cfg.steps,
                k >= 0,
        ;
        if cfg.awake(state.step) {
            lemma_answer_modest(cfg, h, kind, state, m, p, actions, next_after, t);
        }
        lemma_step_steady(cfg, h, state, m, actions, next_after);
    }
}

/// A steady simulation of a strategy of the kind is not stuck.
proof fn lemma_modest_never_stuck<S: Strategy>(
    cfg: SimConfig,
    h: Habits,
    kind: spec_fn(S) -> bool,
    state: SimState,
    m: nat,
    s: S,
)
    requires
        modest(h, kind),
        kind(s),
        h.afford(cfg),
        steady(cfg, h, state, m),
        paced(cfg, state.flow, m),
        m + 1 + h.actions <= h.messages(cfg),
    ensures
        !state.stuck(cfg, s),
{
    h.lemma_more(m + 1, h.messages(cfg));
    lemma_background_steady(cfg, h, state, m);
    assert forall|actions: Seq<Action>, next_after: OrderId, mid: S| #[trigger]
        state.may_answer(cfg, s, actions, next_after, mid) implies state.step_safe(
        cfg,
        actions,
        next_after,
    ) by {
        if cfg.awake(state.step) {
            lemma_answer_modest(cfg, h, kind, state, m, s, actions, next_after, mid);
        }
        lemma_step_steady(cfg, h, state, m, actions, next_after);
    }
}

/// The final equity and the drawdown of a steady simulation can be reported.
proof fn lemma_steady_reportable(cfg: SimConfig, h: Habits, state: SimState, m: nat)
    requires
        steady(cfg, h, state, m),
        h.volume(m) <= 0x0100_0000_0000_0000,
        h.span(m) <= 0x2000_0000_0000_0000,
        -0x2000_0000_0000_0000 <= cfg.start_mid <= 0x2000_0000_0000_0000,
    ensures
        state.reportable(cfg),
{
    lemma_worth_bounded(state.account, h.volume(m) as int, state.last_mark);
    let curve = state.final_curve(cfg);
    assert forall|i: int| 0 <= i < curve.len() implies -worth_cap() <= (#[trigger] curve[i]).1
        <= worth_cap() by {
        if i < state.curve.len() {
            assert(curve[i] == state.curve[i]);
        }
    }
    law_drawdown_is_largest_fall(curve);
    if drawdown(curve) > 0 {
        let (i, j) = choose|i: int, j: int|
            0 <= i <= j < curve.len() && (#[trigger] curve[i]).1 - (#[trigger] curve[j]).1
                == drawdown(curve);
        assert(-worth_cap() <= curve[i].1 <= worth_cap());
        assert(-worth_cap() <= curve[j].1 <= worth_cap());
    }
}

/// A run owes a report to every strategy with modest habits: over a run that
/// is short enough for them, nothing it answers is unsafe.
pub proof fn law_modest_strategies_get_a_report<S: Strategy>(
    cfg: SimConfig,
    h: Habits,
    kind: spec_fn(S) -> bool,
    before: S,
    after: S,
    report: Option<Report>,
)
    requires
        modest(h, kind),
        kind(before),
        h.afford(cfg),
        ran(cfg, before, after, report),
    ensures
        report is Some,
{
    if report is None {
        let (script, mid) = choose|script: Seq<(Seq<Action>, OrderId)>, mid: S| #[trigger]
            stopped(cfg, before, script, mid);
        let state = SimState::scripted(cfg, script);
        let k = 1 + h.actions;
        let m = script.len() * k;
        lemma_script_steady(cfg, h, kind, before, script, mid);
        lemma_kind_kept(h, kind, before, state.calls, mid);
        if script.len() < cfg.steps {
            assert(m + k <= cfg.steps * k) by (nonlinear_arith)
                requires
                    m == script.len() * k,
                    script.len() < cfg.steps,
                    k >= 0,
            ;
            lemma_modest_never_stuck(cfg, h, kind, state, m, mid);
        } else {
            lemma_steady_reportable(cfg, h, state, m);
        }
    }
}

/// The habits of a strategy that never asks for anything.
pub open spec fn idle_habits() -> Habits {
    Habits { actions: 0, lots: 0, reach: 0, stake: 0x0100_0000_0000_0000 }
}

/// All strategies of a type.
pub open spec fn anyone<S>() -> spec_fn(S) -> bool {
    |s: S| true
}

proof fn lemma_idle_is_modest<S: Strategy>()
    requires
        forall|s: S, sight: Sight, next_id: OrderId, actions: Seq<Action>, then: S, next: OrderId|
            #[trigger] s.wakes(sight, next_id, actions, &then, next) ==> actions.len() == 0,
    ensures
        modest(idle_habits(), anyone::<S>()),
{
}

proof fn lemma_idle_affords(cfg: SimConfig)
    requires
        cfg.steps < u32::MAX,
        -0x2000_0000_0000_0000 <= cfg.start_mid <= 0x2000_0000_0000_0000,
    ensures
        idle_habits().afford(cfg),
{
    let h = idle_habits();
    let m = h.messages(cfg);
    assert(cfg.steps as nat * (1 + h.actions) == cfg.steps) by (nonlinear_arith)
        requires
            h.actions == 0,
    ;
    assert(h.volume(m) == 400 * m);
    assert(m * (16 + h.reach) == m * 16) by (nonlinear_arith)
        requires
            h.reach == 0,
    ;
}

/// A strategy that never asks for anything gets a report of every run that is
/// no longer than the slab has places and starts away from the ends of the
/// price type.
pub proof fn law_idle_strategies_get_a_report<S: Strategy>(
    cfg: SimConfig,
    before: S,
    after: S,
    report: Option<Report>,
)
    requires
        cfg.steps < u32::MAX,
        -0x2000_0000_0000_0000 <= cfg.start_mid <= 0x2000_0000_0000_0000,
        forall|s: S, sight: Sight, next_id: OrderId, actions: Seq<Action>, then: S, next: OrderId|
            #[trigger] s.wakes(sight, next_id, actions, &then, next) ==> actions.len() == 0,
        ran(cfg, before, after, report),
    ensures
        report is Some,
{
    lemma_idle_is_modest::<S>();
    lemma_idle_affords(cfg);
    law_modest_strategies_get_a_report(cfg, idle_habits(), anyone(), before, after, report);
}

/// The size of a number.
pub open spec fn size_of(x: int) -> nat {
    if x >= 0 {
        x as nat
    } else {
        (-x) as nat
    }
}

/// The habits of a market maker: it pulls and quotes each side at most once,
/// half a spread and the skew of its position away from the mid, and at most a
/// tick beyond the touch.
pub open spec fn maker_habits(maker: Maker, stake: nat) -> Habits {
    Habits {
        actions: 4,
        lots: maker.qty as nat,
        reach: size_of(maker.half_spread as int) + stake * size_of(
            maker.skew_per_lot_x100 as int,
        ) / 100 + 1,
        stake,
    }
}

/// Market makers with the same settings.
pub open spec fn maker_kind(maker: Maker) -> spec_fn(MarketMaker) -> bool {
    |m: MarketMaker|
        {
            &&& m@.half_spread == maker.half_spread
            &&& m@.qty == maker.qty
            &&& m@.skew_per_lot_x100 == maker.skew_per_lot_x100
        }
}

/// The skew of a position within the stake.
proof fn lemma_skew_bounded(position: int, skew: int, stake: nat)
    requires
        -stake <= position <= stake,
    ensures
        ({
            let most = stake * size_of(skew) / 100;
            -most <= towards_zero(position * skew, 100) <= most
        }),
{
    let x = position * skew;
    let y = stake as int * size_of(skew) as int;
    assert(-y <= x <= y) by (nonlinear_arith)
        requires
            x == position * skew,
            y == stake * size_of(skew),
            -stake <= position <= stake,
            size_of(skew) == skew && skew >= 0 || size_of(skew) == -skew && skew < 0,
    ;
    assert(0 <= y);
}

/// The quotes of a market maker are near the prices in sight.
proof fn lemma_quotes_near(maker: Maker, sight: Sight, stake: nat)
    requires
        sight.book.valid(),
        -stake <= sight.position <= stake,
        maker.can_quote(sight),
    ensures
        near(maker_habits(maker, stake), sight, maker.bid_at(sight)),
        near(maker_habits(maker, stake), sight, maker.ask_at(sight)),
{
    let h = maker_habits(maker, stake);
    lemma_skew_bounded(sight.position as int, maker.skew_per_lot_x100 as int, stake);
    lemma_best(sight.book.bids, Side::Bid);
    lemma_best(sight.book.asks, Side::Ask);
    assert forall|lo: int, hi: int| lo <= hi && #[trigger] in_sight(sight, lo, hi) implies {
        &&& lo - h.reach <= maker.bid_at(sight) <= hi + h.reach
        &&& lo - h.reach <= maker.ask_at(sight) <= hi + h.reach
    } by {
        lemma_mid_between(sight, lo, hi);
        if let Some(b) = best(sight.book.bids, Side::Bid) {
            assert(sight.book.queues(Side::Bid).contains_key(b));
        }
        if let Some(a) = best(sight.book.asks, Side::Ask) {
            assert(sight.book.queues(Side::Ask).contains_key(a));
        }
    }
}

/// Market makers keep to their habits.
pub proof fn law_makers_are_modest(maker: Maker, stake: nat)
    ensures
        modest(maker_habits(maker, stake), maker_kind(maker)),
{
    let h = maker_habits(maker, stake);
    let kind = maker_kind(maker);
    assert forall|
        s: MarketMaker,
        sight: Sight,
        next_id: OrderId,
        actions: Seq<Action>,
        after: MarketMaker,
        next_after: OrderId,
    |
        kind(s) && #[trigger] s.wakes(sight, next_id, actions, &after, next_after) implies {
        &&& kind(after)
        &&& sight.book.valid() && -h.stake <= sight.position <= h.stake ==> modest_answer(
            h,
            sight,
            actions,
        )
    } by {
        if sight.book.valid() && -h.stake <= sight.position <= h.stake && s@.can_quote(sight) {
            lemma_quotes_near(s@, sight, stake);
            assert(maker_habits(s@, stake) == h);
        }
    }
}

/// A market maker gets a report of every run that is short enough for its
/// habits.
pub proof fn law_market_makers_get_a_report(
    cfg: SimConfig,
    stake: nat,
    before: MarketMaker,
    after: MarketMaker,
    report: Option<Report>,
)
    requires
        maker_habits(before@, stake).afford(cfg),
        ran(cfg, before, after, report),
    ensures
        report is Some,
{
    law_makers_are_modest(before@, stake);
    law_modest_strategies_get_a_report(
        cfg,
        maker_habits(before@, stake),
        maker_kind(before@),
        before,
        after,
        report,
    );
}

/// The habits of a momentum taker: one market order of its clip.
pub open spec fn momentum_habits(trend: Trend, stake: nat) -> Habits {
    Habits { actions: 1, lots: trend.clip as nat, reach: 0, stake }
}

/// A momentum taker gets a report of every run that is short enough for its
/// habits.
pub proof fn law_momentum_takers_get_a_report(
    cfg: SimConfig,
    stake: nat,
    before: Momentum,
    after: Momentum,
    report: Option<Report>,
)
    requires
        momentum_habits(before@, stake).afford(cfg),
        ran(cfg, before, after, report),
    ensures
        report is Some,
{
    let h = momentum_habits(before@, stake);
    let kind = |m: Momentum| m@.clip == before@.clip;
    assert(modest(h, kind));
    law_modest_strategies_get_a_report(cfg, h, kind, before, after, report);
}

} // verus!
