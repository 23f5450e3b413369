//! What the matching rules promise, proved of the book model.
//!
//! The engine's contracts say that each request does what the function of
//! the same name in [`crate::model`] does; the laws here say what follows for
//! its users.
use vstd::prelude::*;

use crate::events::{delivered, ready_for, CountingSink, Event, EventSink};
use crate::lemmas::{
    lemma_best, lemma_best_empty, lemma_best_unique, lemma_fill_front, lemma_ready_prefix, lively,
};
use crate::model::{
    best, better, crosses, fill_front, is_best, liquidity, queue_at, sweep, total, totals, Queues,
    Resting,
};
use crate::types::{OrderId, Price, Qty, Side};

verus! {

/// Number of orders that left the front of the queue at `p`.
pub open spec fn gone(before: Queues, after: Queues, p: Price) -> int {
    before[p].len() - queue_at(after, p).len()
}

/// What a taker may do to a side: at each price the oldest orders are gone,
/// the next one may have shrunk, and all others are as they were.
pub open spec fn taken_from_front(before: Queues, after: Queues) -> bool {
    &&& forall|p: Price| #[trigger] after.contains_key(p) ==> before.contains_key(p)
    &&& forall|p: Price| #[trigger]
        after.contains_key(p) ==> 0 <= gone(before, after, p) < before[p].len()
    &&& forall|p: Price, j: int|
        after.contains_key(p) && 0 <= j < after[p].len() ==> {
            let was = before[p][j + gone(before, after, p)];
            &&& (#[trigger] after[p][j]).id == was.id
            &&& after[p][j].qty <= was.qty
            &&& j > 0 ==> after[p][j] == was
        }
}

/// The queue at `p` is not what it was.
pub open spec fn touched(before: Queues, after: Queues, p: Price) -> bool {
    before.contains_key(p) && queue_at(after, p) != before[p]
}

/// A price at which anything happened has nothing left at better prices.
pub open spec fn best_first(before: Queues, after: Queues, side: Side) -> bool {
    forall|p: Price, q: Price|
        #![trigger touched(before, after, q), after.contains_key(p)]
        touched(before, after, q) && better(side, p, q) ==> !after.contains_key(p)
}

proof fn lemma_fill_taken(queues: Queues, p: Price, fill: nat)
    requires
        lively(queues),
        queues.contains_key(p),
        0 < fill <= queues[p][0].qty,
    ensures
        taken_from_front(queues, fill_front(queues, p, fill)),
{
    let after = fill_front(queues, p, fill);
    assert(queues[p].len() > 0);
    assert forall|q: Price, j: int|
        after.contains_key(q) && 0 <= j < after[q].len() implies {
        let was = queues[q][j + gone(queues, after, q)];
        &&& (#[trigger] after[q][j]).id == was.id
        &&& after[q][j].qty <= was.qty
        &&& j > 0 ==> after[q][j] == was
    } by {
        if q == p && fill >= queues[p][0].qty {
            assert(gone(queues, after, q) == 1);
        }
    }
}

proof fn lemma_taken_trans(a: Queues, b: Queues, c: Queues)
    requires
        taken_from_front(a, b),
        taken_from_front(b, c),
    ensures
        taken_from_front(a, c),
{
    assert forall|p: Price| #[trigger] c.contains_key(p) implies a.contains_key(p) && 0 <= gone(
        a,
        c,
        p,
    ) < a[p].len() by {
        assert(b.contains_key(p));
    }
    assert forall|p: Price, j: int| c.contains_key(p) && 0 <= j < c[p].len() implies {
        let was = a[p][j + gone(a, c, p)];
        &&& (#[trigger] c[p][j]).id == was.id
        &&& c[p][j].qty <= was.qty
        &&& j > 0 ==> c[p][j] == was
    } by {
        assert(b.contains_key(p));
        let k = j + gone(b, c, p);
        assert(b[p][k].id == c[p][j].id);
        assert(0 <= k < b[p].len());
        assert(b[p][k].id == a[p][k + gone(a, b, p)].id);
    }
}

/// A taker fills strictly in price-time order: at a price it fills the oldest
/// orders first, each to the end before the next one, and it reaches a price
/// only when no better one is left.
pub proof fn law_price_time_priority(
    queues: Queues,
    side: Side,
    limit: Option<Price>,
    qty: nat,
    taker: OrderId,
)
    requires
        lively(queues),
    ensures
        taken_from_front(queues, sweep(queues, side, limit, qty, taker).queues),
        best_first(queues, sweep(queues, side, limit, qty, taker).queues, side),
    decreases qty,
{
    let swept = sweep(queues, side, limit, qty, taker);
    lemma_best(queues, side);
    match best(queues, side) {
        Some(p) => {
            assert(queues.contains_key(p));
            if qty > 0 && crosses(side, p, limit) {
                let maker = queues[p][0];
                assert(maker.qty > 0);
                let fill: nat = if qty <= maker.qty {
                    qty
                } else {
                    maker.qty as nat
                };
                let mid = fill_front(queues, p, fill);
                lemma_fill_front(queues, p, fill);
                lemma_fill_taken(queues, p, fill);
                law_price_time_priority(mid, side, limit, (qty - fill) as nat, taker);
                lemma_taken_trans(queues, mid, swept.queues);
                assert forall|b: Price, q: Price|
                    #![trigger touched(queues, swept.queues, q), swept.queues.contains_key(b)]
                    touched(queues, swept.queues, q) && better(side, b, q) implies
                    !swept.queues.contains_key(b) by {
                    if swept.queues.contains_key(b) {
                        assert(mid.contains_key(b));
                        assert(queues.contains_key(b));
                        assert(q != p);
                        assert(mid.contains_key(q) && mid[q] == queues[q]);
                        assert(touched(mid, swept.queues, q));
                    }
                }
            }
        },
        None => {},
    }
}

/// An order is not filled before its turn: while an order ahead of it in the
/// queue still rests, it keeps its full quantity.
pub proof fn law_fills_wait_their_turn(
    queues: Queues,
    side: Side,
    limit: Option<Price>,
    qty: nat,
    taker: OrderId,
    p: Price,
    ahead: int,
    behind: int,
    j: int,
)
    requires
        lively(queues),
        queues.contains_key(p),
        0 <= ahead < behind < queues[p].len(),
        forall|a: int, b: int|
            0 <= a < b < queues[p].len() ==> (#[trigger] queues[p][a]).id != (
            #[trigger] queues[p][b]).id,
        ({
            let after = sweep(queues, side, limit, qty, taker).queues;
            after.contains_key(p) && 0 <= j < after[p].len() && after[p][j].id
                == queues[p][ahead].id
        }),
    ensures
        ({
            let after = sweep(queues, side, limit, qty, taker).queues;
            let k = j + behind - ahead;
            0 <= k < after[p].len() && after[p][k] == queues[p][behind]
        }),
{
    law_price_time_priority(queues, side, limit, qty, taker);
    let after = sweep(queues, side, limit, qty, taker).queues;
    let g = gone(queues, after, p);
    assert(after[p][j].id == queues[p][j + g].id);
    assert(j + g == ahead);
    let k = j + behind - ahead;
    assert(after[p][k] == queues[p][k + g]);
}

/// Quantity that a sequence of events trades.
pub open spec fn traded(events: Seq<Event>) -> nat
    decreases events.len(),
{
    if events.len() == 0 {
        0
    } else {
        (match events[0] {
            Event::Trade { qty, .. } => qty as nat,
            _ => 0,
        }) + traded(events.drop_first())
    }
}

pub proof fn lemma_traded_concat(a: Seq<Event>, b: Seq<Event>)
    ensures
        traded(a + b) == traded(a) + traded(b),
    decreases a.len(),
{
    if a.len() == 0 {
        assert(a + b =~= b);
    } else {
        lemma_traded_concat(a.drop_first(), b);
        assert((a + b).drop_first() =~= a.drop_first() + b);
    }
}

/// One fill at the best price takes exactly its lots out of what any limit
/// that crosses that price reaches.
proof fn lemma_liquidity_fill(
    queues: Queues,
    side: Side,
    limit: Option<Price>,
    p: Price,
    fill: nat,
)
    requires
        lively(queues),
        is_best(queues, side, p),
        crosses(side, p, limit),
        0 < fill <= queues[p][0].qty,
    ensures
        liquidity(totals(queues), side, limit) == fill + liquidity(
            totals(fill_front(queues, p, fill)),
            side,
            limit,
        ),
{
    let after = fill_front(queues, p, fill);
    let t0 = totals(queues);
    let t1 = totals(after);
    assert(queues[p].len() > 0);
    assert(t0.dom() =~= queues.dom());
    assert(is_best(t0, side, p)) by {
        assert forall|q: Price| #[trigger] t0.contains_key(q) implies q == p || better(
            side,
            p,
            q,
        ) by {
            assert(queues.contains_key(q));
        }
    }
    lemma_best_unique(t0, side, p);
    lemma_fill_front(queues, p, fill);
    assert(t1.dom() =~= after.dom());
    if fill >= queues[p][0].qty {
        assert(queues[p].remove(0) =~= queues[p].drop_first());
        if queues[p].len() == 1 {
            assert(total(queues[p].drop_first()) == 0);
            assert(t1 =~= t0.remove(p));
        }
    } else {
        let order = Resting { id: queues[p][0].id, qty: (queues[p][0].qty - fill) as Qty };
        assert(queues[p].update(0, order).drop_first() =~= queues[p].drop_first());
    }
    if after.contains_key(p) {
        assert(t1[p] == t0[p] - fill);
        assert(is_best(t1, side, p)) by {
            assert forall|q: Price| #[trigger] t1.contains_key(q) implies q == p || better(
                side,
                p,
                q,
            ) by {
                assert(queues.contains_key(q));
            }
        }
        lemma_best_unique(t1, side, p);
        assert(t1.remove(p) =~= t0.remove(p));
    }
}

/// Matching stops only when the order is filled or nothing within its limit
/// is left: exactly as much remains as the reachable liquidity falls short of
/// the order.
pub proof fn law_matching_is_maximal(
    queues: Queues,
    side: Side,
    limit: Option<Price>,
    qty: nat,
    taker: OrderId,
)
    requires
        lively(queues),
    ensures
        sweep(queues, side, limit, qty, taker).remaining == (if qty <= liquidity(
            totals(queues),
            side,
            limit,
        ) {
            0
        } else {
            (qty - liquidity(totals(queues), side, limit)) as nat
        }),
    decreases qty,
{
    let t = totals(queues);
    assert(t.dom() =~= queues.dom());
    lemma_best(queues, side);
    match best(queues, side) {
        Some(p) => {
            assert(queues.contains_key(p));
            assert(is_best(t, side, p)) by {
                assert forall|q: Price| #[trigger] t.contains_key(q) implies q == p || better(
                    side,
                    p,
                    q,
                ) by {
                    assert(queues.contains_key(q));
                }
            }
            lemma_best_unique(t, side, p);
            if qty > 0 && crosses(side, p, limit) {
                let maker = queues[p][0];
                assert(maker.qty > 0);
                let fill: nat = if qty <= maker.qty {
                    qty
                } else {
                    maker.qty as nat
                };
                lemma_fill_front(queues, p, fill);
                lemma_liquidity_fill(queues, side, limit, p, fill);
                law_matching_is_maximal(
                    fill_front(queues, p, fill),
                    side,
                    limit,
                    (qty - fill) as nat,
                    taker,
                );
            }
        },
        None => {
            assert(t =~= Map::empty());
            lemma_best_empty::<nat>(side);
        },
    }
}

/// Lots are conserved: what an order trades and what is left of it add up to
/// the order, and the side it trades with loses exactly what is traded.
pub proof fn law_lots_are_conserved(
    queues: Queues,
    side: Side,
    limit: Option<Price>,
    qty: nat,
    taker: OrderId,
)
    requires
        lively(queues),
    ensures
        ({
            let swept = sweep(queues, side, limit, qty, taker);
            &&& qty <= Qty::MAX ==> traded(swept.trades) + swept.remaining == qty
            &&& liquidity(totals(queues), side, None) == liquidity(totals(swept.queues), side, None)
                + qty - swept.remaining
        }),
    decreases qty,
{
    let swept = sweep(queues, side, limit, qty, taker);
    lemma_best(queues, side);
    match best(queues, side) {
        Some(p) => {
            assert(queues.contains_key(p));
            if qty > 0 && crosses(side, p, limit) {
                let maker = queues[p][0];
                assert(maker.qty > 0);
                let fill: nat = if qty <= maker.qty {
                    qty
                } else {
                    maker.qty as nat
                };
                let mid = fill_front(queues, p, fill);
                lemma_fill_front(queues, p, fill);
                lemma_liquidity_fill(queues, side, None, p, fill);
                law_lots_are_conserved(mid, side, limit, (qty - fill) as nat, taker);
                let rest = sweep(mid, side, limit, (qty - fill) as nat, taker);
                let ev = Event::Trade { maker: maker.id, taker, price: p, qty: fill as Qty };
                lemma_traded_concat(seq![ev], rest.trades);
                assert(seq![ev].drop_first() =~= Seq::empty());
                assert(traded(Seq::<Event>::empty()) == 0);
                assert(traded(seq![ev]) == fill as Qty as nat);
            }
        },
        None => {},
    }
}

/// What a trade of `taker` against `queues` may be: a positive quantity at
/// the price of a resting order, within the limit.
pub open spec fn fair_trade(
    queues: Queues,
    side: Side,
    limit: Option<Price>,
    taker: OrderId,
    ev: Event,
) -> bool {
    match ev {
        Event::Trade { maker, taker: t, price, qty } => {
            &&& t == taker
            &&& crosses(side, price, limit)
            &&& exists|i: int|
                queues.contains_key(price) && 0 <= i < queues[price].len()
                    && #[trigger] queues[price][i].id == maker && 0 < qty <= queues[price][i].qty
        },
        _ => false,
    }
}

/// Every fill is a trade with an order that rested in the book, at that
/// order's own price, within the taker's limit and for no more than the
/// resting order had; prices only get worse from one fill to the next.
pub proof fn law_trades_at_maker_price(
    queues: Queues,
    side: Side,
    limit: Option<Price>,
    qty: nat,
    taker: OrderId,
)
    requires
        lively(queues),
    ensures
        ({
            let trades = sweep(queues, side, limit, qty, taker).trades;
            &&& forall|i: int|
                0 <= i < trades.len() ==> fair_trade(
                    queues,
                    side,
                    limit,
                    taker,
                    #[trigger] trades[i],
                )
            &&& forall|i: int, j: int|
                0 <= i < j < trades.len() ==> !better(
                    side,
                    (#[trigger] trades[j])->price,
                    (#[trigger] trades[i])->price,
                )
        }),
    decreases qty,
{
    let swept = sweep(queues, side, limit, qty, taker);
    let trades = swept.trades;
    lemma_best(queues, side);
    match best(queues, side) {
        Some(p) => {
            assert(queues.contains_key(p));
            if qty > 0 && crosses(side, p, limit) {
                let maker = queues[p][0];
                assert(maker.qty > 0);
                let fill: nat = if qty <= maker.qty {
                    qty
                } else {
                    maker.qty as nat
                };
                let mid = fill_front(queues, p, fill);
                lemma_fill_front(queues, p, fill);
                lemma_fill_taken(queues, p, fill);
                law_trades_at_maker_price(mid, side, limit, (qty - fill) as nat, taker);
                let rest = sweep(mid, side, limit, (qty - fill) as nat, taker);
                assert forall|i: int| 0 <= i < trades.len() implies fair_trade(
                    queues,
                    side,
                    limit,
                    taker,
                    #[trigger] trades[i],
                ) by {
                    if i == 0 {
                        let ev = trades[0];
                        assert(queues[ev->price][0].id == ev->maker);
                        assert(0 < ev->Trade_qty <= queues[ev->price][0].qty);
                    } else {
                        let ev = rest.trades[i - 1];
                        assert(trades[i] == ev);
                        assert(fair_trade(mid, side, limit, taker, ev));
                        let price = ev->price;
                        let k = choose|k: int|
                            mid.contains_key(price) && 0 <= k < mid[price].len()
                                && #[trigger] mid[price][k].id == ev->maker && 0 < ev->Trade_qty
                                <= mid[price][k].qty;
                        let was = queues[price][k + gone(queues, mid, price)];
                        assert(was.id == mid[price][k].id && mid[price][k].qty <= was.qty);
                        assert(queues[price][k + gone(queues, mid, price)].id == ev->maker);
                        assert(fair_trade(queues, side, limit, taker, ev));
                    }
                }
                assert forall|i: int, j: int| 0 <= i < j < trades.len() implies !better(
                    side,
                    (#[trigger] trades[j])->price,
                    (#[trigger] trades[i])->price,
                ) by {
                    assert(trades[j] == rest.trades[j - 1]);
                    assert(fair_trade(queues, side, limit, taker, trades[j]));
                    assert(queues.contains_key(trades[j]->price));
                    if i > 0 {
                        assert(trades[i] == rest.trades[i - 1]);
                    }
                }
            }
        },
        None => {},
    }
}

/// Number of events of a kind.
pub open spec fn count(events: Seq<Event>, kind: spec_fn(Event) -> bool) -> nat
    decreases events.len(),
{
    if events.len() == 0 {
        0
    } else {
        count(events.drop_last(), kind) + if kind(events.last()) {
            1nat
        } else {
            0nat
        }
    }
}

pub open spec fn is_trade() -> spec_fn(Event) -> bool {
    |ev: Event| ev is Trade
}

pub open spec fn is_accept() -> spec_fn(Event) -> bool {
    |ev: Event| ev is Accepted
}

pub open spec fn is_cancel() -> spec_fn(Event) -> bool {
    |ev: Event| ev is Canceled
}

pub open spec fn is_reject() -> spec_fn(Event) -> bool {
    |ev: Event| ev is Rejected
}

pub proof fn lemma_count_concat(a: Seq<Event>, b: Seq<Event>, kind: spec_fn(Event) -> bool)
    ensures
        count(a + b, kind) == count(a, kind) + count(b, kind),
    decreases b.len(),
{
    if b.len() == 0 {
        assert(a + b =~= a);
    } else {
        lemma_count_concat(a, b.drop_last(), kind);
        assert((a + b).drop_last() =~= a + b.drop_last());
    }
}

pub proof fn lemma_traded_last(events: Seq<Event>)
    requires
        events.len() > 0,
    ensures
        traded(events) == traded(events.drop_last()) + (match events.last() {
            Event::Trade { qty, .. } => qty as nat,
            _ => 0,
        }),
{
    let last = seq![events.last()];
    lemma_traded_concat(events.drop_last(), last);
    assert(events =~= events.drop_last() + last);
    assert(last.drop_first() =~= Seq::empty());
    assert(traded(last.drop_first()) == 0);
}

/// A [`CountingSink`] that can take the events ends up with each counter
/// raised by the number of events of its kind, and with the traded lots.
pub proof fn law_counting_sink_counts(before: CountingSink, evs: Seq<Event>, after: CountingSink)
    requires
        ready_for(before, evs),
        delivered(before, evs, after),
    ensures
        after.trades == before.trades + count(evs, is_trade()),
        after.traded_qty == before.traded_qty + traded(evs),
        after.accepts == before.accepts + count(evs, is_accept()),
        after.cancels == before.cancels + count(evs, is_cancel()),
        after.rejects == before.rejects + count(evs, is_reject()),
    decreases evs.len(),
{
    if evs.len() > 0 {
        let front = evs.drop_last();
        let last = evs.last();
        let mid = choose|mid: CountingSink|
            delivered(before, front, mid) && #[trigger] mid.takes(last, &after);
        assert(evs =~= front + seq![last]);
        lemma_ready_prefix(before, front, seq![last]);
        law_counting_sink_counts(before, front, mid);
        lemma_traded_last(evs);
        assert(evs.take(evs.len() - 1) =~= front);
        assert(evs[evs.len() - 1] == last);
        assert(mid.ready(last));
    }
}

/// A sink whose counters have room for all the events can take them.
pub proof fn law_roomy_counters_take_all(before: CountingSink, evs: Seq<Event>)
    requires
        before.trades + count(evs, is_trade()) <= u64::MAX,
        before.traded_qty + traded(evs) <= u64::MAX,
        before.accepts + count(evs, is_accept()) <= u64::MAX,
        before.cancels + count(evs, is_cancel()) <= u64::MAX,
        before.rejects + count(evs, is_reject()) <= u64::MAX,
    ensures
        ready_for(before, evs),
    decreases evs.len(),
{
    if evs.len() > 0 {
        let front = evs.drop_last();
        let last = evs.last();
        lemma_traded_last(evs);
        law_roomy_counters_take_all(before, front);
        assert forall|i: int, mid: CountingSink|
            0 <= i < evs.len() && #[trigger] delivered(before, evs.take(i), mid) implies mid.ready(
            evs[i],
        ) by {
            if i < front.len() {
                assert(evs.take(i) =~= front.take(i));
                assert(front[i] == evs[i]);
            } else {
                assert(evs.take(i) =~= front);
                law_counting_sink_counts(before, front, mid);
            }
        }
    }
}

/// Each counter of the sink has room for the events of its kind.
pub open spec fn counters_hold(sink: CountingSink, evs: Seq<Event>) -> bool {
    &&& sink.trades + count(evs, is_trade()) <= u64::MAX
    &&& sink.traded_qty + traded(evs) <= u64::MAX
    &&& sink.accepts + count(evs, is_accept()) <= u64::MAX
    &&& sink.cancels + count(evs, is_cancel()) <= u64::MAX
    &&& sink.rejects + count(evs, is_reject()) <= u64::MAX
}

/// What a counting sink becomes by taking an event.
proof fn lemma_counting_delivers(before: CountingSink, evs: Seq<Event>) -> (after: CountingSink)
    ensures
        delivered(before, evs, after),
    decreases evs.len(),
{
    if evs.len() == 0 {
        before
    } else {
        let mid = lemma_counting_delivers(before, evs.drop_last());
        let after = match evs.last() {
            Event::Trade { qty, .. } => CountingSink {
                trades: (mid.trades + 1) as u64,
                traded_qty: (mid.traded_qty + qty) as u64,
                ..mid
            },
            Event::Accepted { .. } => CountingSink { accepts: (mid.accepts + 1) as u64, ..mid },
            Event::Canceled { .. } => CountingSink { cancels: (mid.cancels + 1) as u64, ..mid },
            Event::Rejected { .. } => CountingSink { rejects: (mid.rejects + 1) as u64, ..mid },
            Event::Replaced { .. } => mid,
        };
        assert(mid.takes(evs.last(), &after));
        after
    }
}

/// A sink can take events exactly where its counters have room for them all.
pub proof fn law_counters_take_what_they_hold(before: CountingSink, evs: Seq<Event>)
    ensures
        ready_for(before, evs) <==> counters_hold(before, evs),
{
    if ready_for(before, evs) {
        let after = lemma_counting_delivers(before, evs);
        law_counting_sink_counts(before, evs, after);
    }
    if counters_hold(before, evs) {
        law_roomy_counters_take_all(before, evs);
    }
}

/// Number of fills of a taker.
pub open spec fn fills(queues: Queues, side: Side, limit: Option<Price>, qty: nat) -> nat
    decreases qty,
{
    match best(queues, side) {
        Some(p) => if qty > 0 && crosses(side, p, limit) && queues[p].len() > 0 && queues[p][0].qty
            > 0 {
            let maker = queues[p][0];
            let fill: nat = if qty <= maker.qty {
                qty
            } else {
                maker.qty as nat
            };
            1 + fills(fill_front(queues, p, fill), side, limit, (qty - fill) as nat)
        } else {
            0
        },
        None => 0,
    }
}

/// A taker makes one trade per fill.
pub proof fn law_one_trade_per_fill(
    queues: Queues,
    side: Side,
    limit: Option<Price>,
    qty: nat,
    taker: OrderId,
)
    ensures
        sweep(queues, side, limit, qty, taker).trades.len() == fills(queues, side, limit, qty),
    decreases qty,
{
    match best(queues, side) {
        Some(p) => {
            if qty > 0 && crosses(side, p, limit) && queues[p].len() > 0 && queues[p][0].qty > 0 {
                let maker = queues[p][0];
                let fill: nat = if qty <= maker.qty {
                    qty
                } else {
                    maker.qty as nat
                };
                law_one_trade_per_fill(
                    fill_front(queues, p, fill),
                    side,
                    limit,
                    (qty - fill) as nat,
                    taker,
                );
            }
        },
        None => {},
    }
}

/// Number of orders of a queue that a taker of `qty` lots fills, in part or
/// whole.
pub open spec fn queue_fills(queue: Seq<Resting>, qty: nat) -> nat
    decreases queue.len(),
{
    if qty == 0 || queue.len() == 0 {
        0
    } else if qty <= queue[0].qty {
        1
    } else {
        1 + queue_fills(queue.drop_first(), (qty - queue[0].qty) as nat)
    }
}

/// A taker that the best level can fill stops there; any other fills every
/// order of it and goes on.
pub proof fn lemma_fills_level(
    queues: Queues,
    side: Side,
    limit: Option<Price>,
    qty: nat,
    p: Price,
)
    requires
        lively(queues),
        is_best(queues, side, p),
        crosses(side, p, limit),
    ensures
        qty < total(queues[p]) ==> fills(queues, side, limit, qty) == queue_fills(queues[p], qty),
        qty >= total(queues[p]) ==> fills(queues, side, limit, qty) == queues[p].len() + fills(
            queues.remove(p),
            side,
            limit,
            (qty - total(queues[p])) as nat,
        ),
    decreases queues[p].len(),
{
    lemma_best_unique(queues, side, p);
    assert(queues[p].len() > 0);
    let first = queues[p][0];
    assert(first.qty > 0);
    let rest = queues[p].drop_first();
    if qty >= first.qty {
        let after = fill_front(queues, p, first.qty as nat);
        lemma_fill_front(queues, p, first.qty as nat);
        assert(queues[p].remove(0) =~= rest);
        if queues[p].len() == 1 {
            assert(total(rest) == 0);
        } else {
            assert(rest[0].qty > 0) by {
                assert(queues[p][1].qty > 0);
            }
            assert(is_best(after, side, p)) by {
                assert forall|q: Price| #[trigger] after.contains_key(q) implies q == p || better(
                    side,
                    p,
                    q,
                ) by {
                    assert(queues.contains_key(q));
                }
            }
            lemma_fills_level(after, side, limit, (qty - first.qty) as nat, p);
            assert(after.remove(p) =~= queues.remove(p));
        }
    } else {
        assert(fills(fill_front(queues, p, qty), side, limit, 0) == 0);
    }
}

/// Every fill is of at least one lot, so an order makes no more trades than
/// it has lots; all its fills are trades.
pub proof fn law_no_more_trades_than_lots(
    queues: Queues,
    side: Side,
    limit: Option<Price>,
    qty: nat,
    taker: OrderId,
)
    requires
        lively(queues),
    ensures
        ({
            let swept = sweep(queues, side, limit, qty, taker);
            &&& swept.trades.len() + swept.remaining <= qty
            &&& count(swept.trades, is_trade()) == swept.trades.len()
            &&& count(swept.trades, is_accept()) == 0
            &&& count(swept.trades, is_cancel()) == 0
            &&& count(swept.trades, is_reject()) == 0
        }),
    decreases qty,
{
    lemma_best(queues, side);
    match best(queues, side) {
        Some(p) => {
            assert(queues.contains_key(p));
            if qty > 0 && crosses(side, p, limit) {
                let maker = queues[p][0];
                assert(maker.qty > 0);
                let fill: nat = if qty <= maker.qty {
                    qty
                } else {
                    maker.qty as nat
                };
                let mid = fill_front(queues, p, fill);
                lemma_fill_front(queues, p, fill);
                law_no_more_trades_than_lots(mid, side, limit, (qty - fill) as nat, taker);
                let rest = sweep(mid, side, limit, (qty - fill) as nat, taker);
                let ev = Event::Trade { maker: maker.id, taker, price: p, qty: fill as Qty };
                lemma_count_one(ev, rest.trades, is_trade());
                lemma_count_one(ev, rest.trades, is_accept());
                lemma_count_one(ev, rest.trades, is_cancel());
                lemma_count_one(ev, rest.trades, is_reject());
            }
        },
        None => {},
    }
}

/// One event in front counts for itself.
pub proof fn lemma_count_one(ev: Event, rest: Seq<Event>, kind: spec_fn(Event) -> bool)
    ensures
        count(seq![ev] + rest, kind) == count(rest, kind) + if kind(ev) {
            1nat
        } else {
            0nat
        },
{
    lemma_count_concat(seq![ev], rest, kind);
    assert(seq![ev].drop_last() =~= Seq::empty());
    assert(count(seq![ev].drop_last(), kind) == 0);
}

} // verus!
