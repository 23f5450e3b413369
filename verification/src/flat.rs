//! A deliberately naive book, and the proof that the engine is it.
//!
//! The flat book is one sequence of orders in order of arrival. It matches by
//! looking, each time, through all orders for the one with the best price
//! and, among those, the earliest: price-time priority in so many words. The
//! laws at the end say that every request has the same events, and leaves the
//! same book, as with the per-price queues of [`crate::model`].
use vstd::prelude::*;

use crate::events::Event;
use crate::laws::law_matching_is_maximal;
use crate::lemmas::{lemma_best, lemma_best_unique};
use crate::model::{
    append, best, better, crosses, fill_front, is_best, liquidity, queue_at, resize, sweep,
    take_out, totals, BookState, Queues, Resting,
};
use crate::requests::{
    law_removal_keeps_book_valid, lemma_find_is, lemma_found, lemma_ids_finite, lemma_lively,
};
use crate::types::{OrderId, Price, Qty, RejectReason, Side, Tif};

verus! {

/// A resting order of a flat book.
pub struct FlatOrder {
    pub id: OrderId,
    pub side: Side,
    pub price: Price,
    pub qty: Qty,
}

/// Resting orders in order of arrival.
pub type Flat = Seq<FlatOrder>;

/// Lots left in every order, and every id once.
pub open spec fn sane(orders: Flat) -> bool {
    &&& forall|i: int| 0 <= i < orders.len() ==> (#[trigger] orders[i]).qty > 0
    &&& forall|i: int, j: int|
        0 <= i < j < orders.len() ==> (#[trigger] orders[i]).id != (#[trigger] orders[j]).id
}

/// The order can trade with a taker with this limit.
pub open spec fn reachable(o: FlatOrder, maker: Side, limit: Option<Price>) -> bool {
    o.side == maker && crosses(maker, o.price, limit)
}

/// The order at `i` is the one to trade with: no other that can be traded
/// with has a better price, or the same price and arrived earlier.
pub open spec fn comes_first(orders: Flat, maker: Side, limit: Option<Price>, i: int) -> bool {
    &&& 0 <= i < orders.len()
    &&& reachable(orders[i], maker, limit)
    &&& forall|j: int|
        0 <= j < orders.len() && reachable(#[trigger] orders[j], maker, limit) ==> better(
            maker,
            orders[i].price,
            orders[j].price,
        ) || orders[i].price == orders[j].price && i <= j
}

/// The order to trade with, if any.
pub open spec fn first_maker(orders: Flat, maker: Side, limit: Option<Price>) -> Option<int> {
    if exists|i: int| comes_first(orders, maker, limit, i) {
        Some(choose|i: int| comes_first(orders, maker, limit, i))
    } else {
        None
    }
}

/// The order at `i` with another quantity.
pub open spec fn requantified(orders: Flat, i: int, qty: Qty) -> Flat {
    orders.update(i, FlatOrder { qty, ..orders[i] })
}

/// The order at `i` shrinks by `fill`, and leaves if nothing of it is left.
pub open spec fn flat_fill(orders: Flat, i: int, fill: nat) -> Flat {
    if fill >= orders[i].qty {
        orders.remove(i)
    } else {
        requantified(orders, i, (orders[i].qty - fill) as Qty)
    }
}

/// What is left after a taker has matched against a flat book.
pub struct FlatSwept {
    pub orders: Flat,
    pub trades: Seq<Event>,
    pub remaining: nat,
}

/// Matches `qty` lots of `taker`, one order at a time.
pub open spec fn flat_sweep(
    orders: Flat,
    maker: Side,
    limit: Option<Price>,
    qty: nat,
    taker: OrderId,
) -> FlatSwept
    decreases qty,
{
    match first_maker(orders, maker, limit) {
        Some(i) => if qty > 0 && orders[i].qty > 0 {
            let o = orders[i];
            let fill: nat = if qty <= o.qty {
                qty
            } else {
                o.qty as nat
            };
            let after = flat_sweep(
                flat_fill(orders, i, fill),
                maker,
                limit,
                (qty - fill) as nat,
                taker,
            );
            FlatSwept {
                trades: seq![Event::Trade { maker: o.id, taker, price: o.price, qty: fill as Qty }]
                    + after.trades,
                ..after
            }
        } else {
            FlatSwept { orders, trades: Seq::empty(), remaining: qty }
        },
        None => FlatSwept { orders, trades: Seq::empty(), remaining: qty },
    }
}

/// Lots that a taker with this limit can reach.
pub open spec fn reach(orders: Flat, maker: Side, limit: Option<Price>) -> nat
    decreases orders.len(),
{
    if orders.len() == 0 {
        0
    } else {
        reach(orders.drop_last(), maker, limit) + if reachable(orders.last(), maker, limit) {
            orders.last().qty as nat
        } else {
            0
        }
    }
}

/// The flat book and the events after a request.
pub struct FlatOutcome {
    pub orders: Flat,
    pub events: Seq<Event>,
}

pub open spec fn flat_holds(orders: Flat, id: OrderId) -> bool {
    exists|i: int| 0 <= i < orders.len() && (#[trigger] orders[i]).id == id
}

pub open spec fn flat_find(orders: Flat, id: OrderId) -> int {
    choose|i: int| 0 <= i < orders.len() && (#[trigger] orders[i]).id == id
}

pub open spec fn flat_refuse(orders: Flat, id: OrderId, reason: RejectReason) -> FlatOutcome {
    FlatOutcome { orders, events: seq![Event::Rejected { id, reason }] }
}

pub open spec fn flat_enter(
    orders: Flat,
    first: Event,
    id: OrderId,
    side: Side,
    price: Price,
    qty: Qty,
    tif: Tif,
) -> FlatOutcome {
    let swept = flat_sweep(orders, side.opposite(), Some(price), qty as nat, id);
    let events = seq![first] + swept.trades;
    if swept.remaining == 0 {
        FlatOutcome { orders: swept.orders, events }
    } else if tif == Tif::Gtc {
        FlatOutcome {
            orders: swept.orders.push(
                FlatOrder { id, side, price, qty: swept.remaining as Qty },
            ),
            events,
        }
    } else {
        FlatOutcome {
            orders: swept.orders,
            events: events.push(Event::Canceled { id, remaining: swept.remaining as Qty }),
        }
    }
}

pub open spec fn flat_limit(
    orders: Flat,
    id: OrderId,
    side: Side,
    price: Price,
    qty: Qty,
    tif: Tif,
) -> FlatOutcome {
    if qty == 0 {
        flat_refuse(orders, id, RejectReason::ZeroQty)
    } else if flat_holds(orders, id) {
        flat_refuse(orders, id, RejectReason::DuplicateId)
    } else if tif == Tif::Fok && reach(orders, side.opposite(), Some(price)) < qty {
        flat_refuse(orders, id, RejectReason::FokUnfillable)
    } else {
        flat_enter(orders, Event::Accepted { id }, id, side, price, qty, tif)
    }
}

pub open spec fn flat_market(orders: Flat, id: OrderId, side: Side, qty: Qty) -> FlatOutcome {
    if qty == 0 {
        flat_refuse(orders, id, RejectReason::ZeroQty)
    } else if flat_holds(orders, id) {
        flat_refuse(orders, id, RejectReason::DuplicateId)
    } else {
        let swept = flat_sweep(orders, side.opposite(), None, qty as nat, id);
        let events = seq![Event::Accepted { id }] + swept.trades;
        FlatOutcome {
            orders: swept.orders,
            events: if swept.remaining == 0 {
                events
            } else {
                events.push(Event::Canceled { id, remaining: swept.remaining as Qty })
            },
        }
    }
}

pub open spec fn flat_cancel(orders: Flat, id: OrderId) -> FlatOutcome {
    if flat_holds(orders, id) {
        let i = flat_find(orders, id);
        FlatOutcome {
            orders: orders.remove(i),
            events: seq![Event::Canceled { id, remaining: orders[i].qty }],
        }
    } else {
        flat_refuse(orders, id, RejectReason::UnknownOrder)
    }
}

pub open spec fn flat_replace(orders: Flat, id: OrderId, price: Price, qty: Qty) -> FlatOutcome {
    if !flat_holds(orders, id) {
        flat_refuse(orders, id, RejectReason::UnknownOrder)
    } else if qty == 0 {
        flat_refuse(orders, id, RejectReason::ZeroQty)
    } else {
        let i = flat_find(orders, id);
        let o = orders[i];
        if price == o.price && qty < o.qty {
            FlatOutcome {
                orders: requantified(orders, i, qty),
                events: seq![Event::Replaced { id }],
            }
        } else {
            flat_enter(
                orders.remove(i),
                Event::Replaced { id },
                id,
                o.side,
                price,
                qty,
                Tif::Gtc,
            )
        }
    }
}

/// The order is of this side and price.
pub open spec fn is_at(o: FlatOrder, side: Side, price: Price) -> bool {
    o.side == side && o.price == price
}

/// The queue at a price: its orders in order of arrival.
pub open spec fn level(orders: Flat, side: Side, price: Price) -> Seq<Resting>
    decreases orders.len(),
{
    if orders.len() == 0 {
        Seq::empty()
    } else {
        let front = level(orders.drop_last(), side, price);
        let o = orders.last();
        if is_at(o, side, price) {
            front.push(Resting { id: o.id, qty: o.qty })
        } else {
            front
        }
    }
}

pub open spec fn flat_queues(orders: Flat, side: Side) -> Queues {
    Map::new(
        |p: Price| level(orders, side, p).len() > 0,
        |p: Price| level(orders, side, p),
    )
}

/// The per-price queues of a flat book.
pub open spec fn book_of(orders: Flat) -> BookState {
    BookState {
        bids: flat_queues(orders, Side::Bid),
        asks: flat_queues(orders, Side::Ask),
    }
}

/// Position of the order at `i` in its queue.
spec fn rank(orders: Flat, i: int) -> int {
    level(orders.take(i), orders[i].side, orders[i].price).len() as int
}

/// An order stands in its queue at its rank.
proof fn lemma_rank(orders: Flat, i: int)
    requires
        0 <= i < orders.len(),
    ensures
        ({
            let o = orders[i];
            let queue = level(orders, o.side, o.price);
            &&& 0 <= rank(orders, i) < queue.len()
            &&& queue[rank(orders, i)] == (Resting { id: o.id, qty: o.qty })
        }),
    decreases orders.len(),
{
    let o = orders[i];
    let front = orders.drop_last();
    if i < front.len() {
        lemma_rank(front, i);
        assert(front.take(i) =~= orders.take(i));
        assert(front[i] == o);
    } else {
        assert(orders.take(i) =~= front);
    }
}

/// Every place of a queue is the rank of an order.
proof fn lemma_unrank(orders: Flat, side: Side, price: Price, k: int) -> (i: int)
    requires
        0 <= k < level(orders, side, price).len(),
    ensures
        0 <= i < orders.len(),
        is_at(orders[i], side, price),
        rank(orders, i) == k,
    decreases orders.len(),
{
    let front = orders.drop_last();
    if k < level(front, side, price).len() {
        let i = lemma_unrank(front, side, price, k);
        assert(front.take(i) =~= orders.take(i));
        i
    } else {
        assert(orders.take(orders.len() - 1) =~= front);
        orders.len() - 1
    }
}

/// An order earlier in its queue arrived earlier.
proof fn lemma_rank_grows(orders: Flat, i: int, j: int)
    requires
        0 <= i < j < orders.len(),
        is_at(orders[j], orders[i].side, orders[i].price),
    ensures
        rank(orders, i) < rank(orders, j),
{
    let before = orders.take(j);
    lemma_rank(before, i);
    assert(before[i] == orders[i]);
    assert(before.take(i) =~= orders.take(i));
}

/// Taking an order out takes it out of its queue and leaves all others.
proof fn lemma_level_remove(orders: Flat, i: int, side: Side, price: Price)
    requires
        0 <= i < orders.len(),
    ensures
        level(orders.remove(i), side, price) =~= if is_at(orders[i], side, price) {
            level(orders, side, price).remove(rank(orders, i))
        } else {
            level(orders, side, price)
        },
    decreases orders.len(),
{
    let front = orders.drop_last();
    lemma_rank(orders, i);
    if i < front.len() {
        lemma_level_remove(front, i, side, price);
        lemma_rank(front, i);
        assert(orders.remove(i).drop_last() =~= front.remove(i));
        assert(orders.remove(i).last() == orders.last());
        assert(front.take(i) =~= orders.take(i));
    } else {
        assert(orders.remove(i) =~= front);
        assert(orders.take(i) =~= front);
    }
}

/// Another quantity changes the order in its queue and leaves all others.
proof fn lemma_level_requantified(orders: Flat, i: int, qty: Qty, side: Side, price: Price)
    requires
        0 <= i < orders.len(),
    ensures
        level(requantified(orders, i, qty), side, price) =~= if is_at(orders[i], side, price) {
            level(orders, side, price).update(
                rank(orders, i),
                Resting { id: orders[i].id, qty },
            )
        } else {
            level(orders, side, price)
        },
    decreases orders.len(),
{
    let front = orders.drop_last();
    let after = requantified(orders, i, qty);
    lemma_rank(orders, i);
    if i < front.len() {
        lemma_level_requantified(front, i, qty, side, price);
        lemma_rank(front, i);
        assert(after.drop_last() =~= requantified(front, i, qty));
        assert(after.last() == orders.last());
        assert(front.take(i) =~= orders.take(i));
    } else {
        assert(after.drop_last() =~= front);
        assert(orders.take(i) =~= front);
    }
}

/// The queues of a flat book are finitely many and none is empty.
proof fn lemma_flat_finite(orders: Flat, side: Side)
    ensures
        flat_queues(orders, side).dom().finite(),
{
    let prices = orders.map_values(|o: FlatOrder| o.price);
    vstd::seq_lib::seq_to_set_is_finite(prices);
    assert(flat_queues(orders, side).dom().subset_of(prices.to_set())) by {
        assert forall|p: Price| flat_queues(orders, side).dom().contains(
            p,
        ) implies prices.to_set().contains(p) by {
            let i = lemma_unrank(orders, side, p, 0);
            assert(prices[i] == p);
        }
    }
    vstd::set_lib::lemma_set_subset_finite(prices.to_set(), flat_queues(orders, side).dom());
}

/// The queues of a sane flat book are a well-formed book.
proof fn lemma_book_of(orders: Flat)
    requires
        sane(orders),
    ensures
        book_of(orders).well_formed(),
        forall|id: OrderId| #[trigger] book_of(orders).holds(id) <==> flat_holds(orders, id),
{
    let book = book_of(orders);
    lemma_flat_finite(orders, Side::Bid);
    lemma_flat_finite(orders, Side::Ask);
    assert forall|side: Side, price: Price, k: int| #[trigger]
        book.has(side, price, k) implies book.order_at(side, price, k).qty > 0 by {
        let i = lemma_unrank(orders, side, price, k);
        lemma_rank(orders, i);
    }
    assert forall|side1: Side, price1: Price, k1: int, side2: Side, price2: Price, k2: int|
        #![trigger book.has(side1, price1, k1), book.has(side2, price2, k2)]
        book.has(side1, price1, k1) && book.has(side2, price2, k2) && book.order_at(
            side1,
            price1,
            k1,
        ).id == book.order_at(side2, price2, k2).id implies side1 == side2 && price1 == price2
        && k1 == k2 by {
        let i1 = lemma_unrank(orders, side1, price1, k1);
        let i2 = lemma_unrank(orders, side2, price2, k2);
        lemma_rank(orders, i1);
        lemma_rank(orders, i2);
        assert(orders[i1].id == orders[i2].id);
        assert(i1 == i2);
    }
    assert forall|id: OrderId| #[trigger] book.holds(id) implies flat_holds(orders, id) by {
        lemma_found(book, id);
        let (side, price, k) = book.find(id);
        let i = lemma_unrank(orders, side, price, k);
        lemma_rank(orders, i);
        assert(orders[i].id == id);
    }
    assert forall|id: OrderId| flat_holds(orders, id) implies #[trigger] book.holds(id) by {
        let i = flat_find(orders, id);
        lemma_rank(orders, i);
        assert(book.sits_at(id, orders[i].side, orders[i].price, rank(orders, i)));
    }
}

/// An order is found in the queues where its rank says.
proof fn lemma_book_find(orders: Flat, i: int)
    requires
        sane(orders),
        0 <= i < orders.len(),
    ensures
        book_of(orders).holds(orders[i].id),
        book_of(orders).find(orders[i].id) == (
            orders[i].side,
            orders[i].price,
            rank(orders, i),
        ),
        book_of(orders).order_at(orders[i].side, orders[i].price, rank(orders, i)) == (Resting {
            id: orders[i].id,
            qty: orders[i].qty,
        }),
        flat_find(orders, orders[i].id) == i,
{
    lemma_book_of(orders);
    lemma_rank(orders, i);
    let o = orders[i];
    assert(book_of(orders).sits_at(o.id, o.side, o.price, rank(orders, i)));
    lemma_find_is(book_of(orders), o.id, o.side, o.price, rank(orders, i));
    let j = flat_find(orders, o.id);
    assert(0 <= j < orders.len() && orders[j].id == o.id);
}

/// If any order can be traded with, one of them comes first.
proof fn lemma_first_exists(orders: Flat, maker: Side, limit: Option<Price>, j: int) -> (i: int)
    requires
        0 <= j < orders.len(),
        reachable(orders[j], maker, limit),
    ensures
        comes_first(orders, maker, limit, i),
    decreases orders.len(),
{
    let front = orders.drop_last();
    let n = orders.len() - 1;
    if exists|k: int| 0 <= k < front.len() && reachable(#[trigger] front[k], maker, limit) {
        let k = choose|k: int| 0 <= k < front.len() && reachable(#[trigger] front[k], maker, limit);
        let i = lemma_first_exists(front, maker, limit, k);
        let w = if reachable(orders[n], maker, limit) && better(
            maker,
            orders[n].price,
            orders[i].price,
        ) {
            n
        } else {
            i
        };
        assert forall|m: int|
            0 <= m < orders.len() && reachable(#[trigger] orders[m], maker, limit) implies better(
            maker,
            orders[w].price,
            orders[m].price,
        ) || orders[w].price == orders[m].price && w <= m by {
            if m < n {
                assert(front[m] == orders[m]);
            }
        }
        w
    } else {
        assert(j == n) by {
            if j < n {
                assert(front[j] == orders[j]);
            }
        }
        assert forall|m: int|
            0 <= m < orders.len() && reachable(#[trigger] orders[m], maker, limit) implies m == n by {
            if m < n {
                assert(front[m] == orders[m]);
            }
        }
        n
    }
}

/// A fill keeps a flat book sane and adds no ids.
proof fn lemma_flat_fill_sane(orders: Flat, i: int, fill: nat)
    requires
        sane(orders),
        0 <= i < orders.len(),
    ensures
        sane(flat_fill(orders, i, fill)),
        forall|id: OrderId| #[trigger]
            flat_holds(flat_fill(orders, i, fill), id) ==> flat_holds(orders, id),
{
    let after = flat_fill(orders, i, fill);
    let gone = fill >= orders[i].qty;
    assert forall|k: int| 0 <= k < after.len() implies (#[trigger] after[k]).id == orders[
        if gone && k >= i {
            k + 1
        } else {
            k
        }
    ].id by {}
    assert forall|id: OrderId| #[trigger] flat_holds(after, id) implies flat_holds(
        orders,
        id,
    ) by {
        let k = flat_find(after, id);
        let m = if gone && k >= i {
            k + 1
        } else {
            k
        };
        assert(orders[m].id == id);
    }
}

/// A fill of the order that comes first is a fill of the front of the best
/// queue.
proof fn lemma_flat_fill(orders: Flat, maker: Side, limit: Option<Price>, i: int, fill: nat)
    requires
        sane(orders),
        comes_first(orders, maker, limit, i),
        fill > 0,
    ensures
        ({
            let p = orders[i].price;
            let queues = flat_queues(orders, maker);
            let after = flat_fill(orders, i, fill);
            &&& is_best(queues, maker, p)
            &&& queues[p].len() > 0
            &&& queues[p][0] == (Resting { id: orders[i].id, qty: orders[i].qty })
            &&& flat_queues(after, maker) == fill_front(queues, p, fill)
            &&& flat_queues(after, maker.opposite()) == flat_queues(orders, maker.opposite())
        }),
{
    let o = orders[i];
    let p = o.price;
    let queues = flat_queues(orders, maker);
    let after = flat_fill(orders, i, fill);
    lemma_rank(orders, i);
    if rank(orders, i) > 0 {
        let j = lemma_unrank(orders, maker, p, 0);
        if j > i {
            lemma_rank_grows(orders, i, j);
        }
        assert(j < i);
        assert(reachable(orders[j], maker, limit));
        assert(false);
    }
    assert(is_best(queues, maker, p)) by {
        assert forall|q: Price| #[trigger] queues.contains_key(q) implies q == p || better(
            maker,
            p,
            q,
        ) by {
            let j = lemma_unrank(orders, maker, q, 0);
            if crosses(maker, q, limit) {
                assert(reachable(orders[j], maker, limit));
            }
        }
    }
    assert forall|side: Side, q: Price| level(after, side, q) == (if is_at(o, side, q) {
        if fill >= o.qty {
            level(orders, side, q).remove(0)
        } else {
            level(orders, side, q).update(
                0,
                Resting { id: o.id, qty: (o.qty - fill) as Qty },
            )
        }
    } else {
        level(orders, side, q)
    }) by {
        if fill >= o.qty {
            lemma_level_remove(orders, i, side, q);
        } else {
            lemma_level_requantified(orders, i, (o.qty - fill) as Qty, side, q);
        }
    }
    assert(flat_queues(after, maker.opposite()) =~= flat_queues(orders, maker.opposite()));
    assert(flat_queues(after, maker) =~= fill_front(queues, p, fill)) by {
        assert forall|q: Price| flat_queues(after, maker).contains_key(q) == fill_front(
            queues,
            p,
            fill,
        ).contains_key(q) by {
            assert(level(after, maker, q).len() > 0 <==> flat_queues(after, maker).contains_key(q));
        }
    }
}

/// Matching a flat book is matching its queues.
proof fn lemma_flat_sweep(
    orders: Flat,
    maker: Side,
    limit: Option<Price>,
    qty: nat,
    taker: OrderId,
)
    requires
        sane(orders),
    ensures
        ({
            let flat = flat_sweep(orders, maker, limit, qty, taker);
            let swept = sweep(flat_queues(orders, maker), maker, limit, qty, taker);
            &&& flat.trades == swept.trades
            &&& flat.remaining == swept.remaining
            &&& flat_queues(flat.orders, maker) == swept.queues
            &&& flat_queues(flat.orders, maker.opposite()) == flat_queues(
                orders,
                maker.opposite(),
            )
            &&& sane(flat.orders)
            &&& forall|id: OrderId| #[trigger] flat_holds(flat.orders, id) ==> flat_holds(
                orders,
                id,
            )
        }),
    decreases qty,
{
    let queues = flat_queues(orders, maker);
    lemma_flat_finite(orders, maker);
    lemma_best(queues, maker);
    match first_maker(orders, maker, limit) {
        Some(i) => {
            assert(comes_first(orders, maker, limit, i));
            if qty > 0 {
                let o = orders[i];
                let fill: nat = if qty <= o.qty {
                    qty
                } else {
                    o.qty as nat
                };
                lemma_flat_fill(orders, maker, limit, i, fill);
                lemma_best_unique(queues, maker, o.price);
                lemma_flat_fill_sane(orders, i, fill);
                lemma_flat_sweep(
                    flat_fill(orders, i, fill),
                    maker,
                    limit,
                    (qty - fill) as nat,
                    taker,
                );
            }
        },
        None => {
            if let Some(p) = best(queues, maker) {
                let j = lemma_unrank(orders, maker, p, 0);
                if crosses(maker, p, limit) {
                    let i = lemma_first_exists(orders, maker, limit, j);
                    assert(comes_first(orders, maker, limit, i));
                }
            }
        },
    }
}

proof fn lemma_reach_remove(orders: Flat, maker: Side, limit: Option<Price>, i: int)
    requires
        0 <= i < orders.len(),
    ensures
        reach(orders, maker, limit) == reach(orders.remove(i), maker, limit) + if reachable(
            orders[i],
            maker,
            limit,
        ) {
            orders[i].qty as nat
        } else {
            0
        },
    decreases orders.len(),
{
    let front = orders.drop_last();
    if i < front.len() {
        lemma_reach_remove(front, maker, limit, i);
        assert(orders.remove(i).drop_last() =~= front.remove(i));
        assert(orders.remove(i).last() == orders.last());
    } else {
        assert(orders.remove(i) =~= front);
    }
}

proof fn lemma_reach_requantified(
    orders: Flat,
    maker: Side,
    limit: Option<Price>,
    i: int,
    qty: Qty,
)
    requires
        0 <= i < orders.len(),
        reachable(orders[i], maker, limit),
    ensures
        reach(requantified(orders, i, qty), maker, limit) == reach(orders, maker, limit)
            - orders[i].qty + qty,
    decreases orders.len(),
{
    let front = orders.drop_last();
    let after = requantified(orders, i, qty);
    if i < front.len() {
        lemma_reach_requantified(front, maker, limit, i, qty);
        assert(after.drop_last() =~= requantified(front, i, qty));
        assert(after.last() == orders.last());
    } else {
        assert(after.drop_last() =~= front);
    }
}

proof fn lemma_nothing_reached(orders: Flat, maker: Side, limit: Option<Price>)
    requires
        forall|i: int| 0 <= i < orders.len() ==> !reachable(#[trigger] orders[i], maker, limit),
    ensures
        reach(orders, maker, limit) == 0,
    decreases orders.len(),
{
    if orders.len() > 0 {
        let front = orders.drop_last();
        assert forall|i: int| 0 <= i < front.len() implies !reachable(
            #[trigger] front[i],
            maker,
            limit,
        ) by {
            assert(front[i] == orders[i]);
        }
        lemma_nothing_reached(front, maker, limit);
        assert(!reachable(orders[orders.len() - 1], maker, limit));
    }
}

/// A flat book is matched as far as it can be.
proof fn lemma_flat_maximal(
    orders: Flat,
    maker: Side,
    limit: Option<Price>,
    qty: nat,
    taker: OrderId,
)
    requires
        sane(orders),
    ensures
        flat_sweep(orders, maker, limit, qty, taker).remaining == (if qty <= reach(
            orders,
            maker,
            limit,
        ) {
            0
        } else {
            (qty - reach(orders, maker, limit)) as nat
        }),
    decreases qty,
{
    match first_maker(orders, maker, limit) {
        Some(i) => {
            assert(comes_first(orders, maker, limit, i));
            if qty > 0 {
                let o = orders[i];
                let fill: nat = if qty <= o.qty {
                    qty
                } else {
                    o.qty as nat
                };
                if fill >= o.qty {
                    lemma_reach_remove(orders, maker, limit, i);
                } else {
                    lemma_reach_requantified(orders, maker, limit, i, (o.qty - fill) as Qty);
                }
                lemma_flat_fill_sane(orders, i, fill);
                lemma_flat_maximal(
                    flat_fill(orders, i, fill),
                    maker,
                    limit,
                    (qty - fill) as nat,
                    taker,
                );
            }
        },
        None => {
            assert forall|j: int| 0 <= j < orders.len() implies !reachable(
                #[trigger] orders[j],
                maker,
                limit,
            ) by {
                if reachable(orders[j], maker, limit) {
                    let i = lemma_first_exists(orders, maker, limit, j);
                    assert(comes_first(orders, maker, limit, i));
                }
            }
            lemma_nothing_reached(orders, maker, limit);
        },
    }
}

/// Both books see the same liquidity within a limit.
pub proof fn law_flat_book_has_same_liquidity(orders: Flat, maker: Side, limit: Option<Price>)
    requires
        sane(orders),
    ensures
        reach(orders, maker, limit) == liquidity(
            totals(book_of(orders).queues(maker)),
            maker,
            limit,
        ),
{
    let queues = flat_queues(orders, maker);
    let a = reach(orders, maker, limit);
    let b = liquidity(totals(queues), maker, limit);
    assert(book_of(orders).queues(maker) == queues);
    lemma_book_of(orders);
    lemma_lively(book_of(orders), maker);
    lemma_flat_sweep(orders, maker, limit, a + b, 0);
    lemma_flat_maximal(orders, maker, limit, a + b, 0);
    law_matching_is_maximal(queues, maker, limit, a + b, 0);
}

/// Resting an order at the end of a flat book rests it at the back of its
/// queue.
proof fn lemma_flat_push(orders: Flat, id: OrderId, side: Side, price: Price, qty: Qty)
    requires
        sane(orders),
        !flat_holds(orders, id),
        qty > 0,
    ensures
        book_of(orders.push(FlatOrder { id, side, price, qty })) == book_of(orders).rested(
            id,
            side,
            price,
            qty,
        ),
        sane(orders.push(FlatOrder { id, side, price, qty })),
{
    let o = FlatOrder { id, side, price, qty };
    let after = orders.push(o);
    assert(after.drop_last() =~= orders);
    assert(after.last() == o);
    assert forall|i: int, j: int| 0 <= i < j < after.len() implies (#[trigger] after[i]).id != (
    #[trigger] after[j]).id by {
        if j == orders.len() {
            assert(orders[i].id != id);
        }
    }
    assert forall|s: Side, p: Price| #[trigger] level(after, s, p) == (if is_at(o, s, p) {
        level(orders, s, p).push(Resting { id, qty })
    } else {
        level(orders, s, p)
    }) by {}
    let queues = append(flat_queues(orders, side), price, Resting { id, qty });
    assert(level(after, side, price) == level(orders, side, price).push(Resting { id, qty }));
    assert(queue_at(flat_queues(orders, side), price) =~= level(orders, side, price));
    assert(flat_queues(after, side) =~= queues) by {
        assert forall|p: Price| flat_queues(after, side).contains_key(p) == queues.contains_key(
            p,
        ) by {
            assert(level(after, side, p) == level(after, side, p));
        }
    }
    assert(flat_queues(after, side.opposite()) =~= flat_queues(orders, side.opposite())) by {
        assert forall|p: Price| level(after, side.opposite(), p) == level(
            orders,
            side.opposite(),
            p,
        ) by {}
    }
    assert(book_of(after) =~= book_of(orders).rested(id, side, price, qty));
}

proof fn lemma_flat_enter(
    orders: Flat,
    first: Event,
    id: OrderId,
    side: Side,
    price: Price,
    qty: Qty,
    tif: Tif,
)
    requires
        sane(orders),
        !flat_holds(orders, id),
    ensures
        ({
            let flat = flat_enter(orders, first, id, side, price, qty, tif);
            let o = book_of(orders).enter(first, id, side, price, qty, tif);
            &&& flat.events == o.events
            &&& book_of(flat.orders) == o.book
            &&& sane(flat.orders)
        }),
{
    let maker = side.opposite();
    let flat = flat_sweep(orders, maker, Some(price), qty as nat, id);
    lemma_flat_sweep(orders, maker, Some(price), qty as nat, id);
    law_matching_matches_flat_book(orders, id, side, Some(price), qty);
    lemma_flat_maximal(orders, maker, Some(price), qty as nat, id);
    if flat.remaining > 0 && tif == Tif::Gtc {
        lemma_flat_push(flat.orders, id, side, price, flat.remaining as Qty);
    }
}

/// Taking an order out of a flat book takes it out of its queue.
proof fn lemma_flat_remove(orders: Flat, i: int)
    requires
        sane(orders),
        0 <= i < orders.len(),
    ensures
        book_of(orders.remove(i)) == book_of(orders).without(orders[i].id),
        sane(orders.remove(i)),
        !flat_holds(orders.remove(i), orders[i].id),
{
    let o = orders[i];
    let after = orders.remove(i);
    let book = book_of(orders);
    lemma_book_find(orders, i);
    lemma_rank(orders, i);
    assert forall|s: Side, p: Price| level(after, s, p) == (if is_at(o, s, p) {
        level(orders, s, p).remove(rank(orders, i))
    } else {
        level(orders, s, p)
    }) by {
        lemma_level_remove(orders, i, s, p);
    }
    let queues = take_out(flat_queues(orders, o.side), o.price, rank(orders, i));
    assert(flat_queues(after, o.side) =~= queues) by {
        assert forall|p: Price| flat_queues(after, o.side).contains_key(p) == queues.contains_key(
            p,
        ) by {
            assert(level(after, o.side, p).len() > 0 <==> flat_queues(after, o.side).contains_key(
                p,
            ));
        }
    }
    assert(flat_queues(after, o.side.opposite()) =~= flat_queues(orders, o.side.opposite()));
    assert(book_of(after) =~= book.without(o.id));
    assert forall|k: int| 0 <= k < after.len() implies (#[trigger] after[k]).id != o.id by {
        if k < i {
            assert(orders[k].id != orders[i].id);
        } else {
            assert(orders[i].id != orders[k + 1].id);
        }
    }
}

/// An incoming order has the same fills, in the same order, the same lots left
/// over and leaves the same book, as with the flat book: each time it trades
/// with the best-priced order within its limit and, among those, the earliest.
pub proof fn law_matching_matches_flat_book(
    orders: Flat,
    taker: OrderId,
    side: Side,
    limit: Option<Price>,
    qty: Qty,
)
    requires
        sane(orders),
    ensures
        ({
            let flat = flat_sweep(orders, side.opposite(), limit, qty as nat, taker);
            let swept = book_of(orders).swept(taker, side, limit, qty);
            &&& flat.trades == swept.trades
            &&& flat.remaining == swept.remaining
            &&& book_of(flat.orders) == book_of(orders).after_match(taker, side, limit, qty)
            &&& sane(flat.orders)
        }),
{
    let maker = side.opposite();
    let flat = flat_sweep(orders, maker, limit, qty as nat, taker);
    lemma_flat_sweep(orders, maker, limit, qty as nat, taker);
    assert(book_of(orders).queues(maker) == flat_queues(orders, maker));
    assert(book_of(flat.orders) =~= book_of(orders).after_match(taker, side, limit, qty));
}

/// A limit order has the same events, and leaves the same book, as with the
/// flat book.
pub proof fn law_limit_matches_flat_book(
    orders: Flat,
    id: OrderId,
    side: Side,
    price: Price,
    qty: Qty,
    tif: Tif,
)
    requires
        sane(orders),
    ensures
        ({
            let flat = flat_limit(orders, id, side, price, qty, tif);
            let o = book_of(orders).limit(id, side, price, qty, tif);
            &&& flat.events == o.events
            &&& book_of(flat.orders) == o.book
            &&& sane(flat.orders)
        }),
{
    lemma_book_of(orders);
    law_flat_book_has_same_liquidity(orders, side.opposite(), Some(price));
    assert(book_of(orders).holds(id) <==> flat_holds(orders, id));
    if qty > 0 && !flat_holds(orders, id) {
        lemma_flat_enter(orders, Event::Accepted { id }, id, side, price, qty, tif);
    }
}

/// A market order has the same events, and leaves the same book, as with the
/// flat book.
pub proof fn law_market_matches_flat_book(orders: Flat, id: OrderId, side: Side, qty: Qty)
    requires
        sane(orders),
    ensures
        ({
            let flat = flat_market(orders, id, side, qty);
            let o = book_of(orders).market(id, side, qty);
            &&& flat.events == o.events
            &&& book_of(flat.orders) == o.book
            &&& sane(flat.orders)
        }),
{
    lemma_book_of(orders);
    assert(book_of(orders).holds(id) <==> flat_holds(orders, id));
    law_matching_matches_flat_book(orders, id, side, None, qty);
}

/// A cancel request has the same events, and leaves the same book, as with
/// the flat book.
pub proof fn law_cancel_matches_flat_book(orders: Flat, id: OrderId)
    requires
        sane(orders),
    ensures
        ({
            let flat = flat_cancel(orders, id);
            let o = book_of(orders).cancel(id);
            &&& flat.events == o.events
            &&& book_of(flat.orders) == o.book
            &&& sane(flat.orders)
        }),
{
    lemma_book_of(orders);
    assert(book_of(orders).holds(id) <==> flat_holds(orders, id));
    if flat_holds(orders, id) {
        let i = flat_find(orders, id);
        lemma_book_find(orders, i);
        lemma_flat_remove(orders, i);
    }
}

/// A cancel/replace request has the same events, and leaves the same book, as
/// with the flat book.
pub proof fn law_replace_matches_flat_book(orders: Flat, id: OrderId, price: Price, qty: Qty)
    requires
        sane(orders),
    ensures
        ({
            let flat = flat_replace(orders, id, price, qty);
            let o = book_of(orders).replace(id, price, qty);
            &&& flat.events == o.events
            &&& book_of(flat.orders) == o.book
            &&& sane(flat.orders)
        }),
{
    lemma_book_of(orders);
    assert(book_of(orders).holds(id) <==> flat_holds(orders, id));
    if flat_holds(orders, id) && qty > 0 {
        let i = flat_find(orders, id);
        let o = orders[i];
        lemma_book_find(orders, i);
        if price == o.price && qty < o.qty {
            let after = requantified(orders, i, qty);
            lemma_rank(orders, i);
            assert forall|s: Side, p: Price| level(after, s, p) == (if is_at(o, s, p) {
                level(orders, s, p).update(rank(orders, i), Resting { id: o.id, qty })
            } else {
                level(orders, s, p)
            }) by {
                lemma_level_requantified(orders, i, qty, s, p);
            }
            let queues = resize(flat_queues(orders, o.side), price, rank(orders, i), qty);
            assert(flat_queues(after, o.side) =~= queues) by {
                assert forall|p: Price| flat_queues(after, o.side).contains_key(p)
                    == queues.contains_key(p) by {
                    assert(level(after, o.side, p).len() > 0 <==> flat_queues(
                        after,
                        o.side,
                    ).contains_key(p));
                }
            }
            assert(flat_queues(after, o.side.opposite()) =~= flat_queues(
                orders,
                o.side.opposite(),
            ));
            assert(book_of(after) =~= book_of(orders).replace(id, price, qty).book);
        } else {
            lemma_flat_remove(orders, i);
            lemma_flat_enter(
                orders.remove(i),
                Event::Replaced { id },
                id,
                o.side,
                price,
                qty,
                Tif::Gtc,
            );
        }
    }
}

/// An empty flat book is an empty book.
pub proof fn law_empty_flat_book_is_empty()
    ensures
        sane(Seq::empty()),
        book_of(Seq::empty()) == BookState::empty(),
{
    assert(book_of(Seq::empty()) =~= BookState::empty());
}

/// Every valid book is the book of a flat one, so that what is said of the
/// books of flat books is said of all.
pub proof fn law_every_book_has_a_flat_book(book: BookState) -> (orders: Flat)
    requires
        book.valid(),
    ensures
        sane(orders),
        book_of(orders) == book,
    decreases book.ids().len(),
{
    lemma_ids_finite(book);
    if exists|side: Side, price: Price| #[trigger] book.queues(side).contains_key(price) {
        let (side, price) = choose|side: Side, price: Price| #[trigger]
            book.queues(side).contains_key(price);
        let queue = book.queues(side)[price];
        let i = queue.len() - 1;
        let o = queue[i];
        let fewer = book.without(o.id);
        assert(book.sits_at(o.id, side, price, i));
        lemma_find_is(book, o.id, side, price, i);
        law_removal_keeps_book_valid(book, o.id);
        assert(book.ids().contains(o.id));
        assert(fewer.ids() =~= book.ids().remove(o.id));
        let orders = law_every_book_has_a_flat_book(fewer);
        lemma_book_of(orders);
        assert(!book_of(orders).holds(o.id));
        assert(book.has(side, price, i));
        lemma_flat_push(orders, o.id, side, price, o.qty);
        assert(queue.remove(i).push(o) =~= queue);
        assert(fewer.queues(side) == take_out(book.queues(side), price, i));
        assert(queue_at(fewer.queues(side), price) =~= queue.remove(i));
        assert(append(fewer.queues(side), price, o) =~= book.queues(side));
        assert(fewer.rested(o.id, side, price, o.qty) =~= book);
        orders.push(FlatOrder { id: o.id, side, price, qty: o.qty })
    } else {
        law_empty_flat_book_is_empty();
        assert forall|price: Price| !book.bids.contains_key(price) by {
            assert(!book.queues(Side::Bid).contains_key(price));
        }
        assert forall|price: Price| !book.asks.contains_key(price) by {
            assert(!book.queues(Side::Ask).contains_key(price));
        }
        assert(book =~= BookState::empty());
        Seq::empty()
    }
}

} // verus!
