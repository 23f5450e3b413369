//! What each request keeps and what it promises, proved of the book model.
use vstd::prelude::*;

use crate::events::Event;
use crate::laws::{
    gone, law_lots_are_conserved, law_matching_is_maximal, law_price_time_priority,
    law_trades_at_maker_price, lemma_traded_concat, traded,
};
use crate::lemmas::{
    law_ladder_lists, lemma_best, lemma_fill_front, lemma_sweep, lemma_total_remove, lively,
};
use crate::model::{
    append, best, better, crosses, fill_front, lists, queue_at, resize, sweep, take_out, total,
    BookState, Queues, Resting,
};
use crate::types::{OrderId, Price, Qty, RejectReason, Side, Tif};

verus! {

/// Each side of a well-formed book is lively.
pub proof fn lemma_lively(book: BookState, side: Side)
    requires
        book.well_formed(),
    ensures
        lively(book.queues(side)),
{
    let queues = book.queues(side);
    assert forall|p: Price, i: int|
        queues.contains_key(p) && 0 <= i < queues[p].len() implies (#[trigger] queues[p][i]).qty
        > 0 by {
        assert(book.has(side, p, i));
    }
}

/// The place a held order is found at.
pub proof fn lemma_found(book: BookState, id: OrderId)
    requires
        book.holds(id),
    ensures
        ({
            let (side, price, i) = book.find(id);
            book.sits_at(id, side, price, i)
        }),
{
}

/// In a well-formed book an order is found wherever it sits.
pub proof fn lemma_find_is(book: BookState, id: OrderId, side: Side, price: Price, i: int)
    requires
        book.well_formed(),
        book.sits_at(id, side, price, i),
    ensures
        book.holds(id),
        book.find(id) == (side, price, i),
{
    let (side1, price1, i1) = book.find(id);
    assert(book.sits_at(id, side1, price1, i1));
    assert(book.has(side, price, i) && book.has(side1, price1, i1));
}

/// A book whose orders are orders of a well-formed book, each from a place of
/// its own, is well formed and holds no other ids.
proof fn lemma_sub_book(
    before: BookState,
    after: BookState,
    from: spec_fn(Side, Price, int) -> int,
)
    requires
        before.well_formed(),
        forall|side: Side| lively(#[trigger] after.queues(side)),
        forall|side: Side, p: Price, j: int| #[trigger]
            after.has(side, p, j) ==> {
                &&& before.has(side, p, from(side, p, j))
                &&& before.order_at(side, p, from(side, p, j)).id == after.order_at(side, p, j).id
            },
        forall|side: Side, p: Price, j: int, k: int|
            #![trigger from(side, p, j), from(side, p, k)]
            after.has(side, p, j) && after.has(side, p, k) && from(side, p, j) == from(side, p, k)
                ==> j == k,
    ensures
        after.well_formed(),
        forall|id: OrderId| #[trigger] after.holds(id) ==> before.holds(id),
{
    assert(lively(after.queues(Side::Bid)) && lively(after.queues(Side::Ask)));
    assert forall|side: Side, price: Price| #[trigger]
        after.queues(side).contains_key(price) implies after.queues(side)[price].len() > 0 by {
        assert(lively(after.queues(side)));
    }
    assert forall|side: Side, price: Price, i: int| #[trigger]
        after.has(side, price, i) implies after.order_at(side, price, i).qty > 0 by {
        assert(lively(after.queues(side)));
        assert(after.queues(side)[price][i].qty > 0);
    }
    assert forall|side1: Side, price1: Price, i1: int, side2: Side, price2: Price, i2: int|
        #![trigger after.has(side1, price1, i1), after.has(side2, price2, i2)]
        after.has(side1, price1, i1) && after.has(side2, price2, i2) && after.order_at(
            side1,
            price1,
            i1,
        ).id == after.order_at(side2, price2, i2).id implies side1 == side2 && price1 == price2
        && i1 == i2 by {
        let j1 = from(side1, price1, i1);
        let j2 = from(side2, price2, i2);
        assert(before.has(side1, price1, j1) && before.has(side2, price2, j2));
    }
    assert forall|id: OrderId| #[trigger] after.holds(id) implies before.holds(id) by {
        lemma_found(after, id);
        let (side, price, i) = after.find(id);
        assert(after.has(side, price, i));
        assert(before.sits_at(id, side, price, from(side, price, i)));
    }
}

/// Matching keeps a book valid, brings no ids in and leaves the taker's own
/// side alone; where lots are left, nothing on the other side crosses.
pub proof fn law_matching_keeps_book_valid(
    book: BookState,
    id: OrderId,
    side: Side,
    limit: Option<Price>,
    qty: Qty,
)
    requires
        book.valid(),
    ensures
        ({
            let after = book.after_match(id, side, limit, qty);
            &&& after.valid()
            &&& after.queues(side) == book.queues(side)
            &&& forall|x: OrderId| #[trigger] after.holds(x) ==> book.holds(x)
            &&& book.swept(id, side, limit, qty).remaining > 0 ==> forall|q: Price| #[trigger]
                after.queues(side.opposite()).contains_key(q) ==> !crosses(
                    side.opposite(),
                    q,
                    limit,
                )
        }),
{
    let maker = side.opposite();
    let before = book.queues(maker);
    let after = book.after_match(id, side, limit, qty);
    let swept = book.swept(id, side, limit, qty);
    lemma_lively(book, maker);
    lemma_lively(book, side);
    lemma_sweep(before, maker, limit, qty as nat, id);
    law_price_time_priority(before, maker, limit, qty as nat, id);
    assert(after.queues(maker) == swept.queues);
    assert(after.queues(side) == book.queues(side));
    let from = |s: Side, p: Price, j: int|
        if s == maker {
            j + gone(before, swept.queues, p)
        } else {
            j
        };
    assert forall|s: Side| lively(#[trigger] after.queues(s)) by {
        assert(s == maker || s == side);
    }
    assert forall|s: Side, p: Price, j: int| #[trigger] after.has(s, p, j) implies {
        &&& book.has(s, p, from(s, p, j))
        &&& book.order_at(s, p, from(s, p, j)).id == after.order_at(s, p, j).id
    } by {
        if s == maker {
            assert(swept.queues.contains_key(p));
            assert(swept.queues[p][j].id == before[p][j + gone(before, swept.queues, p)].id);
        } else {
            assert(s == side);
        }
    }
    lemma_sub_book(book, after, from);
    assert forall|b: Price, a: Price| #[trigger]
        after.bids.contains_key(b) && #[trigger] after.asks.contains_key(a) implies b < a by {
        assert(book.bids.contains_key(b) && book.asks.contains_key(a)) by {
            match side {
                Side::Bid => {
                    assert(swept.queues.contains_key(a));
                },
                Side::Ask => {
                    assert(swept.queues.contains_key(b));
                },
            }
        }
    }
}

/// Resting an order of a new id at a price that does not cross keeps a book
/// valid and adds exactly that id.
pub proof fn law_resting_keeps_book_valid(
    book: BookState,
    id: OrderId,
    side: Side,
    price: Price,
    qty: Qty,
)
    requires
        book.valid(),
        !book.holds(id),
        qty > 0,
        forall|q: Price| #[trigger]
            book.queues(side.opposite()).contains_key(q) ==> !crosses(
                side.opposite(),
                q,
                Some(price),
            ),
    ensures
        book.rested(id, side, price, qty).valid(),
        forall|x: OrderId| #[trigger]
            book.rested(id, side, price, qty).holds(x) <==> book.holds(x) || x == id,
{
    let after = book.rested(id, side, price, qty);
    let queue = queue_at(book.queues(side), price);
    let other = side.opposite();
    assert(after.queues(other) == book.queues(other));
    assert(after.queues(side) == append(book.queues(side), price, Resting { id, qty }));
    assert(after.queues(side).dom() =~= book.queues(side).dom().insert(price));
    assert(after.bids.dom().finite() && after.asks.dom().finite()) by {
        match side {
            Side::Bid => {},
            Side::Ask => {},
        }
    }
    // Every order but the new one was there, at the same place.
    assert forall|s: Side, p: Price, j: int| #[trigger] after.has(s, p, j) implies {
        ||| s == side && p == price && j == queue.len() && after.order_at(s, p, j) == (Resting {
            id,
            qty,
        })
        ||| book.has(s, p, j) && after.order_at(s, p, j) == book.order_at(s, p, j)
            && book.order_at(s, p, j).id != id
    } by {
        if !(s == side && p == price && j == queue.len()) {
            assert(book.has(s, p, j)) by {
                if s == other {
                } else {
                    assert(s == side);
                }
            }
            assert(after.order_at(s, p, j) == book.order_at(s, p, j)) by {
                if s == other {
                } else {
                    assert(s == side);
                }
            }
            if book.order_at(s, p, j).id == id {
                assert(book.sits_at(id, s, p, j));
            }
        }
    }
    assert forall|s: Side, p: Price| #[trigger]
        after.queues(s).contains_key(p) implies after.queues(s)[p].len() > 0 by {
        if s == side && p == price {
        } else {
            assert(book.queues(s).contains_key(p)) by {
                assert(s == side || s == other);
            }
            assert(s == side || s == other);
        }
    }
    assert forall|x: OrderId| #[trigger]
        after.holds(x) implies book.holds(x) || x == id by {
        lemma_found(after, x);
        let (s, p, j) = after.find(x);
        assert(after.has(s, p, j));
        if book.has(s, p, j) && after.order_at(s, p, j) == book.order_at(s, p, j) {
            assert(book.sits_at(x, s, p, j));
        }
    }
    assert forall|x: OrderId| book.holds(x) || x == id implies #[trigger] after.holds(x) by {
        if x == id {
            assert(after.sits_at(id, side, price, queue.len() as int));
        } else {
            lemma_found(book, x);
            let (s, p, j) = book.find(x);
            assert(after.sits_at(x, s, p, j)) by {
                assert(s == side || s == other);
            }
        }
    }
    assert forall|b: Price, a: Price| #[trigger]
        after.bids.contains_key(b) && #[trigger] after.asks.contains_key(a) implies b < a by {
        match side {
            Side::Bid => {
                assert(book.queues(other).contains_key(a));
                if b != price {
                    assert(book.bids.contains_key(b) && book.asks.contains_key(a));
                }
            },
            Side::Ask => {
                assert(book.queues(other).contains_key(b));
                if a != price {
                    assert(book.bids.contains_key(b) && book.asks.contains_key(a));
                }
            },
        }
    }
}

/// Taking a held order out keeps a book valid and removes exactly that id.
pub proof fn law_removal_keeps_book_valid(book: BookState, id: OrderId)
    requires
        book.valid(),
        book.holds(id),
    ensures
        book.without(id).valid(),
        forall|x: OrderId| #[trigger] book.without(id).holds(x) <==> book.holds(x) && x != id,
{
    lemma_found(book, id);
    let (side, price, i) = book.find(id);
    let other = side.opposite();
    let after = book.without(id);
    let queue = book.queues(side)[price];
    assert(after.queues(other) == book.queues(other));
    assert(after.queues(side) == take_out(book.queues(side), price, i));
    lemma_lively(book, side);
    lemma_lively(book, other);
    let from = |s: Side, p: Price, j: int|
        if s == side && p == price && j >= i {
            j + 1
        } else {
            j
        };
    assert forall|s: Side, p: Price, j: int| #[trigger] after.has(s, p, j) implies {
        &&& book.has(s, p, from(s, p, j))
        &&& book.order_at(s, p, from(s, p, j)) == after.order_at(s, p, j)
        &&& book.order_at(s, p, from(s, p, j)).id != id
    } by {
        assert(s == side || s == other);
        let k = from(s, p, j);
        assert(book.has(s, p, k));
        assert(book.order_at(s, p, k) == after.order_at(s, p, j));
        if book.order_at(s, p, k).id == id {
            assert(book.has(side, price, i));
        }
    }
    assert forall|s: Side| lively(#[trigger] after.queues(s)) by {
        assert(s == side || s == other);
        if s == side {
            let queues = after.queues(side);
            assert(queues.dom().finite());
            assert forall|p: Price, j: int|
                queues.contains_key(p) && 0 <= j < queues[p].len() implies (
            #[trigger] queues[p][j]).qty > 0 by {
                assert(after.has(side, p, j));
                assert(book.has(side, p, from(side, p, j)));
            }
        }
    }
    lemma_sub_book(book, after, from);
    assert forall|x: OrderId| #[trigger] after.holds(x) implies x != id by {
        lemma_found(after, x);
        let (s, p, j) = after.find(x);
        assert(after.has(s, p, j));
    }
    assert forall|x: OrderId| book.holds(x) && x != id implies #[trigger] after.holds(x) by {
        lemma_found(book, x);
        let (s, p, j) = book.find(x);
        let k = if s == side && p == price && j > i {
            j - 1
        } else {
            j
        };
        assert(s == side || s == other);
        if s == side && p == price {
            assert(j != i);
            assert(queue.len() > 1);
            assert(queue.remove(i)[k] == queue[j]);
        }
        assert(after.sits_at(x, s, p, k));
    }
    assert forall|b: Price, a: Price| #[trigger]
        after.bids.contains_key(b) && #[trigger] after.asks.contains_key(a) implies b < a by {
        assert(book.bids.contains_key(b) && book.asks.contains_key(a));
    }
}

/// Setting the quantity of a held order in place keeps a book valid and its
/// ids the same.
pub proof fn law_resizing_keeps_book_valid(book: BookState, id: OrderId, qty: Qty)
    requires
        book.valid(),
        book.holds(id),
        qty > 0,
    ensures
        ({
            let (side, price, i) = book.find(id);
            let after = book.with_queues(side, resize(book.queues(side), price, i, qty));
            &&& after.valid()
            &&& forall|x: OrderId| #[trigger] after.holds(x) <==> book.holds(x)
        }),
{
    lemma_found(book, id);
    let (side, price, i) = book.find(id);
    let other = side.opposite();
    let after = book.with_queues(side, resize(book.queues(side), price, i, qty));
    assert(after.queues(other) == book.queues(other));
    assert(after.queues(side) == resize(book.queues(side), price, i, qty));
    lemma_lively(book, side);
    lemma_lively(book, other);
    let from = |s: Side, p: Price, j: int| j;
    assert forall|s: Side, p: Price, j: int| #[trigger] after.has(s, p, j) implies {
        &&& book.has(s, p, from(s, p, j))
        &&& book.order_at(s, p, from(s, p, j)).id == after.order_at(s, p, j).id
    } by {
        assert(s == side || s == other);
    }
    assert forall|s: Side| lively(#[trigger] after.queues(s)) by {
        assert(s == side || s == other);
        if s == side {
            let queues = after.queues(side);
            assert(queues.dom() =~= book.queues(side).dom());
            assert forall|p: Price, j: int|
                queues.contains_key(p) && 0 <= j < queues[p].len() implies (
            #[trigger] queues[p][j]).qty > 0 by {
                assert(book.has(side, p, j));
            }
        }
    }
    lemma_sub_book(book, after, from);
    assert forall|x: OrderId| book.holds(x) implies #[trigger] after.holds(x) by {
        lemma_found(book, x);
        let (s, p, j) = book.find(x);
        assert(s == side || s == other);
        assert(after.sits_at(x, s, p, j));
    }
    assert forall|b: Price, a: Price| #[trigger]
        after.bids.contains_key(b) && #[trigger] after.asks.contains_key(a) implies b < a by {
        assert(book.bids.contains_key(b) && book.asks.contains_key(a));
    }
}

/// An order that enters keeps a book valid and leaves at most its own id
/// behind.
pub proof fn law_entering_keeps_book_valid(
    book: BookState,
    first: Event,
    id: OrderId,
    side: Side,
    price: Price,
    qty: Qty,
    tif: Tif,
)
    requires
        book.valid(),
        !book.holds(id),
        qty > 0,
    ensures
        book.enter(first, id, side, price, qty, tif).book.valid(),
        forall|x: OrderId| #[trigger]
            book.enter(first, id, side, price, qty, tif).book.holds(x) ==> book.holds(x) || x == id,
{
    law_matching_keeps_book_valid(book, id, side, Some(price), qty);
    let swept = book.swept(id, side, Some(price), qty);
    let after = book.after_match(id, side, Some(price), qty);
    lemma_lively(book, side.opposite());
    lemma_sweep(book.queues(side.opposite()), side.opposite(), Some(price), qty as nat, id);
    if swept.remaining > 0 && tif == Tif::Gtc {
        law_resting_keeps_book_valid(after, id, side, price, swept.remaining as Qty);
    }
}

/// A limit order keeps a book valid.
pub proof fn law_limit_keeps_book_valid(
    book: BookState,
    id: OrderId,
    side: Side,
    price: Price,
    qty: Qty,
    tif: Tif,
)
    requires
        book.valid(),
    ensures
        book.limit(id, side, price, qty, tif).book.valid(),
{
    if qty > 0 && !book.holds(id) {
        law_entering_keeps_book_valid(
            book,
            Event::Accepted { id },
            id,
            side,
            price,
            qty,
            tif,
        );
    }
}

/// A market order keeps a book valid.
pub proof fn law_market_keeps_book_valid(book: BookState, id: OrderId, side: Side, qty: Qty)
    requires
        book.valid(),
    ensures
        book.market(id, side, qty).book.valid(),
{
    law_matching_keeps_book_valid(book, id, side, None, qty);
}

/// A cancel request keeps a book valid.
pub proof fn law_cancel_keeps_book_valid(book: BookState, id: OrderId)
    requires
        book.valid(),
    ensures
        book.cancel(id).book.valid(),
{
    if book.holds(id) {
        law_removal_keeps_book_valid(book, id);
    }
}

/// A cancel/replace request keeps a book valid.
pub proof fn law_replace_keeps_book_valid(book: BookState, id: OrderId, price: Price, qty: Qty)
    requires
        book.valid(),
    ensures
        book.replace(id, price, qty).book.valid(),
{
    if book.holds(id) && qty > 0 {
        let (side, old_price, i) = book.find(id);
        law_resizing_keeps_book_valid(book, id, qty);
        law_removal_keeps_book_valid(book, id);
        law_entering_keeps_book_valid(
            book.without(id),
            Event::Replaced { id },
            id,
            side,
            price,
            qty,
            Tif::Gtc,
        );
    }
}

/// A refused request leaves the book as it is and its refusal is the only
/// event; the reasons are exactly these.
pub proof fn law_refused_requests_change_nothing(
    book: BookState,
    id: OrderId,
    side: Side,
    price: Price,
    qty: Qty,
    tif: Tif,
)
    ensures
        ({
            let o = book.limit(id, side, price, qty, tif);
            &&& o.events[0] is Rejected <==> qty == 0 || book.holds(id) || tif == Tif::Fok
                && book.fillable(side, price) < qty
            &&& o.events[0] is Rejected ==> o.book == book && o.events.len() == 1
        }),
        ({
            let o = book.market(id, side, qty);
            &&& o.events[0] is Rejected <==> qty == 0 || book.holds(id)
            &&& o.events[0] is Rejected ==> o.book == book && o.events.len() == 1
        }),
        ({
            let o = book.cancel(id);
            &&& o.events[0] is Rejected <==> !book.holds(id)
            &&& o.events[0] is Rejected ==> o.book == book && o.events.len() == 1
        }),
        ({
            let o = book.replace(id, price, qty);
            &&& o.events[0] is Rejected <==> !book.holds(id) || qty == 0
            &&& o.events[0] is Rejected ==> o.book == book && o.events.len() == 1
        }),
{
}

/// The events of an order that enters: its announcement, then its fills,
/// then, unless it is filled or rests, the cancel of what is left. What it
/// trades, what is canceled and what rests add up to the order.
pub proof fn law_entering_accounts_for_all_lots(
    book: BookState,
    first: Event,
    id: OrderId,
    side: Side,
    price: Price,
    qty: Qty,
    tif: Tif,
)
    requires
        book.valid(),
        !(first is Trade),
    ensures
        ({
            let o = book.enter(first, id, side, price, qty, tif);
            let remaining = qty - traded(o.events);
            &&& traded(o.events) <= qty
            &&& remaining == 0 || tif == Tif::Gtc ==> o.events =~= seq![first] + book.swept(
                id,
                side,
                Some(price),
                qty,
            ).trades
            &&& remaining > 0 && tif != Tif::Gtc ==> o.events.last() == (Event::Canceled {
                id,
                remaining: remaining as Qty,
            })
            &&& remaining > 0 && tif == Tif::Gtc ==> {
                let queue = o.book.queues(side)[price];
                &&& o.book.queues(side).contains_key(price)
                &&& queue == queue_at(book.queues(side), price).push(
                    Resting { id, qty: remaining as Qty },
                )
            }
            &&& remaining == 0 || tif != Tif::Gtc ==> o.book.queues(side) == book.queues(side)
        }),
{
    let maker = side.opposite();
    let swept = book.swept(id, side, Some(price), qty);
    lemma_lively(book, maker);
    law_lots_are_conserved(book.queues(maker), maker, Some(price), qty as nat, id);
    lemma_traded_around(first, swept.trades, Event::Canceled {
        id,
        remaining: swept.remaining as Qty,
    });
    law_matching_keeps_book_valid(book, id, side, Some(price), qty);
}

proof fn lemma_traded_around(first: Event, trades: Seq<Event>, last: Event)
    requires
        !(first is Trade),
        !(last is Trade),
    ensures
        traded(seq![first] + trades) == traded(trades),
        traded((seq![first] + trades).push(last)) == traded(trades),
{
    lemma_traded_concat(seq![first], trades);
    lemma_traded_concat(seq![first] + trades, seq![last]);
    assert((seq![first] + trades).push(last) =~= (seq![first] + trades) + seq![last]);
    assert(seq![first].drop_first() =~= Seq::empty());
    assert(seq![last].drop_first() =~= Seq::empty());
    assert(traded(Seq::<Event>::empty()) == 0);
    assert(traded(seq![first]) == 0);
    assert(traded(seq![last]) == 0);
}

/// Fill-or-kill is all or nothing: the order is filled whole, or the book
/// stays as it is. In neither case does any of it rest.
pub proof fn law_fok_is_all_or_nothing(
    book: BookState,
    id: OrderId,
    side: Side,
    price: Price,
    qty: Qty,
)
    requires
        book.valid(),
        qty > 0,
        !book.holds(id),
    ensures
        ({
            let o = book.limit(id, side, price, qty, Tif::Fok);
            &&& !o.book.holds(id)
            &&& if book.fillable(side, price) >= qty {
                &&& traded(o.events) == qty
                &&& o.events == seq![Event::Accepted { id }] + book.swept(
                    id,
                    side,
                    Some(price),
                    qty,
                ).trades
            } else {
                &&& o.book == book
                &&& o.events == seq![
                    Event::Rejected { id, reason: RejectReason::FokUnfillable },
                ]
            }
        }),
{
    let maker = side.opposite();
    lemma_lively(book, maker);
    law_matching_is_maximal(book.queues(maker), maker, Some(price), qty as nat, id);
    law_entering_accounts_for_all_lots(
        book,
        Event::Accepted { id },
        id,
        side,
        price,
        qty,
        Tif::Fok,
    );
    law_matching_keeps_book_valid(book, id, side, Some(price), qty);
    law_lots_are_conserved(book.queues(maker), maker, Some(price), qty as nat, id);
    lemma_traded_around(
        Event::Accepted { id },
        book.swept(id, side, Some(price), qty).trades,
        Event::Canceled { id, remaining: 0 },
    );
}

/// Immediate-or-cancel and fill-or-kill orders never rest: the order's own
/// side keeps every order it had and gains none.
pub proof fn law_ioc_never_rests(
    book: BookState,
    id: OrderId,
    side: Side,
    price: Price,
    qty: Qty,
    tif: Tif,
)
    requires
        book.valid(),
        tif != Tif::Gtc,
    ensures
        book.limit(id, side, price, qty, tif).book.queues(side) == book.queues(side),
        forall|x: OrderId| #[trigger]
            book.limit(id, side, price, qty, tif).book.holds(x) ==> book.holds(x),
{
    law_matching_keeps_book_valid(book, id, side, Some(price), qty);
}

/// Market orders never rest.
pub proof fn law_market_never_rests(book: BookState, id: OrderId, side: Side, qty: Qty)
    requires
        book.valid(),
    ensures
        book.market(id, side, qty).book.queues(side) == book.queues(side),
        forall|x: OrderId| #[trigger] book.market(id, side, qty).book.holds(x) ==> book.holds(x),
{
    law_matching_keeps_book_valid(book, id, side, None, qty);
}

/// The limit that crosses every price an order of `side` can meet.
pub open spec fn open_limit(side: Side) -> Price {
    match side {
        Side::Bid => i64::MAX,
        Side::Ask => i64::MIN,
    }
}

proof fn lemma_open_limit(queues: Queues, side: Side, qty: nat, taker: OrderId)
    ensures
        sweep(queues, side.opposite(), Some(open_limit(side)), qty, taker) == sweep(
            queues,
            side.opposite(),
            None,
            qty,
            taker,
        ),
    decreases qty,
{
    let maker_side = side.opposite();
    match best(queues, maker_side) {
        Some(p) => {
            assert(crosses(maker_side, p, Some(open_limit(side))));
            if qty > 0 && queues[p].len() > 0 && queues[p][0].qty > 0 {
                let fill: nat = if qty <= queues[p][0].qty {
                    qty
                } else {
                    queues[p][0].qty as nat
                };
                lemma_open_limit(
                    fill_front(queues, p, fill),
                    side,
                    (qty - fill) as nat,
                    taker,
                );
            }
        },
        None => {},
    }
}

/// A market order is an immediate-or-cancel order at the worst price there is.
pub proof fn law_market_is_unlimited_ioc(book: BookState, id: OrderId, side: Side, qty: Qty)
    ensures
        book.market(id, side, qty) == book.limit(id, side, open_limit(side), qty, Tif::Ioc),
{
    lemma_open_limit(book.queues(side.opposite()), side, qty as nat, id);
}

/// A canceled order is gone and every other order keeps its place in its
/// queue; canceling it again is refused.
pub proof fn law_cancel_removes_exactly_one(book: BookState, id: OrderId)
    requires
        book.valid(),
        book.holds(id),
    ensures
        ({
            let (side, price, i) = book.find(id);
            let queue = book.queues(side)[price];
            let o = book.cancel(id);
            &&& o.events == seq![
                Event::Canceled { id, remaining: book.qty_of(id)->0 },
            ]
            &&& o.book.queues(side.opposite()) == book.queues(side.opposite())
            &&& queue_at(o.book.queues(side), price) =~= queue.remove(i)
            &&& forall|p: Price|
                p != price ==> #[trigger] queue_at(o.book.queues(side), p) == queue_at(
                    book.queues(side),
                    p,
                )
            &&& !o.book.holds(id)
            &&& forall|x: OrderId| x != id ==> (#[trigger] o.book.holds(x) <==> book.holds(x))
            &&& o.book.cancel(id) == o.book.refuse(id, RejectReason::UnknownOrder)
        }),
{
    lemma_found(book, id);
    law_removal_keeps_book_valid(book, id);
}

/// A good-till-cancel order that crosses nothing is accepted and joins the
/// back of the queue at its price; nothing else changes.
pub proof fn law_passive_order_joins_the_back(
    book: BookState,
    id: OrderId,
    side: Side,
    price: Price,
    qty: Qty,
)
    requires
        book.valid(),
        qty > 0,
        !book.holds(id),
        forall|q: Price| #[trigger]
            book.queues(side.opposite()).contains_key(q) ==> !crosses(
                side.opposite(),
                q,
                Some(price),
            ),
    ensures
        book.limit(id, side, price, qty, Tif::Gtc).events == seq![Event::Accepted { id }],
        book.limit(id, side, price, qty, Tif::Gtc).book == book.rested(id, side, price, qty),
        ({
            let after = book.rested(id, side, price, qty);
            after.find(id) == (side, price, queue_at(book.queues(side), price).len() as int)
        }),
{
    let maker = side.opposite();
    lemma_lively(book, maker);
    lemma_best(book.queues(maker), maker);
    let swept = book.swept(id, side, Some(price), qty);
    assert(swept.trades =~= Seq::empty() && swept.remaining == qty);
    assert(seq![Event::Accepted { id }] + Seq::<Event>::empty() =~= seq![Event::Accepted { id }]);
    assert(book.after_match(id, side, Some(price), qty) =~= book);
    law_resting_keeps_book_valid(book, id, side, price, qty);
    let after = book.rested(id, side, price, qty);
    let n = queue_at(book.queues(side), price).len() as int;
    assert(after.sits_at(id, side, price, n));
    lemma_find_is(after, id, side, price, n);
}

/// Canceling a passive order right after it was submitted gives the book back
/// as it was.
pub proof fn law_cancel_undoes_passive_order(
    book: BookState,
    id: OrderId,
    side: Side,
    price: Price,
    qty: Qty,
)
    requires
        book.valid(),
        qty > 0,
        !book.holds(id),
        forall|q: Price| #[trigger]
            book.queues(side.opposite()).contains_key(q) ==> !crosses(
                side.opposite(),
                q,
                Some(price),
            ),
    ensures
        book.limit(id, side, price, qty, Tif::Gtc).book.cancel(id).book == book,
        book.limit(id, side, price, qty, Tif::Gtc).book.cancel(id).events == seq![
            Event::Canceled { id, remaining: qty },
        ],
{
    law_passive_order_joins_the_back(book, id, side, price, qty);
    let after = book.rested(id, side, price, qty);
    let queue = queue_at(book.queues(side), price);
    let longer = queue.push(Resting { id, qty });
    assert(after.queues(side)[price] == longer);
    assert(after.sits_at(id, side, price, queue.len() as int));
    assert(longer.remove(queue.len() as int) =~= queue);
    if queue.len() == 0 {
        assert(!book.queues(side).contains_key(price));
    }
    assert(take_out(after.queues(side), price, queue.len() as int) =~= book.queues(side));
    assert(after.without(id) =~= book);
}

/// A smaller quantity at the same price is set in place: the order keeps its
/// position and nothing else changes.
pub proof fn law_shrinking_keeps_priority(book: BookState, id: OrderId, qty: Qty)
    requires
        book.valid(),
        book.holds(id),
        0 < qty < book.qty_of(id)->0,
    ensures
        ({
            let (side, price, i) = book.find(id);
            let o = book.replace(id, price, qty);
            &&& o.events == seq![Event::Replaced { id }]
            &&& o.book.find(id) == (side, price, i)
            &&& o.book.qty_of(id) == Some(qty)
            &&& o.book.queues(side.opposite()) == book.queues(side.opposite())
            &&& o.book.queues(side).dom() == book.queues(side).dom()
            &&& o.book.queues(side)[price] =~= book.queues(side)[price].update(
                i,
                Resting { id, qty },
            )
            &&& forall|p: Price|
                p != price && book.queues(side).contains_key(p) ==> #[trigger] o.book.queues(
                    side,
                )[p] == book.queues(side)[p]
        }),
{
    lemma_found(book, id);
    let (side, price, i) = book.find(id);
    let o = book.replace(id, price, qty);
    law_replace_keeps_book_valid(book, id, price, qty);
    assert(o.book.queues(side).dom() =~= book.queues(side).dom());
    assert(o.book.sits_at(id, side, price, i));
    lemma_find_is(o.book, id, side, price, i);
}

/// Any other replacement is a cancel followed by a fresh good-till-cancel
/// order of the same id and side: it loses its place and may trade at once.
/// Only the announcement differs: one event says that the order was replaced,
/// none that it was canceled or accepted, and trades are all that follows.
/// Machine limits allow the one exactly where they allow the other.
pub proof fn law_replacing_is_cancel_and_resubmit(
    book: BookState,
    id: OrderId,
    price: Price,
    qty: Qty,
)
    requires
        book.valid(),
        book.holds(id),
        qty > 0,
        price != book.find(id).1 || qty >= book.qty_of(id)->0,
    ensures
        ({
            let side = book.find(id).0;
            let o = book.replace(id, price, qty);
            let fresh = book.cancel(id).book.limit(id, side, price, qty, Tif::Gtc);
            &&& o.book == fresh.book
            &&& o.events[0] == Event::Replaced { id }
            &&& fresh.events[0] == Event::Accepted { id }
            &&& o.events.drop_first() =~= fresh.events.drop_first()
            &&& forall|i: int| 0 < i < o.events.len() ==> #[trigger] o.events[i] is Trade
            &&& o.book.holds(id) ==> o.book.find(id).0 == side && o.book.find(id).1 == price
            &&& book.replace_fits(id, price, qty) <==> book.cancel(id).book.limit_fits(
                id,
                side,
                price,
                qty,
                Tif::Gtc,
            )
        }),
{
    law_removal_keeps_book_valid(book, id);
    let side = book.find(id).0;
    let out = book.without(id);
    let o = book.replace(id, price, qty);
    let swept = out.swept(id, side, Some(price), qty);
    lemma_lively(out, side.opposite());
    law_trades_at_maker_price(
        out.queues(side.opposite()),
        side.opposite(),
        Some(price),
        qty as nat,
        id,
    );
    assert forall|i: int| 0 < i < o.events.len() implies #[trigger] o.events[i] is Trade by {
        assert(o.events[i] == swept.trades[i - 1]);
    }
    law_matching_keeps_book_valid(out, id, side, Some(price), qty);
    law_replace_keeps_book_valid(book, id, price, qty);
    if swept.remaining > 0 {
        let n = queue_at(out.queues(side), price).len() as int;
        assert(o.book.sits_at(id, side, price, n));
        lemma_find_is(o.book, id, side, price, n);
    }
    assert((seq![Event::Replaced { id }] + swept.trades).drop_first() =~= swept.trades);
    assert((seq![Event::Accepted { id }] + swept.trades).drop_first() =~= swept.trades);
}

/// The ids in the queues of one side.
spec fn ids_of(queues: Queues) -> Set<OrderId> {
    Set::new(
        |id: OrderId|
            exists|p: Price, i: int|
                queues.contains_key(p) && 0 <= i < queues[p].len() && #[trigger] queues[p][i].id
                    == id,
    )
}

proof fn lemma_ids_of_finite(queues: Queues)
    requires
        queues.dom().finite(),
    ensures
        ids_of(queues).finite(),
    decreases queues.dom().len(),
{
    if queues.dom().len() == 0 {
        assert(queues.dom() =~= Set::empty());
        assert(ids_of(queues) =~= Set::empty());
    } else {
        let price = queues.dom().choose();
        let rest = queues.remove(price);
        lemma_ids_of_finite(rest);
        let here = queues[price].map_values(|o: Resting| o.id);
        vstd::seq_lib::seq_to_set_is_finite(here);
        assert(ids_of(queues).subset_of(ids_of(rest).union(here.to_set()))) by {
            assert forall|id: OrderId| ids_of(queues).contains(id) implies ids_of(rest).union(
                here.to_set(),
            ).contains(id) by {
                let (p, i) = choose|p: Price, i: int|
                    queues.contains_key(p) && 0 <= i < queues[p].len()
                        && #[trigger] queues[p][i].id == id;
                if p == price {
                    assert(here[i] == id);
                } else {
                    assert(rest.contains_key(p) && rest[p][i].id == id);
                }
            }
        }
        vstd::set_lib::lemma_set_subset_finite(
            ids_of(rest).union(here.to_set()),
            ids_of(queues),
        );
    }
}

/// A well-formed book holds finitely many orders.
pub proof fn lemma_ids_finite(book: BookState)
    requires
        book.well_formed(),
    ensures
        book.ids().finite(),
{
    lemma_ids_of_finite(book.bids);
    lemma_ids_of_finite(book.asks);
    let all = ids_of(book.bids).union(ids_of(book.asks));
    assert(book.ids().subset_of(all)) by {
        assert forall|id: OrderId| book.ids().contains(id) implies all.contains(id) by {
            lemma_found(book, id);
            let (side, p, i) = book.find(id);
            match side {
                Side::Bid => {
                    assert(book.bids[p][i].id == id);
                },
                Side::Ask => {
                    assert(book.asks[p][i].id == id);
                },
            }
        }
    }
    vstd::set_lib::lemma_set_subset_finite(all, book.ids());
}

/// A book that holds no other ids than a well-formed one holds no more orders.
proof fn lemma_fewer_ids(before: BookState, after: BookState)
    requires
        before.well_formed(),
        forall|id: OrderId| #[trigger] after.holds(id) ==> before.holds(id),
    ensures
        after.ids().len() <= before.ids().len(),
{
    lemma_ids_finite(before);
    assert(after.ids().subset_of(before.ids()));
    vstd::set_lib::lemma_len_subset(after.ids(), before.ids());
}

/// Matching that fills some of an order but not all of it frees a place in the
/// book: an order is gone. Matching that fills nothing leaves the book alone.
proof fn lemma_matching_frees(
    book: BookState,
    id: OrderId,
    side: Side,
    limit: Option<Price>,
    qty: Qty,
)
    requires
        book.valid(),
        book.swept(id, side, limit, qty).remaining > 0,
    ensures
        ({
            let after = book.after_match(id, side, limit, qty);
            let remaining = book.swept(id, side, limit, qty).remaining;
            &&& remaining <= qty
            &&& remaining < qty ==> after.ids().len() < book.ids().len()
            &&& remaining == qty ==> after == book
        }),
{
    let maker = side.opposite();
    let queues = book.queues(maker);
    let swept = book.swept(id, side, limit, qty);
    let after = book.after_match(id, side, limit, qty);
    lemma_lively(book, maker);
    lemma_sweep(queues, maker, limit, qty as nat, id);
    lemma_best(queues, maker);
    assert(after.queues(maker) == swept.queues);
    let trades = match best(queues, maker) {
        Some(p) => crosses(maker, p, limit),
        None => false,
    };
    if trades {
        let p = best(queues, maker)->0;
        assert(queues.contains_key(p));
        let first = queues[p][0];
        assert(first.qty > 0);
        let fill: nat = if qty <= first.qty {
            qty as nat
        } else {
            first.qty as nat
        };
        lemma_fill_front(queues, p, fill);
        lemma_sweep(fill_front(queues, p, fill), maker, limit, (qty - fill) as nat, id);
        assert(swept.remaining < qty);
        law_matching_keeps_book_valid(book, id, side, limit, qty);
        law_price_time_priority(queues, maker, limit, qty as nat, id);
        assert(!swept.queues.contains_key(p));
        assert(book.has(maker, p, 0));
        assert(book.sits_at(first.id, maker, p, 0));
        assert(book.ids().contains(first.id));
        if after.holds(first.id) {
            lemma_found(after, first.id);
            let (s, q, j) = after.find(first.id);
            assert(s == side || s == maker);
            if s == side {
                assert(book.has(side, q, j));
            } else {
                let k = j + gone(queues, swept.queues, q);
                assert(swept.queues[q][j].id == queues[q][k].id);
                assert(book.has(maker, q, k));
            }
            assert(false);
        }
        lemma_ids_finite(book);
        assert(after.ids().subset_of(book.ids().remove(first.id)));
        vstd::set_lib::lemma_len_subset(after.ids(), book.ids().remove(first.id));
    } else {
        assert(swept.queues == queues && swept.remaining == qty);
        assert(after =~= book);
    }
}

/// Lots of an order that find nobody to trade with.
pub open spec fn unfilled(book: BookState, side: Side, price: Price, qty: Qty) -> int {
    if book.fillable(side, price) < qty {
        qty - book.fillable(side, price)
    } else {
        0
    }
}

/// Machine limits allow an order to enter exactly where nothing of it is left
/// to rest, or its level can hold what is left and the slab has a place: a
/// free one, or one that its own fills have freed.
pub proof fn law_room_for_what_rests(
    book: BookState,
    id: OrderId,
    side: Side,
    price: Price,
    qty: Qty,
)
    requires
        book.valid(),
        book.ids().len() <= u32::MAX,
    ensures
        ({
            let left = unfilled(book, side, price, qty);
            book.enter_fits(id, side, price, qty) <==> left == 0 || {
                &&& total(queue_at(book.queues(side), price)) + left <= Qty::MAX
                &&& book.ids().len() < u32::MAX || left < qty
            }
        }),
{
    let maker = side.opposite();
    let swept = book.swept(id, side, Some(price), qty);
    lemma_lively(book, maker);
    law_matching_is_maximal(book.queues(maker), maker, Some(price), qty as nat, id);
    assert(swept.remaining == unfilled(book, side, price, qty));
    if swept.remaining > 0 {
        lemma_matching_frees(book, id, side, Some(price), qty);
        law_matching_keeps_book_valid(book, id, side, Some(price), qty);
    }
}

/// A replacement that enters again needs room only at its level, which the
/// replaced order has left.
pub proof fn law_room_for_replacement(book: BookState, id: OrderId, price: Price, qty: Qty)
    requires
        book.valid(),
        book.ids().len() <= u32::MAX,
        book.holds(id),
    ensures
        ({
            let (side, old_price, i) = book.find(id);
            let left = unfilled(book, side, price, qty);
            let freed: int = if price == old_price {
                book.order_at(side, old_price, i).qty as int
            } else {
                0
            };
            &&& freed <= total(queue_at(book.queues(side), price))
            &&& book.without(id).enter_fits(id, side, price, qty) <==> left == 0 || total(
                queue_at(book.queues(side), price),
            ) - freed + left <= Qty::MAX
        }),
{
    lemma_found(book, id);
    let (side, old_price, i) = book.find(id);
    let queue = book.queues(side)[old_price];
    let out = book.without(id);
    law_removal_keeps_book_valid(book, id);
    lemma_ids_finite(book);
    assert(out.ids() =~= book.ids().remove(id));
    assert(book.ids().contains(id));
    lemma_total_remove(queue, i);
    if queue.len() == 1 {
        assert(queue.remove(i) =~= Seq::empty());
    }
    assert(out.queues(side) == take_out(book.queues(side), old_price, i));
    assert(out.queues(side.opposite()) == book.queues(side.opposite()));
    assert(total(Seq::<Resting>::empty()) == 0);
    law_room_for_what_rests(out, id, side, price, qty);
}

/// A book with room at a price on the order's side takes any order there.
pub proof fn law_room_admits_limit(
    book: BookState,
    id: OrderId,
    side: Side,
    price: Price,
    qty: Qty,
    tif: Tif,
)
    requires
        book.valid(),
        book.can_rest(side, price, qty as nat),
    ensures
        book.limit_fits(id, side, price, qty, tif),
{
    let maker = side.opposite();
    law_matching_keeps_book_valid(book, id, side, Some(price), qty);
    lemma_lively(book, maker);
    lemma_sweep(book.queues(maker), maker, Some(price), qty as nat, id);
    lemma_fewer_ids(book, book.after_match(id, side, Some(price), qty));
}

/// A book with room at a price on both sides takes any replacement there.
pub proof fn law_room_admits_replace(book: BookState, id: OrderId, price: Price, qty: Qty)
    requires
        book.valid(),
        book.can_rest(Side::Bid, price, qty as nat),
        book.can_rest(Side::Ask, price, qty as nat),
    ensures
        book.replace_fits(id, price, qty),
{
    if book.holds(id) && qty > 0 {
        lemma_found(book, id);
        let (side, old_price, i) = book.find(id);
        let out = book.without(id);
        law_removal_keeps_book_valid(book, id);
        lemma_fewer_ids(book, out);
        lemma_total_remove(book.queues(side)[old_price], i);
        if book.queues(side)[old_price].len() == 1 {
            assert(book.queues(side)[old_price].remove(i) =~= Seq::empty());
        }
        assert(out.can_rest(side, price, qty as nat)) by {
            match side {
                Side::Bid => {},
                Side::Ask => {},
            }
        }
        law_room_admits_limit(out, id, side, price, qty, Tif::Gtc);
    }
}

/// The best bid of a valid book lies below its best ask.
pub proof fn law_touch_is_never_crossed(book: BookState)
    requires
        book.valid(),
    ensures
        match (best(book.bids, Side::Bid), best(book.asks, Side::Ask)) {
            (Some(b), Some(a)) => b < a,
            _ => true,
        },
{
    lemma_best(book.bids, Side::Bid);
    lemma_best(book.asks, Side::Ask);
    match (best(book.bids, Side::Bid), best(book.asks, Side::Ask)) {
        (Some(b), Some(a)) => {
            assert(book.bids.contains_key(b) && book.asks.contains_key(a));
        },
        _ => {},
    }
}

/// The depth of a side lists every level of it, best first: each price once,
/// with the total quantity that rests there.
pub proof fn law_depth_lists_every_level(book: BookState, side: Side)
    requires
        book.valid(),
    ensures
        ({
            let depth = book.depth(side);
            let queues = book.queues(side);
            &&& depth.len() == queues.dom().len()
            &&& forall|i: int|
                0 <= i < depth.len() ==> {
                    &&& queues.contains_key((#[trigger] depth[i]).0)
                    &&& total(queues[depth[i].0]) <= Qty::MAX ==> depth[i].1 == total(
                        queues[depth[i].0],
                    )
                }
            &&& forall|i: int, j: int|
                0 <= i < j < depth.len() ==> match side {
                    Side::Bid => (#[trigger] depth[i]).0 > (#[trigger] depth[j]).0,
                    Side::Ask => depth[i].0 < depth[j].0,
                }
            &&& forall|p: Price| #[trigger]
                queues.contains_key(p) ==> exists|i: int|
                    0 <= i < depth.len() && (#[trigger] depth[i]).0 == p
        }),
{
    let queues = book.queues(side);
    let levels = Map::new(|p: Price| queues.contains_key(p), |p: Price| total(queues[p]) as Qty);
    let depth = book.depth(side);
    assert(levels.dom() =~= queues.dom());
    law_ladder_lists(levels, side);
    assert(lists(levels, side, depth));
    assert forall|i: int, j: int| 0 <= i < j < depth.len() implies match side {
        Side::Bid => (#[trigger] depth[i]).0 > (#[trigger] depth[j]).0,
        Side::Ask => depth[i].0 < depth[j].0,
    } by {
        assert(better(side, depth[i].0, depth[j].0));
    }
    assert forall|p: Price| #[trigger] queues.contains_key(p) implies exists|i: int|
        0 <= i < depth.len() && (#[trigger] depth[i]).0 == p by {
        assert(levels.contains_key(p));
    }
}

/// An order is found where it rests, with the quantity it has there; what does
/// not rest anywhere has no quantity and is not among the ids.
pub proof fn law_orders_are_found_where_they_rest(
    book: BookState,
    id: OrderId,
    side: Side,
    price: Price,
    i: int,
)
    requires
        book.valid(),
    ensures
        book.sits_at(id, side, price, i) ==> {
            &&& book.find(id) == (side, price, i)
            &&& book.qty_of(id) == Some(book.queues(side)[price][i].qty)
            &&& book.ids().contains(id)
        },
        book.qty_of(id) is Some <==> book.ids().contains(id),
        book.ids().contains(id) <==> exists|s: Side, p: Price, k: int|
            book.queues(s).contains_key(p) && 0 <= k < book.queues(s)[p].len() && (
            #[trigger] book.queues(s)[p][k]).id == id,
{
    if book.sits_at(id, side, price, i) {
        lemma_find_is(book, id, side, price, i);
    }
    if book.holds(id) {
        let (s, p, k) = book.find(id);
        lemma_found(book, id);
        assert(book.queues(s)[p][k].id == id);
    }
    if exists|s: Side, p: Price, k: int|
        book.queues(s).contains_key(p) && 0 <= k < book.queues(s)[p].len() && (
        #[trigger] book.queues(s)[p][k]).id == id {
        let (s, p, k) = choose|s: Side, p: Price, k: int|
            book.queues(s).contains_key(p) && 0 <= k < book.queues(s)[p].len() && (
            #[trigger] book.queues(s)[p][k]).id == id;
        assert(book.sits_at(id, s, p, k));
    }
}

/// A cancel/replace request needs room only where the order enters the book
/// again: one that is refused, or that shrinks the order in place, fits any
/// book, and any other fits where the order would fit a book without it.
pub proof fn law_replacing_needs_room_only_to_enter(
    book: BookState,
    id: OrderId,
    price: Price,
    qty: Qty,
)
    ensures
        !book.holds(id) || qty == 0 ==> book.replace_fits(id, price, qty),
        book.holds(id) && qty > 0 ==> {
            let (side, at, i) = book.find(id);
            let shrinks = price == at && qty < book.qty_of(id)->0;
            &&& shrinks ==> book.replace_fits(id, price, qty)
            &&& !shrinks ==> book.replace_fits(id, price, qty) == book.without(id).enter_fits(
                id,
                side,
                price,
                qty,
            )
        },
{
}

} // verus!
