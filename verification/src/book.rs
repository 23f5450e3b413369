//! The order book and matching engine.
//!
//! # Design
//!
//! - **Slab storage.** All resting orders live in one [`Slab`], referred to
//!   by `u32` index, so there are no per-order heap allocations after warm-up.
//! - **Intrusive FIFO queues.** Each price level is a doubly-linked list
//!   threaded through the slab. Price-time priority falls out of always
//!   filling from `head` and resting at `tail`.
//! - **Price levels in ladders.** Best bid/ask lookup and in-order level
//!   traversal depend on the number of *distinct prices* only.
//! - **No allocation on the hot path.** Matching mutates the slab and the
//!   ladders in place and reports fills through the caller's [`EventSink`].
//!
//! The book's value is a [`BookState`]; every request changes it, and reports
//! events, exactly as the function of that name in [`crate::model`] says.
use vstd::prelude::*;

use crate::events::{delivered, ready_for, Event, EventSink};
use crate::flat::{book_of, flat_sweep, law_matching_matches_flat_book, sane, Flat};
use crate::hash::IdMap;
use crate::ladder::{level_totals, Ladder, Level};
use crate::laws::{
    fills, law_no_more_trades_than_lots, law_one_trade_per_fill, lemma_fills_level, queue_fills,
};
use crate::lemmas::{
    lemma_best, lemma_best_empty, lemma_best_unique, lemma_bounded_distinct, lemma_delivered_concat,
    lemma_delivered_none, lemma_delivered_push, lemma_ladder_unique, lemma_lists_finite,
    lemma_ready_first, lemma_ready_prefix, lemma_ready_rest, lemma_sweep, lemma_total_push,
    lemma_total_split, lively,
};
use crate::model::{
    best, better, crosses, fill_front, is_best, ladder, lists, queue_at, sweep, total, totals,
    BookState, Resting,
};
use crate::parts::{
    appended, detached, lemma_appended, lemma_detached, lemma_resized, level_of, level_without,
    orders_in, queue_of, resized, resting, Parts,
};
use crate::requests::{
    law_cancel_keeps_book_valid, law_entering_keeps_book_valid, law_limit_keeps_book_valid,
    law_market_keeps_book_valid, law_matching_keeps_book_valid, law_removal_keeps_book_valid,
    law_replace_keeps_book_valid, law_replacing_is_cancel_and_resubmit, law_room_admits_limit,
    law_room_admits_replace, law_room_for_replacement, law_room_for_what_rests, lemma_found,
    lemma_lively,
};
use crate::slab::{link, OrderNode, Slab, NIL};
use crate::types::{OrderId, Price, Qty, RejectReason, Side, Tif};

verus! {

pub struct OrderBook {
    slab: Slab,
    bids: Ladder,
    asks: Ladder,
    /// Live order id -> slab index.
    ids: IdMap<u32>,
    /// Slab indices of each level, oldest order first.
    bid_chains: Ghost<Map<Price, Seq<u32>>>,
    ask_chains: Ghost<Map<Price, Seq<u32>>>,
}

impl View for OrderBook {
    type V = BookState;

    closed spec fn view(&self) -> BookState {
        self.parts().state()
    }
}

impl OrderBook {
    spec fn parts(&self) -> Parts {
        Parts {
            nodes: self.slab.nodes(),
            free: self.slab.free_list(),
            ids: self.ids@,
            bid_levels: self.bids@,
            ask_levels: self.asks@,
            bid_chains: self.bid_chains@,
            ask_chains: self.ask_chains@,
        }
    }

    /// The containers are sound in themselves.
    pub closed spec fn sound(&self) -> bool {
        &&& self.slab.wf()
        &&& self.ids.wf()
        &&& self.bids.side() == Side::Bid
        &&& self.asks.side() == Side::Ask
    }

    /// The structures fit together.
    spec fn structured(&self) -> bool {
        &&& self.sound()
        &&& self.parts().ok()
    }

    /// The structures pass the check of [`OrderBook::assert_consistent`].
    pub closed spec fn consistent(&self) -> bool {
        self.parts().consistent()
    }

    /// The structures are those of this book: each level caches the total and
    /// the number of the orders in a queue of it, and the id index has exactly
    /// its orders.
    pub closed spec fn holds_up(&self, book: BookState) -> bool {
        &&& forall|id: OrderId| #[trigger] book.holds(id) <==> self.ids@.contains_key(id)
        &&& forall|side: Side, p: Price| #[trigger]
            book.queues(side).contains_key(p) <==> self.parts().levels(side).contains_key(p)
        &&& forall|side: Side, p: Price| #[trigger]
            book.queues(side).contains_key(p) ==> {
                &&& self.parts().levels(side)[p].qty == total(book.queues(side)[p])
                &&& self.parts().levels(side)[p].orders == book.queues(side)[p].len()
            }
    }

    /// Holds of every book the engine hands out.
    pub closed spec fn wf(&self) -> bool {
        &&& self.structured()
        &&& self@.uncrossed()
    }

    /// Number of orders that the id map has room for without growing.
    pub closed spec fn id_slots(&self) -> nat {
        self.ids.width()
    }

    /// On the way from `self` to `after` the id map did not grow, unless the
    /// book came to hold more orders than it had slots for.
    pub open spec fn grows_only_if_full(&self, after: &OrderBook) -> bool {
        after@.ids().len() <= self.id_slots() ==> after.id_slots() == self.id_slots()
    }

    pub fn new() -> (book: Self)
        ensures
            book.wf(),
            book@ == BookState::empty(),
    {
        Self::with_capacity(0)
    }

    /// Pre-allocates the slab and the table of the id map: the table has a
    /// slot for each of `orders` orders (and at least one), and is replaced by
    /// a larger one only when the book holds more. A slot claims memory of its
    /// own when it is first used. How much memory the slab has claimed is up
    /// to the allocator and not stated.
    pub fn with_capacity(orders: usize) -> (book: Self)
        ensures
            book.wf(),
            book@ == BookState::empty(),
            book.id_slots() == (if orders == 0 {
                1
            } else {
                orders as nat
            }),
    {
        let book = OrderBook {
            slab: Slab::with_capacity(orders),
            bids: Ladder::new(Side::Bid),
            asks: Ladder::new(Side::Ask),
            ids: IdMap::with_capacity(orders),
            bid_chains: Ghost(Map::empty()),
            ask_chains: Ghost(Map::empty()),
        };
        proof {
            let parts = book.parts();
            assert forall|side: Side, price: Price| !(#[trigger] parts.levels(side).contains_key(
                price,
            )) by {}
            assert forall|side: Side, price: Price| !(#[trigger] parts.chains(side).contains_key(
                price,
            )) by {}
            assert(book@ =~= BookState::empty());
        }
        book
    }

    fn level(&self, side: Side, price: Price) -> (level: Option<Level>)
        ensures
            level == (if self.parts().levels(side).contains_key(price) {
                Some(self.parts().levels(side)[price])
            } else {
                None
            }),
    {
        match side {
            Side::Bid => self.bids.get(price),
            Side::Ask => self.asks.get(price),
        }
    }

    fn put_level(&mut self, side: Side, price: Price, level: Level)
        requires
            old(self).sound(),
        ensures
            final(self).sound(),
            final(self).id_slots() == old(self).id_slots(),
            final(self).parts() == old(self).parts().with_levels(
                side,
                old(self).parts().levels(side).insert(price, level),
            ),
    {
        match side {
            Side::Bid => self.bids.put(price, level),
            Side::Ask => self.asks.put(price, level),
        }
    }

    fn drop_level(&mut self, side: Side, price: Price)
        requires
            old(self).sound(),
        ensures
            final(self).sound(),
            final(self).id_slots() == old(self).id_slots(),
            final(self).parts() == old(self).parts().with_levels(
                side,
                old(self).parts().levels(side).remove(price),
            ),
    {
        match side {
            Side::Bid => self.bids.remove(price),
            Side::Ask => self.asks.remove(price),
        }
    }

    fn best_of(&self, side: Side) -> (price: Option<Price>)
        requires
            self.structured(),
        ensures
            price == best(self@.queues(side), side),
            match price {
                Some(p) => is_best(self@.queues(side), side, p),
                None => self@.queues(side) == Map::<Price, Seq<Resting>>::empty(),
            },
    {
        let price: Option<Price> = match side {
            Side::Bid => self.bids.best(),
            Side::Ask => self.asks.best(),
        };
        proof {
            let parts = self.parts();
            parts.lemma_totals(side);
            let queues = self@.queues(side);
            assert forall|p: Price| #[trigger]
                queues.contains_key(p) == parts.levels(side).contains_key(p) by {
                assert(queues.dom().contains(p) == parts.levels(side).dom().contains(p));
            }
            match price {
                Some(p) => {
                    assert forall|q: Price| #[trigger] queues.contains_key(q) implies q == p
                        || better(side, p, q) by {
                        assert(parts.levels(side).contains_key(q));
                    }
                    lemma_best_unique(queues, side, p);
                },
                None => {
                    assert(queues =~= Map::empty());
                    lemma_best_empty::<Seq<Resting>>(side);
                },
            }
        }
        price
    }

    /// The structures with one level's pending aggregates written back.
    spec fn pending(&self, side: Side, price: Price, level: Level) -> Parts {
        self.parts().with_levels(
            side,
            if level.head == NIL {
                self.parts().levels(side).remove(price)
            } else {
                self.parts().levels(side).insert(price, level)
            },
        )
    }

    /// Fills the orders of the best level, oldest first, until the level or
    /// the taker is exhausted. Works on a copy of the level and writes it
    /// back at the end.
    fn fill_level<S: EventSink>(
        &mut self,
        taker: OrderId,
        side: Side,
        price: Price,
        Ghost(limit): Ghost<Option<Price>>,
        want: Qty,
        sink: &mut S,
    ) -> (r: (Qty, Ghost<Seq<Event>>))
        requires
            old(self).structured(),
            want > 0,
            is_best(old(self)@.queues(side), side, price),
            crosses(side, price, limit),
            ready_for(
                *old(sink),
                sweep(old(self)@.queues(side), side, limit, want as nat, taker).trades,
            ),
        ensures
            final(self).structured(),
            final(self).id_slots() == old(self).id_slots(),
            final(self)@.queues(side.opposite()) == old(self)@.queues(side.opposite()),
            r.0 < want,
            ({
                let all = sweep(old(self)@.queues(side), side, limit, want as nat, taker);
                let after = sweep(final(self)@.queues(side), side, limit, r.0 as nat, taker);
                &&& all.queues == after.queues
                &&& all.remaining == after.remaining
                &&& all.trades == r.1@ + after.trades
            }),
            delivered(*old(sink), r.1@, *final(sink)),
    {
        let ghost all = sweep(self@.queues(side), side, limit, want as nat, taker);
        let ghost other = self@.queues(side.opposite());
        let ghost sink0 = *sink;
        let ghost mut done: Seq<Event> = Seq::empty();
        proof {
            self.parts().lemma_queue(side, price);
            assert(self.parts().level_ok(side, price));
            lemma_delivered_none(sink0);
        }
        let mut qty: Qty = want;
        let mut level: Level = self.level(side, price).unwrap();
        proof {
            let chain = self.parts().chains(side)[price];
            assert(self.parts().node_ok(side, price, chain, 0));
            assert(self.parts().levels(side).insert(price, level) =~= self.parts().levels(side));
            assert(self.pending(side, price, level) == self.parts());
            assert(done + all.trades =~= all.trades);
        }
        while qty > 0 && level.head != NIL
            invariant
                self.sound(),
                self.id_slots() == old(self).id_slots(),
                self.pending(side, price, level).ok(),
                self.pending(side, price, level).state().queues(side.opposite()) == other,
                self.parts().chains(side).contains_key(price) <==> level.head != NIL,
                level.head != NIL ==> is_best(
                    self.pending(side, price, level).state().queues(side),
                    side,
                    price,
                ),
                crosses(side, price, limit),
                qty <= want,
                want > 0,
                qty == want ==> level.head != NIL,
                ({
                    let after = sweep(
                        self.pending(side, price, level).state().queues(side),
                        side,
                        limit,
                        qty as nat,
                        taker,
                    );
                    &&& all.queues == after.queues
                    &&& all.remaining == after.remaining
                    &&& all.trades == done + after.trades
                }),
                delivered(sink0, done, *sink),
                ready_for(sink0, all.trades),
            decreases qty,
        {
            let ghost pre = self.pending(side, price, level);
            let ghost level0 = level;
            let ghost chain = pre.chains(side)[price];
            let ghost queues = pre.state().queues(side);
            let ghost after0 = sweep(queues, side, limit, qty as nat, taker);
            proof {
                assert(pre.chains(side).contains_key(price));
                assert(pre.level_ok(side, price));
                assert(pre.node_ok(side, price, chain, 0));
                assert(pre.levels(side)[price] == level);
                pre.lemma_queue(side, price);
                lemma_best_unique(queues, side, price);
            }
            let head: u32 = level.head;
            let node: OrderNode = self.slab.get(head);
            let fill: Qty = if qty < node.qty {
                qty
            } else {
                node.qty
            };
            let ev: Event = Event::Trade { maker: node.id, taker, price, qty: fill };
            proof {
                assert(queues[price][0] == resting(node));
                let rest = sweep(
                    fill_front(queues, price, fill as nat),
                    side,
                    limit,
                    (qty - fill) as nat,
                    taker,
                );
                assert(after0.trades == seq![ev] + rest.trades);
                assert(after0.trades[0] == ev);
                assert(all.trades[done.len() as int] == ev);
                assert(all.trades.take(done.len() as int) =~= done);
                assert(delivered(sink0, all.trades.take(done.len() as int), *sink));
                lemma_total_split(queue_of(pre.nodes, chain), 0);
            }
            let ghost sink1 = *sink;
            qty = qty - fill;
            level.qty = level.qty - fill;
            sink.on_event(ev);
            proof {
                lemma_delivered_push(sink0, done, sink1, ev, *sink);
                let rest = sweep(
                    fill_front(queues, price, fill as nat),
                    side,
                    limit,
                    qty as nat,
                    taker,
                );
                assert(done.push(ev) + rest.trades =~= done + (seq![ev] + rest.trades));
                done = done.push(ev);
            }
            if fill < node.qty {
                let mut smaller: OrderNode = node;
                smaller.qty = node.qty - fill;
                self.slab.set(head, smaller);
                proof {
                    let post = self.pending(side, price, level);
                    assert(post.levels(side) =~= pre.levels(side).insert(price, level));
                    assert(resized(pre, post, side, price, 0, smaller.qty));
                    lemma_resized(pre, post, side, price, 0, smaller.qty);
                    assert(post.state().queues(side) == fill_front(queues, price, fill as nat));
                }
            } else {
                level.head = node.next;
                if node.next == NIL {
                    level.tail = NIL;
                } else {
                    proof {
                        assert(pre.node_ok(side, price, chain, 1));
                    }
                    let mut next: OrderNode = self.slab.get(node.next);
                    next.prev = NIL;
                    self.slab.set(node.next, next);
                }
                level.orders = level.orders - 1;
                self.ids.remove(node.id);
                self.slab.release(head);
                proof {
                    let chains = if chain.len() == 1 {
                        pre.chains(side).remove(price)
                    } else {
                        pre.chains(side).insert(price, chain.remove(0))
                    };
                    match side {
                        Side::Bid => {
                            self.bid_chains@ = chains;
                        },
                        Side::Ask => {
                            self.ask_chains@ = chains;
                        },
                    }
                    let post = self.pending(side, price, level);
                    let rest = chain.remove(0);
                    if chain.len() > 1 {
                        assert(pre.node_ok(side, price, chain, 1));
                        assert(rest[0] == chain[1]);
                        assert(rest[rest.len() - 1] == chain.last());
                        assert(level == level_without(
                            level0,
                            chain,
                            0,
                            node.qty,
                        ));
                    }
                    assert(post.levels(side) =~= (if chain.len() == 1 {
                        pre.levels(side).remove(price)
                    } else {
                        pre.levels(side).insert(price, level)
                    }));
                    assert(detached(pre, post, side, price, 0));
                    lemma_detached(pre, post, side, price, 0);
                    assert(post.state().queues(side) == fill_front(queues, price, fill as nat));
                    post.lemma_queue(side, price);
                }
            }
        }
        if level.head == NIL {
            self.drop_level(side, price);
        } else {
            self.put_level(side, price, level);
        }
        (qty, Ghost(done))
    }

    /// Matches an incoming order against the opposite side while its limit
    /// crosses (`limit == None` means market: cross anything). Returns the
    /// unfilled remainder. Fills strictly in price-time order at the maker's
    /// price: each time with the best-priced order within the limit and, among
    /// those, the earliest, as a naive book that looks through all its orders
    /// would.
    pub fn match_incoming<S: EventSink>(
        &mut self,
        taker: OrderId,
        side: Side,
        limit: Option<Price>,
        want: Qty,
        sink: &mut S,
    ) -> (remaining: Qty)
        requires
            old(self).wf(),
            ready_for(*old(sink), old(self)@.swept(taker, side, limit, want).trades),
        ensures
            final(self).wf(),
            final(self).id_slots() == old(self).id_slots(),
            final(self)@ == old(self)@.after_match(taker, side, limit, want),
            remaining == old(self)@.swept(taker, side, limit, want).remaining,
            delivered(
                *old(sink),
                old(self)@.swept(taker, side, limit, want).trades,
                *final(sink),
            ),
            forall|orders: Flat|
                sane(orders) && #[trigger] book_of(orders) == old(self)@ ==> {
                    let naive = flat_sweep(orders, side.opposite(), limit, want as nat, taker);
                    &&& final(self)@ == book_of(naive.orders)
                    &&& remaining == naive.remaining
                    &&& delivered(*old(sink), naive.trades, *final(sink))
                },
    {
        let maker: Side = side.opposite();
        let ghost all = sweep(self@.queues(maker), maker, limit, want as nat, taker);
        let ghost own = self@.queues(side);
        let ghost sink0 = *sink;
        let ghost mut done: Seq<Event> = Seq::empty();
        proof {
            lemma_delivered_none(sink0);
            assert(done + all.trades =~= all.trades);
        }
        let mut qty: Qty = want;
        while qty > 0
            invariant_except_break
                ({
                    let after = sweep(self@.queues(maker), maker, limit, qty as nat, taker);
                    &&& all.queues == after.queues
                    &&& all.remaining == after.remaining
                    &&& all.trades == done + after.trades
                }),
            invariant
                maker == side.opposite(),
                self.structured(),
                self.id_slots() == old(self).id_slots(),
                self@.queues(side) == own,
                delivered(sink0, done, *sink),
                ready_for(sink0, all.trades),
            ensures
                all.queues == self@.queues(maker),
                all.remaining == qty,
                all.trades =~= done,
            decreases qty,
        {
            let price: Price = match self.best_of(maker) {
                Some(price) => price,
                None => {
                    break;
                },
            };
            let within: bool = match limit {
                None => true,
                Some(lim) => match maker {
                    Side::Ask => lim >= price,
                    Side::Bid => lim <= price,
                },
            };
            if !within {
                break;
            }
            let ghost sink1 = *sink;
            proof {
                lemma_ready_rest(
                    sink0,
                    done,
                    sink1,
                    sweep(self@.queues(maker), maker, limit, qty as nat, taker).trades,
                );
            }
            let (left, Ghost(fills)) = self.fill_level(taker, maker, price, Ghost(limit), qty, sink);
            qty = left;
            proof {
                lemma_delivered_concat(sink0, done, sink1, fills, *sink);
                let after = sweep(self@.queues(maker), maker, limit, qty as nat, taker);
                assert(done + (fills + after.trades) =~= (done + fills) + after.trades);
                done = done + fills;
            }
        }
        proof {
            assert(self@ =~= old(self)@.after_match(taker, side, limit, want));
            old(self).lemma_valid();
            law_matching_keeps_book_valid(old(self)@, taker, side, limit, want);
            assert forall|orders: Flat|
                sane(orders) && #[trigger] book_of(orders) == old(self)@ implies {
                let naive = flat_sweep(orders, side.opposite(), limit, want as nat, taker);
                &&& self@ == book_of(naive.orders)
                &&& qty == naive.remaining
                &&& delivered(*old(sink), naive.trades, *sink)
            } by {
                law_matching_matches_flat_book(orders, taker, side, limit, want);
            }
        }
        qty
    }

    /// Quantity fillable against the opposite side within `limit`, capped at
    /// `want` (stops summing once satisfied). Used for the FOK pre-check.
    pub fn crossable_qty(&self, side: Side, limit: Price, want: Qty) -> (qty: Qty)
        requires
            self.wf(),
        ensures
            qty == (if self@.fillable(side, limit) < want {
                self@.fillable(side, limit)
            } else {
                want as nat
            }),
    {
        let maker: Side = side.opposite();
        proof {
            self.parts().lemma_totals(maker);
            self.parts().lemma_state();
        }
        match maker {
            Side::Bid => self.bids.fillable(limit, want),
            Side::Ask => self.asks.fillable(limit, want),
        }
    }

    /// Number of orders of a level that a taker of `want` lots fills, where
    /// the level has more lots than that.
    fn level_fills(&self, side: Side, price: Price, want: Qty) -> (n: u64)
        requires
            self.structured(),
            self@.queues(side).contains_key(price),
            want < total(self@.queues(side)[price]),
        ensures
            n == queue_fills(self@.queues(side)[price], want as nat),
    {
        let ghost parts = self.parts();
        let ghost chain = parts.chains(side)[price];
        let ghost queue = self@.queues(side)[price];
        let ghost mut k: int = 0;
        proof {
            parts.lemma_queue(side, price);
            assert(parts.level_ok(side, price));
            assert(queue.skip(0) =~= queue);
        }
        let mut idx: u32 = self.level(side, price).unwrap().head;
        let mut left: Qty = want;
        let mut n: u64 = 0;
        while left > 0
            invariant
                self.structured(),
                parts == self.parts(),
                parts.chains(side).contains_key(price),
                chain == parts.chains(side)[price],
                queue == queue_of(parts.nodes, chain),
                0 <= k <= queue.len(),
                left <= want,
                n <= want - left,
                left < total(queue.skip(k)),
                idx == link(chain, k),
                queue_fills(queue, want as nat) == n + queue_fills(queue.skip(k), left as nat),
            decreases left,
        {
            proof {
                if k == queue.len() {
                    assert(queue.skip(k) =~= Seq::empty());
                }
                assert(parts.level_ok(side, price));
                assert(parts.node_ok(side, price, chain, k));
                assert(queue.skip(k)[0] == queue[k]);
                assert(queue.skip(k).drop_first() =~= queue.skip(k + 1));
            }
            let node: OrderNode = self.slab.get(idx);
            n = n + 1;
            if left <= node.qty {
                return n;
            }
            left = left - node.qty;
            idx = node.next;
            proof {
                k = k + 1;
            }
        }
        n
    }

    /// Number of resting orders that an order would fill, in part or whole.
    pub fn fill_count(&self, side: Side, limit: Price, want: Qty) -> (n: u64)
        requires
            self.wf(),
        ensures
            n == fills(
                self@.queues(side.opposite()),
                side.opposite(),
                Some(limit),
                want as nat,
            ),
    {
        let maker: Side = side.opposite();
        let entries: Vec<(Price, Level)> = match maker {
            Side::Bid => self.bids.entries(),
            Side::Ask => self.asks.entries(),
        };
        let ghost parts = self.parts();
        let ghost queues = self@.queues(maker);
        let ghost mut rest = queues;
        let ghost lim = Some(limit);
        proof {
            parts.lemma_state();
            self.lemma_valid();
            lemma_lively(self@, maker);
            law_no_more_trades_than_lots(queues, maker, lim, want as nat, 0);
            law_one_trade_per_fill(queues, maker, lim, want as nat, 0);
            assert forall|p: Price| #[trigger] queues.contains_key(p) implies exists|k: int|
                0 <= k < entries@.len() && (#[trigger] entries@[k]).0 == p by {
                parts.lemma_queue(maker, p);
                assert(parts.level_ok(maker, p));
            }
            assert forall|k: int| 0 <= k < entries@.len() implies queues.contains_key(
                (#[trigger] entries@[k]).0,
            ) by {
                assert(parts.levels(maker).contains_key(entries@[k].0));
                parts.lemma_queue(maker, entries@[k].0);
            }
        }
        let mut left: Qty = want;
        let mut n: u64 = 0;
        let mut i: usize = 0;
        while i < entries.len() && left > 0
            invariant
                self.wf(),
                maker == side.opposite(),
                parts == self.parts(),
                queues == self@.queues(maker),
                lim == Some(limit),
                i <= entries@.len(),
                left <= want,
                lively(rest),
                lists(parts.levels(maker), maker, entries@),
                forall|p: Price| #[trigger]
                    rest.contains_key(p) ==> queues.contains_key(p) && rest[p] == queues[p]
                        && exists|k: int|
                        i <= k < entries@.len() && (#[trigger] entries@[k]).0 == p,
                forall|k: int|
                    i <= k < entries@.len() ==> rest.contains_key((#[trigger] entries@[k]).0),
                fills(queues, maker, lim, want as nat) == n + fills(
                    rest,
                    maker,
                    lim,
                    left as nat,
                ),
                fills(queues, maker, lim, want as nat) <= want,
            decreases entries@.len() - i,
        {
            let (price, level) = entries[i];
            proof {
                assert(rest.contains_key(entries@[i as int].0));
                parts.lemma_queue(maker, price);
                assert(parts.level_ok(maker, price));
                assert forall|q: Price| #[trigger] rest.contains_key(q) implies q == price
                    || better(maker, price, q) by {
                    let k = choose|k: int|
                        i <= k < entries@.len() && (#[trigger] entries@[k]).0 == q;
                    if k > i {
                        assert(better(maker, entries@[i as int].0, entries@[k].0));
                    }
                }
                lemma_best_unique(rest, maker, price);
            }
            let within: bool = match maker {
                Side::Ask => limit >= price,
                Side::Bid => limit <= price,
            };
            if !within {
                return n;
            }
            proof {
                lemma_fills_level(rest, maker, lim, left as nat, price);
            }
            if left < level.qty {
                return n + self.level_fills(maker, price, left);
            }
            n = n + level.orders as u64;
            left = left - level.qty;
            i = i + 1;
            proof {
                let fewer = rest.remove(price);
                assert forall|p: Price| #[trigger] fewer.contains_key(p) implies exists|k: int|
                    i <= k < entries@.len() && (#[trigger] entries@[k]).0 == p by {
                    assert(rest.contains_key(p));
                    let k = choose|k: int|
                        i - 1 <= k < entries@.len() && (#[trigger] entries@[k]).0 == p;
                    assert(k >= i);
                }
                assert forall|k: int| i <= k < entries@.len() implies fewer.contains_key(
                    (#[trigger] entries@[k]).0,
                ) by {
                    assert(better(maker, entries@[i - 1].0, entries@[k].0));
                }
                rest = fewer;
            }
        }
        proof {
            lemma_best(rest, maker);
            if left > 0 {
                assert forall|p: Price| !rest.contains_key(p) by {}
            }
        }
        n
    }

    /// Rests an order at the tail of its price level (lowest time priority).
    fn rest(&mut self, id: OrderId, side: Side, price: Price, qty: Qty)
        requires
            old(self).structured(),
            !old(self)@.holds(id),
            qty > 0,
            old(self)@.can_rest(side, price, qty as nat),
        ensures
            final(self).structured(),
            old(self).grows_only_if_full(final(self)),
            final(self)@ == old(self)@.rested(id, side, price, qty),
    {
        let ghost pre = self.parts();
        proof {
            pre.lemma_state();
            pre.lemma_queue(side, price);
            assert(pre.state().holds(id) <==> pre.ids.contains_key(id));
            self.slab.lemma_bounds();
            if pre.chains(side).contains_key(price) {
                assert(pre.level_ok(side, price));
                pre.lemma_chain_len(side, price);
                let chain = pre.chains(side)[price];
                assert(pre.node_ok(side, price, chain, 0));
                assert(pre.node_ok(side, price, chain, chain.len() - 1));
            }
        }
        let mut level: Level = match self.level(side, price) {
            Some(level) => level,
            None => Level { head: NIL, tail: NIL, qty: 0, orders: 0 },
        };
        let old_tail: u32 = level.tail;
        let idx: u32 = self.slab.allocate(
            OrderNode { id, price, qty, side, prev: old_tail, next: NIL },
        );
        if old_tail != NIL {
            let mut tail: OrderNode = self.slab.get(old_tail);
            tail.next = idx;
            self.slab.set(old_tail, tail);
        }
        level.tail = idx;
        if level.head == NIL {
            level.head = idx;
        }
        level.qty = level.qty + qty;
        level.orders = level.orders + 1;
        self.put_level(side, price, level);
        self.ids.insert(id, idx);
        proof {
            let chain = if pre.chains(side).contains_key(price) {
                pre.chains(side)[price]
            } else {
                Seq::empty()
            };
            let chains = pre.chains(side).insert(price, chain.push(idx));
            match side {
                Side::Bid => {
                    self.bid_chains@ = chains;
                },
                Side::Ask => {
                    self.ask_chains@ = chains;
                },
            }
            let post = self.parts();
            self.slab.lemma_bounds();
            assert(queue_at(pre.state().queues(side), price) =~= queue_of(pre.nodes, chain));
            assert(appended(pre, post, side, price, idx, Resting { id, qty }));
            lemma_appended(pre, post, side, price, idx, Resting { id, qty });
            post.lemma_state();
            assert(post.ids.dom() =~= pre.ids.dom().insert(id));
        }
    }

    /// Takes a resting order out of its price level, removing the level if it
    /// empties, out of the id map and out of the slab.
    fn unlink(&mut self, id: OrderId, idx: u32)
        requires
            old(self).structured(),
            old(self).parts().ids.contains_key(id),
            old(self).parts().ids[id] == idx,
        ensures
            final(self).structured(),
            final(self).id_slots() == old(self).id_slots(),
            final(self)@ == old(self)@.without(id),
    {
        let ghost pre = self.parts();
        let ghost i = pre.lemma_find(id);
        let ghost gone = pre.nodes[idx as int];
        let ghost chain = pre.chains(gone.side)[gone.price];
        proof {
            if i > 0 {
                assert(pre.node_ok(gone.side, gone.price, chain, i - 1));
            }
            if i + 1 < chain.len() {
                assert(pre.node_ok(gone.side, gone.price, chain, i + 1));
            }
            assert(pre.node_ok(gone.side, gone.price, chain, 0));
            assert(pre.node_ok(gone.side, gone.price, chain, chain.len() - 1));
            lemma_total_split(queue_of(pre.nodes, chain), i);
        }
        let node: OrderNode = self.slab.get(idx);
        self.ids.remove(id);
        if node.prev != NIL {
            let mut before: OrderNode = self.slab.get(node.prev);
            before.next = node.next;
            self.slab.set(node.prev, before);
        }
        if node.next != NIL {
            let mut after: OrderNode = self.slab.get(node.next);
            after.prev = node.prev;
            self.slab.set(node.next, after);
        }
        let mut level: Level = self.level(node.side, node.price).unwrap();
        let ghost level0 = level;
        if level.head == idx {
            level.head = node.next;
        }
        if level.tail == idx {
            level.tail = node.prev;
        }
        level.qty = level.qty - node.qty;
        level.orders = level.orders - 1;
        if level.head == NIL {
            self.drop_level(node.side, node.price);
        } else {
            self.put_level(node.side, node.price, level);
        }
        self.slab.release(idx);
        proof {
            let rest = chain.remove(i);
            let chains = if chain.len() == 1 {
                pre.chains(gone.side).remove(gone.price)
            } else {
                pre.chains(gone.side).insert(gone.price, rest)
            };
            match gone.side {
                Side::Bid => {
                    self.bid_chains@ = chains;
                },
                Side::Ask => {
                    self.ask_chains@ = chains;
                },
            }
            let post = self.parts();
            if chain.len() > 1 {
                assert(level =~= level_without(level0, chain, i, gone.qty));
            }
            assert(detached(pre, post, gone.side, gone.price, i));
            lemma_detached(pre, post, gone.side, gone.price, i);
        }
    }

    /// A well-formed book's value is a valid book.
    pub proof fn lemma_valid(&self)
        requires
            self.wf(),
        ensures
            self@.valid(),
    {
        self.parts().lemma_state();
    }

    /// Sends one event that comes first in `evs`.
    fn announce<S: EventSink>(sink: &mut S, ev: Event, Ghost(evs): Ghost<Seq<Event>>)
        requires
            ready_for(*old(sink), evs),
            evs.len() > 0,
            evs[0] == ev,
        ensures
            delivered(*old(sink), seq![ev], *final(sink)),
            ready_for(*final(sink), evs.drop_first()),
    {
        let ghost sink0 = *sink;
        proof {
            lemma_ready_first(sink0, evs);
            lemma_delivered_none(sink0);
        }
        sink.on_event(ev);
        proof {
            lemma_delivered_push(sink0, Seq::empty(), sink0, ev, *sink);
            assert(Seq::<Event>::empty().push(ev) =~= seq![ev]);
            assert(evs =~= seq![ev] + evs.drop_first());
            lemma_ready_rest(sink0, seq![ev], *sink, evs.drop_first());
        }
    }

    /// Submits a limit order. Matches against the opposite side while the
    /// price crosses, then rests (GTC), cancels (IOC), or has already been
    /// rejected (FOK) per `tif`.
    pub fn submit_limit<S: EventSink>(
        &mut self,
        id: OrderId,
        side: Side,
        price: Price,
        qty: Qty,
        tif: Tif,
        sink: &mut S,
    )
        requires
            old(self).wf(),
            old(self)@.limit_fits(id, side, price, qty, tif),
            ready_for(*old(sink), old(self)@.limit(id, side, price, qty, tif).events),
        ensures
            final(self).wf(),
            old(self).grows_only_if_full(final(self)),
            final(self)@ == old(self)@.limit(id, side, price, qty, tif).book,
            delivered(
                *old(sink),
                old(self)@.limit(id, side, price, qty, tif).events,
                *final(sink),
            ),
    {
        let ghost before = self@;
        let ghost events = before.limit(id, side, price, qty, tif).events;
        proof {
            self.lemma_valid();
            self.parts().lemma_state();
            assert(before.holds(id) <==> self.ids@.contains_key(id));
            law_limit_keeps_book_valid(before, id, side, price, qty, tif);
        }
        if qty == 0 {
            Self::announce(
                sink,
                Event::Rejected { id, reason: RejectReason::ZeroQty },
                Ghost(events),
            );
            return;
        }
        if self.ids.contains_key(id) {
            Self::announce(
                sink,
                Event::Rejected { id, reason: RejectReason::DuplicateId },
                Ghost(events),
            );
            return;
        }
        // FOK: prove the full quantity is crossable before touching the book,
        // so an unfillable order has zero side effects.
        if tif == Tif::Fok && self.crossable_qty(side, price, qty) < qty {
            Self::announce(
                sink,
                Event::Rejected { id, reason: RejectReason::FokUnfillable },
                Ghost(events),
            );
            return;
        }
        self.enter(Event::Accepted { id }, id, side, price, qty, tif, sink);
    }

    /// Announces an order with `first`, matches it and rests (GTC) or cancels
    /// the remainder.
    fn enter<S: EventSink>(
        &mut self,
        first: Event,
        id: OrderId,
        side: Side,
        price: Price,
        qty: Qty,
        tif: Tif,
        sink: &mut S,
    )
        requires
            old(self).wf(),
            !old(self)@.holds(id),
            qty > 0,
            tif == Tif::Gtc ==> old(self)@.enter_fits(id, side, price, qty),
            ready_for(*old(sink), old(self)@.enter(first, id, side, price, qty, tif).events),
        ensures
            final(self).wf(),
            old(self).grows_only_if_full(final(self)),
            final(self)@ == old(self)@.enter(first, id, side, price, qty, tif).book,
            delivered(
                *old(sink),
                old(self)@.enter(first, id, side, price, qty, tif).events,
                *final(sink),
            ),
    {
        let ghost before = self@;
        let ghost events = before.enter(first, id, side, price, qty, tif).events;
        let ghost swept = before.swept(id, side, Some(price), qty);
        let ghost sink0 = *sink;
        proof {
            self.lemma_valid();
            law_entering_keeps_book_valid(before, first, id, side, price, qty, tif);
            law_matching_keeps_book_valid(before, id, side, Some(price), qty);
            lemma_lively(before, side.opposite());
            lemma_sweep(
                before.queues(side.opposite()),
                side.opposite(),
                Some(price),
                qty as nat,
                id,
            );
            let left = seq![Event::Canceled { id, remaining: swept.remaining as Qty }];
            assert((seq![first] + swept.trades).drop_first() =~= swept.trades);
            assert((seq![first] + swept.trades).push(left[0]).drop_first() =~= swept.trades + left);
        }
        Self::announce(sink, first, Ghost(events));
        let ghost sink1 = *sink;
        proof {
            assert(events.drop_first() =~= swept.trades + events.skip(swept.trades.len() + 1int));
            lemma_ready_prefix(sink1, swept.trades, events.skip(swept.trades.len() + 1int));
        }
        let remaining: Qty = self.match_incoming(id, side, Some(price), qty, sink);
        let ghost sink2 = *sink;
        proof {
            lemma_delivered_concat(sink0, seq![first], sink1, swept.trades, sink2);
        }
        if remaining > 0 {
            match tif {
                Tif::Gtc => self.rest(id, side, price, remaining),
                // FOK is pre-checked by the caller; what is left of it is
                // treated like the remainder of an IOC order.
                Tif::Ioc | Tif::Fok => {
                    let ghost left = seq![Event::Canceled { id, remaining }];
                    proof {
                        lemma_ready_rest(sink1, swept.trades, sink2, left);
                    }
                    Self::announce(sink, Event::Canceled { id, remaining }, Ghost(left));
                    proof {
                        let trades = seq![first] + swept.trades;
                        lemma_delivered_concat(sink0, trades, sink2, left, *sink);
                        assert(events =~= trades + left);
                    }
                },
            }
        }
    }

    /// Submits a market order: matches at any price, never rests.
    pub fn submit_market<S: EventSink>(&mut self, id: OrderId, side: Side, qty: Qty, sink: &mut S)
        requires
            old(self).wf(),
            ready_for(*old(sink), old(self)@.market(id, side, qty).events),
        ensures
            final(self).wf(),
            final(self).id_slots() == old(self).id_slots(),
            final(self)@ == old(self)@.market(id, side, qty).book,
            delivered(*old(sink), old(self)@.market(id, side, qty).events, *final(sink)),
    {
        let ghost before = self@;
        let ghost events = before.market(id, side, qty).events;
        let ghost swept = before.swept(id, side, None, qty);
        let ghost sink0 = *sink;
        proof {
            self.lemma_valid();
            self.parts().lemma_state();
            assert(before.holds(id) <==> self.ids@.contains_key(id));
            law_market_keeps_book_valid(before, id, side, qty);
            lemma_lively(before, side.opposite());
            lemma_sweep(before.queues(side.opposite()), side.opposite(), None, qty as nat, id);
            let first = Event::Accepted { id };
            let left = seq![Event::Canceled { id, remaining: swept.remaining as Qty }];
            assert((seq![first] + swept.trades).drop_first() =~= swept.trades);
            assert((seq![first] + swept.trades).push(left[0]).drop_first() =~= swept.trades + left);
        }
        if qty == 0 {
            Self::announce(
                sink,
                Event::Rejected { id, reason: RejectReason::ZeroQty },
                Ghost(events),
            );
            return;
        }
        if self.ids.contains_key(id) {
            Self::announce(
                sink,
                Event::Rejected { id, reason: RejectReason::DuplicateId },
                Ghost(events),
            );
            return;
        }
        Self::announce(sink, Event::Accepted { id }, Ghost(events));
        let ghost sink1 = *sink;
        proof {
            assert(events.drop_first() =~= swept.trades + events.skip(swept.trades.len() + 1int));
            lemma_ready_prefix(sink1, swept.trades, events.skip(swept.trades.len() + 1int));
        }
        let remaining: Qty = self.match_incoming(id, side, None, qty, sink);
        let ghost sink2 = *sink;
        proof {
            lemma_delivered_concat(
                sink0,
                seq![Event::Accepted { id }],
                sink1,
                swept.trades,
                sink2,
            );
        }
        if remaining > 0 {
            let ghost left = seq![Event::Canceled { id, remaining }];
            proof {
                lemma_ready_rest(sink1, swept.trades, sink2, left);
            }
            Self::announce(sink, Event::Canceled { id, remaining }, Ghost(left));
            proof {
                let trades = seq![Event::Accepted { id }] + swept.trades;
                lemma_delivered_concat(sink0, trades, sink2, left, *sink);
                assert(events =~= trades + left);
            }
        }
    }

    /// Cancels a resting order in O(1) (plus level-map maintenance).
    pub fn cancel<S: EventSink>(&mut self, id: OrderId, sink: &mut S)
        requires
            old(self).wf(),
            ready_for(*old(sink), old(self)@.cancel(id).events),
        ensures
            final(self).wf(),
            final(self).id_slots() == old(self).id_slots(),
            final(self)@ == old(self)@.cancel(id).book,
            delivered(*old(sink), old(self)@.cancel(id).events, *final(sink)),
    {
        let ghost before = self@;
        let ghost events = before.cancel(id).events;
        proof {
            self.lemma_valid();
            self.parts().lemma_state();
            assert(before.holds(id) <==> self.ids@.contains_key(id));
            law_cancel_keeps_book_valid(before, id);
        }
        let idx: u32 = match self.ids.get(id) {
            Some(idx) => idx,
            None => {
                Self::announce(
                    sink,
                    Event::Rejected { id, reason: RejectReason::UnknownOrder },
                    Ghost(events),
                );
                return;
            },
        };
        proof {
            let i = self.parts().lemma_find(id);
            let node = self.parts().nodes[idx as int];
            self.parts().lemma_queue(node.side, node.price);
        }
        let remaining: Qty = self.slab.get(idx).qty;
        self.unlink(id, idx);
        Self::announce(sink, Event::Canceled { id, remaining }, Ghost(events));
    }

    /// Cancel/replace. A pure quantity *decrease* at the same price is done
    /// in place and keeps queue priority; any other change loses priority and
    /// re-enters the matching path (so it may trade immediately): the book and
    /// the trades are then those of a cancel followed by a fresh limit order.
    pub fn replace<S: EventSink>(
        &mut self,
        id: OrderId,
        new_price: Price,
        new_qty: Qty,
        sink: &mut S,
    )
        requires
            old(self).wf(),
            old(self)@.replace_fits(id, new_price, new_qty),
            ready_for(*old(sink), old(self)@.replace(id, new_price, new_qty).events),
        ensures
            final(self).wf(),
            old(self).grows_only_if_full(final(self)),
            final(self)@ == old(self)@.replace(id, new_price, new_qty).book,
            delivered(
                *old(sink),
                old(self)@.replace(id, new_price, new_qty).events,
                *final(sink),
            ),
            old(self)@.holds(id) && new_qty > 0 && (new_price != old(self)@.find(id).1 || new_qty
                >= old(self)@.qty_of(id)->0) ==> {
                let side = old(self)@.find(id).0;
                let fresh = old(self)@.cancel(id).book.limit(
                    id,
                    side,
                    new_price,
                    new_qty,
                    Tif::Gtc,
                );
                &&& final(self)@ == fresh.book
                &&& fresh.events[0] == Event::Accepted { id }
                &&& delivered(
                    *old(sink),
                    seq![Event::Replaced { id }] + fresh.events.drop_first(),
                    *final(sink),
                )
            },
    {
        let ghost before = self@;
        let ghost events = before.replace(id, new_price, new_qty).events;
        proof {
            self.lemma_valid();
            self.parts().lemma_state();
            assert(before.holds(id) <==> self.ids@.contains_key(id));
            law_replace_keeps_book_valid(before, id, new_price, new_qty);
            if before.holds(id) && new_qty > 0 && (new_price != before.find(id).1 || new_qty
                >= before.qty_of(id)->0) {
                law_replacing_is_cancel_and_resubmit(before, id, new_price, new_qty);
                let side = before.find(id).0;
                let fresh = before.cancel(id).book.limit(id, side, new_price, new_qty, Tif::Gtc);
                assert(events =~= seq![Event::Replaced { id }] + fresh.events.drop_first());
            }
        }
        let idx: u32 = match self.ids.get(id) {
            Some(idx) => idx,
            None => {
                Self::announce(
                    sink,
                    Event::Rejected { id, reason: RejectReason::UnknownOrder },
                    Ghost(events),
                );
                return;
            },
        };
        if new_qty == 0 {
            Self::announce(
                sink,
                Event::Rejected { id, reason: RejectReason::ZeroQty },
                Ghost(events),
            );
            return;
        }
        let ghost pre = self.parts();
        let ghost i = pre.lemma_find(id);
        let node: OrderNode = {
            let node: OrderNode = self.slab.get(idx);
            proof {
                pre.lemma_queue(node.side, node.price);
            }
            node
        };
        if new_price == node.price && new_qty < node.qty {
            let mut smaller: OrderNode = node;
            smaller.qty = new_qty;
            self.slab.set(idx, smaller);
            let shrink: Qty = node.qty - new_qty;
            proof {
                let chain = pre.chains(node.side)[node.price];
                lemma_total_split(queue_of(pre.nodes, chain), i);
            }
            let mut level: Level = self.level(node.side, node.price).unwrap();
            level.qty = level.qty - shrink;
            self.put_level(node.side, node.price, level);
            proof {
                let post = self.parts();
                assert(resized(pre, post, node.side, node.price, i, new_qty));
                lemma_resized(pre, post, node.side, node.price, i, new_qty);
            }
            Self::announce(sink, Event::Replaced { id }, Ghost(events));
            return;
        }
        // Price move or size increase: lose priority, re-match as a fresh
        // GTC limit under the same id.

        self.unlink(id, idx);
        proof {
            law_removal_keeps_book_valid(before, id);
        }
        self.enter(Event::Replaced { id }, id, node.side, new_price, new_qty, Tif::Gtc, sink);
    }

    /// Highest bid.
    pub fn best_bid(&self) -> (price: Option<Price>)
        requires
            self.wf(),
        ensures
            price == best(self@.bids, Side::Bid),
    {
        self.best_of(Side::Bid)
    }

    /// Lowest ask.
    pub fn best_ask(&self) -> (price: Option<Price>)
        requires
            self.wf(),
        ensures
            price == best(self@.asks, Side::Ask),
    {
        self.best_of(Side::Ask)
    }

    /// Total resting quantity at a price, 0 if the level does not exist.
    pub fn level_qty(&self, side: Side, price: Price) -> (qty: Qty)
        requires
            self.wf(),
        ensures
            qty == total(queue_at(self@.queues(side), price)),
    {
        proof {
            self.parts().lemma_queue(side, price);
            if self.parts().chains(side).contains_key(price) {
                assert(self.parts().level_ok(side, price));
            }
        }
        match self.level(side, price) {
            Some(level) => level.qty,
            None => 0,
        }
    }

    /// Remaining quantity of a live order.
    pub fn order_qty(&self, id: OrderId) -> (qty: Option<Qty>)
        requires
            self.wf(),
        ensures
            qty == self@.qty_of(id),
    {
        proof {
            self.parts().lemma_state();
            assert(self@.holds(id) <==> self.ids@.contains_key(id));
        }
        match self.ids.get(id) {
            Some(idx) => {
                proof {
                    let i = self.parts().lemma_find(id);
                    let node = self.parts().nodes[idx as int];
                    self.parts().lemma_queue(node.side, node.price);
                }
                Some(self.slab.get(idx).qty)
            },
            None => None,
        }
    }

    /// Side, price and remaining quantity of a live order.
    pub fn locate(&self, id: OrderId) -> (place: Option<(Side, Price, Qty)>)
        requires
            self.wf(),
        ensures
            place == (if self@.holds(id) {
                let (side, price, i) = self@.find(id);
                Some((side, price, self@.order_at(side, price, i).qty))
            } else {
                None
            }),
    {
        proof {
            self.parts().lemma_state();
            assert(self@.holds(id) <==> self.ids@.contains_key(id));
        }
        match self.ids.get(id) {
            Some(idx) => {
                let ghost i = self.parts().lemma_find(id);
                let node: OrderNode = self.slab.get(idx);
                Some((node.side, node.price, node.qty))
            },
            None => None,
        }
    }

    /// Number of resting orders.
    pub fn len(&self) -> (n: usize)
        requires
            self.wf(),
        ensures
            n == self@.ids().len(),
            self@.ids().finite(),
    {
        proof {
            self.parts().lemma_state();
        }
        self.ids.len()
    }

    pub fn is_empty(&self) -> (none: bool)
        requires
            self.wf(),
        ensures
            none == (self@ == BookState::empty()),
    {
        proof {
            self.lemma_valid();
            self.parts().lemma_state();
            let ids = self@.ids();
            if ids.len() == 0 {
                assert forall|side: Side, price: Price| !self@.queues(side).contains_key(price) by {
                    if self@.queues(side).contains_key(price) {
                        let id = self@.order_at(side, price, 0).id;
                        assert(self@.sits_at(id, side, price, 0));
                        assert(ids.contains(id));
                    }
                }
                assert forall|price: Price| !self@.bids.contains_key(price) by {
                    assert(!self@.queues(Side::Bid).contains_key(price));
                }
                assert forall|price: Price| !self@.asks.contains_key(price) by {
                    assert(!self@.queues(Side::Ask).contains_key(price));
                }
                assert(self@ =~= BookState::empty());
            } else if self@ == BookState::empty() {
                let id = ids.choose();
                assert(self@.holds(id));
                lemma_found(self@, id);
                let (side, price, i) = self@.find(id);
                assert(!self@.queues(side).contains_key(price));
            }
        }
        self.ids.len() == 0
    }

    /// Bid levels as `(price, total_qty)`, best (highest) first.
    pub fn bid_levels(&self) -> (depth: Vec<(Price, Qty)>)
        requires
            self.wf(),
        ensures
            depth@ == self@.depth(Side::Bid),
            forall|i: int|
                0 <= i < depth@.len() ==> (#[trigger] depth@[i]).1 == total(
                    queue_at(self@.bids, depth@[i].0),
                ),
    {
        self.depth(Side::Bid)
    }

    /// Ask levels as `(price, total_qty)`, best (lowest) first.
    pub fn ask_levels(&self) -> (depth: Vec<(Price, Qty)>)
        requires
            self.wf(),
        ensures
            depth@ == self@.depth(Side::Ask),
            forall|i: int|
                0 <= i < depth@.len() ==> (#[trigger] depth@[i]).1 == total(
                    queue_at(self@.asks, depth@[i].0),
                ),
    {
        self.depth(Side::Ask)
    }

    fn depth(&self, side: Side) -> (depth: Vec<(Price, Qty)>)
        requires
            self.wf(),
        ensures
            depth@ == self@.depth(side),
            forall|i: int|
                0 <= i < depth@.len() ==> (#[trigger] depth@[i]).1 == total(
                    queue_at(self@.queues(side), depth@[i].0),
                ),
    {
        let entries: Vec<(Price, Level)> = match side {
            Side::Bid => self.bids.entries(),
            Side::Ask => self.asks.entries(),
        };
        let ghost levels = self.parts().levels(side);
        let mut depth: Vec<(Price, Qty)> = Vec::new();
        let mut i: usize = 0;
        while i < entries.len()
            invariant
                i <= entries@.len(),
                depth@.len() == i,
                forall|k: int|
                    0 <= k < i ==> (#[trigger] depth@[k]).0 == entries@[k].0 && depth@[k].1
                        == entries@[k].1.qty,
            decreases entries@.len() - i,
        {
            let (price, level) = entries[i];
            depth.push((price, level.qty));
            i = i + 1;
        }
        proof {
            self.parts().lemma_state();
            self.parts().lemma_totals(side);
            let queues = self@.queues(side);
            let sums = Map::new(
                |p: Price| queues.contains_key(p),
                |p: Price| total(queues[p]) as Qty,
            );
            assert(sums.dom() =~= queues.dom());
            assert forall|p: Price| #[trigger] levels.contains_key(p) == queues.contains_key(p) && (
            levels.contains_key(p) ==> levels[p].qty == total(queues[p])) by {
                assert(levels.dom().contains(p) == queues.dom().contains(p));
                if levels.contains_key(p) {
                    assert(level_totals(levels)[p] == totals(
                        queues,
                    )[p]);
                }
            }
            assert forall|k: int| 0 <= k < depth@.len() implies (#[trigger] depth@[k]).1 == total(
                queue_at(queues, depth@[k].0),
            ) by {
                assert(levels.contains_key(entries@[k].0));
            }
            assert(lists(sums, side, depth@)) by {
                assert forall|k: int| 0 <= k < depth@.len() implies sums.contains_key(
                    (#[trigger] depth@[k]).0,
                ) && sums[depth@[k].0] == depth@[k].1 by {
                    assert(levels.contains_key(entries@[k].0));
                }
                assert forall|p: Price| #[trigger] sums.contains_key(p) implies exists|k: int|
                    0 <= k < depth@.len() && (#[trigger] depth@[k]).0 == p by {
                    assert(levels.contains_key(p) == queues.contains_key(p));
                    let k = choose|k: int|
                        0 <= k < entries@.len() && (#[trigger] entries@[k]).0 == p;
                    assert(depth@[k].0 == p);
                }
                assert forall|k: int, j: int| 0 <= k < j < depth@.len() implies better(
                    side,
                    (#[trigger] depth@[k]).0,
                    (#[trigger] depth@[j]).0,
                ) by {
                    assert(better(side, entries@[k].0, entries@[j].0));
                }
            }
            lemma_ladder_unique(sums, side, depth@);
        }
        depth
    }

    /// Walks the list behind a level and compares it with the level.
    fn level_is_consistent(&self, side: Side, price: Price, level: Level) -> (ok: bool)
        requires
            self.sound(),
        ensures
            ok == self.parts().level_consistent(side, price, level),
    {
        let ghost parts = self.parts();
        let ghost mut seen: Seq<u32> = Seq::empty();
        proof {
            self.slab.lemma_bounds();
            assert(queue_of(parts.nodes, seen) =~= Seq::empty());
            assert forall|chain: Seq<u32>| #[trigger]
                parts.threads(side, price, chain) && level_of(
                    parts.nodes,
                    chain,
                    level,
                ) implies level.head == link(chain, 0) by {}
        }
        if level.head == NIL {
            proof {
                assert forall|chain: Seq<u32>| #[trigger]
                    parts.threads(side, price, chain) implies !level_of(
                    parts.nodes,
                    chain,
                    level,
                ) by {
                    if level_of(parts.nodes, chain, level) {
                        assert(parts.place_ok(side, price, chain, 0));
                    }
                }
            }
            return false;
        }
        let mut qty: u128 = 0;
        let mut orders: u32 = 0;
        let mut idx: u32 = level.head;
        let mut prev: u32 = NIL;
        while idx != NIL
            invariant
                self.sound(),
                parts == self.parts(),
                level.head != NIL,
                parts.nodes.len() <= u32::MAX,
                orders == seen.len(),
                seen.len() <= parts.nodes.len(),
                qty == total(queue_of(parts.nodes, seen)),
                qty <= orders * 0xFFFF_FFFF_FFFF_FFFF,
                prev == link(seen, seen.len() - 1),
                seen.len() == 0 ==> idx == level.head,
                seen.len() > 0 ==> seen[0] == level.head && parts.nodes[seen.last() as int].next
                    == idx,
                seen.no_duplicates(),
                forall|i: int|
                    0 <= i < seen.len() ==> parts.walked(side, price, #[trigger] seen[i], seen, i),
                forall|chain: Seq<u32>| #[trigger]
                    parts.threads(side, price, chain) && level_of(parts.nodes, chain, level) ==> {
                        &&& seen.len() <= chain.len()
                        &&& seen =~= chain.take(seen.len() as int)
                        &&& idx == link(chain, seen.len() as int)
                    },
            decreases parts.nodes.len() - seen.len(),
        {
            let listed: bool = (idx as usize) < self.slab.len();
            let fine: bool = if listed {
                let node: OrderNode = self.slab.get(idx);
                let indexed: bool = match self.ids.get(node.id) {
                    Some(x) => x == idx,
                    None => false,
                };
                node.side == side && node.price == price && node.qty > 0 && node.prev == prev
                    && indexed
            } else {
                false
            };
            if !fine {
                proof {
                    assert forall|chain: Seq<u32>| #[trigger]
                        parts.threads(side, price, chain) implies !level_of(
                        parts.nodes,
                        chain,
                        level,
                    ) by {
                        if level_of(parts.nodes, chain, level) {
                            let n = seen.len() as int;
                            assert(idx == link(chain, n));
                            assert(parts.place_ok(side, price, chain, n));
                            if n > 0 {
                                assert(chain.take(n)[n - 1] == chain[n - 1]);
                            }
                        }
                    }
                }
                return false;
            }
            let node: OrderNode = self.slab.get(idx);
            proof {
                let n = seen.len() as int;
                let longer = seen.push(idx);
                if seen.contains(idx) {
                    let k = choose|k: int| 0 <= k < seen.len() && seen[k] == idx;
                    assert(parts.walked(side, price, seen[k], seen, k));
                    assert(parts.walked(side, price, seen[n - 1], seen, n - 1));
                    assert(link(seen, k - 1) == link(seen, n - 1));
                }
                assert(longer.no_duplicates());
                assert forall|i: int| 0 <= i < longer.len() implies parts.walked(
                    side,
                    price,
                    #[trigger] longer[i],
                    longer,
                    i,
                ) by {
                    if i < n {
                        assert(parts.walked(side, price, seen[i], seen, i));
                    }
                }
                lemma_bounded_distinct(longer, parts.nodes.len());
                assert(queue_of(parts.nodes, longer) =~= queue_of(parts.nodes, seen).push(
                    resting(node),
                ));
                lemma_total_push(queue_of(parts.nodes, seen), resting(node));
                assert forall|chain: Seq<u32>| #[trigger]
                    parts.threads(side, price, chain) && level_of(
                        parts.nodes,
                        chain,
                        level,
                    ) implies {
                    &&& longer.len() <= chain.len()
                    &&& longer =~= chain.take(longer.len() as int)
                    &&& node.next == link(chain, longer.len() as int)
                } by {
                    assert(seen =~= chain.take(n));
                    assert(idx == link(chain, n));
                    assert(parts.place_ok(side, price, chain, n));
                }
                seen = longer;
            }
            qty = qty + node.qty as u128;
            orders = orders + 1;
            prev = idx;
            idx = node.next;
        }
        let ok: bool = level.tail == prev && level.qty as u128 == qty && level.orders == orders;
        proof {
            if ok {
                assert(parts.threads(side, price, seen)) by {
                    assert forall|i: int| 0 <= i < seen.len() implies #[trigger] parts.place_ok(
                        side,
                        price,
                        seen,
                        i,
                    ) by {
                        assert(parts.walked(side, price, seen[i], seen, i));
                    }
                }
                assert(level_of(parts.nodes, seen, level));
            } else {
                assert forall|chain: Seq<u32>| #[trigger]
                    parts.threads(side, price, chain) implies !level_of(
                    parts.nodes,
                    chain,
                    level,
                ) by {
                    if level_of(parts.nodes, chain, level) {
                        let n = seen.len() as int;
                        assert(NIL == link(chain, n));
                        if n < chain.len() {
                            assert(parts.place_ok(side, price, chain, n));
                        }
                        assert(chain =~= seen);
                    }
                }
            }
        }
        ok
    }

    /// Number of orders on the levels of one side, if they are all consistent.
    fn consistent_orders(&self, side: Side, entries: &Vec<(Price, Level)>) -> (n: Option<u128>)
        requires
            self.sound(),
        ensures
            match n {
                Some(n) => {
                    &&& n == orders_in(entries@)
                    &&& n <= entries@.len() * 0xFFFF_FFFF
                    &&& forall|i: int|
                        0 <= i < entries@.len() ==> self.parts().level_consistent(
                            side,
                            (#[trigger] entries@[i]).0,
                            entries@[i].1,
                        )
                },
                None => exists|i: int|
                    0 <= i < entries@.len() && !self.parts().level_consistent(
                        side,
                        (#[trigger] entries@[i]).0,
                        entries@[i].1,
                    ),
            },
    {
        let mut count: u128 = 0;
        let mut i: usize = 0;
        while i < entries.len()
            invariant
                self.sound(),
                i <= entries@.len(),
                count == orders_in(entries@.take(i as int)),
                count <= i * 0xFFFF_FFFF,
                forall|k: int|
                    0 <= k < i ==> self.parts().level_consistent(
                        side,
                        (#[trigger] entries@[k]).0,
                        entries@[k].1,
                    ),
            decreases entries@.len() - i,
        {
            let (price, level) = entries[i];
            if !self.level_is_consistent(side, price, level) {
                assert(entries@[i as int] == (price, level));
                return None;
            }
            assert(entries@.take(i + 1).drop_last() =~= entries@.take(i as int));
            count = count + level.orders as u128;
            i = i + 1;
        }
        assert(entries@.take(i as int) =~= entries@);
        Some(count)
    }

    /// Exhaustively checks structural invariants: the book is not crossed,
    /// the list behind every level is linked, priced, sided and indexed as it
    /// should be, the cached aggregates are right, and the id map is as large
    /// as the number of resting orders. O(book size), never on the hot path.
    /// Every book that the engine hands out passes, and nothing passes that is
    /// not made up like a valid book.
    #[must_use]
    pub fn assert_consistent(&self) -> (ok: bool)
        requires
            self.sound(),
        ensures
            ok == self.consistent(),
            self.wf() ==> ok,
            ok ==> exists|book: BookState| #[trigger] self.holds_up(book) && book.valid(),
    {
        let bids: Vec<(Price, Level)> = self.bids.entries();
        let asks: Vec<(Price, Level)> = self.asks.entries();
        proof {
            lemma_lists_finite(self.bids@, Side::Bid, bids@);
            lemma_lists_finite(self.asks@, Side::Ask, asks@);
            lemma_ladder_unique(self.bids@, Side::Bid, bids@);
            lemma_ladder_unique(self.asks@, Side::Ask, asks@);
            if self.wf() {
                self.parts().lemma_consistent();
            }
        }
        let best_bid: Option<Price> = self.bids.best();
        let best_ask: Option<Price> = self.asks.best();
        if let Some(b) = best_bid {
            if let Some(a) = best_ask {
                if b >= a {
                    assert(self.bids@.contains_key(b) && self.asks@.contains_key(a));
                    return false;
                }
            }
        }
        assert forall|b: Price, a: Price| #[trigger]
            self.bids@.contains_key(b) && #[trigger] self.asks@.contains_key(a) implies b < a by {}
        let ghost parts = self.parts();
        let on_bids: u128 = match self.consistent_orders(Side::Bid, &bids) {
            Some(n) => n,
            None => {
                proof {
                    let i = choose|i: int|
                        0 <= i < bids@.len() && !parts.level_consistent(
                            Side::Bid,
                            (#[trigger] bids@[i]).0,
                            bids@[i].1,
                        );
                    assert(parts.levels(Side::Bid).contains_key(bids@[i].0));
                }
                return false;
            },
        };
        let on_asks: u128 = match self.consistent_orders(Side::Ask, &asks) {
            Some(n) => n,
            None => {
                proof {
                    let i = choose|i: int|
                        0 <= i < asks@.len() && !parts.level_consistent(
                            Side::Ask,
                            (#[trigger] asks@[i]).0,
                            asks@[i].1,
                        );
                    assert(parts.levels(Side::Ask).contains_key(asks@[i].0));
                }
                return false;
            },
        };
        proof {
            assert forall|side: Side, price: Price| #[trigger]
                parts.levels(side).contains_key(price) implies parts.level_consistent(
                side,
                price,
                parts.levels(side)[price],
            ) by {
                match side {
                    Side::Bid => {
                        let i = choose|i: int|
                            0 <= i < bids@.len() && (#[trigger] bids@[i]).0 == price;
                        assert(parts.level_consistent(Side::Bid, bids@[i].0, bids@[i].1));
                    },
                    Side::Ask => {
                        let i = choose|i: int|
                            0 <= i < asks@.len() && (#[trigger] asks@[i]).0 == price;
                        assert(parts.level_consistent(Side::Ask, asks@[i].0, asks@[i].1));
                    },
                }
            }
        }
        assert(bids@.len() == bids.len() && asks@.len() == asks.len());
        let ok: bool = on_bids + on_asks == self.ids.len() as u128;
        proof {
            if ok {
                self.slab.lemma_bounds();
                let book = parts.law_check_passes_only_books();
                assert(self.holds_up(book));
            }
        }
        ok
    }

    /// A well-formed book is made of sound containers.
    pub proof fn lemma_sound(&self)
        requires
            self.wf(),
        ensures
            self.sound(),
    {
    }

    /// The slab addresses every resting order.
    proof fn lemma_order_count(&self)
        requires
            self.structured(),
        ensures
            self@.ids().len() == self.ids@.dom().len(),
            self@.ids().len() <= u32::MAX,
    {
        self.slab.lemma_bounds();
        self.parts().lemma_state();
    }

    /// Whether machine limits allow a limit order: what of it comes to rest
    /// finds room at its level and a place in the slab.
    pub fn limit_has_room(
        &self,
        id: OrderId,
        side: Side,
        price: Price,
        qty: Qty,
        tif: Tif,
    ) -> (room: bool)
        requires
            self.wf(),
        ensures
            room == self@.limit_fits(id, side, price, qty, tif),
    {
        proof {
            self.lemma_valid();
            self.lemma_order_count();
            self.parts().lemma_state();
            assert(self@.holds(id) <==> self.ids@.contains_key(id));
            law_room_for_what_rests(self@, id, side, price, qty);
        }
        if qty == 0 || tif != Tif::Gtc || self.ids.contains_key(id) {
            return true;
        }
        let left: Qty = qty - self.crossable_qty(side, price, qty);
        left == 0 || self.level_qty(side, price) <= u64::MAX - left && (self.len()
            < u32::MAX as usize || left < qty)
    }

    /// Whether machine limits allow a cancel/replace request: what of the
    /// replacement comes to rest finds room at its level.
    pub fn replace_has_room(&self, id: OrderId, new_price: Price, new_qty: Qty) -> (room: bool)
        requires
            self.wf(),
        ensures
            room == self@.replace_fits(id, new_price, new_qty),
    {
        let (side, price, qty) = match self.locate(id) {
            Some(place) => place,
            None => {
                return true;
            },
        };
        if new_qty == 0 || new_price == price && new_qty < qty {
            return true;
        }
        proof {
            self.lemma_valid();
            self.lemma_order_count();
            law_room_for_replacement(self@, id, new_price, new_qty);
        }
        let left: Qty = new_qty - self.crossable_qty(side, new_price, new_qty);
        let freed: Qty = if new_price == price {
            qty
        } else {
            0
        };
        left == 0 || self.level_qty(side, new_price) - freed <= u64::MAX - left
    }

    /// Whether an order of `qty` lots at `price` can rest, on either side and
    /// whatever it matches: machine limits on level quantity and order count.
    pub fn has_room(&self, price: Price, qty: Qty) -> (room: bool)
        requires
            self.wf(),
        ensures
            room == (self@.can_rest(Side::Bid, price, qty as nat) && self@.can_rest(
                Side::Ask,
                price,
                qty as nat,
            )),
            room ==> forall|id: OrderId, side: Side, tif: Tif| #[trigger]
                self@.limit_fits(id, side, price, qty, tif),
            room ==> forall|id: OrderId| #[trigger] self@.replace_fits(id, price, qty),
    {
        proof {
            self.lemma_valid();
            if self@.can_rest(Side::Bid, price, qty as nat) && self@.can_rest(
                Side::Ask,
                price,
                qty as nat,
            ) {
                assert forall|id: OrderId, side: Side, tif: Tif| #[trigger]
                    self@.limit_fits(id, side, price, qty, tif) by {
                    law_room_admits_limit(self@, id, side, price, qty, tif);
                }
                assert forall|id: OrderId| #[trigger] self@.replace_fits(id, price, qty) by {
                    law_room_admits_replace(self@, id, price, qty);
                }
            }
        }
        self.len() < u32::MAX as usize && self.level_qty(Side::Bid, price) <= u64::MAX - qty
            && self.level_qty(Side::Ask, price) <= u64::MAX - qty
    }
}

impl Default for OrderBook {
    fn default() -> (book: Self)
        ensures
            book.wf(),
            book@ == BookState::empty(),
    {
        Self::new()
    }
}

} // verus!
