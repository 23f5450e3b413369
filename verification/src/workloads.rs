//! Fixed workloads that the benchmarks run on.
use vstd::prelude::*;

use crate::book::OrderBook;
use crate::events::NullSink;
use crate::model::{append, crosses, queue_at, total, BookState, Queues, Resting};
use crate::requests::{
    law_passive_order_joins_the_back, law_resting_keeps_book_valid, law_room_admits_limit,
    lemma_found, lemma_ids_finite,
};
use crate::types::{OrderId, Price, Side, Tif};
use crate::wire::{encode, stream_of, Msg};

verus! {

/// Distance of a price from the touch of a seeded book.
pub open spec fn tick(side: Side, price: Price) -> int {
    match side {
        Side::Bid => 9_999 - price,
        Side::Ask => price - 10_001,
    }
}

/// Price at a distance from the touch of a seeded book.
pub open spec fn price_at(side: Side, lvl: int) -> int {
    match side {
        Side::Bid => 9_999 - lvl,
        Side::Ask => 10_001 + lvl,
    }
}

/// Id of the order at a place of a seeded book: bids take the odd ids and
/// asks the even ones, level by level.
pub open spec fn seeded_id(side: Side, per_level: nat, lvl: int, i: int) -> int {
    let n = 1 + 2 * (lvl * per_level + i);
    match side {
        Side::Bid => n,
        Side::Ask => n + 1,
    }
}

/// One side of a seeded book whose first `lvl` levels are full and whose next
/// level has `part` orders.
pub open spec fn seeded_side(side: Side, per_level: nat, lvl: int, part: nat) -> Queues {
    Map::new(
        |p: Price|
            per_level > 0 && (0 <= tick(side, p) < lvl || tick(side, p) == lvl && part > 0),
        |p: Price|
            Seq::new(
                if tick(side, p) < lvl {
                    per_level
                } else {
                    part
                },
                |i: int|
                    Resting {
                        id: seeded_id(side, per_level, tick(side, p), i) as OrderId,
                        qty: 10,
                    },
            ),
    )
}

/// A book with `levels` price levels per side, `per_level` orders of 10 lots
/// each, one tick apart around mid 10_000.
pub open spec fn seeded(levels: int, per_level: nat) -> BookState {
    BookState {
        bids: seeded_side(Side::Bid, per_level, levels, 0),
        asks: seeded_side(Side::Ask, per_level, levels, 0),
    }
}

/// One more order at the back of the level under way.
proof fn lemma_seeded_push(side: Side, per_level: nat, lvl: int, part: nat)
    requires
        0 <= lvl,
        part < per_level,
        i64::MIN <= price_at(side, lvl) <= i64::MAX,
    ensures
        seeded_side(side, per_level, lvl, part + 1) == append(
            seeded_side(side, per_level, lvl, part),
            price_at(side, lvl) as Price,
            Resting { id: seeded_id(side, per_level, lvl, part as int) as OrderId, qty: 10 },
        ),
{
    let price = price_at(side, lvl) as Price;
    let before = seeded_side(side, per_level, lvl, part);
    let after = seeded_side(side, per_level, lvl, part + 1);
    let order = Resting { id: seeded_id(side, per_level, lvl, part as int) as OrderId, qty: 10 };
    assert(tick(side, price) == lvl);
    assert(queue_at(before, price).push(order) =~= after[price]);
    assert(append(before, price, order) =~= after);
}

/// A full level is a level.
proof fn lemma_seeded_full(side: Side, per_level: nat, lvl: int)
    requires
        0 <= lvl,
    ensures
        seeded_side(side, per_level, lvl, per_level) == seeded_side(side, per_level, lvl + 1, 0),
{
    assert(seeded_side(side, per_level, lvl, per_level) =~~= seeded_side(
        side,
        per_level,
        lvl + 1,
        0,
    ));
}

/// Ids grow from place to place.
proof fn lemma_seeded_ids(per_level: nat, l: int, i: int, lvl: int, part: int)
    by (nonlinear_arith)
    requires
        0 <= l < lvl && 0 <= i < per_level && part >= 0 || l == lvl && 0 <= i < part,
    ensures
        l * per_level + i < lvl * per_level + part,
{
}

/// A queue of orders of 10 lots.
proof fn lemma_tens(queue: Seq<Resting>)
    requires
        forall|i: int| 0 <= i < queue.len() ==> (#[trigger] queue[i]).qty == 10,
    ensures
        total(queue) == 10 * queue.len(),
    decreases queue.len(),
{
    if queue.len() > 0 {
        lemma_tens(queue.drop_first());
    }
}

/// The book while it is being seeded.
spec fn seeding(per_level: nat, lvl: int, on_bids: nat, on_asks: nat) -> BookState {
    BookState {
        bids: seeded_side(Side::Bid, per_level, lvl, on_bids),
        asks: seeded_side(Side::Ask, per_level, lvl, on_asks),
    }
}

/// The next order of a book being seeded is new, crosses nothing and fits.
proof fn lemma_seeding(
    book: BookState,
    side: Side,
    per_level: nat,
    lvl: int,
    on_bids: nat,
    on_asks: nat,
)
    requires
        book == seeding(per_level, lvl, on_bids, on_asks),
        book.valid(),
        0 <= lvl,
        side == Side::Bid ==> on_asks == on_bids && on_bids < per_level,
        side == Side::Ask ==> on_bids == on_asks + 1 && on_asks < per_level,
        2 * (lvl * per_level + per_level) <= u32::MAX,
        book.ids().len() < 2 * (lvl * per_level + per_level),
        lvl <= 0x7FFF_FFFF,
        per_level <= 0x7FFF_FFFF,
    ensures
        ({
            let part = if side == Side::Bid {
                on_bids
            } else {
                on_asks
            };
            let id = seeded_id(side, per_level, lvl, part as int) as OrderId;
            let price = price_at(side, lvl) as Price;
            let next = book.limit(id, side, price, 10, Tif::Gtc).book;
            &&& book.limit_fits(id, side, price, 10, Tif::Gtc)
            &&& next == (if side == Side::Bid {
                seeding(per_level, lvl, on_bids + 1, on_asks)
            } else {
                seeding(per_level, lvl, on_bids, on_asks + 1)
            })
            &&& next.ids().len() == book.ids().len() + 1
        }),
{
    let part = if side == Side::Bid {
        on_bids
    } else {
        on_asks
    };
    let n = seeded_id(side, per_level, lvl, part as int);
    assert(0 <= lvl * per_level) by (nonlinear_arith)
        requires
            0 <= lvl,
    ;
    assert(0 < n <= u32::MAX);
    let id = n as OrderId;
    let price = price_at(side, lvl) as Price;
    if book.holds(id) {
        lemma_found(book, id);
        let (s, p, i) = book.find(id);
        let l = tick(s, p);
        let m = seeded_id(s, per_level, l, i);
        assert(book.order_at(s, p, i).id == m as OrderId);
        let there: nat = if s == Side::Bid {
            on_bids
        } else {
            on_asks
        };
        lemma_seeded_ids(per_level, l, i, lvl, there as int);
        assert(0 <= l * per_level) by (nonlinear_arith)
            requires
                0 <= l,
        ;
        assert(m < n || m > n);
        assert(m <= u32::MAX);
        assert(false);
    }
    let maker = side.opposite();
    assert forall|q: Price| #[trigger] book.queues(maker).contains_key(q) implies !crosses(
        maker,
        q,
        Some(price),
    ) by {
        assert(tick(maker, q) >= 0);
    }
    law_passive_order_joins_the_back(book, id, side, price, 10);
    law_resting_keeps_book_valid(book, id, side, price, 10);
    lemma_seeded_push(side, per_level, lvl, part);
    let next = book.limit(id, side, price, 10, Tif::Gtc).book;
    assert(next =~= (if side == Side::Bid {
        seeding(per_level, lvl, on_bids + 1, on_asks)
    } else {
        seeding(per_level, lvl, on_bids, on_asks + 1)
    }));
    assert(next.ids() =~= book.ids().insert(id));
    lemma_ids_finite(book);
    let queue = queue_at(book.queues(side), price);
    lemma_tens(queue);
    assert(queue.len() <= per_level);
    assert(book.can_rest(side, price, 10));
    law_room_admits_limit(book, id, side, price, 10, Tif::Gtc);
}

/// A book with `levels` price levels per side, `per_level` orders each,
/// one tick apart around mid 10_000.
pub fn seeded_book(levels: i64, per_level: u64) -> (book: OrderBook)
    requires
        levels >= 0,
        2 * (levels * per_level) <= u32::MAX,
    ensures
        book.wf(),
        book@ == seeded(levels as int, per_level as nat),
{
    assert(levels as u64 * per_level == levels * per_level);
    let mut book = OrderBook::with_capacity((levels as u64 * per_level * 2 + 1024) as usize);
    let mut sink = NullSink;
    let mut id: u64 = 1;
    let mut lvl: i64 = 0;
    let ghost per = per_level as nat;
    proof {
        assert(seeded_side(Side::Bid, per, 0, 0) =~= Map::empty());
        assert(seeded_side(Side::Ask, per, 0, 0) =~= Map::empty());
        assert(book@ =~= seeding(per, 0, 0, 0));
        assert(book@.ids() =~= Set::empty()) by {
            assert forall|x: OrderId| !book@.holds(x) by {
                if book@.holds(x) {
                    lemma_found(book@, x);
                }
            }
        }
        assert(0 * per_level == 0);
    }
    while lvl < levels
        invariant
            0 <= lvl <= levels,
            per == per_level,
            2 * (levels * per_level) <= u32::MAX,
            book.wf(),
            book@ == seeding(per, lvl as int, 0, 0),
            book@.ids().len() == 2 * (lvl * per_level),
            id == 1 + 2 * (lvl * per_level),
        decreases levels - lvl,
    {
        let mut k: u64 = 0;
        proof {
            assert(lvl * per_level + per_level <= levels * per_level) by (nonlinear_arith)
                requires
                    0 <= lvl < levels,
            ;
            if per_level > 0 {
                assert(levels <= levels * per_level) by (nonlinear_arith)
                    requires
                        0 < per_level,
                        0 <= levels,
                ;
            }
            assert(0 <= lvl * per_level) by (nonlinear_arith)
                requires
                    0 <= lvl,
            ;
        }
        while k < per_level
            invariant
                0 <= lvl < levels,
                k <= per_level,
                per == per_level,
                0 <= lvl * per_level,
                lvl * per_level + per_level <= levels * per_level,
                2 * (levels * per_level) <= u32::MAX,
                per_level > 0 ==> levels <= levels * per_level,
                book.wf(),
                book@ == seeding(per, lvl as int, k as nat, k as nat),
                book@.ids().len() == 2 * (lvl * per_level + k),
                id == 1 + 2 * (lvl * per_level + k),
            decreases per_level - k,
        {
            proof {
                book.lemma_valid();
                lemma_seeding(book@, Side::Bid, per, lvl as int, k as nat, k as nat);
            }
            book.submit_limit(id, Side::Bid, 9_999 - lvl, 10, Tif::Gtc, &mut sink);
            id = id + 1;
            proof {
                book.lemma_valid();
                lemma_seeding(book@, Side::Ask, per, lvl as int, (k + 1) as nat, k as nat);
            }
            book.submit_limit(id, Side::Ask, 10_001 + lvl, 10, Tif::Gtc, &mut sink);
            id = id + 1;
            k = k + 1;
        }
        proof {
            lemma_seeded_full(Side::Bid, per, lvl as int);
            lemma_seeded_full(Side::Ask, per, lvl as int);
            assert((lvl + 1) * per_level == lvl * per_level + per_level) by (nonlinear_arith);
        }
        lvl = lvl + 1;
    }
    book
}

/// The message at a position of the codec workload: new, cancel, replace and
/// market in turn.
pub open spec fn sample_msg(i: int) -> Msg {
    if i % 4 == 0 {
        Msg::New {
            id: i as u64,
            side: Side::Bid,
            price: (10_000 + i % 32) as i64,
            qty: (1 + i % 100) as u64,
            tif: Tif::Gtc,
        }
    } else if i % 4 == 1 {
        Msg::Cancel { id: (i / 2) as u64 }
    } else if i % 4 == 2 {
        Msg::Replace {
            id: (i / 2) as u64,
            price: (10_000 - i % 32) as i64,
            qty: (1 + i % 50) as u64,
        }
    } else {
        Msg::Market { id: i as u64, side: Side::Ask, qty: (1 + i % 200) as u64 }
    }
}

/// `n` mixed messages for the codec benchmarks.
pub fn sample_stream(n: usize) -> (stream: Vec<u8>)
    ensures
        stream@ == stream_of(Seq::new(n as nat, |i: int| sample_msg(i))),
{
    let mut stream: Vec<u8> = Vec::new();
    let mut i: u64 = 0;
    while i < n as u64
        invariant
            i <= n,
            stream@ == stream_of(Seq::new(i as nat, |k: int| sample_msg(k))),
        decreases n - i,
    {
        let turn: u64 = i % 4;
        let msg: Msg = if turn == 0 {
            Msg::New {
                id: i,
                side: Side::Bid,
                price: 10_000 + (i % 32) as i64,
                qty: 1 + i % 100,
                tif: Tif::Gtc,
            }
        } else if turn == 1 {
            Msg::Cancel { id: i / 2 }
        } else if turn == 2 {
            Msg::Replace { id: i / 2, price: 10_000 - (i % 32) as i64, qty: 1 + i % 50 }
        } else {
            Msg::Market { id: i, side: Side::Ask, qty: 1 + i % 200 }
        };
        proof {
            let longer = Seq::new((i + 1) as nat, |k: int| sample_msg(k));
            assert(longer.drop_last() =~= Seq::new(i as nat, |k: int| sample_msg(k)));
            assert(longer.last() == msg);
        }
        encode(&msg, &mut stream);
        i = i + 1;
    }
    stream
}

/// A seeded book: levels one tick apart on both sides of 10_000, which itself
/// is empty, with as many orders of 10 lots on each as were asked for and none
/// elsewhere.
pub proof fn law_seeded_book_has_its_levels(
    levels: int,
    per_level: nat,
    side: Side,
    price: Price,
    i: int,
)
    ensures
        ({
            let queues = seeded(levels, per_level).queues(side);
            let distance = if side == Side::Bid {
                10_000 - price
            } else {
                price - 10_000
            };
            &&& queues.contains_key(price) <==> per_level > 0 && 1 <= distance <= levels
            &&& queues.contains_key(price) ==> queues[price].len() == per_level
            &&& queues.contains_key(price) && 0 <= i < per_level ==> queues[price][i].qty == 10
        }),
{
}

/// The ids of a seeded book count up from 1 as its orders are submitted: a bid
/// and then an ask, order by order, and level by level from the touch out.
pub proof fn law_seeded_ids_count_up(levels: int, per_level: nat, lvl: int, i: int)
    requires
        0 <= lvl < levels <= 0x7FFF_FFFF,
        0 <= i < per_level <= 0x7FFF_FFFF,
    ensures
        ({
            let book = seeded(levels, per_level);
            let bid = book.bids[(9_999 - lvl) as Price][i].id;
            let ask = book.asks[(10_001 + lvl) as Price][i].id;
            &&& bid == 2 * (lvl * per_level + i) + 1
            &&& ask == bid + 1
        }),
{
    assert(0 <= lvl * per_level <= 0x7FFF_FFFF * 0x7FFF_FFFF) by (nonlinear_arith)
        requires
            0 <= lvl <= 0x7FFF_FFFF,
            0 <= per_level <= 0x7FFF_FFFF,
    ;
    assert(tick(Side::Bid, (9_999 - lvl) as Price) == lvl);
    assert(tick(Side::Ask, (10_001 + lvl) as Price) == lvl);
}

/// The codec workload takes turns: new, cancel, replace and market, with ids
/// that follow the position and prices and quantities that go round.
pub proof fn law_samples_take_turns(i: int)
    requires
        0 <= i <= u64::MAX,
    ensures
        sample_msg(i) is New <==> i % 4 == 0,
        sample_msg(i) is Cancel <==> i % 4 == 1,
        sample_msg(i) is Replace <==> i % 4 == 2,
        sample_msg(i) is Market <==> i % 4 == 3,
        match sample_msg(i) {
            Msg::New { id, side, price, qty, tif } => {
                &&& id == i && side == Side::Bid && tif == Tif::Gtc
                &&& price - 10_000 == i % 32 && qty - 1 == i % 100
            },
            Msg::Cancel { id } => 2 * id + 1 == i,
            Msg::Replace { id, price, qty } => {
                &&& 2 * id == i
                &&& 10_000 - price == i % 32 && qty - 1 == i % 50
            },
            Msg::Market { id, side, qty } => id == i && side == Side::Ask && qty - 1 == i % 200,
        },
{
}

} // verus!
