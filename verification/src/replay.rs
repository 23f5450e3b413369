//! Deterministic replay: seeded workloads on the wire, applied to a book.
use vstd::prelude::*;

use crate::book::OrderBook;
use crate::events::{delivered, ready_for, CountingSink, Event, EventSink};
use crate::flow::{
    in_terms, law_flow_stays_orderly, law_messages_keep_to_terms, orderly, FlowGen, FlowState,
};
use crate::hash::lemma_factor_inverts;
use crate::laws::{
    count, counters_hold, fills, is_accept, is_cancel, is_reject, is_trade,
    law_counters_take_what_they_hold, law_lots_are_conserved, law_matching_is_maximal,
    law_no_more_trades_than_lots, law_one_trade_per_fill, lemma_count_one, lemma_traded_concat,
    traded,
};
use crate::model::{BookState, Outcome};
use crate::requests::{
    law_market_is_unlimited_ioc, law_removal_keeps_book_valid, lemma_lively, unfilled,
};
use crate::types::{OrderId, Price, Qty, RejectReason, Side, Tif};
use crate::wire::{
    encode, law_stream_reads_back, read_all, stream_of, DecodeError, Msg, SIZE_NEW,
};

verus! {

impl BookState {
    /// What a message does to a book.
    pub open spec fn apply(self, msg: Msg) -> Outcome {
        match msg {
            Msg::New { id, side, price, qty, tif } => self.limit(id, side, price, qty, tif),
            Msg::Cancel { id } => self.cancel(id),
            Msg::Replace { id, price, qty } => self.replace(id, price, qty),
            Msg::Market { id, side, qty } => self.market(id, side, qty),
        }
    }

    /// Machine limits allow the message.
    pub open spec fn fits(self, msg: Msg) -> bool {
        match msg {
            Msg::New { id, side, price, qty, tif } => self.limit_fits(id, side, price, qty, tif),
            Msg::Cancel { .. } => true,
            Msg::Replace { id, price, qty } => self.replace_fits(id, price, qty),
            Msg::Market { .. } => true,
        }
    }
}

/// Whether machine limits allow a message.
pub fn has_room_for(book: &OrderBook, msg: Msg) -> (room: bool)
    requires
        book.wf(),
    ensures
        room == book@.fits(msg),
{
    match msg {
        Msg::New { id, side, price, qty, tif } => book.limit_has_room(id, side, price, qty, tif),
        Msg::Cancel { .. } => true,
        Msg::Replace { id, price, qty } => book.replace_has_room(id, price, qty),
        Msg::Market { .. } => true,
    }
}

/// Applies one message to a book.
pub fn apply<S: EventSink>(book: &mut OrderBook, msg: Msg, sink: &mut S)
    requires
        old(book).wf(),
        old(book)@.fits(msg),
        ready_for(*old(sink), old(book)@.apply(msg).events),
    ensures
        final(book).wf(),
        final(book)@ == old(book)@.apply(msg).book,
        delivered(*old(sink), old(book)@.apply(msg).events, *final(sink)),
{
    match msg {
        Msg::New { id, side, price, qty, tif } => book.submit_limit(
            id,
            side,
            price,
            qty,
            tif,
            sink,
        ),
        Msg::Cancel { id } => book.cancel(id, sink),
        Msg::Replace { id, price, qty } => book.replace(id, price, qty, sink),
        Msg::Market { id, side, qty } => book.submit_market(id, side, qty, sink),
    }
}

/// The flow after `n` messages of a seeded workload.
pub open spec fn workload_state(n: nat, seed: u64) -> FlowState
    decreases n,
{
    if n == 0 {
        FlowState::start(seed, 10_000)
    } else {
        let moved = workload_state((n - 1) as nat, seed).drifted();
        moved.picked(moved.mid).1
    }
}

/// The first `n` messages of a seeded workload.
pub open spec fn workload(n: nat, seed: u64) -> Seq<Msg>
    decreases n,
{
    if n == 0 {
        Seq::empty()
    } else {
        let moved = workload_state((n - 1) as nat, seed).drifted();
        workload((n - 1) as nat, seed).push(moved.picked(moved.mid).0)
    }
}

/// Generates `n` messages of mixed order flow around a random-walking mid.
///
/// Mix: 55% new GTC limit, 10% IOC, 5% FOK, 15% cancel, 10% cancel/replace,
/// 5% market. Passive limits land within 16 ticks of mid on their own side;
/// one in five limits is priced through the touch so real matching happens.
pub fn generate(n: usize, seed: u64) -> (stream: Vec<u8>)
    requires
        n * SIZE_NEW <= isize::MAX,
    ensures
        stream@ == stream_of(workload(n as nat, seed)),
{
    let mut flow = FlowGen::new(seed, 10_000);
    let mut stream: Vec<u8> = Vec::with_capacity(n * 27);
    let mut i: usize = 0;
    while i < n
        invariant
            i <= n,
            n * SIZE_NEW <= isize::MAX,
            flow@ == workload_state(i as nat, seed),
            flow@.next_id <= 1 + i,
            10_000 - i <= flow@.mid <= 10_000 + i,
            stream@ == stream_of(workload(i as nat, seed)),
        decreases n - i,
    {
        flow.drift();
        let mid: Price = flow.mid();
        let msg: Msg = flow.pick(mid);
        encode(&msg, &mut stream);
        i = i + 1;
        proof {
            assert(workload(i as nat, seed).drop_last() =~= workload((i - 1) as nat, seed));
        }
    }
    stream
}

/// One word folded into an FNV-1a digest.
pub open spec fn fnv(digest: u64, word: u64) -> u64 {
    (digest ^ word).wrapping_mul(0x0000_0100_0000_01B3)
}

/// Price and quantity of each level folded into a digest, in order.
pub open spec fn digest_of(digest: u64, depth: Seq<(Price, Qty)>) -> u64
    decreases depth.len(),
{
    if depth.len() == 0 {
        digest
    } else {
        let (price, qty) = depth.last();
        fnv(fnv(digest_of(digest, depth.drop_last()), price as u64), qty)
    }
}

fn fold_depth(start: u64, depth: &Vec<(Price, Qty)>) -> (digest: u64)
    ensures
        digest == digest_of(start, depth@),
{
    let mut digest: u64 = start;
    let mut i: usize = 0;
    while i < depth.len()
        invariant
            i <= depth@.len(),
            digest == digest_of(start, depth@.take(i as int)),
        decreases depth@.len() - i,
    {
        let (price, qty) = depth[i];
        proof {
            assert(depth@.take(i + 1).drop_last() =~= depth@.take(i as int));
        }
        digest = (digest ^ (price as u64)).wrapping_mul(0x0000_0100_0000_01B3);
        digest = (digest ^ qty).wrapping_mul(0x0000_0100_0000_01B3);
        i = i + 1;
    }
    assert(depth@.take(i as int) =~= depth@);
    digest
}

/// Order-sensitive digest over the full depth, bids then asks, best first:
/// identical across runs and platforms for the same messages.
pub fn depth_digest(book: &OrderBook) -> (digest: u64)
    requires
        book.wf(),
    ensures
        digest == book_digest(book@),
{
    let bids: Vec<(Price, Qty)> = book.bid_levels();
    let asks: Vec<(Price, Qty)> = book.ask_levels();
    fold_depth(fold_depth(0xcbf2_9ce4_8422_2325, &bids), &asks)
}

/// Lots that a message may trade.
pub open spec fn lots_of(msg: Msg) -> nat {
    match msg {
        Msg::New { qty, .. } => qty as nat,
        Msg::Cancel { .. } => 0,
        Msg::Replace { qty, .. } => qty as nat,
        Msg::Market { qty, .. } => qty as nat,
    }
}

/// No message trades more than its lots, makes more trades than it has lots,
/// or is accepted, canceled or rejected more than once.
pub proof fn law_message_events_are_bounded(book: BookState, msg: Msg)
    requires
        book.valid(),
    ensures
        ({
            let events = book.apply(msg).events;
            &&& traded(events) <= lots_of(msg)
            &&& count(events, is_trade()) <= lots_of(msg)
            &&& count(events, is_accept()) <= 1
            &&& count(events, is_cancel()) <= 1
            &&& count(events, is_reject()) <= 1
        }),
{
    match msg {
        Msg::New { id, side, price, qty, tif } => {
            lemma_entry_counts(book, Event::Accepted { id }, id, side, Some(price), qty);
            lemma_single(Event::Rejected { id, reason: RejectReason::ZeroQty });
            lemma_single(Event::Rejected { id, reason: RejectReason::DuplicateId });
            lemma_single(Event::Rejected { id, reason: RejectReason::FokUnfillable });
        },
        Msg::Cancel { id } => {
            lemma_single(Event::Rejected { id, reason: RejectReason::UnknownOrder });
            let (side, price, i) = book.find(id);
            lemma_single(Event::Canceled { id, remaining: book.order_at(side, price, i).qty });
        },
        Msg::Replace { id, price, qty } => {
            lemma_single(Event::Rejected { id, reason: RejectReason::UnknownOrder });
            lemma_single(Event::Rejected { id, reason: RejectReason::ZeroQty });
            lemma_single(Event::Replaced { id });
            if book.holds(id) {
                law_removal_keeps_book_valid(book, id);
                let side = book.find(id).0;
                let out = book.without(id);
                lemma_entry_counts(out, Event::Replaced { id }, id, side, Some(price), qty);
            }
        },
        Msg::Market { id, side, qty } => {
            lemma_entry_counts(book, Event::Accepted { id }, id, side, None, qty);
            lemma_single(Event::Rejected { id, reason: RejectReason::ZeroQty });
            lemma_single(Event::Rejected { id, reason: RejectReason::DuplicateId });
        },
    }
}

proof fn lemma_single(ev: Event)
    requires
        !(ev is Trade),
    ensures
        traded(seq![ev]) == 0,
        count(seq![ev], is_trade()) == 0,
        count(seq![ev], is_accept()) == (if ev is Accepted {
            1int
        } else {
            0
        }),
        count(seq![ev], is_cancel()) == (if ev is Canceled {
            1int
        } else {
            0
        }),
        count(seq![ev], is_reject()) == (if ev is Rejected {
            1int
        } else {
            0
        }),
{
    assert(seq![ev] + Seq::<Event>::empty() =~= seq![ev]);
    lemma_count_one(ev, Seq::empty(), is_trade());
    lemma_count_one(ev, Seq::empty(), is_accept());
    lemma_count_one(ev, Seq::empty(), is_cancel());
    lemma_count_one(ev, Seq::empty(), is_reject());
    assert(seq![ev].drop_first() =~= Seq::empty());
    assert(traded(seq![ev].drop_first()) == 0);
}

/// The events of an order that enters, with and without a final cancel.
proof fn lemma_entry_counts(
    book: BookState,
    first: Event,
    id: OrderId,
    side: Side,
    limit: Option<Price>,
    qty: Qty,
)
    requires
        book.valid(),
        first is Accepted || first is Replaced,
    ensures
        ({
            let maker = side.opposite();
            let swept = book.swept(id, side, limit, qty);
            let short = seq![first] + swept.trades;
            let long = short.push(Event::Canceled { id, remaining: swept.remaining as Qty });
            let lots = qty - swept.remaining;
            let n = fills(book.queues(maker), maker, limit, qty as nat);
            let accepts: nat = if first is Accepted {
                1
            } else {
                0
            };
            &&& n <= lots <= qty
            &&& traded(short) == lots && traded(long) == lots
            &&& count(short, is_trade()) == n && count(long, is_trade()) == n
            &&& count(short, is_accept()) == accepts && count(long, is_accept()) == accepts
            &&& count(short, is_cancel()) == 0 && count(long, is_cancel()) == 1
            &&& count(short, is_reject()) == 0 && count(long, is_reject()) == 0
        }),
{
    let maker = side.opposite();
    let swept = book.swept(id, side, limit, qty);
    let last = Event::Canceled { id, remaining: swept.remaining as Qty };
    let short = seq![first] + swept.trades;
    lemma_lively(book, maker);
    law_lots_are_conserved(book.queues(maker), maker, limit, qty as nat, id);
    law_no_more_trades_than_lots(book.queues(maker), maker, limit, qty as nat, id);
    law_one_trade_per_fill(book.queues(maker), maker, limit, qty as nat, id);
    lemma_count_one(first, swept.trades, is_trade());
    lemma_count_one(first, swept.trades, is_accept());
    lemma_count_one(first, swept.trades, is_cancel());
    lemma_count_one(first, swept.trades, is_reject());
    lemma_traded_concat(seq![first], swept.trades);
    lemma_single(first);
    lemma_single(last);
    lemma_traded_concat(short, seq![last]);
    assert(short.push(last) =~= short + seq![last]);
    assert(short.push(last).drop_last() =~= short);
}

/// The counters have room for the fills of an order, its acceptance, where it
/// is announced by one, and the cancel of what is left of it, where that does
/// not rest.
spec fn entry_holds(
    book: BookState,
    sink: CountingSink,
    side: Side,
    price: Price,
    qty: Qty,
    accepted: bool,
    rests: bool,
) -> bool {
    let maker = side.opposite();
    let left = unfilled(book, side, price, qty);
    &&& sink.trades + fills(book.queues(maker), maker, Some(price), qty as nat) <= u64::MAX
    &&& sink.traded_qty + (qty - left) <= u64::MAX
    &&& accepted ==> sink.accepts < u64::MAX
    &&& !rests && left > 0 ==> sink.cancels < u64::MAX
}

/// Whether the counters have room for the events of an order that enters.
fn counts_entry(
    book: &OrderBook,
    sink: &CountingSink,
    side: Side,
    price: Price,
    qty: Qty,
    accepted: bool,
    rests: bool,
) -> (ok: bool)
    requires
        book.wf(),
    ensures
        ok == entry_holds(book@, *sink, side, price, qty, accepted, rests),
{
    let lots: Qty = book.crossable_qty(side, price, qty);
    proof {
        let maker = side.opposite();
        book.lemma_valid();
        lemma_entry_counts(book@, Event::Accepted { id: 0 }, 0, side, Some(price), qty);
        lemma_lively(book@, maker);
        law_matching_is_maximal(book@.queues(maker), maker, Some(price), qty as nat, 0);
    }
    // Every fill is of a lot at least, so that the fills need to be counted
    // only where the counter is that close to its end.
    let trades: bool = sink.trades <= u64::MAX - lots || sink.trades <= u64::MAX
        - book.fill_count(side, price, qty);
    trades && sink.traded_qty <= u64::MAX - lots && (!accepted || sink.accepts < u64::MAX) && (
    rests || lots == qty || sink.cancels < u64::MAX)
}

/// Whether the counters have room for the events of a limit order.
fn counts_limit(
    book: &OrderBook,
    sink: &CountingSink,
    id: OrderId,
    side: Side,
    price: Price,
    qty: Qty,
    tif: Tif,
) -> (ok: bool)
    requires
        book.wf(),
    ensures
        ok == counters_hold(*sink, book@.limit(id, side, price, qty, tif).events),
{
    proof {
        let maker = side.opposite();
        book.lemma_valid();
        lemma_entry_counts(book@, Event::Accepted { id }, id, side, Some(price), qty);
        lemma_lively(book@, maker);
        law_matching_is_maximal(book@.queues(maker), maker, Some(price), qty as nat, id);
        lemma_single(Event::Rejected { id, reason: RejectReason::ZeroQty });
        lemma_single(Event::Rejected { id, reason: RejectReason::DuplicateId });
        lemma_single(Event::Rejected { id, reason: RejectReason::FokUnfillable });
    }
    if qty == 0 || book.order_qty(id).is_some() || tif == Tif::Fok && book.crossable_qty(
        side,
        price,
        qty,
    ) < qty {
        return sink.rejects < u64::MAX;
    }
    counts_entry(book, sink, side, price, qty, true, tif == Tif::Gtc)
}

/// Whether the counters have room for the events of a cancel/replace request.
fn counts_replace(
    book: &OrderBook,
    sink: &CountingSink,
    id: OrderId,
    new_price: Price,
    new_qty: Qty,
) -> (ok: bool)
    requires
        book.wf(),
    ensures
        ok == counters_hold(*sink, book@.replace(id, new_price, new_qty).events),
{
    proof {
        book.lemma_valid();
        lemma_single(Event::Rejected { id, reason: RejectReason::UnknownOrder });
        lemma_single(Event::Rejected { id, reason: RejectReason::ZeroQty });
        lemma_single(Event::Replaced { id });
    }
    let (side, price, qty) = match book.locate(id) {
        Some(place) => place,
        None => {
            return sink.rejects < u64::MAX;
        },
    };
    if new_qty == 0 {
        return sink.rejects < u64::MAX;
    }
    if new_price == price && new_qty < qty {
        return true;
    }
    proof {
        let maker = side.opposite();
        let out = book@.without(id);
        law_removal_keeps_book_valid(book@, id);
        assert(out.queues(maker) == book@.queues(maker));
        lemma_entry_counts(out, Event::Replaced { id }, id, side, Some(new_price), new_qty);
        lemma_lively(out, maker);
        law_matching_is_maximal(out.queues(maker), maker, Some(new_price), new_qty as nat, id);
    }
    counts_entry(book, sink, side, new_price, new_qty, false, true)
}

/// Whether the counters have room for the events of a message.
pub fn counts(book: &OrderBook, sink: &CountingSink, msg: Msg) -> (ok: bool)
    requires
        book.wf(),
    ensures
        ok == ready_for(*sink, book@.apply(msg).events),
{
    proof {
        law_counters_take_what_they_hold(*sink, book@.apply(msg).events);
    }
    match msg {
        Msg::New { id, side, price, qty, tif } => counts_limit(
            book,
            sink,
            id,
            side,
            price,
            qty,
            tif,
        ),
        Msg::Cancel { id } => {
            proof {
                lemma_single(Event::Rejected { id, reason: RejectReason::UnknownOrder });
                let (side, price, i) = book@.find(id);
                lemma_single(Event::Canceled { id, remaining: book@.order_at(side, price, i).qty });
            }
            if book.order_qty(id).is_some() {
                sink.cancels < u64::MAX
            } else {
                sink.rejects < u64::MAX
            }
        },
        Msg::Replace { id, price, qty } => counts_replace(book, sink, id, price, qty),
        Msg::Market { id, side, qty } => {
            proof {
                law_market_is_unlimited_ioc(book@, id, side, qty);
            }
            let limit: Price = match side {
                Side::Bid => i64::MAX,
                Side::Ask => i64::MIN,
            };
            counts_limit(book, sink, id, side, limit, qty, Tif::Ioc)
        },
    }
}

/// Machine limits allow the message: the book has room for what of it comes
/// to rest, and the counters for its events.
pub open spec fn admits(book: BookState, sink: CountingSink, msg: Msg) -> bool {
    book.fits(msg) && ready_for(sink, book.apply(msg).events)
}

/// Applies one message to a book and counts its events, where machine limits
/// allow it; else changes nothing and says so.
pub fn try_apply(book: &mut OrderBook, msg: Msg, sink: &mut CountingSink) -> (ok: bool)
    requires
        old(book).wf(),
    ensures
        final(book).wf(),
        ok == admits(old(book)@, *old(sink), msg),
        ok ==> {
            &&& final(book)@ == old(book)@.apply(msg).book
            &&& delivered(*old(sink), old(book)@.apply(msg).events, *final(sink))
        },
        !ok ==> *final(book) == *old(book) && *final(sink) == *old(sink),
{
    if !(has_room_for(book, msg) && counts(book, sink, msg)) {
        return false;
    }
    apply(book, msg, sink);
    true
}

/// A generated stream decodes to the messages it was made of.
pub proof fn law_workload_decodes(n: nat, seed: u64)
    ensures
        read_all(stream_of(workload(n, seed))) =~= workload(n, seed).map_values(
            |m: Msg| Ok::<Msg, DecodeError>(m),
        ),
{
    law_stream_reads_back(workload(n, seed));
}

/// A workload keeps to the terms of its flow: ids are fresh or live, the mid
/// moves at most a tick per message.
pub proof fn law_workload_is_orderly(n: nat, seed: u64)
    requires
        n <= 0x0FFF_FFFF_FFFF_FFFF,
    ensures
        orderly(workload_state(n, seed)),
        workload(n, seed).len() == n,
        workload_state(n, seed).next_id <= 1 + n,
        workload_state(n, seed).live.len() <= n,
        10_000 - n <= workload_state(n, seed).mid <= 10_000 + n,
        forall|i: int|
            0 <= i < n ==> {
                let at = workload_state(i as nat, seed).drifted();
                in_terms(at, at.mid, #[trigger] workload(n, seed)[i])
            },
    decreases n,
{
    if n > 0 {
        let m = (n - 1) as nat;
        law_workload_is_orderly(m, seed);
        let moved = workload_state(m, seed).drifted();
        law_messages_keep_to_terms(moved, moved.mid);
        law_flow_stays_orderly(moved, moved.mid);
        assert forall|i: int| 0 <= i < n implies ({
            let at = workload_state(i as nat, seed).drifted();
            in_terms(at, at.mid, #[trigger] workload(n, seed)[i])
        }) by {
            if i < m {
                assert(workload(n, seed)[i] == workload(m, seed)[i]);
            }
        }
    }
}

/// One word of a digest: the digest is combined with the word and multiplied
/// by the FNV prime, modulo 2^64. Both can be told from the result: another
/// word or another digest before it gives another digest after it.
pub proof fn law_fnv_tells_words_apart(digest: u64, word: u64, other_digest: u64, other_word: u64)
    ensures
        fnv(digest, word) == ((digest ^ word) * 0x0000_0100_0000_01B3) % 0x1_0000_0000_0000_0000,
        word != other_word ==> fnv(digest, word) != fnv(digest, other_word),
        digest != other_digest ==> fnv(digest, word) != fnv(other_digest, word),
{
    assert(0x0000_0100_0000_01B3u64 * 0xCE96_5057_AFF6_957Bu64 % 0x1_0000_0000_0000_0000 == 1)
        by (nonlinear_arith);
    lemma_factor_inverts(digest ^ word, 0x0000_0100_0000_01B3, 0xCE96_5057_AFF6_957B);
    lemma_factor_inverts(digest ^ other_word, 0x0000_0100_0000_01B3, 0xCE96_5057_AFF6_957B);
    lemma_factor_inverts(other_digest ^ word, 0x0000_0100_0000_01B3, 0xCE96_5057_AFF6_957B);
    assert(word != other_word ==> digest ^ word != digest ^ other_word) by (bit_vector);
    assert(digest != other_digest ==> digest ^ word != other_digest ^ word) by (bit_vector);
}

/// The digest goes over every level, however many there are: one more level
/// folds its price and then its quantity into the digest of those before it,
/// and the digest of two runs of levels is that of the second, begun with
/// that of the first.
pub proof fn law_digest_folds_every_level(
    digest: u64,
    depth: Seq<(Price, Qty)>,
    more: Seq<(Price, Qty)>,
    price: Price,
    qty: Qty,
)
    ensures
        digest_of(digest, Seq::empty()) == digest,
        digest_of(digest, depth.push((price, qty))) == fnv(
            fnv(digest_of(digest, depth), price as u64),
            qty,
        ),
        digest_of(digest, depth + more) == digest_of(digest_of(digest, depth), more),
    decreases more.len(),
{
    assert(depth.push((price, qty)).drop_last() =~= depth);
    if more.len() == 0 {
        assert(depth + more =~= depth);
    } else {
        law_digest_folds_every_level(digest, depth, more.drop_last(), price, qty);
        assert((depth + more).drop_last() =~= depth + more.drop_last());
    }
}

/// Digests that differ before the same levels differ after them.
proof fn lemma_digest_keeps_difference(a: u64, b: u64, depth: Seq<(Price, Qty)>)
    requires
        a != b,
    ensures
        digest_of(a, depth) != digest_of(b, depth),
    decreases depth.len(),
{
    if depth.len() > 0 {
        lemma_digest_keeps_difference(a, b, depth.drop_last());
        let (price, qty) = depth.last();
        let (x, y) = (digest_of(a, depth.drop_last()), digest_of(b, depth.drop_last()));
        let word = price as u64;
        law_fnv_tells_words_apart(x, word, y, word);
        law_fnv_tells_words_apart(fnv(x, word), qty, fnv(y, word), qty);
    }
}

/// No level escapes the digest: depths that differ in nothing but the price,
/// or in nothing but the quantity, of one level have different digests, at
/// whatever place that level is.
pub proof fn law_digest_sees_every_level(
    digest: u64,
    depth: Seq<(Price, Qty)>,
    i: int,
    level: (Price, Qty),
)
    requires
        0 <= i < depth.len(),
        level.0 == depth[i].0 && level.1 != depth[i].1 || level.0 != depth[i].0 && level.1
            == depth[i].1,
    ensures
        digest_of(digest, depth.update(i, level)) != digest_of(digest, depth),
{
    let other = depth.update(i, level);
    let front = depth.take(i);
    let back = depth.skip(i + 1);
    let d = digest_of(digest, front);
    let (p, q) = depth[i];
    assert(depth =~= front.push(depth[i]) + back);
    assert(other =~= front.push(level) + back);
    law_digest_folds_every_level(digest, front, Seq::empty(), p, q);
    law_digest_folds_every_level(digest, front, Seq::empty(), level.0, level.1);
    let a = digest_of(digest, front.push(depth[i]));
    let b = digest_of(digest, front.push(level));
    let r = level.0;
    let (w, v) = (p as u64, r as u64);
    assert(p != r ==> p as u64 != r as u64) by (bit_vector);
    law_fnv_tells_words_apart(d, w, d, v);
    law_fnv_tells_words_apart(fnv(d, w), q, fnv(d, v), level.1);
    assert(a != b);
    lemma_digest_keeps_difference(a, b, back);
    law_digest_folds_every_level(digest, front.push(depth[i]), back, p, q);
    law_digest_folds_every_level(digest, front.push(level), back, p, q);
}

/// The digest of a book: bids and then asks, best first, from the FNV offset
/// basis.
pub open spec fn book_digest(book: BookState) -> u64 {
    digest_of(digest_of(0xcbf2_9ce4_8422_2325, book.depth(Side::Bid)), book.depth(Side::Ask))
}

/// The digest of a book is that of one run of levels, the bids before the
/// asks; an empty book has the FNV offset basis.
pub proof fn law_book_digest_runs_over_both_sides(book: BookState)
    ensures
        book_digest(book) == digest_of(
            0xcbf2_9ce4_8422_2325,
            book.depth(Side::Bid) + book.depth(Side::Ask),
        ),
        book.depth(Side::Bid).len() == 0 && book.depth(Side::Ask).len() == 0 ==> book_digest(book)
            == 14_695_981_039_346_656_037,
{
    law_digest_folds_every_level(
        0xcbf2_9ce4_8422_2325,
        book.depth(Side::Bid),
        book.depth(Side::Ask),
        0,
        0,
    );
}

/// Books alike on one side whose other sides differ in nothing but the
/// quantity of one level have different digests, whichever the side and
/// wherever the level.
pub proof fn law_book_digest_sees_both_sides(a: BookState, b: BookState, side: Side, i: int)
    requires
        a.depth(side.opposite()) == b.depth(side.opposite()),
        0 <= i < a.depth(side).len(),
        exists|qty: Qty|
            qty != a.depth(side)[i].1 && b.depth(side) == #[trigger] a.depth(side).update(
                i,
                (a.depth(side)[i].0, qty),
            ),
    ensures
        book_digest(a) != book_digest(b),
{
    let depth = a.depth(side);
    let qty = choose|qty: Qty|
        qty != depth[i].1 && b.depth(side) == #[trigger] depth.update(i, (depth[i].0, qty));
    let level = (depth[i].0, qty);
    match side {
        Side::Bid => {
            law_digest_sees_every_level(0xcbf2_9ce4_8422_2325, depth, i, level);
            lemma_digest_keeps_difference(
                digest_of(0xcbf2_9ce4_8422_2325, a.depth(Side::Bid)),
                digest_of(0xcbf2_9ce4_8422_2325, b.depth(Side::Bid)),
                a.depth(Side::Ask),
            );
        },
        Side::Ask => {
            let begun = digest_of(0xcbf2_9ce4_8422_2325, a.depth(Side::Bid));
            law_digest_sees_every_level(begun, depth, i, level);
        },
    }
}

/// A message does what the request of its kind does, with the message's own
/// fields, and machine limits allow it where they allow that request.
pub proof fn law_messages_are_requests(book: BookState, msg: Msg)
    ensures
        match msg {
            Msg::New { id, side, price, qty, tif } => {
                &&& book.apply(msg) == book.limit(id, side, price, qty, tif)
                &&& book.fits(msg) == book.limit_fits(id, side, price, qty, tif)
            },
            Msg::Cancel { id } => book.apply(msg) == book.cancel(id) && book.fits(msg),
            Msg::Replace { id, price, qty } => {
                &&& book.apply(msg) == book.replace(id, price, qty)
                &&& book.fits(msg) == book.replace_fits(id, price, qty)
            },
            Msg::Market { id, side, qty } => book.apply(msg) == book.market(id, side, qty)
                && book.fits(msg),
        },
{
}

/// A longer workload of the same seed goes on where a shorter one ends: it
/// begins with the same messages, and the next is what the flow makes of its
/// state around its own mid, after the drift.
pub proof fn law_workloads_extend(n: nat, m: nat, seed: u64)
    requires
        n < m,
    ensures
        workload(n, seed).len() == n,
        workload(n, seed).is_prefix_of(workload(m, seed)),
        ({
            let moved = workload_state(n, seed).drifted();
            &&& workload(m, seed)[n as int] == moved.picked(moved.mid).0
            &&& workload_state(n + 1, seed) == moved.picked(moved.mid).1
        }),
        workload_state(0, seed) == FlowState::start(seed, 10_000),
    decreases m,
{
    lemma_workload_len(n, seed);
    lemma_workload_len((m - 1) as nat, seed);
    if n + 1 < m {
        law_workloads_extend(n, (m - 1) as nat, seed);
        assert(workload(n, seed) =~= workload(m, seed).take(n as int));
    } else {
        assert(workload(n, seed) =~= workload(m, seed).take(n as int));
    }
}

proof fn lemma_workload_len(n: nat, seed: u64)
    ensures
        workload(n, seed).len() == n,
    decreases n,
{
    if n > 0 {
        lemma_workload_len((n - 1) as nat, seed);
    }
}

/// A message is refused for want of room only: the book has none for what of
/// it would rest, or one of the five counters has none for its events.
pub proof fn law_messages_are_refused_only_for_want_of_room(
    book: BookState,
    sink: CountingSink,
    msg: Msg,
)
    ensures
        admits(book, sink, msg) <==> book.fits(msg) && counters_hold(sink, book.apply(msg).events),
        msg is Cancel || msg is Market ==> book.fits(msg),
        msg matches Msg::New { tif, .. } ==> (tif != Tif::Gtc ==> book.fits(msg)),
{
    law_counters_take_what_they_hold(sink, book.apply(msg).events);
}

} // verus!
