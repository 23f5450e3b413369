//! Facts about queues, best prices and sweeps.
use vstd::prelude::*;

use crate::events::{delivered, ready_for, Event, EventSink};
use crate::model::{
    best, better, crosses, fill_front, is_best, ladder, lists, sweep, total, Queues, Resting,
};
use crate::types::{OrderId, Price, Side};

verus! {

/// A side has at most one best price.
pub proof fn lemma_best_unique<V>(levels: Map<Price, V>, side: Side, p: Price)
    requires
        is_best(levels, side, p),
    ensures
        best(levels, side) == Some(p),
{
    let q = choose|q: Price| is_best(levels, side, q);
    assert(is_best(levels, side, q));
    assert(levels.contains_key(p) && levels.contains_key(q));
    assert(p == q || better(side, p, q));
    assert(p == q || better(side, q, p));
}

/// A side without levels has no best price.
pub proof fn lemma_best_empty<V>(side: Side)
    ensures
        best(Map::<Price, V>::empty(), side) is None,
{
    assert forall|p: Price| !is_best(Map::<Price, V>::empty(), side, p) by {
        assert(!Map::<Price, V>::empty().contains_key(p));
    }
}

/// A side with finitely many levels, and at least one, has a best price.
pub proof fn lemma_best_exists<V>(levels: Map<Price, V>, side: Side)
    requires
        levels.dom().finite(),
        levels.dom().len() > 0,
    ensures
        best(levels, side) matches Some(p) && is_best(levels, side, p),
    decreases levels.dom().len(),
{
    let q = levels.dom().choose();
    assert(levels.contains_key(q));
    let rest = levels.remove(q);
    assert(rest.dom() =~= levels.dom().remove(q));
    if rest.dom().len() == 0 {
        assert forall|r: Price| #[trigger] levels.contains_key(r) implies r == q || better(
            side,
            q,
            r,
        ) by {
            if r != q {
                assert(rest.dom().contains(r));
            }
        }
        assert(is_best(levels, side, q));
        lemma_best_unique(levels, side, q);
    } else {
        lemma_best_exists(rest, side);
        let p = best(rest, side)->0;
        assert(rest.contains_key(p));
        let w = if better(side, q, p) {
            q
        } else {
            p
        };
        assert forall|r: Price| #[trigger] levels.contains_key(r) implies r == w || better(
            side,
            w,
            r,
        ) by {
            if r != q {
                assert(rest.contains_key(r));
            }
        }
        assert(is_best(levels, side, w));
        lemma_best_unique(levels, side, w);
    }
}

/// What `best` answers is the best price; no answer means no levels.
pub proof fn lemma_best<V>(levels: Map<Price, V>, side: Side)
    requires
        levels.dom().finite(),
    ensures
        match best(levels, side) {
            Some(p) => is_best(levels, side, p),
            None => levels =~= Map::empty(),
        },
{
    if levels.dom().len() > 0 {
        lemma_best_exists(levels, side);
    } else {
        assert(levels.dom() =~= Set::empty());
        assert(levels =~= Map::empty());
        lemma_best_empty::<V>(side);
    }
}

/// The entries of a ladder are its prices, best first, each once.
pub proof fn law_ladder_lists<V>(levels: Map<Price, V>, side: Side)
    requires
        levels.dom().finite(),
    ensures
        lists(levels, side, ladder(levels, side)),
        ladder(levels, side).len() == levels.dom().len(),
    decreases levels.dom().len(),
{
    lemma_best(levels, side);
    let entries = ladder(levels, side);
    match best(levels, side) {
        Some(p) => {
            let rest = levels.remove(p);
            let tail = ladder(rest, side);
            law_ladder_lists(rest, side);
            assert(entries =~= seq![(p, levels[p])] + tail);
            assert forall|i: int, j: int| 0 <= i < j < entries.len() implies better(
                side,
                (#[trigger] entries[i]).0,
                (#[trigger] entries[j]).0,
            ) by {
                assert(entries[j] == tail[j - 1]);
                assert(rest.contains_key(tail[j - 1].0));
                assert(levels.contains_key(entries[j].0));
                if i > 0 {
                    assert(entries[i] == tail[i - 1]);
                }
            }
            assert forall|i: int| 0 <= i < entries.len() implies levels.contains_key(
                (#[trigger] entries[i]).0,
            ) && levels[entries[i].0] == entries[i].1 by {
                if i > 0 {
                    assert(entries[i] == tail[i - 1]);
                    assert(rest.contains_key(tail[i - 1].0));
                }
            }
            assert forall|q: Price| #[trigger] levels.contains_key(q) implies exists|i: int|
                0 <= i < entries.len() && (#[trigger] entries[i]).0 == q by {
                if q == p {
                    assert(entries[0].0 == q);
                } else {
                    assert(rest.contains_key(q));
                    let i = choose|i: int| 0 <= i < tail.len() && (#[trigger] tail[i]).0 == q;
                    assert(entries[i + 1].0 == q);
                }
            }
        },
        None => {
            assert(levels.dom() =~= Set::empty());
        },
    }
}

/// A list of the prices of a side, best first, is its ladder.
pub proof fn lemma_ladder_unique<V>(levels: Map<Price, V>, side: Side, entries: Seq<(Price, V)>)
    requires
        levels.dom().finite(),
        lists(levels, side, entries),
    ensures
        entries =~= ladder(levels, side),
    decreases levels.dom().len(),
{
    if entries.len() == 0 {
        assert forall|p: Price| !levels.contains_key(p) by {}
        assert(levels =~= Map::empty());
        lemma_best_empty::<V>(side);
    } else {
        let p = entries[0].0;
        assert(is_best(levels, side, p)) by {
            assert forall|q: Price| #[trigger] levels.contains_key(q) implies q == p || better(
                side,
                p,
                q,
            ) by {
                let i = choose|i: int| 0 <= i < entries.len() && (#[trigger] entries[i]).0 == q;
                assert(i == 0 || better(side, entries[0].0, entries[i].0));
            }
        }
        lemma_best_unique(levels, side, p);
        let rest = levels.remove(p);
        let tail = entries.drop_first();
        assert(lists(rest, side, tail)) by {
            assert forall|q: Price| #[trigger] rest.contains_key(q) implies exists|i: int|
                0 <= i < tail.len() && (#[trigger] tail[i]).0 == q by {
                assert(levels.contains_key(q));
                let i = choose|i: int| 0 <= i < entries.len() && (#[trigger] entries[i]).0 == q;
                assert(tail[i - 1].0 == q);
            }
            assert forall|i: int| 0 <= i < tail.len() implies rest.contains_key(
                (#[trigger] tail[i]).0,
            ) && rest[tail[i].0] == tail[i].1 by {
                assert(tail[i] == entries[i + 1]);
                assert(better(side, entries[0].0, entries[i + 1].0));
            }
        }
        lemma_ladder_unique(rest, side, tail);
        assert(entries =~= seq![entries[0]] + tail);
    }
}

pub proof fn lemma_total_concat(a: Seq<Resting>, b: Seq<Resting>)
    ensures
        total(a + b) == total(a) + total(b),
    decreases a.len(),
{
    if a.len() == 0 {
        assert(a + b =~= b);
    } else {
        lemma_total_concat(a.drop_first(), b);
        assert((a + b).drop_first() =~= a.drop_first() + b);
    }
}

pub proof fn lemma_total_one(order: Resting)
    ensures
        total(seq![order]) == order.qty,
{
    assert(seq![order].drop_first() =~= Seq::empty());
    assert(total(Seq::<Resting>::empty()) == 0);
}

pub proof fn lemma_total_push(queue: Seq<Resting>, order: Resting)
    ensures
        total(queue.push(order)) == total(queue) + order.qty,
{
    lemma_total_concat(queue, seq![order]);
    lemma_total_one(order);
    assert(queue.push(order) =~= queue + seq![order]);
}

/// A queue splits at any position.
pub proof fn lemma_total_split(queue: Seq<Resting>, i: int)
    requires
        0 <= i < queue.len(),
    ensures
        total(queue) == total(queue.take(i)) + queue[i].qty + total(queue.skip(i + 1)),
{
    lemma_total_concat(queue.take(i), queue.skip(i));
    assert(queue =~= queue.take(i) + queue.skip(i));
    assert(queue.skip(i).drop_first() =~= queue.skip(i + 1));
}

pub proof fn lemma_total_remove(queue: Seq<Resting>, i: int)
    requires
        0 <= i < queue.len(),
    ensures
        total(queue.remove(i)) == total(queue) - queue[i].qty,
{
    lemma_total_split(queue, i);
    lemma_total_concat(queue.take(i), queue.skip(i + 1));
    assert(queue.remove(i) =~= queue.take(i) + queue.skip(i + 1));
}

pub proof fn lemma_total_update(queue: Seq<Resting>, i: int, order: Resting)
    requires
        0 <= i < queue.len(),
    ensures
        total(queue.update(i, order)) == total(queue) - queue[i].qty + order.qty,
{
    lemma_total_split(queue, i);
    let after = queue.update(i, order);
    lemma_total_split(after, i);
    assert(after.take(i) =~= queue.take(i));
    assert(after.skip(i + 1) =~= queue.skip(i + 1));
}

/// Delivering nothing changes nothing.
pub proof fn lemma_delivered_none<S: EventSink>(sink: S)
    ensures
        delivered(sink, Seq::empty(), sink),
{
}

/// One more event.
pub proof fn lemma_delivered_push<S: EventSink>(
    before: S,
    evs: Seq<Event>,
    mid: S,
    ev: Event,
    after: S,
)
    requires
        delivered(before, evs, mid),
        mid.takes(ev, &after),
    ensures
        delivered(before, evs.push(ev), after),
{
    assert(evs.push(ev).drop_last() =~= evs);
    assert(evs.push(ev).last() == ev);
}

/// Deliveries chain.
pub proof fn lemma_delivered_concat<S: EventSink>(
    before: S,
    a: Seq<Event>,
    mid: S,
    b: Seq<Event>,
    after: S,
)
    requires
        delivered(before, a, mid),
        delivered(mid, b, after),
    ensures
        delivered(before, a + b, after),
    decreases b.len(),
{
    if b.len() == 0 {
        assert(a + b =~= a);
    } else {
        let m = choose|m: S|
            delivered(mid, b.drop_last(), m) && #[trigger] m.takes(b.last(), &after);
        lemma_delivered_concat(before, a, mid, b.drop_last(), m);
        lemma_delivered_push(before, a + b.drop_last(), m, b.last(), after);
        assert((a + b.drop_last()).push(b.last()) =~= a + b);
    }
}

/// A sink ready for `a + b` is ready for `b` once it has taken `a`.
pub proof fn lemma_ready_rest<S: EventSink>(sink: S, a: Seq<Event>, mid: S, b: Seq<Event>)
    requires
        ready_for(sink, a + b),
        delivered(sink, a, mid),
    ensures
        ready_for(mid, b),
{
    assert forall|i: int, m: S|
        0 <= i < b.len() && #[trigger] delivered(mid, b.take(i), m) implies m.ready(b[i]) by {
        lemma_delivered_concat(sink, a, mid, b.take(i), m);
        assert(a + b.take(i) =~= (a + b).take(a.len() + i));
        assert((a + b)[a.len() + i] == b[i]);
    }
}

/// A sink ready for `a + b` is ready for `a`.
pub proof fn lemma_ready_prefix<S: EventSink>(sink: S, a: Seq<Event>, b: Seq<Event>)
    requires
        ready_for(sink, a + b),
    ensures
        ready_for(sink, a),
{
    assert forall|i: int, m: S|
        0 <= i < a.len() && #[trigger] delivered(sink, a.take(i), m) implies m.ready(a[i]) by {
        assert(a.take(i) =~= (a + b).take(i));
        assert((a + b)[i] == a[i]);
    }
}

/// A sink ready for some events can take the first of them.
pub proof fn lemma_ready_first<S: EventSink>(sink: S, evs: Seq<Event>)
    requires
        ready_for(sink, evs),
        evs.len() > 0,
    ensures
        sink.ready(evs[0]),
{
    assert(evs.take(0) =~= Seq::empty());
    assert(delivered(sink, evs.take(0), sink));
}

/// Finitely many levels, none of them empty, every order with lots left.
pub open spec fn lively(queues: Queues) -> bool {
    &&& queues.dom().finite()
    &&& forall|p: Price| #[trigger] queues.contains_key(p) ==> queues[p].len() > 0
    &&& forall|p: Price, i: int|
        queues.contains_key(p) && 0 <= i < queues[p].len() ==> (#[trigger] queues[p][i]).qty > 0
}

/// A fill leaves a side lively and gives it no new price.
pub proof fn lemma_fill_front(queues: Queues, p: Price, fill: nat)
    requires
        lively(queues),
        queues.contains_key(p),
    ensures
        lively(fill_front(queues, p, fill)),
        forall|q: Price| #[trigger]
            fill_front(queues, p, fill).contains_key(q) ==> queues.contains_key(q),
{
    let after = fill_front(queues, p, fill);
    assert forall|q: Price, i: int|
        after.contains_key(q) && 0 <= i < after[q].len() implies (#[trigger] after[q][i]).qty > 0 by {
        if q == p {
            if fill >= queues[p][0].qty {
                assert(after[q][i] == queues[q][i + 1]);
            } else if i > 0 {
                assert(after[q][i] == queues[q][i]);
            }
        } else {
            assert(after[q][i] == queues[q][i]);
        }
    }
}

/// A sweep leaves a side lively and gives it no new price; lots are left over
/// only when no price within the limit is left.
pub proof fn lemma_sweep(
    queues: Queues,
    side: Side,
    limit: Option<Price>,
    qty: nat,
    taker: OrderId,
)
    requires
        lively(queues),
    ensures
        ({
            let swept = sweep(queues, side, limit, qty, taker);
            &&& lively(swept.queues)
            &&& swept.remaining <= qty
            &&& forall|q: Price| #[trigger]
                swept.queues.contains_key(q) ==> queues.contains_key(q)
            &&& swept.remaining > 0 ==> forall|q: Price| #[trigger]
                swept.queues.contains_key(q) ==> !crosses(side, q, limit)
        }),
    decreases qty,
{
    lemma_best(queues, side);
    match best(queues, side) {
        Some(p) => {
            assert(queues.contains_key(p));
            if qty > 0 && crosses(side, p, limit) {
                let maker = queues[p][0];
                assert(maker.qty > 0);
                let fill: nat = if qty <= maker.qty {
                    qty
                } else {
                    maker.qty as nat
                };
                lemma_fill_front(queues, p, fill);
                lemma_sweep(fill_front(queues, p, fill), side, limit, (qty - fill) as nat, taker);
            }
        },
        None => {},
    }
}

/// A side that a sequence lists has finitely many levels.
pub proof fn lemma_lists_finite<V>(levels: Map<Price, V>, side: Side, entries: Seq<(Price, V)>)
    requires
        lists(levels, side, entries),
    ensures
        levels.dom().finite(),
{
    let prices = entries.map_values(|e: (Price, V)| e.0);
    vstd::seq_lib::seq_to_set_is_finite(prices);
    assert(levels.dom().subset_of(prices.to_set())) by {
        assert forall|p: Price| levels.dom().contains(p) implies prices.to_set().contains(p) by {
            assert(levels.contains_key(p));
            let i = choose|i: int| 0 <= i < entries.len() && (#[trigger] entries[i]).0 == p;
            assert(prices[i] == p);
        }
    }
    vstd::set_lib::lemma_set_subset_finite(prices.to_set(), levels.dom());
}

/// There are at most `n` different indices below `n`.
pub proof fn lemma_bounded_distinct(indices: Seq<u32>, n: nat)
    requires
        indices.no_duplicates(),
        forall|i: int| 0 <= i < indices.len() ==> #[trigger] indices[i] < n,
    ensures
        indices.len() <= n,
{
    let ints = indices.map_values(|x: u32| x as int);
    assert(ints.no_duplicates());
    ints.unique_seq_to_set();
    vstd::set_lib::lemma_int_range(0, n as int);
    assert(ints.to_set().subset_of(vstd::set_lib::set_int_range(0, n as int)));
    vstd::set_lib::lemma_len_subset(ints.to_set(), vstd::set_lib::set_int_range(0, n as int));
}

} // verus!
