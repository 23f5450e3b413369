//! What the dashboard's page can rely on.
use vstd::prelude::*;

use crate::dashboard::{
    all_digits, answer_of, decimal, digit, digits_value, head_of, integer, is_space, joined,
    law_decimal_reads_back, newest, pair, path_of, percent_of, price_or_zero, print_text, prints,
    recorded, route_of, seek, shown, snapshot, snapshot_head, stride, top_levels, trimmed, truth,
    unsigned_part, Control, Print, Route,
};
use crate::events::Event;
use crate::lemmas::{law_ladder_lists, lemma_best_unique};
use crate::model::{best, better, is_best, ladder, total, BookState};
use crate::sim::SimState;
use crate::types::{Price, Qty, Side};

verus! {

/// `entries` are the best levels of a side of a book, best first, at most 15:
/// each has the price of a level and the total quantity that rests there, and
/// a level that is missing is worse than fifteen that are not.
pub open spec fn shows_best(book: BookState, side: Side, entries: Seq<(Price, Qty)>) -> bool {
    let queues = book.queues(side);
    &&& entries.len() <= 15
    &&& forall|i: int|
        0 <= i < entries.len() ==> {
            &&& queues.contains_key((#[trigger] entries[i]).0)
            &&& total(queues[entries[i].0]) <= Qty::MAX ==> entries[i].1 == total(
                queues[entries[i].0],
            )
        }
    &&& forall|i: int, j: int|
        0 <= i < j < entries.len() ==> better(
            side,
            (#[trigger] entries[i]).0,
            (#[trigger] entries[j]).0,
        )
    &&& forall|p: Price| #[trigger]
        queues.contains_key(p) ==> {
            ||| exists|i: int| 0 <= i < entries.len() && (#[trigger] entries[i]).0 == p
            ||| entries.len() == 15 && forall|i: int|
                0 <= i < entries.len() ==> better(side, (#[trigger] entries[i]).0, p)
        }
}

/// JSON arrays of price and quantity.
pub open spec fn pairs(entries: Seq<(Price, Qty)>) -> Seq<Seq<char>> {
    Seq::new(entries.len(), |i: int| pair(entries[i].0 as int, entries[i].1 as int))
}

/// What is shown of one side of a book.
proof fn lemma_top_levels(book: BookState, side: Side) -> (entries: Seq<(Price, Qty)>)
    requires
        book.valid(),
    ensures
        shows_best(book, side, entries),
        top_levels(book.depth(side), 15) == pairs(entries),
        book.queues(side).dom().len() > 0 ==> entries.len() > 0 && best(book.queues(side), side)
            == Some(entries[0].0),
{
    let queues = book.queues(side);
    let levels = Map::new(|p: Price| queues.contains_key(p), |p: Price| total(queues[p]) as Qty);
    let depth = book.depth(side);
    assert(levels.dom() =~= queues.dom());
    law_ladder_lists(levels, side);
    assert(depth == ladder(levels, side));
    let n: int = if depth.len() < 15 {
        depth.len() as int
    } else {
        15
    };
    let entries = depth.take(n);
    assert(top_levels(depth, 15) =~= pairs(entries));
    assert forall|i: int| 0 <= i < entries.len() implies {
        &&& queues.contains_key((#[trigger] entries[i]).0)
        &&& total(queues[entries[i].0]) <= Qty::MAX ==> entries[i].1 == total(queues[entries[i].0])
    } by {
        assert(depth[i] == entries[i]);
        assert(levels.contains_key(depth[i].0));
    }
    assert forall|p: Price| #[trigger] queues.contains_key(p) implies {
        ||| exists|i: int| 0 <= i < entries.len() && (#[trigger] entries[i]).0 == p
        ||| entries.len() == 15 && forall|i: int|
            0 <= i < entries.len() ==> better(side, (#[trigger] entries[i]).0, p)
    } by {
        assert(levels.contains_key(p));
        let k = choose|k: int| 0 <= k < depth.len() && (#[trigger] depth[k]).0 == p;
        if k < n {
            assert(entries[k].0 == p);
        } else {
            assert forall|i: int| 0 <= i < entries.len() implies better(
                side,
                (#[trigger] entries[i]).0,
                p,
            ) by {
                assert(entries[i] == depth[i]);
                assert(better(side, depth[i].0, depth[k].0));
            }
        }
    }
    if queues.dom().len() > 0 {
        let first = entries[0].0;
        assert(entries[0] == depth[0]);
        assert(is_best(queues, side, first)) by {
            assert forall|q: Price| #[trigger] queues.contains_key(q) implies q == first || better(
                side,
                first,
                q,
            ) by {
                assert(levels.contains_key(q));
                let k = choose|k: int| 0 <= k < depth.len() && (#[trigger] depth[k]).0 == q;
                if k > 0 {
                    assert(better(side, depth[0].0, depth[k].0));
                }
            }
        }
        lemma_best_unique(queues, side, first);
    }
    entries
}

/// In every snapshot the entries of "bids" are the best bid levels, best
/// first, and those of "asks" the best ask levels: price and total quantity of
/// each, at most fifteen. The first of each is at the best price of its side,
/// and every price under "asks" lies above every price under "bids". The tape
/// and the curve follow.
pub proof fn law_snapshot_lists_both_sides(
    state: SimState,
    informed_pct: u64,
    paused: bool,
    tape: Seq<Print>,
) -> (sides: (Seq<(Price, Qty)>, Seq<(Price, Qty)>))
    requires
        state.book.valid(),
    ensures
        shows_best(state.book, Side::Bid, sides.0),
        shows_best(state.book, Side::Ask, sides.1),
        snapshot(state, informed_pct, paused, tape) == snapshot_head(state, informed_pct, paused)
            + ",\"bids\":["@ + joined(pairs(sides.0)) + "],\"asks\":["@ + joined(pairs(sides.1))
            + "],\"tape\":["@ + joined(newest(tape, 24)) + "],\"curve\":["@ + joined(
            shown(state.curve, state.curve.len() as int),
        ) + "]}"@,
        state.book.bids.dom().len() > 0 ==> sides.0.len() > 0 && best(state.book.bids, Side::Bid)
            == Some(sides.0[0].0),
        state.book.asks.dom().len() > 0 ==> sides.1.len() > 0 && best(state.book.asks, Side::Ask)
            == Some(sides.1[0].0),
        forall|i: int, j: int|
            0 <= i < sides.0.len() && 0 <= j < sides.1.len() ==> (#[trigger] sides.0[i]).0
                < (#[trigger] sides.1[j]).0,
{
    let bids = lemma_top_levels(state.book, Side::Bid);
    let asks = lemma_top_levels(state.book, Side::Ask);
    assert forall|i: int, j: int| 0 <= i < bids.len() && 0 <= j < asks.len() implies (
    #[trigger] bids[i]).0 < (#[trigger] asks[j]).0 by {
        assert(state.book.bids.contains_key(bids[i].0));
        assert(state.book.asks.contains_key(asks[j].0));
    }
    (bids, asks)
}

/// A number of a JSON object under its name.
pub open spec fn field(name: Seq<char>, value: Seq<char>) -> Seq<char> {
    seq!['"'] + name + seq!['"', ':'] + value
}

/// The numbers of a snapshot under their names, in order.
pub open spec fn head_fields(state: SimState, informed_pct: u64, paused: bool) -> Seq<Seq<char>> {
    let account = state.account;
    let mark = state.last_mark;
    let touch = |side: Side|
        match best(state.book.queues(side), side) {
            Some(price) => price as int,
            None => 0int,
        };
    seq![
        field("step"@, integer(state.step as int)),
        field(
            "paused"@,
            if paused {
                seq!['t', 'r', 'u', 'e']
            } else {
                seq!['f', 'a', 'l', 's', 'e']
            },
        ),
        field("informed"@, integer(informed_pct as int)),
        field("mark"@, integer(mark as int)),
        field("position"@, integer(account.position as int)),
        field("cash"@, integer(account.cash as int)),
        field("equity"@, integer(account.cash + account.position * mark)),
        field("fills"@, integer(account.fills as int)),
        field("lots"@, integer(account.traded_lots as int)),
        field("best_bid"@, integer(touch(Side::Bid))),
        field("best_ask"@, integer(touch(Side::Ask))),
    ]
}

/// A list of items joined by commas: nothing for none, the item for one, and
/// two lists with a comma between them for both.
pub proof fn law_items_are_joined_by_commas(
    a: Seq<Seq<char>>,
    b: Seq<Seq<char>>,
    item: Seq<char>,
)
    ensures
        joined(Seq::empty()).len() == 0,
        joined(seq![item]) == item,
        a.len() > 0 && b.len() > 0 ==> joined(a + b) == joined(a) + seq![','] + joined(b),
    decreases b.len(),
{
    reveal_strlit(",");
    assert(","@ =~= seq![',']);
    if a.len() > 0 && b.len() > 0 {
        let front = b.drop_last();
        assert((a + b).drop_last() =~= a + front);
        assert((a + b).last() == b.last());
        if b.len() == 1 {
            assert(a + front =~= a);
        } else {
            law_items_are_joined_by_commas(a, front, item);
            assert(joined(a) + seq![','] + joined(front) + seq![','] + b.last() =~= joined(a)
                + seq![','] + (joined(front) + seq![','] + b.last()));
        }
    }
}

/// Texts of the snapshot's head as characters.
proof fn lemma_head_texts()
    ensures
        "{\"step\":"@ == seq!['{', '"'] + "step"@ + seq!['"', ':'],
        ",\"paused\":"@ == seq![',', '"'] + "paused"@ + seq!['"', ':'],
        ",\"informed\":"@ == seq![',', '"'] + "informed"@ + seq!['"', ':'],
        ",\"mark\":"@ == seq![',', '"'] + "mark"@ + seq!['"', ':'],
        ",\"position\":"@ == seq![',', '"'] + "position"@ + seq!['"', ':'],
        ",\"cash\":"@ == seq![',', '"'] + "cash"@ + seq!['"', ':'],
        ",\"equity\":"@ == seq![',', '"'] + "equity"@ + seq!['"', ':'],
        ",\"fills\":"@ == seq![',', '"'] + "fills"@ + seq!['"', ':'],
        ",\"lots\":"@ == seq![',', '"'] + "lots"@ + seq!['"', ':'],
        ",\"best_bid\":"@ == seq![',', '"'] + "best_bid"@ + seq!['"', ':'],
        ",\"best_ask\":"@ == seq![',', '"'] + "best_ask"@ + seq!['"', ':'],
        "true"@ == seq!['t', 'r', 'u', 'e'],
        "false"@ == seq!['f', 'a', 'l', 's', 'e'],
{
    reveal_strlit("{\"step\":");
    reveal_strlit("step");
    reveal_strlit(",\"paused\":");
    reveal_strlit("paused");
    reveal_strlit(",\"informed\":");
    reveal_strlit("informed");
    reveal_strlit(",\"mark\":");
    reveal_strlit("mark");
    reveal_strlit(",\"position\":");
    reveal_strlit("position");
    reveal_strlit(",\"cash\":");
    reveal_strlit("cash");
    reveal_strlit(",\"equity\":");
    reveal_strlit("equity");
    reveal_strlit(",\"fills\":");
    reveal_strlit("fills");
    reveal_strlit(",\"lots\":");
    reveal_strlit("lots");
    reveal_strlit(",\"best_bid\":");
    reveal_strlit("best_bid");
    reveal_strlit(",\"best_ask\":");
    reveal_strlit("best_ask");
    reveal_strlit("true");
    reveal_strlit("false");
}

/// One more field of an object.
proof fn lemma_field_added(done: Seq<Seq<char>>, so_far: Seq<char>, key: Seq<char>, name: Seq<
    char,
>, value: Seq<char>)
    requires
        done.len() > 0,
        so_far == seq!['{'] + joined(done),
        key == seq![',', '"'] + name + seq!['"', ':'],
    ensures
        so_far + key + value == seq!['{'] + joined(done.push(field(name, value))),
{
    let more = done.push(field(name, value));
    assert(more.drop_last() =~= done);
    reveal_strlit(",");
    assert(so_far + key + value =~= seq!['{'] + (joined(done) + ","@ + field(name, value)));
}

/// A snapshot begins with its numbers, each under its name: the step, whether
/// it is paused, the percentage of informed flow, the mark, position and cash,
/// the equity as cash and position at the mark, fills and lots, and the best
/// prices, 0 where a side is empty.
pub proof fn law_snapshot_begins_with_its_numbers(
    state: SimState,
    informed_pct: u64,
    paused: bool,
)
    ensures
        snapshot_head(state, informed_pct, paused) == seq!['{'] + joined(
            head_fields(state, informed_pct, paused),
        ),
{
    lemma_head_texts();
    let fields = head_fields(state, informed_pct, paused);
    let account = state.account;
    let mark = state.last_mark;
    let bid = price_or_zero(best(state.book.bids, Side::Bid));
    let ask = price_or_zero(best(state.book.asks, Side::Ask));
    let d0: Seq<Seq<char>> = seq![field("step"@, integer(state.step as int))];
    let t0 = "{\"step\":"@ + integer(state.step as int);
    assert(t0 =~= seq!['{'] + joined(d0));
    lemma_field_added(d0, t0, ",\"paused\":"@, "paused"@, truth(paused));
    let d1 = d0.push(field("paused"@, truth(paused)));
    let t1 = t0 + ",\"paused\":"@ + truth(paused);
    let v2 = integer(informed_pct as int);
    lemma_field_added(d1, t1, ",\"informed\":"@, "informed"@, v2);
    let d2 = d1.push(field("informed"@, v2));
    let t2 = t1 + ",\"informed\":"@ + v2;
    let v3 = integer(mark as int);
    lemma_field_added(d2, t2, ",\"mark\":"@, "mark"@, v3);
    let d3 = d2.push(field("mark"@, v3));
    let t3 = t2 + ",\"mark\":"@ + v3;
    let v4 = integer(account.position as int);
    lemma_field_added(d3, t3, ",\"position\":"@, "position"@, v4);
    let d4 = d3.push(field("position"@, v4));
    let t4 = t3 + ",\"position\":"@ + v4;
    let v5 = integer(account.cash as int);
    lemma_field_added(d4, t4, ",\"cash\":"@, "cash"@, v5);
    let d5 = d4.push(field("cash"@, v5));
    let t5 = t4 + ",\"cash\":"@ + v5;
    let v6 = integer(account.worth(mark));
    lemma_field_added(d5, t5, ",\"equity\":"@, "equity"@, v6);
    let d6 = d5.push(field("equity"@, v6));
    let t6 = t5 + ",\"equity\":"@ + v6;
    let v7 = integer(account.fills as int);
    lemma_field_added(d6, t6, ",\"fills\":"@, "fills"@, v7);
    let d7 = d6.push(field("fills"@, v7));
    let t7 = t6 + ",\"fills\":"@ + v7;
    let v8 = integer(account.traded_lots as int);
    lemma_field_added(d7, t7, ",\"lots\":"@, "lots"@, v8);
    let d8 = d7.push(field("lots"@, v8));
    let t8 = t7 + ",\"lots\":"@ + v8;
    let v9 = integer(bid);
    lemma_field_added(d8, t8, ",\"best_bid\":"@, "best_bid"@, v9);
    let d9 = d8.push(field("best_bid"@, v9));
    let t9 = t8 + ",\"best_bid\":"@ + v9;
    let v10 = integer(ask);
    lemma_field_added(d9, t9, ",\"best_ask\":"@, "best_ask"@, v10);
    let d10 = d9.push(field("best_ask"@, v10));
    assert(d10 =~= fields);
}

/// The value of digits is positional: a run of digits followed by one more has
/// ten times its value and that digit's.
pub proof fn law_digits_are_positional(s: Seq<char>, c: char)
    ensures
        digits_value(Seq::empty()) == 0,
        digits_value(s.push(c)) == 10 * digits_value(s) + (c as int - '0' as int),
{
    assert(s.push(c).drop_last() =~= s);
}

/// A number is written as digits that have its value, without leading zeros,
/// after a minus sign if it is negative.
pub proof fn law_numbers_read_back(x: int)
    ensures
        x >= 0 ==> {
            &&& integer(x).len() > 0
            &&& all_digits(integer(x))
            &&& digits_value(integer(x)) == x
            &&& integer(x)[0] == '0' ==> x == 0
        },
        x < 0 ==> integer(x) == seq!['-'] + integer(-x),
{
    reveal_strlit("-");
    assert("-"@ =~= seq!['-']);
    if x >= 0 {
        law_decimal_reads_back(x as nat);
        lemma_no_leading_zero(x as nat);
    }
}

proof fn lemma_no_leading_zero(n: nat)
    ensures
        decimal(n).len() > 0,
        n > 0 ==> decimal(n)[0] != '0',
    decreases n,
{
    if n >= 10 {
        lemma_no_leading_zero(n / 10);
    }
}

/// The arrays of a snapshot: two numbers between brackets with a comma, and a
/// trade's step, price, quantity and whether the strategy took part, likewise.
pub proof fn law_arrays_hold_their_numbers(a: int, b: int, t: Print)
    ensures
        pair(a, b) == seq!['['] + joined(seq![integer(a), integer(b)]) + seq![']'],
        print_text(t) == seq!['['] + joined(
            seq![
                integer(t.step as int),
                integer(t.price as int),
                integer(t.qty as int),
                seq![if t.strategy_involved { '1' } else { '0' }],
            ],
        ) + seq![']'],
{
    reveal_strlit("[");
    reveal_strlit(",");
    reveal_strlit("]");
    let two = seq![integer(a), integer(b)];
    assert(two.drop_last() =~= seq![integer(a)]);
    assert(joined(seq![integer(a)]) == integer(a));
    assert(joined(two) == integer(a) + ","@ + integer(b));
    assert(pair(a, b) =~= seq!['['] + joined(two) + seq![']']);
    let x = integer(t.step as int);
    let y = integer(t.price as int);
    let z = integer(t.qty as int);
    let w: Seq<char> = seq![if t.strategy_involved { '1' } else { '0' }];
    assert(digit(1) == '1' && digit(0) == '0');
    assert(integer(1) =~= seq!['1']);
    assert(integer(0) =~= seq!['0']);
    let four = seq![x, y, z, w];
    assert(four.drop_last() =~= seq![x, y, z]);
    assert(seq![x, y, z].drop_last() =~= seq![x, y]);
    assert(seq![x, y].drop_last() =~= seq![x]);
    assert(joined(seq![x]) == x);
    assert(joined(seq![x, y]) == x + ","@ + y);
    assert(joined(seq![x, y, z]) == x + ","@ + y + ","@ + z);
    assert(joined(four) == x + ","@ + y + ","@ + z + ","@ + w);
    assert(print_text(t) =~= seq!['['] + joined(four) + seq![']']);
}

/// The tape of a snapshot has the newest trade first: one more trade comes
/// before all that were shown, of which the last makes room if there were 24.
pub proof fn law_tape_shows_the_newest_first(tape: Seq<Print>, t: Print, i: int)
    ensures
        newest(Seq::empty(), 24).len() == 0,
        newest(tape.push(t), 24)[0] == print_text(t),
        newest(tape.push(t), 24).len() == (if tape.len() < 24 {
            newest(tape, 24).len() + 1
        } else {
            24
        }),
        0 <= i < newest(tape.push(t), 24).len() - 1 ==> newest(tape.push(t), 24)[i + 1] == newest(
            tape,
            24,
        )[i],
{
}

/// Every trade of a step is put on the tape, in order, with its price and
/// quantity and whether one of its orders is the strategy's; no other event
/// is.
pub proof fn law_tape_has_every_trade(step: u64, a: Seq<Event>, b: Seq<Event>, ev: Event)
    ensures
        prints(step, Seq::empty()).len() == 0,
        prints(step, a + b) == prints(step, a) + prints(step, b),
        prints(step, seq![ev]) == (match ev {
            Event::Trade { maker, taker, price, qty } => seq![
                Print {
                    step,
                    price,
                    qty,
                    strategy_involved: maker >= 1_099_511_627_776 || taker >= 1_099_511_627_776,
                },
            ],
            _ => Seq::empty(),
        }),
    decreases b.len(),
{
    assert(seq![ev].drop_last() =~= Seq::empty());
    assert(prints(step, seq![ev].drop_last()) == Seq::<Print>::empty());
    if let Event::Trade { maker, taker, price, qty } = ev {
        assert(prints(step, seq![ev]) =~= seq![
            Print {
                step,
                price,
                qty,
                strategy_involved: maker >= 1_099_511_627_776 || taker >= 1_099_511_627_776,
            },
        ]);
    }
    if b.len() == 0 {
        assert(a + b =~= a);
        assert(prints(step, a) + prints(step, b) =~= prints(step, a));
    } else {
        law_tape_has_every_trade(step, a, b.drop_last(), ev);
        assert((a + b).drop_last() =~= a + b.drop_last());
        assert(prints(step, a + b) =~= prints(step, a) + prints(step, b));
    }
}

/// Recording a step keeps the newest trades of the tape and the step
/// together: a trade of the step comes last, behind all that was on the tape
/// before, whose oldest trades make room. A step without trades changes
/// nothing on a tape that is not too long.
pub proof fn law_recording_adds_at_the_new_end(
    tape: Seq<Print>,
    step: u64,
    events: Seq<Event>,
    ev: Event,
    cap: nat,
)
    ensures
        recorded(tape, step, events, cap as int).len() <= cap,
        recorded(tape, step, events, cap as int).is_suffix_of(tape + prints(step, events)),
        tape.len() + prints(step, events).len() <= cap ==> recorded(
            tape,
            step,
            events,
            cap as int,
        ) == tape + prints(step, events),
        cap > 0 && ev is Trade ==> {
            let last = recorded(tape, step, events.push(ev), cap as int).last();
            &&& last.step == step
            &&& last.price == ev->Trade_price
            &&& last.qty == ev->Trade_qty
        },
        !(ev is Trade) ==> recorded(tape, step, events.push(ev), cap as int) == recorded(
            tape,
            step,
            events,
            cap as int,
        ),
{
    law_tape_is_cut_at_its_old_end(tape + prints(step, events), cap);
    assert(events.push(ev).drop_last() =~= events);
}

/// A tape is cut at its old end and only as far as it has to be.
pub proof fn law_tape_is_cut_at_its_old_end(tape: Seq<Print>, cap: nat)
    ensures
        trimmed(tape, cap as int).len() == (if tape.len() < cap {
            tape.len()
        } else {
            cap
        }),
        trimmed(tape, cap as int).is_suffix_of(tape),
{
    let kept = trimmed(tape, cap as int);
    assert(tape.subrange(tape.len() - kept.len(), tape.len() as int) =~= kept);
}

/// The positions that are shown among the first `n` of a curve.
proof fn lemma_shown_at(curve: Seq<(u64, i128)>, n: int) -> (at: Seq<int>)
    requires
        0 <= n <= curve.len(),
    ensures
        at.len() == shown(curve, n).len(),
        forall|k: int|
            0 <= k < at.len() ==> 0 <= #[trigger] at[k] < n && shown(curve, n)[k] == pair(
                curve[at[k]].0 as int,
                curve[at[k]].1 as int,
            ),
        forall|j: int, k: int| 0 <= j < k < at.len() ==> #[trigger] at[j] < #[trigger] at[k],
        forall|i: int|
            0 <= i < n ==> (#[trigger] at.contains(i) <==> i % stride(curve.len() as int) == 0 || i
                == curve.len() - 1),
    decreases n,
{
    if n == 0 {
        Seq::empty()
    } else {
        let before = lemma_shown_at(curve, n - 1);
        let last = n - 1;
        if last % stride(curve.len() as int) == 0 || n == curve.len() {
            let at = before.push(last);
            assert forall|i: int| 0 <= i < n implies (#[trigger] at.contains(i) <==> i % stride(
                curve.len() as int,
            ) == 0 || i == curve.len() - 1) by {
                if i < last {
                    if before.contains(i) {
                        let k = before.index_of(i);
                        assert(at[k] == i);
                    }
                    if at.contains(i) {
                        let k = at.index_of(i);
                        assert(before[k] == i);
                    }
                } else {
                    assert(at[at.len() - 1] == i);
                }
            }
            at
        } else {
            assert forall|i: int| 0 <= i < n implies (#[trigger] before.contains(i) <==> i % stride(
                curve.len() as int,
            ) == 0 || i == curve.len() - 1) by {
                if i == last && before.contains(i) {
                    let k = before.index_of(i);
                    assert(before[k] < n - 1);
                }
            }
            before
        }
    }
}

/// The curve of a snapshot is thinned evenly: the samples shown are, in order,
/// those at the multiples of one distance and the last one. The distance is
/// the largest that leaves at least 400 samples, and 1 where there are fewer.
pub proof fn law_curve_is_thinned_evenly(curve: Seq<(u64, i128)>) -> (r: (int, Seq<int>))
    ensures
        ({
            let (distance, at) = r;
            let text = shown(curve, curve.len() as int);
            &&& distance >= 1
            &&& curve.len() < 400 ==> distance == 1
            &&& curve.len() >= 400 ==> 400 * distance <= curve.len() < 400 * (distance + 1)
            &&& at.len() == text.len()
            &&& forall|k: int|
                0 <= k < at.len() ==> 0 <= #[trigger] at[k] < curve.len() && text[k] == pair(
                    curve[at[k]].0 as int,
                    curve[at[k]].1 as int,
                )
            &&& forall|j: int, k: int| 0 <= j < k < at.len() ==> #[trigger] at[j] < #[trigger] at[k]
            &&& forall|i: int|
                0 <= i < curve.len() ==> (#[trigger] at.contains(i) <==> i % distance == 0 || i
                    == curve.len() - 1)
        }),
{
    (stride(curve.len() as int), lemma_shown_at(curve, curve.len() as int))
}

/// White space, by code point: tab to carriage return, space, next line, and
/// the spaces and separators of Unicode.
pub proof fn law_white_space_is_unicode(c: char)
    ensures
        is_space(c) <==> {
            let x = c as int;
            ||| 9 <= x <= 13
            ||| x == 32
            ||| x == 133
            ||| x == 160
            ||| x == 5760
            ||| 8192 <= x <= 8202
            ||| x == 8232
            ||| x == 8233
            ||| x == 8239
            ||| x == 8287
            ||| x == 12288
        },
{
}

/// The characters are all white space.
pub open spec fn blank(s: Seq<char>) -> bool {
    forall|i: int| 0 <= i < s.len() ==> is_space(#[trigger] s[i])
}

/// The characters are those of a word: some, and none of them white space.
pub open spec fn word(s: Seq<char>) -> bool {
    s.len() > 0 && forall|i: int| 0 <= i < s.len() ==> !is_space(#[trigger] s[i])
}

proof fn lemma_seek(line: Seq<char>, from: int, to: int, space: bool)
    requires
        0 <= from <= to <= line.len(),
        forall|i: int| from <= i < to ==> is_space(#[trigger] line[i]) != space,
        to < line.len() ==> is_space(line[to]) == space,
    ensures
        seek(line, from, space) == to,
    decreases to - from,
{
    if from < to {
        assert(is_space(line[from]) != space);
        lemma_seek(line, from + 1, to, space);
    }
}

/// The path of a request line is its second word, however the words are
/// spaced and whatever follows.
pub proof fn law_path_is_the_second_word(
    lead: Seq<char>,
    method: Seq<char>,
    gap: Seq<char>,
    path: Seq<char>,
    rest: Seq<char>,
)
    requires
        blank(lead),
        word(method),
        blank(gap) && gap.len() > 0,
        word(path),
        rest.len() > 0 ==> is_space(rest[0]),
    ensures
        path_of(lead + method + gap + path + rest) == path,
{
    let line = lead + method + gap + path + rest;
    let a = lead.len() as int;
    let b = a + method.len();
    let c = b + gap.len();
    let d = c + path.len();
    assert forall|i: int| 0 <= i < a implies is_space(#[trigger] line[i]) by {
        assert(line[i] == lead[i]);
    }
    assert forall|i: int| a <= i < b implies !is_space(#[trigger] line[i]) by {
        assert(line[i] == method[i - a]);
    }
    assert forall|i: int| b <= i < c implies is_space(#[trigger] line[i]) by {
        assert(line[i] == gap[i - b]);
    }
    assert forall|i: int| c <= i < d implies !is_space(#[trigger] line[i]) by {
        assert(line[i] == path[i - c]);
    }
    if d < line.len() {
        assert(line[d] == rest[0]);
    }
    lemma_seek(line, 0, a, false);
    lemma_seek(line, a, b, true);
    lemma_seek(line, b, c, false);
    lemma_seek(line, c, d, true);
    assert(line.subrange(c, d) =~= path);
}

/// A request line of fewer than two words asks for the page.
pub proof fn law_short_line_asks_for_the_page(
    lead: Seq<char>,
    method: Seq<char>,
    rest: Seq<char>,
)
    requires
        blank(lead),
        method.len() == 0 || word(method),
        blank(rest),
    ensures
        path_of(lead + method + rest) == seq!['/'],
{
    let line = lead + method + rest;
    let a = lead.len() as int;
    let b = a + method.len();
    let c = line.len() as int;
    reveal_strlit("/");
    assert("/"@ =~= seq!['/']);
    assert forall|i: int| 0 <= i < a implies is_space(#[trigger] line[i]) by {
        assert(line[i] == lead[i]);
    }
    assert forall|i: int| a <= i < b implies !is_space(#[trigger] line[i]) by {
        assert(line[i] == method[i - a]);
    }
    assert forall|i: int| b <= i < c implies is_space(#[trigger] line[i]) by {
        assert(line[i] == rest[i - b]);
    }
    if method.len() == 0 {
        lemma_seek(line, 0, c, false);
    } else {
        lemma_seek(line, 0, a, false);
        lemma_seek(line, a, b, true);
        lemma_seek(line, b, c, false);
    }
}

/// A percentage is read from one or more decimal digits, with or without a
/// plus sign before them, whose value is at most 100, and from nothing else.
pub proof fn law_percentages_are_digits(digits: Seq<char>, s: Seq<char>)
    ensures
        ({
            let numeral = digits.len() > 0 && forall|i: int|
                0 <= i < digits.len() ==> '0' <= #[trigger] digits[i] <= '9';
            numeral ==> {
                &&& digits_value(digits) <= 100 ==> percent_of(digits) == Some(
                    digits_value(digits) as u64,
                )
                &&& digits_value(digits) > 100 ==> percent_of(digits) is None
                &&& percent_of(seq!['+'] + digits) == percent_of(digits)
            }
        }),
        percent_of(s) matches Some(percent) ==> {
            &&& percent <= 100
            &&& s.len() > 0
            &&& forall|i: int|
                0 < i < s.len() ==> '0' <= #[trigger] s[i] <= '9'
            &&& '0' <= s[0] <= '9' || s[0] == '+' && s.len() > 1
        },
{
    let signed = seq!['+'] + digits;
    assert(signed.drop_first() =~= digits);
    if digits.len() > 0 && all_digits(digits) {
        assert('0' <= digits[0] <= '9');
    }
    if percent_of(s) is Some {
        if s[0] == '+' {
            let tail = s.drop_first();
            assert forall|i: int| 0 < i < s.len() implies '0' <= #[trigger] s[i] <= '9' by {
                assert(tail[i - 1] == s[i]);
            }
        }
        lemma_value_not_negative(unsigned_part(s));
    }
}

proof fn lemma_value_not_negative(s: Seq<char>)
    requires
        all_digits(s),
    ensures
        digits_value(s) >= 0,
    decreases s.len(),
{
    if s.len() > 0 {
        let front = s.drop_last();
        assert forall|i: int| 0 <= i < front.len() implies '0' <= #[trigger] front[i] <= '9' by {
            assert(front[i] == s[i]);
        }
        lemma_value_not_negative(front);
        assert('0' <= s[s.len() - 1]);
    }
}

/// The paths that mean something, and what they mean: the page, the snapshot,
/// pause, and whatever follows `/set?informed=` as a percentage or as none.
/// Any other path is unknown.
pub proof fn law_routes_are_told_by_path(path: Seq<char>, value: Seq<char>)
    ensures
        route_of(path) == Route::Page <==> path == "/"@,
        route_of(path) == Route::State <==> path == "/state"@,
        route_of(path) == Route::Pause <==> path == "/pause"@,
        route_of("/set?informed="@ + value) == (match percent_of(value) {
            Some(percent) => Route::Informed(percent),
            None => Route::BadInformed,
        }),
        route_of(path) is Informed || route_of(path) == Route::BadInformed <==> "/set?informed="@
            .is_prefix_of(path),
        route_of(path) == Route::Unknown <==> {
            &&& path != "/"@ && path != "/state"@ && path != "/pause"@
            &&& !"/set?informed="@.is_prefix_of(path)
        },
{
    reveal_strlit("/");
    reveal_strlit("/state");
    reveal_strlit("/pause");
    reveal_strlit("/set?informed=");
    let set = "/set?informed="@;
    let asked = set + value;
    assert(asked.take(set.len() as int) =~= set);
    assert(asked.skip(set.len() as int) =~= value);
    assert(asked.len() >= 14);
    if set.is_prefix_of(path) {
        assert(path.take(set.len() as int) =~= set);
        assert(path.len() >= 14);
    }
    if path == "/state"@ {
        assert(path.len() == 6);
        assert("/"@.len() == 1);
    }
    if path == "/pause"@ {
        assert(path.len() == 6);
        assert(path[1] == 'p');
        assert("/state"@[1] == 's');
    }
}

/// Only two requests change the control: a percentage is noted and asks for a
/// restart, and a pause toggles; neither does what the other does. Everything
/// else leaves it alone.
pub proof fn law_other_requests_change_nothing(control: Control, percent: u64)
    ensures
        control.after(Route::Page) == control,
        control.after(Route::State) == control,
        control.after(Route::BadInformed) == control,
        control.after(Route::Unknown) == control,
        control.after(Route::Pause).informed_pct == control.informed_pct,
        control.after(Route::Pause).restart == control.restart,
        control.after(Route::Pause).paused == !control.paused,
        control.after(Route::Informed(percent)) == (Control {
            informed_pct: percent,
            paused: control.paused,
            restart: true,
        }),
{
}

/// A dashboard starts by starting a simulation with the flow it was given, and
/// running.
pub proof fn law_dashboard_starts_running(informed_pct: u64)
    ensures
        Control::fresh(informed_pct).restarted().0 == Some(informed_pct),
        !Control::fresh(informed_pct).paused,
        Control::fresh(informed_pct).informed_pct == informed_pct,
{
}

/// Requests are answered by what became of them: the page and the snapshot as
/// they are, a pause by the state it led to, and an error exactly for a bad
/// percentage and for an unknown path.
pub proof fn law_answers_say_what_became_of_the_request(
    route: Route,
    control: Control,
    page: Seq<char>,
    state: Seq<char>,
)
    ensures
        ({
            let (status, ctype, body) = answer_of(route, control, page, state);
            &&& status == "400 Bad Request"@ <==> route == Route::BadInformed
            &&& status == "404 Not Found"@ <==> route == Route::Unknown
            &&& status == "200 OK"@ <==> route != Route::BadInformed && route != Route::Unknown
            &&& ctype == (match route {
                Route::Page => "text/html; charset=utf-8"@,
                Route::State => "application/json"@,
                _ => "text/plain"@,
            })
            &&& match route {
                Route::Page => body == page,
                Route::State => body == state,
                Route::Informed(_) => body == "ok"@,
                Route::BadInformed => body == "informed must be 0-100"@,
                Route::Pause => body == (if control.paused {
                    "paused=true"@
                } else {
                    "paused=false"@
                }),
                Route::Unknown => body == "not found"@,
            }
        }),
{
    reveal_strlit("200 OK");
    reveal_strlit("400 Bad Request");
    reveal_strlit("404 Not Found");
    assert("200 OK"@[0] == '2');
    assert("400 Bad Request"@[0] == '4');
    assert("404 Not Found"@[0] == '4');
    assert("400 Bad Request"@[2] == '0');
    assert("404 Not Found"@[2] == '4');
    reveal_strlit("paused=");
    reveal_strlit("paused=true");
    reveal_strlit("paused=false");
    reveal_strlit("true");
    reveal_strlit("false");
    assert("paused="@ + "true"@ =~= "paused=true"@);
    assert("paused="@ + "false"@ =~= "paused=false"@);
}

/// A line of an HTTP head.
pub open spec fn http_line(text: Seq<char>) -> Seq<char> {
    text + seq!['\r', '\n']
}

/// The head of an answer is the status line, the content type, the length of
/// the body in bytes, the note that the connection closes, and an empty line.
pub proof fn law_head_has_its_lines(status: Seq<char>, ctype: Seq<char>, len: nat)
    ensures
        head_of(status, ctype, len) == http_line("HTTP/1.1 "@ + status) + http_line(
            "Content-Type: "@ + ctype,
        ) + http_line("Content-Length: "@ + integer(len as int)) + http_line(
            "Connection: close"@,
        ) + http_line(Seq::empty()),
{
    reveal_strlit("HTTP/1.1 ");
    reveal_strlit("Content-Type: ");
    reveal_strlit("\r\nContent-Type: ");
    reveal_strlit("Content-Length: ");
    reveal_strlit("\r\nContent-Length: ");
    reveal_strlit("Connection: close");
    reveal_strlit("\r\nConnection: close\r\n\r\n");
    let crlf = seq!['\r', '\n'];
    assert("\r\nContent-Type: "@ =~= crlf + "Content-Type: "@);
    assert("\r\nContent-Length: "@ =~= crlf + "Content-Length: "@);
    assert("\r\nConnection: close\r\n\r\n"@ =~= crlf + "Connection: close"@ + crlf + crlf);
    let n = decimal(len);
    let a = "HTTP/1.1 "@ + status;
    let b = "Content-Type: "@ + ctype;
    let c = "Content-Length: "@ + n;
    assert(a + (crlf + "Content-Type: "@) + ctype =~= a + crlf + b);
    assert(a + crlf + b + (crlf + "Content-Length: "@) + n =~= a + crlf + b + crlf + c);
    assert(head_of(status, ctype, len) =~= a + crlf + b + crlf + c + (crlf + "Connection: close"@
        + crlf + crlf));
    assert(a + crlf + b + crlf + c + (crlf + "Connection: close"@ + crlf + crlf) =~= http_line(a)
        + http_line(b) + http_line(c) + http_line("Connection: close"@) + http_line(Seq::empty()));
}

} // verus!
