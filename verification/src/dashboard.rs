//! The live dashboard's data: what its page is sent and what it may ask for.
//!
//! ```text
//! GET /                     the dashboard page
//! GET /state                current JSON snapshot
//! GET /set?informed=NN      restart the sim with a new flow toxicity
//! GET /pause                toggle pause
//! ```
use vstd::prelude::*;

use crate::account::Account;
use crate::events::Event;
use crate::model::best;
use crate::sim::{involves, Sim, SimState};
use crate::types::{Price, Qty, Side};

verus! {

/// The character of a decimal digit.
pub open spec fn digit(d: int) -> char {
    (48 + d) as char
}

/// Decimal form of a number, without leading zeros.
pub open spec fn decimal(n: nat) -> Seq<char>
    decreases n,
{
    if n < 10 {
        seq![digit(n as int)]
    } else {
        decimal(n / 10).push(digit((n % 10) as int))
    }
}

/// Decimal form of an integer.
pub open spec fn integer(x: int) -> Seq<char> {
    if x < 0 {
        "-"@ + decimal((-x) as nat)
    } else {
        decimal(x as nat)
    }
}

fn digit_text(d: u8) -> (text: &'static str)
    requires
        d < 10,
    ensures
        text@ == seq![digit(d as int)],
{
    proof {
        reveal_strlit("0");
        reveal_strlit("1");
        reveal_strlit("2");
        reveal_strlit("3");
        reveal_strlit("4");
        reveal_strlit("5");
        reveal_strlit("6");
        reveal_strlit("7");
        reveal_strlit("8");
        reveal_strlit("9");
    }
    let text: &'static str = match d {
        0 => "0",
        1 => "1",
        2 => "2",
        3 => "3",
        4 => "4",
        5 => "5",
        6 => "6",
        7 => "7",
        8 => "8",
        _ => "9",
    };
    assert(text@ =~= seq![digit(d as int)]);
    text
}

fn write_decimal(n: u128, out: &mut String)
    ensures
        final(out)@ == old(out)@ + decimal(n as nat),
    decreases n,
{
    if n >= 10 {
        write_decimal(n / 10, out);
    }
    out.append(digit_text((n % 10) as u8));
    assert(out@ =~= old(out)@ + decimal(n as nat));
}

fn write_integer(x: i128, out: &mut String)
    ensures
        final(out)@ == old(out)@ + integer(x as int),
{
    if x < 0 {
        out.append("-");
        write_decimal((-(x + 1)) as u128 + 1, out);
        assert(out@ =~= old(out)@ + integer(x as int));
    } else {
        write_decimal(x as u128, out);
    }
}

/// Items separated by commas.
pub open spec fn joined(items: Seq<Seq<char>>) -> Seq<char>
    decreases items.len(),
{
    if items.len() == 0 {
        Seq::empty()
    } else if items.len() == 1 {
        items[0]
    } else {
        joined(items.drop_last()) + ","@ + items.last()
    }
}

/// A JSON array of two numbers.
pub open spec fn pair(a: int, b: int) -> Seq<char> {
    "["@ + integer(a) + ","@ + integer(b) + "]"@
}

fn write_pair(a: i128, b: i128, out: &mut String)
    ensures
        final(out)@ == old(out)@ + pair(a as int, b as int),
{
    out.append("[");
    write_integer(a, out);
    out.append(",");
    write_integer(b, out);
    out.append("]");
    assert(out@ =~= old(out)@ + pair(a as int, b as int));
}

/// One more item after `done`: a comma first, unless it is the first.
fn write_comma(first: bool, Ghost(base): Ghost<Seq<char>>, Ghost(done): Ghost<Seq<Seq<char>>>, out:
    &mut String)
    requires
        old(out)@ == base + joined(done),
        first == (done.len() == 0),
    ensures
        forall|item: Seq<char>| #[trigger] (final(out)@ + item) == base + joined(done.push(item)),
{
    let ghost before = out@;
    if !first {
        out.append(",");
    }
    proof {
        assert forall|item: Seq<char>| #[trigger] (out@ + item) == base + joined(
            done.push(item),
        ) by {
            let more = done.push(item);
            assert(more.drop_last() =~= done);
            assert(more.last() == item);
            if first {
                assert(more[0] == item);
                assert(before =~= base);
            }
            assert(out@ + item =~= base + joined(more));
        }
    }
}

/// The first `n` levels of a side, or all if there are fewer.
pub open spec fn top_levels(depth: Seq<(Price, Qty)>, n: int) -> Seq<Seq<char>> {
    Seq::new(
        if depth.len() < n {
            depth.len()
        } else {
            n as nat
        },
        |i: int| pair(depth[i].0 as int, depth[i].1 as int),
    )
}

fn write_levels(depth: &Vec<(Price, Qty)>, out: &mut String)
    ensures
        final(out)@ == old(out)@ + joined(top_levels(depth@, 15)),
{
    let ghost base = out@;
    let ghost all = top_levels(depth@, 15);
    let mut i: usize = 0;
    assert(all.take(0) =~= Seq::empty());
    assert(out@ =~= base + joined(all.take(0)));
    while i < depth.len() && i < 15
        invariant
            i <= all.len(),
            all == top_levels(depth@, 15),
            out@ == base + joined(all.take(i as int)),
        decreases all.len() - i,
    {
        let (price, qty) = depth[i];
        write_comma(i == 0, Ghost(base), Ghost(all.take(i as int)), out);
        let ghost item = pair(price as int, qty as int);
        write_pair(price as i128, qty as i128, out);
        proof {
            assert(all.take(i as int).push(item) =~= all.take(i + 1));
        }
        i = i + 1;
    }
    assert(all.take(i as int) =~= all);
}

/// A trade on the tape.
#[derive(Clone, Copy, PartialEq, Eq, Structural, Debug)]
pub struct Print {
    pub step: u64,
    pub price: Price,
    pub qty: Qty,
    pub strategy_involved: bool,
}

/// What the events of a step put on the tape: one print per trade, in order.
pub open spec fn prints(step: u64, events: Seq<Event>) -> Seq<Print>
    decreases events.len(),
{
    if events.len() == 0 {
        Seq::empty()
    } else {
        let front = prints(step, events.drop_last());
        match events.last() {
            Event::Trade { price, qty, .. } => front.push(
                Print { step, price, qty, strategy_involved: involves(events.last()) },
            ),
            _ => front,
        }
    }
}

/// The last `cap` prints of a tape, or all if there are fewer.
pub open spec fn trimmed(tape: Seq<Print>, cap: int) -> Seq<Print> {
    if tape.len() > cap {
        tape.skip(tape.len() - cap)
    } else {
        tape
    }
}

/// A tape of at most `cap` trades after a step with these events.
pub open spec fn recorded(
    tape: Seq<Print>,
    step: u64,
    events: Seq<Event>,
    cap: int,
) -> Seq<Print> {
    trimmed(tape + prints(step, events), cap)
}

/// Puts the trades of a step on the tape, which keeps the newest `cap`.
pub fn record(tape: &mut Vec<Print>, step: u64, events: &Vec<Event>, cap: usize)
    ensures
        final(tape)@ == recorded(old(tape)@, step, events@, cap as int),
{
    let ghost before = tape@;
    let mut i: usize = 0;
    assert(events@.take(0) =~= Seq::empty());
    assert(before + prints(step, events@.take(0)) =~= before);
    while i < events.len()
        invariant
            i <= events@.len(),
            tape@ == before + prints(step, events@.take(i as int)),
        decreases events@.len() - i,
    {
        let ev: Event = events[i];
        let ghost seen = prints(step, events@.take(i as int));
        proof {
            assert(events@.take(i + 1).drop_last() =~= events@.take(i as int));
            assert(events@.take(i + 1).last() == ev);
        }
        if let Event::Trade { price, qty, .. } = ev {
            let print = Print { step, price, qty, strategy_involved: involves(ev) };
            tape.push(print);
            assert((before + seen).push(print) =~= before + seen.push(print));
        }
        i = i + 1;
    }
    assert(events@.take(i as int) =~= events@);
    if tape.len() > cap {
        let ghost all = tape@;
        *tape = tape.split_off(tape.len() - cap);
        assert(tape@ =~= trimmed(all, cap as int));
    }
}

/// The tape never holds more than its newest `cap` trades, and recording step
/// by step keeps what recording all steps at once would have kept.
pub proof fn law_tape_keeps_the_newest(tape: Seq<Print>, a: Seq<Print>, b: Seq<Print>, cap: nat)
    ensures
        trimmed(tape, cap as int).len() <= cap,
        trimmed(trimmed(tape + a, cap as int) + b, cap as int) == trimmed(
            tape + a + b,
            cap as int,
        ),
{
    assert(trimmed(trimmed(tape + a, cap as int) + b, cap as int) =~= trimmed(
        tape + a + b,
        cap as int,
    ));
}

/// A JSON array of a trade's numbers.
pub open spec fn print_text(t: Print) -> Seq<char> {
    "["@ + integer(t.step as int) + ","@ + integer(t.price as int) + ","@ + integer(t.qty as int)
        + ","@ + integer(
        if t.strategy_involved {
            1
        } else {
            0
        },
    ) + "]"@
}

/// The last `n` trades, newest first, or all if there are fewer.
pub open spec fn newest(tape: Seq<Print>, n: int) -> Seq<Seq<char>> {
    Seq::new(
        if tape.len() < n {
            tape.len()
        } else {
            n as nat
        },
        |i: int| print_text(tape[tape.len() - 1 - i]),
    )
}

fn write_print(t: Print, out: &mut String)
    ensures
        final(out)@ == old(out)@ + print_text(t),
{
    out.append("[");
    write_integer(t.step as i128, out);
    out.append(",");
    write_integer(t.price as i128, out);
    out.append(",");
    write_integer(t.qty as i128, out);
    out.append(",");
    if t.strategy_involved {
        write_integer(1, out);
    } else {
        write_integer(0, out);
    }
    out.append("]");
    assert(out@ =~= old(out)@ + print_text(t));
}

fn write_tape(tape: &Vec<Print>, out: &mut String)
    ensures
        final(out)@ == old(out)@ + joined(newest(tape@, 24)),
{
    let ghost base = out@;
    let ghost all = newest(tape@, 24);
    let mut i: usize = 0;
    assert(all.take(0) =~= Seq::empty());
    assert(out@ =~= base + joined(all.take(0)));
    while i < tape.len() && i < 24
        invariant
            i <= all.len(),
            all == newest(tape@, 24),
            out@ == base + joined(all.take(i as int)),
        decreases all.len() - i,
    {
        let t: Print = tape[tape.len() - 1 - i];
        write_comma(i == 0, Ghost(base), Ghost(all.take(i as int)), out);
        write_print(t, out);
        proof {
            assert(all.take(i as int).push(print_text(t)) =~= all.take(i + 1));
        }
        i = i + 1;
    }
    assert(all.take(i as int) =~= all);
}

/// Distance between the samples of a curve of `n` samples that are shown.
pub open spec fn stride(n: int) -> int {
    if n / 400 > 1 {
        n / 400
    } else {
        1
    }
}

/// The samples that are shown among the first `n`: evenly spaced ones, and
/// the last of all.
pub open spec fn shown(curve: Seq<(u64, i128)>, n: int) -> Seq<Seq<char>>
    decreases n,
{
    if n <= 0 {
        Seq::empty()
    } else if (n - 1) % stride(curve.len() as int) == 0 || n == curve.len() {
        shown(curve, n - 1).push(pair(curve[n - 1].0 as int, curve[n - 1].1 as int))
    } else {
        shown(curve, n - 1)
    }
}

fn write_curve(curve: &Vec<(u64, i128)>, out: &mut String)
    ensures
        final(out)@ == old(out)@ + joined(shown(curve@, curve@.len() as int)),
{
    let ghost base = out@;
    let len: usize = curve.len();
    let step: usize = if len / 400 > 1 {
        len / 400
    } else {
        1
    };
    let mut first: bool = true;
    let mut i: usize = 0;
    assert(out@ =~= base + joined(shown(curve@, 0)));
    while i < len
        invariant
            i <= len,
            len == curve@.len(),
            step == stride(len as int),
            step > 0,
            first == (shown(curve@, i as int).len() == 0),
            out@ == base + joined(shown(curve@, i as int)),
        decreases len - i,
    {
        if i % step == 0 || i == len - 1 {
            let (at, equity) = curve[i];
            write_comma(first, Ghost(base), Ghost(shown(curve@, i as int)), out);
            write_pair(at as i128, equity, out);
            first = false;
        }
        i = i + 1;
    }
}

/// `true` or `false`.
pub open spec fn truth(b: bool) -> Seq<char> {
    if b {
        "true"@
    } else {
        "false"@
    }
}

/// A price, or 0 where there is none.
pub open spec fn price_or_zero(price: Option<Price>) -> int {
    match price {
        Some(p) => p as int,
        None => 0,
    }
}

/// The numbers of a snapshot.
pub open spec fn snapshot_head(state: SimState, informed_pct: u64, paused: bool) -> Seq<char> {
    let mark = state.last_mark;
    "{\"step\":"@ + integer(state.step as int) + ",\"paused\":"@ + truth(paused)
        + ",\"informed\":"@ + integer(informed_pct as int) + ",\"mark\":"@ + integer(mark as int)
        + ",\"position\":"@ + integer(state.account.position as int) + ",\"cash\":"@ + integer(
        state.account.cash as int,
    ) + ",\"equity\":"@ + integer(state.account.worth(mark)) + ",\"fills\":"@ + integer(
        state.account.fills as int,
    ) + ",\"lots\":"@ + integer(state.account.traded_lots as int) + ",\"best_bid\":"@ + integer(
        price_or_zero(best(state.book.bids, Side::Bid)),
    ) + ",\"best_ask\":"@ + integer(price_or_zero(best(state.book.asks, Side::Ask)))
}

/// The JSON snapshot of a simulation.
pub open spec fn snapshot(
    state: SimState,
    informed_pct: u64,
    paused: bool,
    tape: Seq<Print>,
) -> Seq<char> {
    snapshot_head(state, informed_pct, paused) + ",\"bids\":["@ + joined(
        top_levels(state.book.depth(Side::Bid), 15),
    ) + "],\"asks\":["@ + joined(top_levels(state.book.depth(Side::Ask), 15)) + "],\"tape\":["@
        + joined(newest(tape, 24)) + "],\"curve\":["@ + joined(
        shown(state.curve, state.curve.len() as int),
    ) + "]}"@
}

fn head_text(sim: &Sim, equity: i128, paused: bool) -> (text: String)
    requires
        sim.wf(),
        equity == sim@.account.worth(sim@.last_mark),
    ensures
        text@ == snapshot_head(sim@, sim.cfg().informed_pct, paused),
{
    let account: Account = sim.account();
    let mut text: String = String::from_str("{\"step\":");
    write_integer(sim.current_step() as i128, &mut text);
    text.append(",\"paused\":");
    if paused {
        text.append("true");
    } else {
        text.append("false");
    }
    text.append(",\"informed\":");
    write_integer(sim.config().informed_pct as i128, &mut text);
    text.append(",\"mark\":");
    write_integer(sim.mark() as i128, &mut text);
    text.append(",\"position\":");
    write_integer(account.position as i128, &mut text);
    text.append(",\"cash\":");
    write_integer(account.cash, &mut text);
    text.append(",\"equity\":");
    write_integer(equity, &mut text);
    text.append(",\"fills\":");
    write_integer(account.fills as i128, &mut text);
    text.append(",\"lots\":");
    write_integer(account.traded_lots as i128, &mut text);
    text.append(",\"best_bid\":");
    let bid: Price = match sim.book().best_bid() {
        Some(price) => price,
        None => 0,
    };
    write_integer(bid as i128, &mut text);
    text.append(",\"best_ask\":");
    let ask: Price = match sim.book().best_ask() {
        Some(price) => price,
        None => 0,
    };
    write_integer(ask as i128, &mut text);
    text
}

/// Hand-rolled JSON: the shape is fixed and flat, so a formatter is all the
/// serialization this needs.
pub fn serialize(sim: &Sim, paused: bool, tape: &Vec<Print>) -> (json: String)
    requires
        sim.wf(),
        i128::MIN <= sim@.account.worth(sim@.last_mark) <= i128::MAX,
    ensures
        json@ == snapshot(sim@, sim.cfg().informed_pct, paused, tape@),
{
    let equity: i128 = sim.account().equity(sim.mark());
    let mut out: String = head_text(sim, equity, paused);
    out.append(",\"bids\":[");
    write_levels(&sim.book().bid_levels(), &mut out);
    out.append("],\"asks\":[");
    write_levels(&sim.book().ask_levels(), &mut out);
    out.append("],\"tape\":[");
    write_tape(tape, &mut out);
    out.append("],\"curve\":[");
    write_curve(sim.equity_curve(), &mut out);
    out.append("]}");
    out
}

/// Unicode white space.
pub open spec fn spec_is_space(c: char) -> bool {
    ||| '\u{9}' <= c <= '\u{d}'
    ||| c == ' '
    ||| c == '\u{85}'
    ||| c == '\u{a0}'
    ||| c == '\u{1680}'
    ||| '\u{2000}' <= c <= '\u{200a}'
    ||| c == '\u{2028}'
    ||| c == '\u{2029}'
    ||| c == '\u{202f}'
    ||| c == '\u{205f}'
    ||| c == '\u{3000}'
}

#[verifier::when_used_as_spec(spec_is_space)]
pub fn is_space(c: char) -> (space: bool)
    ensures
        space == spec_is_space(c),
{
    ('\u{9}' <= c && c <= '\u{d}') || c == ' ' || c == '\u{85}' || c == '\u{a0}' || c == '\u{1680}'
        || ('\u{2000}' <= c && c <= '\u{200a}') || c == '\u{2028}' || c == '\u{2029}' || c
        == '\u{202f}' || c == '\u{205f}' || c == '\u{3000}'
}

/// First position from `from` on whose character is white space (`space`) or
/// is not (`!space`); the length if there is none.
pub open spec fn seek(line: Seq<char>, from: int, space: bool) -> int
    decreases line.len() - from,
{
    if from >= line.len() || is_space(line[from]) == space {
        from
    } else {
        seek(line, from + 1, space)
    }
}

fn find_space(line: &Vec<char>, from: usize, space: bool) -> (at: usize)
    requires
        from <= line@.len(),
    ensures
        at == seek(line@, from as int, space),
        from <= at <= line@.len(),
{
    let mut i: usize = from;
    while i < line.len() && is_space(line[i]) != space
        invariant
            from <= i <= line@.len(),
            seek(line@, from as int, space) == seek(line@, i as int, space),
        decreases line@.len() - i,
    {
        i = i + 1;
    }
    i
}

/// The second word of a request line; `/` if it has fewer.
pub open spec fn path_of(line: Seq<char>) -> Seq<char> {
    let first = seek(line, 0, false);
    let gap = seek(line, first, true);
    let start = seek(line, gap, false);
    let end = seek(line, start, true);
    if start < end {
        line.subrange(start, end)
    } else {
        "/"@
    }
}

/// The path that a request line asks for.
pub fn request_path(line: &Vec<char>) -> (path: Vec<char>)
    ensures
        path@ == path_of(line@),
{
    let first: usize = find_space(line, 0, false);
    let gap: usize = find_space(line, first, true);
    let start: usize = find_space(line, gap, false);
    let end: usize = find_space(line, start, true);
    let mut path: Vec<char> = Vec::new();
    if start == end {
        path.push('/');
        proof {
            reveal_strlit("/");
            assert(path@ =~= "/"@);
        }
        return path;
    }
    let mut i: usize = start;
    while i < end
        invariant
            start <= i <= end <= line@.len(),
            path@ == line@.subrange(start as int, i as int),
        decreases end - i,
    {
        path.push(line[i]);
        i = i + 1;
        assert(path@ =~= line@.subrange(start as int, i as int));
    }
    path
}

/// Value of a sequence of decimal digits.
pub open spec fn digits_value(s: Seq<char>) -> int
    decreases s.len(),
{
    if s.len() == 0 {
        0
    } else {
        10 * digits_value(s.drop_last()) + (s.last() as int - 48)
    }
}

/// The characters are all decimal digits.
pub open spec fn all_digits(s: Seq<char>) -> bool {
    forall|i: int| 0 <= i < s.len() ==> '0' <= #[trigger] s[i] <= '9'
}

/// A number without its optional plus sign.
pub open spec fn unsigned_part(s: Seq<char>) -> Seq<char> {
    if s.len() > 0 && s[0] == '+' {
        s.drop_first()
    } else {
        s
    }
}

/// The percentage that a text stands for: an optional plus sign, at least one
/// digit, no more than 100.
pub open spec fn percent_of(s: Seq<char>) -> Option<u64> {
    let digits = unsigned_part(s);
    if digits.len() > 0 && all_digits(digits) && digits_value(digits) <= 100 {
        Some(digits_value(digits) as u64)
    } else {
        None
    }
}

/// More digits do not make a number smaller.
proof fn lemma_digits_grow(s: Seq<char>, n: int)
    requires
        all_digits(s),
        0 <= n <= s.len(),
    ensures
        0 <= digits_value(s.take(n)) <= digits_value(s),
    decreases s.len(),
{
    if s.len() == 0 {
        assert(s.take(n) =~= s);
    } else if n < s.len() {
        let front = s.drop_last();
        assert forall|i: int| 0 <= i < front.len() implies '0' <= #[trigger] front[i] <= '9' by {
            assert(front[i] == s[i]);
        }
        lemma_digits_grow(front, n);
        assert(front.take(n) =~= s.take(n));
        assert('0' <= s[s.len() - 1]);
    } else {
        let front = s.drop_last();
        assert forall|i: int| 0 <= i < front.len() implies '0' <= #[trigger] front[i] <= '9' by {
            assert(front[i] == s[i]);
        }
        lemma_digits_grow(front, front.len() as int);
        assert(front.take(front.len() as int) =~= front);
        assert('0' <= s[s.len() - 1]);
        assert(s.take(n) =~= s);
    }
}

/// Reads a percentage from position `from` on.
fn parse_percent(text: &Vec<char>, from: usize) -> (percent: Option<u64>)
    requires
        from <= text@.len(),
    ensures
        percent == percent_of(text@.skip(from as int)),
{
    let ghost whole = text@.skip(from as int);
    let ghost digits = unsigned_part(whole);
    let start: usize = if from < text.len() && text[from] == '+' {
        from + 1
    } else {
        from
    };
    proof {
        if from < text@.len() {
            assert(whole[0] == text@[from as int]);
        }
        assert(digits =~= text@.skip(start as int));
    }
    if start == text.len() {
        return None;
    }
    let mut value: u64 = 0;
    let mut i: usize = start;
    assert(digits.take(0) =~= Seq::empty());
    while i < text.len()
        invariant
            start <= i <= text@.len(),
            digits == text@.skip(start as int),
            value <= 100,
            all_digits(digits.take(i - start)),
            value == digits_value(digits.take(i - start)),
            whole == text@.skip(from as int),
            digits == unsigned_part(whole),
        decreases text@.len() - i,
    {
        let c: char = text[i];
        let ghost n = i - start;
        proof {
            assert(digits[n] == c);
            assert(digits.take(n + 1).drop_last() =~= digits.take(n));
            assert(digits.take(n + 1).last() == c);
        }
        if !('0' <= c && c <= '9') {
            return None;
        }
        value = value * 10 + (c as u32 - 48) as u64;
        proof {
            assert forall|k: int| 0 <= k < n + 1 implies '0' <= #[trigger] digits.take(n + 1)[k]
                <= '9' by {
                if k < n {
                    assert(digits.take(n)[k] == digits[k]);
                }
            }
        }
        if value > 100 {
            proof {
                if all_digits(digits) {
                    lemma_digits_grow(digits, n + 1);
                }
            }
            return None;
        }
        i = i + 1;
    }
    assert(digits.take(i - start) =~= digits);
    Some(value)
}

/// What a request asks for.
#[derive(Clone, Copy, PartialEq, Eq, Structural, Debug)]
pub enum Route {
    /// The dashboard page.
    Page,
    /// The current snapshot.
    State,
    /// A restart with this percentage of informed flow.
    Informed(u64),
    /// A restart with something that is no percentage.
    BadInformed,
    /// Pause or resume.
    Pause,
    Unknown,
}

/// The request that a path makes.
pub open spec fn route_of(path: Seq<char>) -> Route {
    let set = "/set?informed="@;
    if path == "/"@ {
        Route::Page
    } else if path == "/state"@ {
        Route::State
    } else if path.len() >= set.len() && path.take(set.len() as int) == set {
        match percent_of(path.skip(set.len() as int)) {
            Some(percent) => Route::Informed(percent),
            None => Route::BadInformed,
        }
    } else if path == "/pause"@ {
        Route::Pause
    } else {
        Route::Unknown
    }
}

/// Whether a path begins with a text.
fn begins_with(path: &Vec<char>, text: &str) -> (yes: bool)
    ensures
        yes == (path@.len() >= text@.len() && path@.take(text@.len() as int) == text@),
{
    let n: usize = text.unicode_len();
    if path.len() < n {
        return false;
    }
    let mut i: usize = 0;
    while i < n
        invariant
            i <= n,
            n == text@.len(),
            n <= path@.len(),
            path@.take(i as int) == text@.take(i as int),
        decreases n - i,
    {
        if path[i] != text.get_char(i) {
            proof {
                assert(path@.take(n as int)[i as int] == path@[i as int]);
            }
            return false;
        }
        proof {
            assert(path@.take(i + 1) =~= path@.take(i as int).push(path@[i as int]));
            assert(text@.take(i + 1) =~= text@.take(i as int).push(text@[i as int]));
        }
        i = i + 1;
    }
    assert(text@.take(n as int) =~= text@);
    true
}

/// Whether a path is a text.
fn is_text(path: &Vec<char>, text: &str) -> (yes: bool)
    ensures
        yes == (path@ == text@),
{
    if path.len() != text.unicode_len() {
        return false;
    }
    assert(path@.take(path@.len() as int) =~= path@);
    begins_with(path, text)
}

/// Tells what a path asks for.
pub fn route(path: &Vec<char>) -> (route: Route)
    ensures
        route == route_of(path@),
{
    if is_text(path, "/") {
        Route::Page
    } else if is_text(path, "/state") {
        Route::State
    } else if begins_with(path, "/set?informed=") {
        let n: usize = "/set?informed=".unicode_len();
        match parse_percent(path, n) {
            Some(percent) => Route::Informed(percent),
            None => Route::BadInformed,
        }
    } else if is_text(path, "/pause") {
        Route::Pause
    } else {
        Route::Unknown
    }
}

/// What the dashboard has asked of the simulation.
#[derive(Clone, Copy, PartialEq, Eq, Structural, Debug)]
pub struct Control {
    pub informed_pct: u64,
    pub paused: bool,
    pub restart: bool,
}

impl Control {
    /// Running, with a simulation to be started.
    pub open spec fn fresh(informed_pct: u64) -> Control {
        Control { informed_pct, paused: false, restart: true }
    }

    /// The control after a request.
    pub open spec fn after(self, route: Route) -> Control {
        match route {
            Route::Informed(percent) => Control { informed_pct: percent, restart: true, ..self },
            Route::Pause => Control { paused: !self.paused, ..self },
            _ => self,
        }
    }

    /// The flow of the simulation to be started, if one is, and the control
    /// once it has been.
    pub open spec fn restarted(self) -> (Option<u64>, Control) {
        (
            if self.restart {
                Some(self.informed_pct)
            } else {
                None
            },
            Control { restart: false, ..self },
        )
    }

    /// Running, with a simulation to be started.
    pub fn new(informed_pct: u64) -> (control: Control)
        ensures
            control == Control::fresh(informed_pct),
    {
        Control { informed_pct, paused: false, restart: true }
    }

    /// Notes a request.
    pub fn note(&mut self, route: Route)
        ensures
            *final(self) == old(self).after(route),
    {
        match route {
            Route::Informed(percent) => {
                self.informed_pct = percent;
                self.restart = true;
            },
            Route::Pause => {
                self.paused = !self.paused;
            },
            _ => {},
        }
    }

    /// The flow of the simulation to be started, if one is; it then is not
    /// any more.
    pub fn take_restart(&mut self) -> (informed_pct: Option<u64>)
        ensures
            informed_pct == old(self).restarted().0,
            *final(self) == old(self).restarted().1,
    {
        let restart: bool = self.restart;
        self.restart = false;
        if restart {
            Some(self.informed_pct)
        } else {
            None
        }
    }
}

/// Status, content type and body of the answer to a request, given the page,
/// the snapshot and the control after the request.
pub open spec fn answer_of(
    route: Route,
    control: Control,
    page: Seq<char>,
    snapshot: Seq<char>,
) -> (Seq<char>, Seq<char>, Seq<char>) {
    match route {
        Route::Page => ("200 OK"@, "text/html; charset=utf-8"@, page),
        Route::State => ("200 OK"@, "application/json"@, snapshot),
        Route::Informed(_) => ("200 OK"@, "text/plain"@, "ok"@),
        Route::BadInformed => ("400 Bad Request"@, "text/plain"@, "informed must be 0-100"@),
        Route::Pause => ("200 OK"@, "text/plain"@, "paused="@ + truth(control.paused)),
        Route::Unknown => ("404 Not Found"@, "text/plain"@, "not found"@),
    }
}

/// The answer to a request.
pub fn answer(route: Route, control: Control, page: &str, snapshot: &str) -> (answer: (
    &'static str,
    &'static str,
    String,
))
    ensures
        (answer.0@, answer.1@, answer.2@) == answer_of(route, control, page@, snapshot@),
{
    match route {
        Route::Page => ("200 OK", "text/html; charset=utf-8", String::from_str(page)),
        Route::State => ("200 OK", "application/json", String::from_str(snapshot)),
        Route::Informed(_) => ("200 OK", "text/plain", String::from_str("ok")),
        Route::BadInformed => (
            "400 Bad Request",
            "text/plain",
            String::from_str("informed must be 0-100"),
        ),
        Route::Pause => {
            let mut body: String = String::from_str("paused=");
            if control.paused {
                body.append("true");
            } else {
                body.append("false");
            }
            ("200 OK", "text/plain", body)
        },
        Route::Unknown => ("404 Not Found", "text/plain", String::from_str("not found")),
    }
}

/// The head of an HTTP answer with a body of `len` bytes.
pub open spec fn head_of(status: Seq<char>, ctype: Seq<char>, len: nat) -> Seq<char> {
    "HTTP/1.1 "@ + status + "\r\nContent-Type: "@ + ctype + "\r\nContent-Length: "@ + decimal(len)
        + "\r\nConnection: close\r\n\r\n"@
}

/// The head of an HTTP answer.
pub fn response_head(status: &str, ctype: &str, len: usize) -> (head: String)
    ensures
        head@ == head_of(status@, ctype@, len as nat),
{
    let mut head: String = String::from_str("HTTP/1.1 ");
    head.append(status);
    head.append("\r\nContent-Type: ");
    head.append(ctype);
    head.append("\r\nContent-Length: ");
    write_decimal(len as u128, &mut head);
    head.append("\r\nConnection: close\r\n\r\n");
    head
}

/// The decimal form of a number is digits that have its value.
pub proof fn law_decimal_reads_back(n: nat)
    ensures
        decimal(n).len() > 0,
        all_digits(decimal(n)),
        digits_value(decimal(n)) == n,
    decreases n,
{
    let s = decimal(n);
    if n < 10 {
        assert(s.drop_last() =~= Seq::empty());
        assert(digits_value(s.drop_last()) == 0);
        assert(s.last() as int == 48 + n);
    } else {
        law_decimal_reads_back(n / 10);
        let front = decimal(n / 10);
        assert(s.drop_last() =~= front);
        assert(s.last() as int == 48 + n % 10);
        assert forall|i: int| 0 <= i < s.len() implies '0' <= #[trigger] s[i] <= '9' by {
            if i < front.len() {
                assert(front[i] == s[i]);
            }
        }
    }
}

/// Every percentage can be asked for: its decimal form is read back.
pub proof fn law_every_percentage_can_be_set(percent: u64)
    requires
        percent <= 100,
    ensures
        percent_of(decimal(percent as nat)) == Some(percent),
{
    law_decimal_reads_back(percent as nat);
    let s = decimal(percent as nat);
    assert('0' <= s[0] <= '9');
}

/// Pausing twice changes nothing.
pub proof fn law_pause_toggles(control: Control)
    ensures
        control.after(Route::Pause).paused != control.paused,
        control.after(Route::Pause).after(Route::Pause) == control,
{
}

/// A restart asked for is handed out once, with the percentage last set; the
/// pause stays as it is.
pub proof fn law_set_asks_for_restart(control: Control, percent: u64)
    ensures
        control.after(Route::Informed(percent)).restart,
        control.after(Route::Informed(percent)).informed_pct == percent,
        control.after(Route::Informed(percent)).paused == control.paused,
        control.after(Route::Informed(percent)).restarted().0 == Some(percent),
        control.restarted().1.restarted().0 is None,
        control.restarted().1.paused == control.paused,
        control.restarted().1.informed_pct == control.informed_pct,
        control.restarted().0 is Some <==> control.restart,
{
}

} // verus!
