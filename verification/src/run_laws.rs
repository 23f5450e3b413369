//! What the curve, the account and the calls of a run are made of.
use vstd::prelude::*;

use crate::account::{law_fills_are_exact, Account};
use crate::events::Event;
use crate::sim::{
    answers, booked, completed, involves, is_strategy, law_drawdown_is_largest_fall, ran,
    safe_script, tellings, Call, Ledger, Report, SimConfig, SimState,
};
use crate::sim_laws::lemma_script_steps;
use crate::strategy::{Action, Strategy};
use crate::types::{OrderId, Price, Qty, Side};
use crate::wire::Msg;

verus! {

/// The place of the next sample of a curve whose samples lie `every` apart.
proof fn lemma_next_sample(len: int, every: int, step: int)
    requires
        every > 0,
        len >= 0,
        step >= 0,
        len * every >= step,
        len > 0 ==> (len - 1) * every < step,
    ensures
        step % every == 0 ==> step == len * every,
        step % every != 0 ==> len * every >= step + 1,
        (len + 1) * every >= step + 1,
{
    let q = step / every;
    assert(step == q * every + step % every && q >= 0) by (nonlinear_arith)
        requires
            every > 0,
            step >= 0,
            q == step / every,
    ;
    assert((len + 1) * every == len * every + every) by (nonlinear_arith);
    assert((len - 1) * every == len * every - every) by (nonlinear_arith);
    if step % every == 0 {
        assert(q <= len) by (nonlinear_arith)
            requires
                every > 0,
                q * every <= len * every,
        ;
        if len > 0 {
            assert(q > len - 1) by (nonlinear_arith)
                requires
                    every > 0,
                    q * every > (len - 1) * every,
            ;
        }
    } else if len * every == step {
        assert((len * every) % every == 0) by (nonlinear_arith)
            requires
                every > 0,
        ;
    }
}

/// Actions change neither the curve nor the mark.
proof fn lemma_acts_keep_curve(state: SimState, actions: Seq<Action>)
    ensures
        state.acts(actions).curve == state.curve,
        state.acts(actions).last_mark == state.last_mark,
        state.acts(actions).step == state.step,
        state.acts(actions).flow == state.flow,
        state.acts(actions).next_id == state.next_id,
    decreases actions.len(),
{
    if actions.len() > 0 {
        lemma_acts_keep_curve(state, actions.drop_last());
    }
}

/// A step whose number is a multiple of the sample interval, and only such a
/// step, marks the position and puts one entry on the curve: the number of the
/// step itself, with the equity of the account after the step at the new mark.
/// The mark is the mid of the book after the step, or the last trade where a
/// side is empty, or what it was where nothing has traded.
pub proof fn law_samples_mark_at_the_mid(
    state: SimState,
    cfg: SimConfig,
    actions: Seq<Action>,
    next_after: OrderId,
)
    requires
        cfg.sample_every > 0,
        state.step < u64::MAX,
        state.step_safe(cfg, actions, next_after),
    ensures
        ({
            let after = state.stepped(cfg, actions, next_after);
            let due = exists|k: int| #[trigger] (k * cfg.sample_every) == state.step;
            &&& after.step == state.step + 1
            &&& due ==> {
                &&& after.last_mark == (match after.mid() {
                    Some(mid) => mid,
                    None => state.last_mark,
                })
                &&& after.curve.len() == state.curve.len() + 1
                &&& state.curve.is_prefix_of(after.curve)
                &&& after.curve.last().0 == state.step
                &&& after.curve.last().1 == after.account.worth(after.last_mark)
            }
            &&& !due ==> after.last_mark == state.last_mark && after.curve == state.curve
        }),
{
    let told = state.consulted(cfg, actions, next_after);
    lemma_acts_keep_curve(told, actions);
    let after = state.stepped(cfg, actions, next_after);
    let s = state.step as int;
    let e = cfg.sample_every as int;
    if s % e == 0 {
        assert((s / e) * e == s) by (nonlinear_arith)
            requires
                e > 0,
                s % e == 0,
        ;
        assert((s / e) * cfg.sample_every == state.step);
        assert(after.curve.take(state.curve.len() as int) =~= state.curve);
    } else {
        assert forall|k: int| #[trigger] (k * cfg.sample_every) == state.step implies false by {
            assert((k * e) % e == 0) by (nonlinear_arith)
                requires
                    e > 0,
            ;
        }
    }
}

/// What the `k`-th sample of a script has to be: taken at step `k` times the
/// sample interval, of the account as it is after that step, at the mark then.
pub open spec fn samples(
    cfg: SimConfig,
    script: Seq<(Seq<Action>, OrderId)>,
    k: int,
    sample: (u64, i128),
) -> bool {
    let step = k * cfg.sample_every;
    let then = SimState::scripted(cfg, script.take(step + 1));
    &&& sample.0 == step
    &&& 0 <= step < script.len()
    &&& sample.1 == then.account.worth(then.last_mark)
}

/// The curve of a simulation has one entry for each step whose number is a
/// multiple of the sample interval, in order: entry `k` is of step `k` times
/// the interval, with the equity of the account after that step at the mark of
/// that step.
pub proof fn law_curve_samples_every_interval(
    cfg: SimConfig,
    script: Seq<(Seq<Action>, OrderId)>,
)
    requires
        cfg.sample_every > 0,
        script.len() <= u64::MAX,
        safe_script(cfg, script),
    ensures
        ({
            let curve = SimState::scripted(cfg, script).curve;
            &&& curve.len() * cfg.sample_every >= script.len()
            &&& curve.len() > 0 ==> (curve.len() - 1) * cfg.sample_every < script.len()
            &&& forall|k: int|
                0 <= k < curve.len() ==> samples(cfg, script, k, #[trigger] curve[k])
        }),
    decreases script.len(),
{
    let e = cfg.sample_every as int;
    if script.len() == 0 {
        assert(0 * e == 0);
    } else {
        let front = script.drop_last();
        let (actions, next_after) = script.last();
        let state = SimState::scripted(cfg, front);
        let after = SimState::scripted(cfg, script);
        let len = state.curve.len() as int;
        law_curve_samples_every_interval(cfg, front);
        lemma_script_steps(cfg, front);
        law_samples_mark_at_the_mid(state, cfg, actions, next_after);
        let s = state.step as int;
        lemma_next_sample(len, e, s);
        if s % e == 0 {
            assert(len * cfg.sample_every == state.step);
        } else {
            assert forall|k: int| #[trigger] (k * cfg.sample_every) == state.step implies false by {
                assert((k * e) % e == 0) by (nonlinear_arith)
                    requires
                        e > 0,
                ;
            }
            if len > 0 {
                assert(front.len() < script.len());
            }
        }
        assert forall|k: int| 0 <= k < after.curve.len() implies samples(
            cfg,
            script,
            k,
            #[trigger] after.curve[k],
        ) by {
            if k < len {
                assert(after.curve.take(len)[k] == after.curve[k]);
                assert(samples(cfg, front, k, state.curve[k]));
                assert(script.take(k * e + 1) =~= front.take(k * e + 1));
            } else {
                assert(k == len);
                assert(script.take(k * e + 1) =~= script);
            }
        }
    }
}

/// A report's curve has one sample for each multiple of the sample interval
/// below the number of steps, taken at that step, and then the final equity at
/// the number of steps. Its drawdown is the largest fall along that curve.
pub proof fn law_reports_sample_every_interval<S: Strategy>(
    cfg: SimConfig,
    before: S,
    after: S,
    report: Report,
) -> (script: Seq<(Seq<Action>, OrderId)>)
    requires
        cfg.sample_every > 0,
        ran(cfg, before, after, Some(report)),
    ensures
        completed(cfg, before, script, after, &report),
        report.steps == cfg.steps,
        report.return_ticklots == report.final_equity,
        ({
            let curve = report.equity_curve@;
            let n = curve.len() - 1;
            &&& n >= 0
            &&& n * cfg.sample_every >= cfg.steps
            &&& n > 0 ==> (n - 1) * cfg.sample_every < cfg.steps
            &&& curve[n] == (cfg.steps, report.final_equity)
            &&& forall|k: int| 0 <= k < n ==> samples(cfg, script, k, #[trigger] curve[k])
            &&& report.max_drawdown_ticklots >= 0
            &&& forall|i: int, j: int|
                0 <= i <= j < curve.len() ==> (#[trigger] curve[i]).1 - (#[trigger] curve[j]).1
                    <= report.max_drawdown_ticklots
            &&& report.max_drawdown_ticklots > 0 ==> exists|i: int, j: int|
                0 <= i <= j < curve.len() && (#[trigger] curve[i]).1 - (#[trigger] curve[j]).1
                    == report.max_drawdown_ticklots
        }),
{
    let script = choose|script: Seq<(Seq<Action>, OrderId)>| #[trigger]
        completed(cfg, before, script, after, &report);
    law_curve_samples_every_interval(cfg, script);
    law_drawdown_is_largest_fall(report.equity_curve@);
    let end = SimState::scripted(cfg, script);
    let curve = report.equity_curve@;
    assert forall|k: int| 0 <= k < curve.len() - 1 implies samples(
        cfg,
        script,
        k,
        #[trigger] curve[k],
    ) by {
        assert(curve[k] == end.curve[k]);
    }
    script
}

/// The strategy's orders are those with ids from 2^40 on. It is told of an
/// event exactly if the event is of such an order or, in a trade, one of the
/// two orders is; it is told of several events one by one, in order.
pub proof fn law_strategy_is_told_of_its_orders(ev: Event, a: Seq<Event>, b: Seq<Event>)
    ensures
        tellings(Seq::empty()).len() == 0,
        tellings(a + b) == tellings(a) + tellings(b),
        ({
            let ours = match ev {
                Event::Trade { maker, taker, .. } => maker >= 1_099_511_627_776 || taker
                    >= 1_099_511_627_776,
                Event::Accepted { id } => id >= 1_099_511_627_776,
                Event::Canceled { id, .. } => id >= 1_099_511_627_776,
                Event::Replaced { id } => id >= 1_099_511_627_776,
                Event::Rejected { id, .. } => id >= 1_099_511_627_776,
            };
            tellings(seq![ev]) == if ours {
                seq![Call::Hear { ev }]
            } else {
                Seq::empty()
            }
        }),
    decreases b.len(),
{
    assert(seq![ev].drop_last() =~= Seq::empty());
    assert(tellings(seq![ev].drop_last()) == Seq::<Call>::empty());
    assert(tellings(seq![ev]) =~= if involves(ev) {
        seq![Call::Hear { ev }]
    } else {
        Seq::empty()
    });
    if b.len() == 0 {
        assert(a + b =~= a);
        assert(tellings(a) + tellings(b) =~= tellings(a));
    } else {
        law_strategy_is_told_of_its_orders(ev, a, b.drop_last());
        assert((a + b).drop_last() =~= a + b.drop_last());
        assert(tellings(a + b) =~= tellings(a) + tellings(b));
    }
}

/// Lots of a trade that an order of the strategy adds to the position, given
/// its side: what it buys, less what it sells, and none if it is not its order.
pub open spec fn lots_in(sides: Map<OrderId, Side>, id: OrderId, qty: Qty) -> int {
    if id < 1_099_511_627_776 {
        0
    } else if sides[id] == Side::Bid {
        qty as int
    } else {
        -qty
    }
}

/// A trade is booked once for each of its two orders that is the strategy's:
/// the position moves by the lots on that order's side, the cash by as many
/// lots against it at the price of the trade, and every such order is one
/// fill. The price becomes the last trade. Other events book nothing.
pub proof fn law_trades_are_booked(ledger: Ledger, sides: Map<OrderId, Side>, ev: Event)
    requires
        ledger.can_route_one(sides, ev),
    ensures
        ({
            let after = ledger.route_one(sides, ev);
            match ev {
                Event::Trade { maker, taker, price, qty } => {
                    let lots = lots_in(sides, maker, qty) + lots_in(sides, taker, qty);
                    &&& after.last_trade == Some(price)
                    &&& after.account.position - ledger.account.position == lots
                    &&& after.account.cash - ledger.account.cash == -(price * lots)
                    &&& after.account.fills - ledger.account.fills == (if maker
                        >= 1_099_511_627_776 {
                        1int
                    } else {
                        0
                    }) + (if taker >= 1_099_511_627_776 {
                        1int
                    } else {
                        0
                    })
                },
                _ => after == ledger,
            }
        }),
{
    if let Event::Trade { maker, taker, price, qty } = ev {
        let p = price as int;
        let q = qty as int;
        assert(p * (0 + 0) == 0) by (nonlinear_arith);
        assert(p * (q + 0) == p * q) by (nonlinear_arith);
        assert(p * (-q + 0) == -(p * q)) by (nonlinear_arith);
        assert(p * (q + q) == p * q + p * q) by (nonlinear_arith);
        assert(p * (-q + -q) == -(p * q) - p * q) by (nonlinear_arith);
        assert(p * (q + -q) == 0) by (nonlinear_arith);
        assert(p * (-q + q) == 0) by (nonlinear_arith);
        if is_strategy(maker) {
            law_fills_are_exact(ledger.account, sides[maker], price, qty);
        }
        let half = booked(ledger.account, sides, maker, price, qty);
        if is_strategy(taker) {
            law_fills_are_exact(half, sides[taker], price, qty);
        }
    }
}

/// Events are booked one by one, in order: booking some and then more is
/// booking them all.
pub proof fn law_events_are_booked_in_order(
    ledger: Ledger,
    sides: Map<OrderId, Side>,
    a: Seq<Event>,
    b: Seq<Event>,
    ev: Event,
)
    ensures
        ledger.routed(sides, a + b) == ledger.routed(sides, a).routed(sides, b),
        ledger.can_route(sides, a + b) == (ledger.can_route(sides, a) && ledger.routed(
            sides,
            a,
        ).can_route(sides, b)),
        ledger.routed(sides, seq![ev]) == ledger.route_one(sides, ev),
        ledger.can_route(sides, seq![ev]) == ledger.can_route_one(sides, ev),
    decreases b.len(),
{
    assert(seq![ev].drop_last() =~= Seq::empty());
    assert(ledger.routed(sides, seq![ev].drop_last()) == ledger);
    assert(ledger.can_route(sides, seq![ev].drop_last()));
    if b.len() == 0 {
        assert(a + b =~= a);
    } else {
        law_events_are_booked_in_order(ledger, sides, a, b.drop_last(), ev);
        assert((a + b).drop_last() =~= a + b.drop_last());
    }
}

/// Sum over the trades that the strategy was told of, once for each of its
/// orders in the trade.
pub open spec fn heard(calls: Seq<Call>, weight: spec_fn(Price, Qty) -> int) -> int
    decreases calls.len(),
{
    if calls.len() == 0 {
        0
    } else {
        let front = heard(calls.drop_last(), weight);
        match calls.last() {
            Call::Hear { ev: Event::Trade { maker, taker, price, qty } } => front + (if maker
                >= 1_099_511_627_776 {
                weight(price, qty)
            } else {
                0
            }) + (if taker >= 1_099_511_627_776 {
                weight(price, qty)
            } else {
                0
            }),
            _ => front,
        }
    }
}

/// Weight of a trade in the number of fills.
pub open spec fn one_fill() -> spec_fn(Price, Qty) -> int {
    |price: Price, qty: Qty| 1
}

/// Weight of a trade in the lots traded.
pub open spec fn its_lots() -> spec_fn(Price, Qty) -> int {
    |price: Price, qty: Qty| qty as int
}

/// Weight of a trade in the money moved.
pub open spec fn its_money() -> spec_fn(Price, Qty) -> int {
    |price: Price, qty: Qty| price * qty
}

proof fn lemma_heard_concat(a: Seq<Call>, b: Seq<Call>, weight: spec_fn(Price, Qty) -> int)
    ensures
        heard(a + b, weight) == heard(a, weight) + heard(b, weight),
    decreases b.len(),
{
    if b.len() == 0 {
        assert(a + b =~= a);
    } else {
        lemma_heard_concat(a, b.drop_last(), weight);
        assert((a + b).drop_last() =~= a + b.drop_last());
    }
}

/// What an account has counted is what the calls tell of.
pub open spec fn accounts_for(account: Account, calls: Seq<Call>) -> bool {
    &&& account.fills == heard(calls, one_fill())
    &&& account.traded_lots == heard(calls, its_lots())
    &&& account.bought_notional + account.sold_notional == heard(calls, its_money())
}

proof fn lemma_routing_accounts(
    ledger: Ledger,
    sides: Map<OrderId, Side>,
    events: Seq<Event>,
    calls: Seq<Call>,
)
    requires
        ledger.can_route(sides, events),
        accounts_for(ledger.account, calls),
    ensures
        accounts_for(ledger.routed(sides, events).account, calls + tellings(events)),
    decreases events.len(),
{
    let told = tellings(events);
    if events.len() == 0 {
        assert(calls + told =~= calls);
    } else {
        let front = events.drop_last();
        lemma_routing_accounts(ledger, sides, front, calls);
        let at = ledger.routed(sides, front);
        let ev = events.last();
        if involves(ev) {
            assert((calls + told).drop_last() =~= calls + tellings(front));
            assert((calls + told).last() == Call::Hear { ev });
        } else {
            assert(told == tellings(front));
        }
        if let Event::Trade { maker, taker, price, qty } = ev {
            if is_strategy(maker) {
                law_fills_are_exact(at.account, sides[maker], price, qty);
            }
            let half = booked(at.account, sides, maker, price, qty);
            if is_strategy(taker) {
                law_fills_are_exact(half, sides[taker], price, qty);
            }
        }
    }
}

proof fn lemma_exchange_accounts(state: SimState, msg: Msg)
    requires
        state.exchange_safe(msg),
        accounts_for(state.account, state.calls),
    ensures
        accounts_for(state.exchanged(msg).account, state.exchanged(msg).calls),
{
    lemma_routing_accounts(
        state.ledger(),
        state.sides,
        state.book.apply(msg).events,
        state.calls,
    );
}

proof fn lemma_acts_account(state: SimState, actions: Seq<Action>)
    requires
        state.acts_safe(actions),
        accounts_for(state.account, state.calls),
    ensures
        accounts_for(state.acts(actions).account, state.acts(actions).calls),
    decreases actions.len(),
{
    if actions.len() > 0 {
        let front = actions.drop_last();
        lemma_acts_account(state, front);
        lemma_exchange_accounts(
            state.acts(front).noted(actions.last()),
            actions.last().request(),
        );
    }
}

/// The account has exactly the fills that the strategy was told of: their
/// number, their lots and the money they moved, counted once for each of its
/// orders in a trade.
pub proof fn law_account_has_the_fills_told_of(
    cfg: SimConfig,
    script: Seq<(Seq<Action>, OrderId)>,
)
    requires
        safe_script(cfg, script),
    ensures
        accounts_for(
            SimState::scripted(cfg, script).account,
            SimState::scripted(cfg, script).calls,
        ),
    decreases script.len(),
{
    if script.len() > 0 {
        let front = script.drop_last();
        let (actions, next_after) = script.last();
        let state = SimState::scripted(cfg, front);
        law_account_has_the_fills_told_of(cfg, front);
        let (msg, flow) = state.flow.next_op(state.mid(), cfg.informed_pct);
        lemma_exchange_accounts(SimState { flow, events: Seq::empty(), ..state }, msg);
        let b = state.background(cfg);
        if cfg.awake(state.step) {
            let told = b.asked(actions, next_after);
            assert(told.calls.drop_last() =~= b.calls);
            lemma_acts_account(told, actions);
        }
    }
}

/// The strategy wakes from the end of the warm-up on, at the steps whose
/// numbers are multiples of the wake interval, and at no others.
pub proof fn law_wake_ups_keep_the_interval(cfg: SimConfig, step: u64)
    requires
        cfg.wake_every > 0,
    ensures
        cfg.awake(step) <==> step >= cfg.warmup && exists|k: int| #[trigger]
            (k * cfg.wake_every) == step,
{
    let s = step as int;
    let e = cfg.wake_every as int;
    if s % e == 0 {
        assert((s / e) * e == s) by (nonlinear_arith)
            requires
                e > 0,
                s % e == 0,
        ;
        assert((s / e) * cfg.wake_every == step);
    } else {
        assert forall|k: int| #[trigger] (k * cfg.wake_every) == step implies false by {
            assert((k * e) % e == 0) by (nonlinear_arith)
                requires
                    e > 0,
            ;
        }
    }
}

/// A simulation starts with an empty book and a flat account, with the flow
/// at its seed and mid, marked at that mid, before its first step, with the
/// first of the strategy's ids free and no call made.
pub proof fn law_simulation_starts_flat(cfg: SimConfig, id: OrderId)
    ensures
        ({
            let start = SimState::start(cfg);
            &&& !start.book.holds(id) && start.sides.dom().is_empty()
            &&& start.flow.rng == cfg.seed && start.flow.mid == cfg.start_mid
            &&& start.flow.live.len() == 0 && start.flow.next_id == 1
            &&& start.account.position == 0 && start.account.cash == 0
            &&& start.account.fills == 0 && start.account.traded_lots == 0
            &&& start.last_trade is None && start.last_mark == cfg.start_mid
            &&& start.next_id == 1_099_511_627_776
            &&& start.step == 0 && start.calls.len() == 0 && start.curve.len() == 0
        }),
{
    assert forall|side: Side, price: Price, i: int| !(
    #[trigger] SimState::start(cfg).book.sits_at(id, side, price, i)) by {}
}

/// Every message goes through the matching engine, whoever sends it: the
/// exchange's book becomes what the message makes of it, all of its events are
/// booked, recorded and, where they concern the strategy, forwarded.
pub proof fn law_messages_reach_the_engine(state: SimState, msg: Msg)
    ensures
        ({
            let after = state.exchanged(msg);
            let events = state.book.apply(msg).events;
            &&& after.book == state.book.apply(msg).book
            &&& after.events == state.events + events
            &&& after.calls == state.calls + tellings(events)
            &&& after.ledger() == state.ledger().routed(state.sides, events)
            &&& after.flow == state.flow && after.step == state.step
            &&& after.curve == state.curve && after.last_mark == state.last_mark
            &&& after.next_id == state.next_id
        }),
{
}

/// The side of an order that the strategy submits is noted before the order
/// goes to the exchange, and forgotten when one of its own orders is reported
/// canceled; no other side changes.
pub proof fn law_sides_are_kept_while_needed(state: SimState, action: Action, id: OrderId)
    ensures
        ({
            let before = match action {
                Action::Limit { id: x, side, .. } => state.sides.insert(x, side),
                Action::Market { id: x, side, .. } => state.sides.insert(x, side),
                _ => state.sides,
            };
            let events = state.book.apply(action.request()).events;
            let after = state.acted(action).sides;
            &&& state.noted(action).sides == before
            &&& state.noted(action) == (SimState { sides: before, ..state })
            &&& after.contains_key(id) <==> before.contains_key(id) && !(id >= 1_099_511_627_776
                && exists|i: int|
                0 <= i < events.len() && (#[trigger] events[i] matches Event::Canceled {
                    id: x,
                    ..
                } && x == id))
            &&& after.contains_key(id) ==> after[id] == before[id]
        }),
{
}

/// In a step the background message comes first, priced off the mid of the
/// book before it; the strategy, where it wakes, sees the book, the last trade
/// and its own position and cash after that message, and its actions follow
/// in order. A sleeping strategy's answer does not matter.
pub proof fn law_strategy_sees_the_book_after_the_flow(
    state: SimState,
    cfg: SimConfig,
    actions: Seq<Action>,
    next_after: OrderId,
    other: Seq<Action>,
    other_after: OrderId,
)
    ensures
        ({
            let (msg, flow) = state.flow.next_op(state.mid(), cfg.informed_pct);
            let b = state.background(cfg);
            let after = state.stepped(cfg, actions, next_after);
            let told = state.consulted(cfg, actions, next_after);
            &&& b.book == state.book.apply(msg).book
            &&& b.events == state.book.apply(msg).events
            &&& b.flow == flow && after.flow == flow
            &&& b.ledger() == state.ledger().routed(state.sides, b.events)
            &&& b.calls == state.calls + tellings(b.events)
            &&& told.book == b.book && told.events == b.events && told.sides == b.sides
            &&& told.ledger() == b.ledger() && told.flow == b.flow
            &&& cfg.awake(state.step) ==> {
                &&& told.calls.last() matches Call::Wake {
                    sight,
                    next_id,
                    actions: given,
                    next_after: left,
                } && {
                    &&& sight.book == b.book && sight.step == state.step
                    &&& sight.last_trade == b.last_trade
                    &&& sight.position == b.account.position && sight.cash == b.account.cash
                    &&& next_id == state.next_id
                    &&& given == actions && left == next_after
                }
                &&& after.book == told.acts(actions).book
                &&& after.events == told.acts(actions).events
                &&& after.ledger() == told.acts(actions).ledger()
                &&& after.sides == told.acts(actions).sides
                &&& after.calls == told.acts(actions).calls
                &&& after.next_id == next_after
            }
            &&& !cfg.awake(state.step) ==> {
                &&& after == state.stepped(cfg, other, other_after)
                &&& after.book == b.book && after.events == b.events
                &&& after.ledger() == b.ledger() && after.sides == b.sides
                &&& after.calls == b.calls
                &&& after.next_id == state.next_id
            }
        }),
{
    lemma_acts_keep_curve(state.consulted(cfg, actions, next_after), actions);
    assert(Seq::<Event>::empty() + state.book.apply(
        state.flow.next_op(state.mid(), cfg.informed_pct).0,
    ).events =~= state.book.apply(state.flow.next_op(state.mid(), cfg.informed_pct).0).events);
}

/// The strategy's actions are carried out one by one, in order, each in the
/// book that the one before it left.
pub proof fn law_actions_follow_each_other(
    state: SimState,
    a: Seq<Action>,
    b: Seq<Action>,
    action: Action,
)
    ensures
        state.acts(Seq::empty()) == state,
        state.acts(seq![action]) == state.acted(action),
        state.acted(action).book == state.book.apply(action.request()).book,
        state.acts(a + b) == state.acts(a).acts(b),
        state.acts_safe(a + b) == (state.acts_safe(a) && state.acts(a).acts_safe(b)),
        state.acts_safe(seq![action]) == state.act_safe(action),
    decreases b.len(),
{
    assert(seq![action].drop_last() =~= Seq::empty());
    assert(state.acts(seq![action].drop_last()) == state);
    assert(state.acts_safe(seq![action].drop_last()));
    if b.len() == 0 {
        assert(a + b =~= a);
    } else {
        law_actions_follow_each_other(state, a, b.drop_last(), action);
        assert((a + b).drop_last() =~= a + b.drop_last());
    }
}

/// A report sums up the account that the run ended with, after a safe script of
/// one answer per step whose calls the strategy answered: the fills and lots
/// that it was told of, what it bought and sold, its position, and
/// its equity at the last mark.
pub proof fn law_reports_sum_up_the_run<S: Strategy>(
    cfg: SimConfig,
    before: S,
    after: S,
    report: Report,
) -> (script: Seq<(Seq<Action>, OrderId)>)
    requires
        ran(cfg, before, after, Some(report)),
    ensures
        completed(cfg, before, script, after, &report),
        script.len() == cfg.steps,
        safe_script(cfg, script),
        answers(before, SimState::scripted(cfg, script).calls, after),
        ({
            let end = SimState::scripted(cfg, script);
            &&& report.fills == heard(end.calls, one_fill())
            &&& report.traded_lots == heard(end.calls, its_lots())
            &&& report.bought_notional + report.sold_notional == heard(end.calls, its_money())
            &&& report.bought_lots == end.account.bought_lots
            &&& report.sold_lots == end.account.sold_lots
            &&& report.bought_notional == end.account.bought_notional
            &&& report.sold_notional == end.account.sold_notional
            &&& report.final_position == end.account.position
            &&& report.final_equity == end.account.cash + end.account.position * end.last_mark
            &&& report.return_ticklots == report.final_equity
        }),
{
    let script = choose|script: Seq<(Seq<Action>, OrderId)>| #[trigger]
        completed(cfg, before, script, after, &report);
    law_account_has_the_fills_told_of(cfg, script);
    script
}

/// A simulation can be reported on unless a number of the report has no room:
/// the final equity, or a fall of the equity from a point of the curve to a
/// later one.
pub proof fn law_report_is_refused_only_for_want_of_room(state: SimState, cfg: SimConfig)
    ensures
        state.reportable(cfg) <==> {
            let curve = state.final_curve(cfg);
            &&& i128::MIN <= state.account.worth(state.last_mark) <= i128::MAX
            &&& forall|i: int, j: int|
                0 <= i <= j < curve.len() ==> (#[trigger] curve[i]).1 - (#[trigger] curve[j]).1
                    <= i128::MAX
        },
{
    law_drawdown_is_largest_fall(state.final_curve(cfg));
}

/// A step is safe unless something in it has no room: the next message of the
/// flow, its order in the book, its fills in the account; an action's order or
/// its fills; or the equity, where it is sampled. A side that was noted is
/// enough for a fill to be booked.
pub proof fn law_step_fails_only_for_want_of_room(
    state: SimState,
    cfg: SimConfig,
    actions: Seq<Action>,
    next_after: OrderId,
)
    requires
        cfg.sample_every > 0,
    ensures
        state.step_safe(cfg, actions, next_after) <==> {
            let (msg, flow) = state.flow.next_op(state.mid(), cfg.informed_pct);
            let told = state.consulted(cfg, actions, next_after);
            let done = if cfg.awake(state.step) {
                told.acts(actions)
            } else {
                told
            };
            &&& state.flow.can_next_op(state.mid(), cfg.informed_pct)
            &&& state.book.fits(msg)
            &&& state.ledger().can_route(state.sides, state.book.apply(msg).events)
            &&& cfg.awake(state.step) ==> forall|k: int|
                0 <= k < actions.len() ==> {
                    let at = #[trigger] told.acts(actions.take(k));
                    let request = actions[k].request();
                    &&& at.book.fits(request)
                    &&& at.ledger().can_route(
                        at.noted(actions[k]).sides,
                        at.book.apply(request).events,
                    )
                }
            &&& (exists|k: int| #[trigger] (k * cfg.sample_every) == state.step) ==> {
                i128::MIN <= done.account.worth(done.mark()) <= i128::MAX
            }
        },
{
    let told = state.consulted(cfg, actions, next_after);
    lemma_acts_safe_one_by_one(told, actions);
    lemma_acts_keep_curve(told, actions);
    let s = state.step as int;
    let e = cfg.sample_every as int;
    if s % e == 0 {
        assert((s / e) * e == s) by (nonlinear_arith)
            requires
                e > 0,
                s % e == 0,
        ;
        assert((s / e) * cfg.sample_every == state.step);
    } else {
        assert forall|k: int| #[trigger] (k * cfg.sample_every) == state.step implies false by {
            assert((k * e) % e == 0) by (nonlinear_arith)
                requires
                    e > 0,
            ;
        }
    }
}

/// Actions are safe where each of them is in its turn.
proof fn lemma_acts_safe_one_by_one(state: SimState, actions: Seq<Action>)
    ensures
        state.acts_safe(actions) <==> forall|k: int|
            0 <= k < actions.len() ==> {
                let at = #[trigger] state.acts(actions.take(k));
                let request = actions[k].request();
                &&& at.book.fits(request)
                &&& at.ledger().can_route(
                    at.noted(actions[k]).sides,
                    at.book.apply(request).events,
                )
            },
    decreases actions.len(),
{
    if actions.len() > 0 {
        let front = actions.drop_last();
        let n = front.len() as int;
        lemma_acts_safe_one_by_one(state, front);
        assert(actions.take(n) =~= front);
        assert(actions[n] == actions.last());
        assert forall|k: int| 0 <= k < n implies #[trigger] front.take(k) == actions.take(k) by {
            assert(front.take(k) =~= actions.take(k));
        }
        if state.acts_safe(actions) {
            assert forall|k: int| 0 <= k < actions.len() implies {
                let at = #[trigger] state.acts(actions.take(k));
                let request = actions[k].request();
                &&& at.book.fits(request)
                &&& at.ledger().can_route(
                    at.noted(actions[k]).sides,
                    at.book.apply(request).events,
                )
            } by {
                if k < n {
                    assert(front.take(k) == actions.take(k));
                    assert(front[k] == actions[k]);
                    let at = state.acts(front.take(k));
                }
            }
        } else {
            if state.acts_safe(front) {
                let at = state.acts(actions.take(n));
                assert(!state.acts(front).act_safe(actions.last()));
            } else {
                let k = choose|k: int|
                    0 <= k < front.len() && !({
                        let at = #[trigger] state.acts(front.take(k));
                        let request = front[k].request();
                        &&& at.book.fits(request)
                        &&& at.ledger().can_route(
                            at.noted(front[k]).sides,
                            at.book.apply(request).events,
                        )
                    });
                assert(front.take(k) == actions.take(k));
                assert(front[k] == actions[k]);
                let at = state.acts(actions.take(k));
            }
        }
    }
}

/// A fill of the strategy's order is booked where its side is noted and the
/// account has room for it; a trade in which it has no part always is.
pub proof fn law_fills_need_a_side_and_room(ledger: Ledger, sides: Map<OrderId, Side>, ev: Event)
    ensures
        ledger.can_route_one(sides, ev) <==> match ev {
            Event::Trade { maker, taker, price, qty } => {
                let half = if maker >= 1_099_511_627_776 {
                    ledger.account.filled(sides[maker], price, qty)
                } else {
                    ledger.account
                };
                &&& maker >= 1_099_511_627_776 ==> sides.contains_key(maker)
                    && ledger.account.can_fill(sides[maker], price, qty)
                &&& taker >= 1_099_511_627_776 ==> sides.contains_key(taker) && half.can_fill(
                    sides[taker],
                    price,
                    qty,
                )
            },
            _ => true,
        },
{
}

/// A script is played step by step: one more entry is one more step from where
/// the script ended, safe if that step is.
pub proof fn law_scripts_are_played_step_by_step(
    cfg: SimConfig,
    script: Seq<(Seq<Action>, OrderId)>,
    actions: Seq<Action>,
    next_after: OrderId,
)
    ensures
        SimState::scripted(cfg, Seq::empty()) == SimState::start(cfg),
        ({
            let at = SimState::scripted(cfg, script);
            let longer = script.push((actions, next_after));
            &&& SimState::scripted(cfg, longer) == at.stepped(cfg, actions, next_after)
            &&& safe_script(cfg, longer) <==> safe_script(cfg, script) && at.step_safe(
                cfg,
                actions,
                next_after,
            )
        }),
{
    let longer = script.push((actions, next_after));
    assert(longer.drop_last() =~= script);
    assert(longer.last() == (actions, next_after));
}

} // verus!
