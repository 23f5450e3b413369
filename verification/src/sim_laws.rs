//! What every simulation promises.
use vstd::prelude::*;

use crate::account::{balanced, law_books_balance, Account};
use crate::events::Event;
use crate::laws::{lemma_traded_last, traded};
use crate::lemmas::lemma_best;
use crate::model::{best, BookState};
use crate::requests::{
    law_cancel_keeps_book_valid, law_limit_keeps_book_valid, law_market_keeps_book_valid,
    law_market_never_rests, law_replace_keeps_book_valid, open_limit,
};
use crate::safety::law_messages_trade_with_resting_orders;
use crate::sim::{
    answered, answers, booked, completed, is_strategy, pruned, ran, safe_script, stopped,
    tellings, Call, Ledger, Report, SimConfig, SimState,
};
use crate::strategy::{Action, MarketMaker, Momentum, Sight, Strategy};
use crate::types::{OrderId, Price, Qty, Side};
use crate::wire::Msg;

verus! {

/// Every message keeps a book valid.
pub proof fn law_messages_keep_book_valid(book: BookState, msg: Msg)
    requires
        book.valid(),
    ensures
        book.apply(msg).book.valid(),
{
    match msg {
        Msg::New { id, side, price, qty, tif } => {
            law_limit_keeps_book_valid(book, id, side, price, qty, tif);
        },
        Msg::Cancel { id } => {
            law_cancel_keeps_book_valid(book, id);
        },
        Msg::Replace { id, price, qty } => {
            law_replace_keeps_book_valid(book, id, price, qty);
        },
        Msg::Market { id, side, qty } => {
            law_market_keeps_book_valid(book, id, side, qty);
        },
    }
}

/// The book is valid and the account balances.
pub open spec fn sound(state: SimState) -> bool {
    state.book.valid() && balanced(state.account)
}

proof fn lemma_routing_balances(ledger: Ledger, sides: Map<OrderId, Side>, events: Seq<Event>)
    requires
        ledger.can_route(sides, events),
        balanced(ledger.account),
    ensures
        balanced(ledger.routed(sides, events).account),
    decreases events.len(),
{
    if events.len() > 0 {
        let front = events.drop_last();
        lemma_routing_balances(ledger, sides, front);
        let at = ledger.routed(sides, front);
        match events.last() {
            Event::Trade { maker, taker, price, qty } => {
                if is_strategy(maker) {
                    law_books_balance(at.account, sides[maker], price, qty);
                }
                let half = booked(at.account, sides, maker, price, qty);
                if is_strategy(taker) {
                    law_books_balance(half, sides[taker], price, qty);
                }
            },
            _ => {},
        }
    }
}

proof fn lemma_exchange_sound(state: SimState, msg: Msg)
    requires
        sound(state),
        state.exchange_safe(msg),
    ensures
        sound(state.exchanged(msg)),
{
    law_messages_keep_book_valid(state.book, msg);
    lemma_routing_balances(state.ledger(), state.sides, state.book.apply(msg).events);
}

proof fn lemma_background_sound(state: SimState, cfg: SimConfig)
    requires
        sound(state),
        state.background_safe(cfg),
    ensures
        sound(state.background(cfg)),
{
    let (msg, flow) = state.flow.next_op(state.mid(), cfg.informed_pct);
    lemma_exchange_sound(SimState { flow, events: Seq::empty(), ..state }, msg);
}

proof fn lemma_acts_sound(state: SimState, actions: Seq<Action>)
    requires
        sound(state),
        state.acts_safe(actions),
    ensures
        sound(state.acts(actions)),
    decreases actions.len(),
{
    if actions.len() > 0 {
        let front = actions.drop_last();
        lemma_acts_sound(state, front);
        let at = state.acts(front);
        lemma_exchange_sound(at.noted(actions.last()), actions.last().request());
    }
}

/// Whatever the strategy answers, the exchange's book stays valid and the
/// strategy's account balances: the position is the lots bought less the lots
/// sold, and the cash what sales brought less what purchases cost.
pub proof fn law_simulation_keeps_its_books(
    cfg: SimConfig,
    script: Seq<(Seq<Action>, OrderId)>,
)
    requires
        safe_script(cfg, script),
    ensures
        sound(SimState::scripted(cfg, script)),
    decreases script.len(),
{
    if script.len() == 0 {
        let start = SimState::start(cfg);
        assert(start.book.valid()) by {
            assert forall|side: crate::types::Side, price: Price, i: int| !(
            #[trigger] start.book.has(side, price, i)) by {}
        }
    } else {
        let front = script.drop_last();
        let state = SimState::scripted(cfg, front);
        let (actions, next_after) = script.last();
        law_simulation_keeps_its_books(cfg, front);
        lemma_background_sound(state, cfg);
        let told = state.consulted(cfg, actions, next_after);
        if cfg.awake(state.step) {
            lemma_acts_sound(told, actions);
        }
    }
}

proof fn lemma_routing_without_orders(
    ledger: Ledger,
    sides: Map<OrderId, Side>,
    events: Seq<Event>,
)
    requires
        ledger.can_route(sides, events),
        sides =~= Map::empty(),
    ensures
        ledger.routed(sides, events).account == ledger.account,
    decreases events.len(),
{
    if events.len() > 0 {
        lemma_routing_without_orders(ledger, sides, events.drop_last());
    }
}

/// Every trade among the events is one of the strategy's order `id` with
/// somebody else's, at no better price for it than `price`.
pub open spec fn fills_no_better(
    events: Seq<Event>,
    id: OrderId,
    side: Side,
    price: Price,
) -> bool {
    forall|i: int|
        0 <= i < events.len() ==> match #[trigger] events[i] {
            Event::Trade { maker, taker, price: at, .. } => {
                &&& taker == id
                &&& !is_strategy(maker)
                &&& side == Side::Bid ==> at >= price
                &&& side == Side::Ask ==> at <= price
            },
            _ => true,
        }
}

/// An order that fills at no better price than `price` moves the position by
/// its fills, and the cash at least as much against the strategy as at that
/// price.
proof fn lemma_fills_cost(
    ledger: Ledger,
    sides: Map<OrderId, Side>,
    events: Seq<Event>,
    id: OrderId,
    price: Price,
)
    requires
        is_strategy(id),
        sides.contains_key(id),
        ledger.can_route(sides, events),
        fills_no_better(events, id, sides[id], price),
    ensures
        ({
            let after = ledger.routed(sides, events).account;
            let lots = traded(events) as int;
            match sides[id] {
                Side::Bid => {
                    &&& after.position == ledger.account.position + lots
                    &&& after.cash <= ledger.account.cash - price * lots
                },
                Side::Ask => {
                    &&& after.position == ledger.account.position - lots
                    &&& after.cash <= ledger.account.cash + price * lots
                },
            }
        }),
    decreases events.len(),
{
    let c = price as int;
    if events.len() == 0 {
        assert(traded(events) == 0);
        assert(c * 0 == 0);
    } else {
        let front = events.drop_last();
        let before = traded(front) as int;
        lemma_traded_last(events);
        assert(fills_no_better(front, id, sides[id], price)) by {
            assert forall|i: int| 0 <= i < front.len() implies match #[trigger] front[i] {
                Event::Trade { maker, taker, price: at, .. } => {
                    &&& taker == id
                    &&& !is_strategy(maker)
                    &&& sides[id] == Side::Bid ==> at >= price
                    &&& sides[id] == Side::Ask ==> at <= price
                },
                _ => true,
            } by {
                assert(front[i] == events[i]);
            }
        }
        lemma_fills_cost(ledger, sides, front, id, price);
        assert(events[events.len() - 1] == events.last());
        if let Event::Trade { price: at, qty, .. } = events.last() {
            let p = at as int;
            let q = qty as int;
            assert(c * (before + q) == c * before + c * q) by (nonlinear_arith);
            assert(p >= c ==> p * q >= c * q) by (nonlinear_arith)
                requires
                    q >= 0,
            ;
            assert(p <= c ==> p * q <= c * q) by (nonlinear_arith)
                requires
                    q >= 0,
            ;
        }
    }
}

/// The fills of a market order in a book without orders of the strategy are at
/// no better price than any that separates the two sides.
proof fn lemma_market_fills(book: BookState, id: OrderId, side: Side, qty: Qty, price: Price)
    requires
        book.valid(),
        forall|x: OrderId| #[trigger] book.holds(x) ==> !is_strategy(x),
        forall|p: Price| #[trigger]
            book.queues(side.opposite()).contains_key(p) ==> match side {
                Side::Bid => p >= price,
                Side::Ask => p <= price,
            },
    ensures
        fills_no_better(book.market(id, side, qty).events, id, side, price),
{
    let msg = Msg::Market { id, side, qty };
    let events = book.market(id, side, qty).events;
    assert forall|i: int| 0 <= i < events.len() implies match #[trigger] events[i] {
        Event::Trade { maker, taker, price: at, .. } => {
            &&& taker == id
            &&& !is_strategy(maker)
            &&& side == Side::Bid ==> at >= price
            &&& side == Side::Ask ==> at <= price
        },
        _ => true,
    } by {
        law_messages_trade_with_resting_orders(book, msg, i);
        if let Event::Trade { maker, price: at, .. } = events[i] {
            let k = choose|k: int| #[trigger] book.sits_at(maker, side.opposite(), at, k);
            assert(book.holds(maker));
            assert(book.queues(side.opposite()).contains_key(at));
        }
    }
}

/// Crossing the spread twice cannot profit: a market order of the strategy and
/// then one of as many lots the other way, both filled whole over however many
/// levels, leave the position as it was and an equity no larger than before,
/// at every mark. `sides` and `later` are the sides noted when the one and the
/// other are booked.
pub proof fn law_market_round_trip_cannot_profit(
    book: BookState,
    ledger: Ledger,
    sides: Map<OrderId, Side>,
    later: Map<OrderId, Side>,
    first: Side,
    id: OrderId,
    back: OrderId,
    qty: Qty,
    mark: Price,
)
    requires
        book.valid(),
        is_strategy(id) && sides.contains_key(id) && sides[id] == first,
        is_strategy(back) && later.contains_key(back) && later[back] == first.opposite(),
        forall|x: OrderId| #[trigger] book.holds(x) ==> !is_strategy(x),
        ({
            let there = book.market(id, first, qty);
            let home = there.book.market(back, first.opposite(), qty);
            &&& traded(there.events) == qty
            &&& traded(home.events) == qty
            &&& ledger.can_route(sides, there.events)
            &&& ledger.routed(sides, there.events).can_route(later, home.events)
        }),
    ensures
        ({
            let there = book.market(id, first, qty);
            let home = there.book.market(back, first.opposite(), qty);
            let after = ledger.routed(sides, there.events).routed(later, home.events).account;
            &&& after.position == ledger.account.position
            &&& after.worth(mark) <= ledger.account.worth(mark)
        }),
{
    let second = first.opposite();
    let there = book.market(id, first, qty);
    let home = there.book.market(back, second, qty);
    let mid = ledger.routed(sides, there.events);
    law_market_keeps_book_valid(book, id, first, qty);
    law_market_never_rests(book, id, first, qty);
    lemma_best(book.queues(second), second);
    // Between the two sides lies the touch that the first order hits.
    let price: Price = match best(book.queues(second), second) {
        Some(p) => p,
        None => open_limit(first),
    };
    assert forall|p: Price| #[trigger] book.queues(second).contains_key(p) implies match first {
        Side::Bid => p >= price,
        Side::Ask => p <= price,
    } by {}
    assert forall|p: Price| #[trigger]
        there.book.queues(first).contains_key(p) implies match second {
        Side::Bid => p >= price,
        Side::Ask => p <= price,
    } by {
        assert(book.queues(first).contains_key(p));
        if let Some(q) = best(book.queues(second), second) {
            assert(book.queues(second).contains_key(q));
            match first {
                Side::Bid => {
                    assert(book.bids.contains_key(p) && book.asks.contains_key(q));
                },
                Side::Ask => {
                    assert(book.bids.contains_key(q) && book.asks.contains_key(p));
                },
            }
        }
    }
    lemma_market_fills(book, id, first, qty, price);
    lemma_market_fills(there.book, back, second, qty, price);
    lemma_fills_cost(ledger, sides, there.events, id, price);
    lemma_fills_cost(mid, later, home.events, back, price);
}

/// A strategy with nothing in the book that buys at market and sells as many
/// lots at market right away, or the other way round, cannot profit: its
/// position is what it was and its equity no larger, at every mark.
pub proof fn law_market_taker_pays_the_spread(
    state: SimState,
    first: Side,
    id: OrderId,
    back: OrderId,
    qty: Qty,
    mark: Price,
)
    requires
        state.book.valid(),
        is_strategy(id) && is_strategy(back),
        forall|x: OrderId| #[trigger] state.book.holds(x) ==> !is_strategy(x),
        ({
            let there = Action::Market { id, side: first, qty };
            let home = Action::Market { id: back, side: first.opposite(), qty };
            let mid = state.acted(there);
            &&& state.act_safe(there) && mid.act_safe(home)
            &&& traded(state.book.apply(there.request()).events) == qty
            &&& traded(mid.book.apply(home.request()).events) == qty
        }),
    ensures
        ({
            let there = Action::Market { id, side: first, qty };
            let home = Action::Market { id: back, side: first.opposite(), qty };
            let after = state.acted(there).acted(home).account;
            &&& after.position == state.account.position
            &&& after.worth(mark) <= state.account.worth(mark)
        }),
{
    let there = Action::Market { id, side: first, qty };
    let home = Action::Market { id: back, side: first.opposite(), qty };
    let mid = state.acted(there);
    law_market_round_trip_cannot_profit(
        state.book,
        state.ledger(),
        state.noted(there).sides,
        mid.noted(home).sides,
        first,
        id,
        back,
        qty,
        mark,
    );
}

/// A simulation has taken as many steps as its script has entries.
pub proof fn lemma_script_steps(cfg: SimConfig, script: Seq<(Seq<Action>, OrderId)>)
    requires
        script.len() <= u64::MAX,
    ensures
        SimState::scripted(cfg, script).step == script.len(),
    decreases script.len(),
{
    if script.len() > 0 {
        lemma_script_steps(cfg, script.drop_last());
    }
}

/// A strategy that never asks for anything when it is woken ends as it began:
/// no fills, no position and an equity of zero at any mark.
pub proof fn law_idle_strategy_earns_nothing(
    cfg: SimConfig,
    script: Seq<(Seq<Action>, OrderId)>,
    mark: Price,
)
    requires
        safe_script(cfg, script),
        script.len() <= u64::MAX,
        forall|i: int|
            0 <= i < script.len() && cfg.awake(i as u64) ==> (#[trigger] script[i]).0.len() == 0,
    ensures
        SimState::scripted(cfg, script).account == Account::flat(),
        SimState::scripted(cfg, script).sides =~= Map::empty(),
        SimState::scripted(cfg, script).account.worth(mark) == 0,
    decreases script.len(),
{
    assert(Account::flat().worth(mark) == 0) by (nonlinear_arith);
    if script.len() > 0 {
        let front = script.drop_last();
        assert forall|i: int| 0 <= i < front.len() && cfg.awake(i as u64) implies (
        #[trigger] front[i]).0.len() == 0 by {
            assert(front[i] == script[i]);
        }
        lemma_script_steps(cfg, front);
        law_idle_strategy_earns_nothing(cfg, front, mark);
        let state = SimState::scripted(cfg, front);
        let (msg, flow) = state.flow.next_op(state.mid(), cfg.informed_pct);
        let events = state.book.apply(msg).events;
        lemma_routing_without_orders(state.ledger(), state.sides, events);
        assert(pruned(state.sides, events) =~= Map::empty());
        assert(script[script.len() - 1] == script.last());
    }
}

/// What a strategy does is a function of what `of` shows of it: shown alike,
/// strategies answer alike and go on being shown alike.
pub open spec fn functional<S: Strategy, V>(of: spec_fn(S) -> V) -> bool {
    &&& forall|
        s1: S,
        s2: S,
        sight: Sight,
        next_id: OrderId,
        actions1: Seq<Action>,
        actions2: Seq<Action>,
        after1: S,
        after2: S,
        next1: OrderId,
        next2: OrderId,
    |
        of(s1) == of(s2) && #[trigger] s1.wakes(sight, next_id, actions1, &after1, next1)
            && #[trigger] s2.wakes(sight, next_id, actions2, &after2, next2) ==> {
            &&& actions1 == actions2
            &&& next1 == next2
            &&& of(after1) == of(after2)
        }
    &&& forall|s1: S, s2: S, ev: Event, after1: S, after2: S|
        of(s1) == of(s2) && #[trigger] s1.hears(ev, &after1) && #[trigger] s2.hears(ev, &after2)
            ==> of(after1) == of(after2)
}

/// The market maker's answers are a function of its view.
pub proof fn law_maker_is_functional()
    ensures
        functional(|m: MarketMaker| m@),
{
}

/// The momentum taker's answers are a function of its view.
pub proof fn law_momentum_is_functional()
    ensures
        functional(|m: Momentum| m@),
{
}

pub proof fn lemma_answers_split<S: Strategy>(before: S, a: Seq<Call>, b: Seq<Call>, after: S) -> (mid:
    S)
    requires
        answers(before, a + b, after),
    ensures
        answers(before, a, mid),
        answers(mid, b, after),
    decreases b.len(),
{
    if b.len() == 0 {
        assert(a + b =~= a);
        after
    } else {
        let calls = a + b;
        let m = choose|m: S|
            answers(before, calls.drop_last(), m) && #[trigger] answered(m, calls.last(), after);
        assert(calls.drop_last() =~= a + b.drop_last());
        let mid = lemma_answers_split(before, a, b.drop_last(), m);
        assert(answered(m, b.last(), after));
        mid
    }
}

proof fn lemma_same_calls<S: Strategy, V>(
    of: spec_fn(S) -> V,
    s1: S,
    s2: S,
    calls: Seq<Call>,
    after1: S,
    after2: S,
)
    requires
        functional(of),
        of(s1) == of(s2),
        answers(s1, calls, after1),
        answers(s2, calls, after2),
    ensures
        of(after1) == of(after2),
    decreases calls.len(),
{
    if calls.len() > 0 {
        let m1 = choose|m: S|
            answers(s1, calls.drop_last(), m) && #[trigger] answered(m, calls.last(), after1);
        let m2 = choose|m: S|
            answers(s2, calls.drop_last(), m) && #[trigger] answered(m, calls.last(), after2);
        lemma_same_calls(of, s1, s2, calls.drop_last(), m1, m2);
        match calls.last() {
            Call::Wake { sight, next_id, actions, next_after } => {
                assert(m1.wakes(sight, next_id, actions, &after1, next_after));
                assert(m2.wakes(sight, next_id, actions, &after2, next_after));
            },
            Call::Hear { ev } => {
                assert(m1.hears(ev, &after1));
                assert(m2.hears(ev, &after2));
            },
        }
    }
}

/// The calls that actions lead to come after those made before.
proof fn lemma_acts_extend_calls(state: SimState, actions: Seq<Action>) -> (more: Seq<Call>)
    ensures
        state.acts(actions).calls == state.calls + more,
    decreases actions.len(),
{
    if actions.len() == 0 {
        assert(state.calls + Seq::<Call>::empty() =~= state.calls);
        Seq::empty()
    } else {
        let front = actions.drop_last();
        let more = lemma_acts_extend_calls(state, front);
        let at = state.acts(front);
        let told = tellings(at.book.apply(actions.last().request()).events);
        assert((state.calls + more) + told =~= state.calls + (more + told));
        more + told
    }
}

/// The calls of a step come after those made before, and begin with what the
/// strategy is told and asked.
proof fn lemma_step_extends_calls(
    state: SimState,
    cfg: SimConfig,
    actions: Seq<Action>,
    next_after: OrderId,
) -> (more: Seq<Call>)
    ensures
        state.stepped(cfg, actions, next_after).calls == state.consulted(
            cfg,
            actions,
            next_after,
        ).calls + more,
{
    let told = state.consulted(cfg, actions, next_after);
    if cfg.awake(state.step) {
        lemma_acts_extend_calls(told, actions)
    } else {
        assert(told.calls + Seq::<Call>::empty() =~= told.calls);
        Seq::empty()
    }
}

proof fn lemma_same_script_state<S: Strategy, V>(
    cfg: SimConfig,
    of: spec_fn(S) -> V,
    s1: S,
    s2: S,
    script1: Seq<(Seq<Action>, OrderId)>,
    script2: Seq<(Seq<Action>, OrderId)>,
    after1: S,
    after2: S,
)
    requires
        functional(of),
        of(s1) == of(s2),
        script1.len() == script2.len(),
        answers(s1, SimState::scripted(cfg, script1).calls, after1),
        answers(s2, SimState::scripted(cfg, script2).calls, after2),
    ensures
        SimState::scripted(cfg, script1) == SimState::scripted(cfg, script2),
    decreases script1.len(),
{
    if script1.len() > 0 {
        let front1 = script1.drop_last();
        let front2 = script2.drop_last();
        let (actions1, next1) = script1.last();
        let (actions2, next2) = script2.last();
        let state1 = SimState::scripted(cfg, front1);
        let state2 = SimState::scripted(cfg, front2);
        let told1 = state1.consulted(cfg, actions1, next1);
        let told2 = state2.consulted(cfg, actions2, next2);
        let more1 = lemma_step_extends_calls(state1, cfg, actions1, next1);
        let more2 = lemma_step_extends_calls(state2, cfg, actions2, next2);
        let t1 = lemma_answers_split(s1, told1.calls, more1, after1);
        let t2 = lemma_answers_split(s2, told2.calls, more2, after2);
        let heard1 = lemma_background_extends_calls(state1, cfg);
        let heard2 = lemma_background_extends_calls(state2, cfg);
        let b1 = state1.background(cfg);
        let b2 = state2.background(cfg);
        let wake1 = lemma_consulted_calls(state1, cfg, actions1, next1);
        let wake2 = lemma_consulted_calls(state2, cfg, actions2, next2);
        let h1 = lemma_answers_split(s1, b1.calls, wake1, t1);
        let h2 = lemma_answers_split(s2, b2.calls, wake2, t2);
        let p1 = lemma_answers_split(s1, state1.calls, heard1, h1);
        let p2 = lemma_answers_split(s2, state2.calls, heard2, h2);
        lemma_same_script_state(cfg, of, s1, s2, front1, front2, p1, p2);
        if cfg.awake(state1.step) {
            lemma_same_calls(of, s1, s2, b1.calls, h1, h2);
            lemma_one_call(h1, wake1, t1);
            lemma_one_call(h2, wake2, t2);
            assert(h1.wakes(b1.sight(), b1.next_id, actions1, &t1, next1));
            assert(h2.wakes(b1.sight(), b1.next_id, actions2, &t2, next2));
        }
    }
}

pub proof fn lemma_one_call<S: Strategy>(s: S, calls: Seq<Call>, after: S)
    requires
        calls.len() == 1,
        answers(s, calls, after),
    ensures
        answered(s, calls[0], after),
{
    let mid = choose|mid: S|
        answers(s, calls.drop_last(), mid) && #[trigger] answered(mid, calls.last(), after);
    assert(calls.drop_last() =~= Seq::empty());
}

/// The strategy is told of the background message's events.
pub proof fn lemma_background_extends_calls(state: SimState, cfg: SimConfig) -> (heard: Seq<Call>)
    ensures
        state.background(cfg).calls == state.calls + heard,
{
    let (msg, flow) = state.flow.next_op(state.mid(), cfg.informed_pct);
    tellings(state.book.apply(msg).events)
}

/// After the background message comes the wake-up, where one is due.
pub proof fn lemma_consulted_calls(
    state: SimState,
    cfg: SimConfig,
    actions: Seq<Action>,
    next_after: OrderId,
) -> (wake: Seq<Call>)
    ensures
        state.consulted(cfg, actions, next_after).calls == state.background(cfg).calls + wake,
        cfg.awake(state.step) ==> wake == seq![
            Call::Wake {
                sight: state.background(cfg).sight(),
                next_id: state.background(cfg).next_id,
                actions,
                next_after,
            },
        ],
{
    let b = state.background(cfg);
    if cfg.awake(state.step) {
        let call = Call::Wake { sight: b.sight(), next_id: b.next_id, actions, next_after };
        assert(b.calls.push(call) =~= b.calls + seq![call]);
        seq![call]
    } else {
        assert(b.calls + Seq::<Call>::empty() =~= b.calls);
        Seq::empty()
    }
}

/// The calls of a step come after those made before.
proof fn lemma_step_calls(
    state: SimState,
    cfg: SimConfig,
    actions: Seq<Action>,
    next_after: OrderId,
) -> (more: Seq<Call>)
    ensures
        state.stepped(cfg, actions, next_after).calls == state.calls + more,
{
    let heard = lemma_background_extends_calls(state, cfg);
    let wake = lemma_consulted_calls(state, cfg, actions, next_after);
    let after = lemma_step_extends_calls(state, cfg, actions, next_after);
    let more = heard + wake + after;
    assert(((state.calls + heard) + wake) + after =~= state.calls + more);
    more
}

/// The calls made by the end of a script.
#[verifier::opaque]
spec fn calls_after(cfg: SimConfig, script: Seq<(Seq<Action>, OrderId)>) -> Seq<Call> {
    SimState::scripted(cfg, script).calls
}

proof fn lemma_last_step_calls(
    cfg: SimConfig,
    script: Seq<(Seq<Action>, OrderId)>,
) -> (more: Seq<Call>)
    requires
        script.len() > 0,
    ensures
        calls_after(cfg, script) == calls_after(cfg, script.drop_last()) + more,
{
    reveal(calls_after);
    let state = SimState::scripted(cfg, script.drop_last());
    lemma_step_calls(state, cfg, script.last().0, script.last().1)
}

/// The calls of a longer script come after those of its beginning.
proof fn lemma_script_extends_calls(
    cfg: SimConfig,
    script: Seq<(Seq<Action>, OrderId)>,
    n: int,
) -> (more: Seq<Call>)
    requires
        0 <= n <= script.len(),
    ensures
        calls_after(cfg, script) == calls_after(cfg, script.take(n)) + more,
    decreases script.len(),
{
    if n == script.len() {
        assert(script.take(n) =~= script);
        let calls = calls_after(cfg, script);
        assert(calls + Seq::<Call>::empty() =~= calls);
        Seq::empty()
    } else {
        let front = script.drop_last();
        assert(front.take(n) =~= script.take(n));
        let first = calls_after(cfg, front.take(n));
        let before = lemma_script_extends_calls(cfg, front, n);
        let after = lemma_last_step_calls(cfg, script);
        assert((first + before) + after =~= first + (before + after));
        before + after
    }
}

/// The beginning of a safe script is safe.
pub proof fn lemma_safe_prefix(cfg: SimConfig, script: Seq<(Seq<Action>, OrderId)>, n: int)
    requires
        0 <= n <= script.len(),
        safe_script(cfg, script),
    ensures
        safe_script(cfg, script.take(n)),
    decreases script.len(),
{
    if n < script.len() {
        lemma_safe_prefix(cfg, script.drop_last(), n);
        assert(script.drop_last().take(n) =~= script.take(n));
    } else {
        assert(script.take(n) =~= script);
    }
}

/// Where a strategy answered a step safely, one that looks alike cannot be
/// stuck.
proof fn lemma_not_stuck<S: Strategy, V>(
    cfg: SimConfig,
    of: spec_fn(S) -> V,
    state: SimState,
    s1: S,
    s2: S,
    actions1: Seq<Action>,
    next1: OrderId,
    after1: S,
)
    requires
        functional(of),
        of(s1) == of(s2),
        state.step_safe(cfg, actions1, next1),
        state.may_answer(cfg, s1, actions1, next1, after1),
    ensures
        !state.stuck(cfg, s2),
{
    assert forall|actions2: Seq<Action>, next2: OrderId, after2: S| #[trigger]
        state.may_answer(cfg, s2, actions2, next2, after2) implies state.step_safe(
        cfg,
        actions2,
        next2,
    ) by {
        if cfg.awake(state.step) {
            let heard = lemma_background_extends_calls(state, cfg);
            let b = state.background(cfg);
            let wake1 = lemma_consulted_calls(state, cfg, actions1, next1);
            let wake2 = lemma_consulted_calls(state, cfg, actions2, next2);
            let n = state.calls.len() as int;
            assert((state.calls + heard + wake1).skip(n) =~= heard + wake1);
            assert((state.calls + heard + wake2).skip(n) =~= heard + wake2);
            let h1 = lemma_answers_split(s1, heard, wake1, after1);
            let h2 = lemma_answers_split(s2, heard, wake2, after2);
            lemma_same_calls(of, s1, s2, heard, h1, h2);
            lemma_one_call(h1, wake1, after1);
            lemma_one_call(h2, wake2, after2);
            assert(h1.wakes(b.sight(), b.next_id, actions1, &after1, next1));
            assert(h2.wakes(b.sight(), b.next_id, actions2, &after2, next2));
        }
    }
}

/// A strategy that answered the calls of a script also answered those up to
/// its answer in the step `n`.
pub proof fn lemma_step_answered<S: Strategy>(
    cfg: SimConfig,
    before: S,
    script: Seq<(Seq<Action>, OrderId)>,
    after: S,
    n: int,
) -> (r: (S, S))
    requires
        0 <= n < script.len(),
        answers(before, SimState::scripted(cfg, script).calls, after),
    ensures
        ({
            let state = SimState::scripted(cfg, script.take(n));
            &&& answers(before, state.calls, r.0)
            &&& state.may_answer(cfg, r.0, script[n].0, script[n].1, r.1)
        }),
{
    let begun = script.take(n);
    let longer = script.take(n + 1);
    let state = SimState::scripted(cfg, begun);
    let (actions, next_after) = script[n];
    assert(longer.drop_last() =~= begun);
    assert(longer.last() == script[n]);
    let done = SimState::scripted(cfg, longer);
    assert(done == state.stepped(cfg, actions, next_after));
    reveal(calls_after);
    let rest = lemma_script_extends_calls(cfg, script, n + 1);
    let l = lemma_answers_split(before, done.calls, rest, after);
    let acted = lemma_step_extends_calls(state, cfg, actions, next_after);
    let told = state.consulted(cfg, actions, next_after);
    let t = lemma_answers_split(before, told.calls, acted, l);
    let heard = lemma_background_extends_calls(state, cfg);
    let wake = lemma_consulted_calls(state, cfg, actions, next_after);
    assert(told.calls =~= state.calls + (heard + wake));
    assert(told.calls.skip(state.calls.len() as int) =~= heard + wake);
    let p = lemma_answers_split(before, state.calls, heard + wake, t);
    (p, t)
}

/// Of two strategies that look alike, one cannot complete a run that the
/// other has to stop.
proof fn lemma_same_end<S: Strategy, V>(
    cfg: SimConfig,
    of: spec_fn(S) -> V,
    s1: S,
    s2: S,
    script1: Seq<(Seq<Action>, OrderId)>,
    script2: Seq<(Seq<Action>, OrderId)>,
    after1: S,
    after2: S,
    report: Report,
)
    requires
        functional(of),
        of(s1) == of(s2),
        completed(cfg, s1, script1, after1, &report),
    ensures
        !stopped(cfg, s2, script2, after2),
{
    if stopped(cfg, s2, script2, after2) {
        let n = script2.len() as int;
        let begun = script1.take(n);
        let state = SimState::scripted(cfg, begun);
        reveal(calls_after);
        let more = lemma_script_extends_calls(cfg, script1, n);
        let m1 = lemma_answers_split(s1, state.calls, more, after1);
        lemma_same_script_state(cfg, of, s1, s2, begun, script2, m1, after2);
        if n == script1.len() {
            assert(begun =~= script1);
            assert(state.reportable(cfg));
        } else {
            let longer = script1.take(n + 1);
            let (actions1, next1) = script1[n];
            assert(longer.drop_last() =~= begun);
            assert(longer.last() == script1[n]);
            lemma_safe_prefix(cfg, script1, n + 1);
            let (p1, t1) = lemma_step_answered(cfg, s1, script1, after1, n);
            lemma_same_calls(of, s1, s2, state.calls, p1, after2);
            lemma_not_stuck(cfg, of, state, p1, after2, actions1, next1, t1);
        }
    }
}

/// Both reports say the same.
pub open spec fn same_report(a: Report, b: Report) -> bool {
    &&& a.steps == b.steps
    &&& a.fills == b.fills
    &&& a.traded_lots == b.traded_lots
    &&& a.bought_lots == b.bought_lots
    &&& a.bought_notional == b.bought_notional
    &&& a.sold_lots == b.sold_lots
    &&& a.sold_notional == b.sold_notional
    &&& a.final_position == b.final_position
    &&& a.final_equity == b.final_equity
    &&& a.return_ticklots == b.return_ticklots
    &&& a.max_drawdown_ticklots == b.max_drawdown_ticklots
    &&& a.equity_curve@ == b.equity_curve@
}

/// Runs are fully determined by the configuration, the seed among it, and the
/// strategy: of two strategies that look alike either both come to a report
/// or neither does, and their reports say the same and they still look alike.
pub proof fn law_runs_are_reproducible<S: Strategy, V>(
    cfg: SimConfig,
    of: spec_fn(S) -> V,
    s1: S,
    s2: S,
    after1: S,
    after2: S,
    report1: Option<Report>,
    report2: Option<Report>,
)
    requires
        functional(of),
        of(s1) == of(s2),
        ran(cfg, s1, after1, report1),
        ran(cfg, s2, after2, report2),
    ensures
        report1 is Some <==> report2 is Some,
        report1 is Some && report2 is Some ==> {
            &&& same_report(report1->0, report2->0)
            &&& of(after1) == of(after2)
        },
{
    match (report1, report2) {
        (Some(r1), Some(r2)) => {
            let script1 = choose|script: Seq<(Seq<Action>, OrderId)>| #[trigger]
                completed(cfg, s1, script, after1, &r1);
            let script2 = choose|script: Seq<(Seq<Action>, OrderId)>| #[trigger]
                completed(cfg, s2, script, after2, &r2);
            lemma_same_script_state(cfg, of, s1, s2, script1, script2, after1, after2);
            let calls = SimState::scripted(cfg, script1).calls;
            lemma_same_calls(of, s1, s2, calls, after1, after2);
        },
        (Some(r1), None) => {
            let script1 = choose|script: Seq<(Seq<Action>, OrderId)>| #[trigger]
                completed(cfg, s1, script, after1, &r1);
            let (script2, mid) = choose|script: Seq<(Seq<Action>, OrderId)>, mid: S| #[trigger]
                stopped(cfg, s2, script, mid);
            lemma_same_end(cfg, of, s1, s2, script1, script2, after1, mid, r1);
        },
        (None, Some(r2)) => {
            let script2 = choose|script: Seq<(Seq<Action>, OrderId)>| #[trigger]
                completed(cfg, s2, script, after2, &r2);
            let (script1, mid) = choose|script: Seq<(Seq<Action>, OrderId)>, mid: S| #[trigger]
                stopped(cfg, s1, script, mid);
            lemma_same_end(cfg, of, s2, s1, script2, script1, after2, mid, r2);
        },
        (None, None) => {},
    }
}

/// A report balances: the final position is the lots bought less the lots
/// sold, the lots traded are those bought and sold, and the final equity is
/// what sales brought less what purchases cost plus the position at the last
/// mark.
pub proof fn law_reports_balance<S: Strategy>(
    cfg: SimConfig,
    before: S,
    after: S,
    report: Report,
) -> (mark: Price)
    requires
        ran(cfg, before, after, Some(report)),
    ensures
        report.final_position == report.bought_lots - report.sold_lots,
        report.traded_lots == report.bought_lots + report.sold_lots,
        report.final_equity == report.sold_notional - report.bought_notional
            + report.final_position * mark,
{
    let script = choose|script: Seq<(Seq<Action>, OrderId)>| #[trigger]
        completed(cfg, before, script, after, &report);
    law_simulation_keeps_its_books(cfg, script);
    SimState::scripted(cfg, script).last_mark
}

/// The steps at which the calls wake the strategy.
pub open spec fn wake_steps(calls: Seq<Call>) -> Seq<u64>
    decreases calls.len(),
{
    if calls.len() == 0 {
        Seq::empty()
    } else {
        let front = wake_steps(calls.drop_last());
        match calls.last() {
            Call::Wake { sight, .. } => front.push(sight.step),
            Call::Hear { .. } => front,
        }
    }
}

/// The first `n` steps without those in which the strategy sleeps.
pub open spec fn due_steps(cfg: SimConfig, n: nat) -> Seq<u64>
    decreases n,
{
    if n == 0 {
        Seq::empty()
    } else {
        let front = due_steps(cfg, (n - 1) as nat);
        if cfg.awake((n - 1) as u64) {
            front.push((n - 1) as u64)
        } else {
            front
        }
    }
}

proof fn lemma_tellings_wake_nobody(calls: Seq<Call>, events: Seq<Event>)
    ensures
        wake_steps(calls + tellings(events)) == wake_steps(calls),
    decreases events.len(),
{
    let told = tellings(events);
    if events.len() == 0 {
        assert(calls + told =~= calls);
    } else {
        lemma_tellings_wake_nobody(calls, events.drop_last());
        if told.len() > tellings(events.drop_last()).len() {
            assert((calls + told).drop_last() =~= calls + tellings(events.drop_last()));
        }
    }
}

proof fn lemma_acts_wake_nobody(state: SimState, actions: Seq<Action>)
    ensures
        wake_steps(state.acts(actions).calls) == wake_steps(state.calls),
    decreases actions.len(),
{
    if actions.len() > 0 {
        let at = state.acts(actions.drop_last());
        lemma_acts_wake_nobody(state, actions.drop_last());
        lemma_tellings_wake_nobody(
            at.calls,
            at.book.apply(actions.last().request()).events,
        );
    }
}

/// The strategy is woken exactly once at each step that is due, in order and
/// with a view of that step, and at no other: from the end of the warm-up on,
/// once per `wake_every` background messages.
pub proof fn law_wake_ups_come_when_due(cfg: SimConfig, script: Seq<(Seq<Action>, OrderId)>)
    requires
        script.len() <= u64::MAX,
    ensures
        wake_steps(SimState::scripted(cfg, script).calls) == due_steps(cfg, script.len()),
    decreases script.len(),
{
    if script.len() > 0 {
        let front = script.drop_last();
        let (actions, next_after) = script.last();
        let state = SimState::scripted(cfg, front);
        law_wake_ups_come_when_due(cfg, front);
        lemma_script_steps(cfg, front);
        let (msg, flow) = state.flow.next_op(state.mid(), cfg.informed_pct);
        lemma_tellings_wake_nobody(state.calls, state.book.apply(msg).events);
        let b = state.background(cfg);
        let told = state.consulted(cfg, actions, next_after);
        if cfg.awake(state.step) {
            assert(told.calls.drop_last() =~= b.calls);
            lemma_acts_wake_nobody(told, actions);
        }
    }
}

/// What a script has for a step in which the strategy wakes is what some
/// strategy answered.
proof fn lemma_wake_up_answered<S: Strategy>(
    cfg: SimConfig,
    before: S,
    script: Seq<(Seq<Action>, OrderId)>,
    after: S,
    i: int,
)
    requires
        0 <= i < script.len() <= u64::MAX,
        cfg.awake(i as u64),
        answers(before, SimState::scripted(cfg, script).calls, after),
    ensures
        exists|s: S, sight: Sight, next_id: OrderId, then: S| #[trigger]
            s.wakes(sight, next_id, script[i].0, &then, script[i].1),
{
    let state = SimState::scripted(cfg, script.take(i));
    let (actions, next_after) = script[i];
    let (p, t) = lemma_step_answered(cfg, before, script, after, i);
    lemma_script_steps(cfg, script.take(i));
    let heard = lemma_background_extends_calls(state, cfg);
    let wake = lemma_consulted_calls(state, cfg, actions, next_after);
    assert((state.calls + heard + wake).skip(state.calls.len() as int) =~= heard + wake);
    let h = lemma_answers_split(p, heard, wake, t);
    let b = state.background(cfg);
    lemma_one_call(h, wake, t);
    assert(h.wakes(b.sight(), b.next_id, actions, &t, next_after));
}

/// A strategy that never asks for anything gets a report of zeros.
pub proof fn law_idle_report_is_flat<S: Strategy>(
    cfg: SimConfig,
    before: S,
    after: S,
    report: Report,
)
    requires
        ran(cfg, before, after, Some(report)),
        forall|s: S, sight: Sight, next_id: OrderId, actions: Seq<Action>, then: S, next: OrderId|
            #[trigger] s.wakes(sight, next_id, actions, &then, next) ==> actions.len() == 0,
    ensures
        report.fills == 0,
        report.final_position == 0,
        report.final_equity == 0,
{
    let script = choose|script: Seq<(Seq<Action>, OrderId)>| #[trigger]
        completed(cfg, before, script, after, &report);
    assert forall|i: int| 0 <= i < script.len() && cfg.awake(i as u64) implies (
    #[trigger] script[i]).0.len() == 0 by {
        lemma_wake_up_answered(cfg, before, script, after, i);
    }
    law_idle_strategy_earns_nothing(
        cfg,
        script,
        SimState::scripted(cfg, script).last_mark,
    );
}

} // verus!
