//! Event-driven strategy backtester.
//!
//! Uses the matching engine as a *simulated exchange*: a seeded background
//! order flow populates the book, and the strategy's orders are submitted
//! into the very same book, competing for queue position exactly like any
//! other participant. Passive fills only happen when simulated aggressive
//! flow actually reaches the strategy's price level *and* the orders queued
//! ahead of it have been consumed: the backtester adds no fill model of its
//! own.
//!
//! A simulation is a function of its configuration and of what the strategy
//! answers. [`SimState`] is that function step by step; it also records every
//! call made to the strategy, so that a run can be related to the strategy
//! that answered ([`answers`]).
//!
//! What a simulation does is *safe* where every number stays within its
//! machine range and every trade with an order of the strategy's id range
//! finds the side of that order noted. A simulation stops where it is not.
use std::collections::HashMap;

use vstd::prelude::*;

use crate::account::Account;
use crate::book::OrderBook;
use crate::events::{law_vec_sink_appends, Event, EventSink, VecSink};
use crate::flow::{FlowGen, FlowState};
use crate::model::{BookState, Outcome};
use crate::replay::{apply, has_room_for};
use crate::strategy::{
    book_mid, mid_of, Action, IdGen, MarketView, Sight, Strategy, STRATEGY_ID_BASE,
};
use crate::types::{OrderId, Price, Qty, Side};
use crate::wire::Msg;

verus! {

#[derive(Clone, Copy, PartialEq, Eq, Structural, Debug)]
pub struct SimConfig {
    /// Background messages to process.
    pub steps: u64,
    pub seed: u64,
    /// Strategy wakes once per this many background messages.
    pub wake_every: u64,
    /// Equity curve sample interval (in steps).
    pub sample_every: u64,
    pub start_mid: Price,
    /// Steps 0..warmup run background flow only, letting the book fill in
    /// before the strategy starts quoting.
    pub warmup: u64,
    /// Percent (0-100) of background orders priced off the *true* hidden mid
    /// rather than the observable book mid. Higher = more toxic flow for a
    /// market maker; 100 reproduces fully-informed flow.
    pub informed_pct: u64,
}

impl Default for SimConfig {
    fn default() -> (cfg: Self)
        ensures
            cfg == (SimConfig {
                steps: 1_000_000,
                seed: 42,
                wake_every: 8,
                sample_every: 1_000,
                start_mid: 10_000,
                warmup: 5_000,
                informed_pct: 100,
            }),
    {
        SimConfig {
            steps: 1_000_000,
            seed: 42,
            wake_every: 8,
            sample_every: 1_000,
            start_mid: 10_000,
            warmup: 5_000,
            informed_pct: 100,
        }
    }
}

impl SimConfig {
    /// The intervals that a step divides by are not zero.
    pub open spec fn step_ok(self, step: u64) -> bool {
        &&& self.sample_every > 0
        &&& step >= self.warmup ==> self.wake_every > 0
    }

    /// The strategy wakes in this step.
    pub open spec fn awake(self, step: u64) -> bool {
        step >= self.warmup && step % self.wake_every == 0
    }
}

/// One call made to the strategy.
pub enum Call {
    /// Woken with a sight and a next free id, it asked for actions and left
    /// a next free id behind.
    Wake { sight: Sight, next_id: OrderId, actions: Seq<Action>, next_after: OrderId },
    /// It was told of an event.
    Hear { ev: Event },
}

/// `s` may answer the call and become `after`.
pub open spec fn answered<S: Strategy>(s: S, call: Call, after: S) -> bool {
    match call {
        Call::Wake { sight, next_id, actions, next_after } => s.wakes(
            sight,
            next_id,
            actions,
            &after,
            next_after,
        ),
        Call::Hear { ev } => s.hears(ev, &after),
    }
}

/// `after` is what `before` may become by answering the calls in order.
pub open spec fn answers<S: Strategy>(before: S, calls: Seq<Call>, after: S) -> bool
    decreases calls.len(),
{
    if calls.len() == 0 {
        before == after
    } else {
        exists|mid: S|
            answers(before, calls.drop_last(), mid) && #[trigger] answered(mid, calls.last(), after)
    }
}

proof fn lemma_answers_push<S: Strategy>(
    before: S,
    calls: Seq<Call>,
    mid: S,
    call: Call,
    after: S,
)
    requires
        answers(before, calls, mid),
        answered(mid, call, after),
    ensures
        answers(before, calls.push(call), after),
{
    assert(calls.push(call).drop_last() =~= calls);
    assert(calls.push(call).last() == call);
}

/// The id belongs to the strategy.
pub open spec fn spec_is_strategy(id: OrderId) -> bool {
    id >= STRATEGY_ID_BASE
}

#[verifier::when_used_as_spec(spec_is_strategy)]
pub fn is_strategy(id: OrderId) -> (ours: bool)
    ensures
        ours == spec_is_strategy(id),
{
    id >= STRATEGY_ID_BASE
}

/// The event involves one of the strategy's orders.
pub open spec fn spec_involves(ev: Event) -> bool {
    match ev {
        Event::Trade { maker, taker, .. } => is_strategy(maker) || is_strategy(taker),
        Event::Accepted { id } => is_strategy(id),
        Event::Canceled { id, .. } => is_strategy(id),
        Event::Replaced { id } => is_strategy(id),
        Event::Rejected { id, .. } => is_strategy(id),
    }
}

#[verifier::when_used_as_spec(spec_involves)]
pub fn involves(ev: Event) -> (ours: bool)
    ensures
        ours == spec_involves(ev),
{
    match ev {
        Event::Trade { maker, taker, .. } => is_strategy(maker) || is_strategy(taker),
        Event::Accepted { id } => is_strategy(id),
        Event::Canceled { id, .. } => is_strategy(id),
        Event::Replaced { id } => is_strategy(id),
        Event::Rejected { id, .. } => is_strategy(id),
    }
}

/// The calls that tell the strategy of the events that involve it.
pub open spec fn tellings(events: Seq<Event>) -> Seq<Call>
    decreases events.len(),
{
    if events.len() == 0 {
        Seq::empty()
    } else if involves(events.last()) {
        tellings(events.drop_last()).push(Call::Hear { ev: events.last() })
    } else {
        tellings(events.drop_last())
    }
}

/// Account and last trade as events change them, given the side of each
/// order of the strategy.
pub struct Ledger {
    pub account: Account,
    pub last_trade: Option<Price>,
}

/// The account after a fill of the order `id`, where it is the strategy's.
pub open spec fn booked(
    account: Account,
    sides: Map<OrderId, Side>,
    id: OrderId,
    price: Price,
    qty: Qty,
) -> Account {
    if is_strategy(id) {
        account.filled(sides[id], price, qty)
    } else {
        account
    }
}

/// The side of the order is known, where it is the strategy's, and the fill
/// stays within the machine types.
pub open spec fn bookable(
    account: Account,
    sides: Map<OrderId, Side>,
    id: OrderId,
    price: Price,
    qty: Qty,
) -> bool {
    is_strategy(id) ==> sides.contains_key(id) && account.can_fill(sides[id], price, qty)
}

impl Ledger {
    /// One event: a trade is the last trade, and is booked once for each
    /// side of it that is the strategy's.
    pub open spec fn route_one(self, sides: Map<OrderId, Side>, ev: Event) -> Ledger {
        match ev {
            Event::Trade { maker, taker, price, qty } => Ledger {
                account: booked(
                    booked(self.account, sides, maker, price, qty),
                    sides,
                    taker,
                    price,
                    qty,
                ),
                last_trade: Some(price),
            },
            _ => self,
        }
    }

    pub open spec fn can_route_one(self, sides: Map<OrderId, Side>, ev: Event) -> bool {
        match ev {
            Event::Trade { maker, taker, price, qty } => {
                &&& bookable(self.account, sides, maker, price, qty)
                &&& bookable(
                    booked(self.account, sides, maker, price, qty),
                    sides,
                    taker,
                    price,
                    qty,
                )
            },
            _ => true,
        }
    }

    pub open spec fn routed(self, sides: Map<OrderId, Side>, events: Seq<Event>) -> Ledger
        decreases events.len(),
    {
        if events.len() == 0 {
            self
        } else {
            self.routed(sides, events.drop_last()).route_one(sides, events.last())
        }
    }

    pub open spec fn can_route(self, sides: Map<OrderId, Side>, events: Seq<Event>) -> bool
        decreases events.len(),
    {
        if events.len() == 0 {
            true
        } else {
            &&& self.can_route(sides, events.drop_last())
            &&& self.routed(sides, events.drop_last()).can_route_one(sides, events.last())
        }
    }

    /// What cannot be routed in part cannot be routed.
    proof fn lemma_can_route_prefix(self, sides: Map<OrderId, Side>, events: Seq<Event>, n: int)
        requires
            0 <= n <= events.len(),
            self.can_route(sides, events),
        ensures
            self.can_route(sides, events.take(n)),
        decreases events.len(),
    {
        if n < events.len() {
            self.lemma_can_route_prefix(sides, events.drop_last(), n);
            assert(events.drop_last().take(n) =~= events.take(n));
        } else {
            assert(events.take(n) =~= events);
        }
    }
}

/// An order of the strategy left the book with these events.
pub open spec fn left_book(events: Seq<Event>, id: OrderId) -> bool {
    is_strategy(id) && exists|i: int|
        0 <= i < events.len() && (#[trigger] events[i] matches Event::Canceled { id: x, .. } && x
            == id)
}

/// The known sides without the orders that left the book.
pub open spec fn pruned(sides: Map<OrderId, Side>, events: Seq<Event>) -> Map<OrderId, Side> {
    Map::new(
        |id: OrderId| sides.contains_key(id) && !left_book(events, id),
        |id: OrderId| sides[id],
    )
}

/// Everything a simulation knows, and every call it has made to the strategy.
#[verifier::ext_equal]
pub struct SimState {
    pub book: BookState,
    pub flow: FlowState,
    pub account: Account,
    pub last_trade: Option<Price>,
    pub last_mark: Price,
    /// Side of each strategy order, needed to book fills.
    pub sides: Map<OrderId, Side>,
    pub curve: Seq<(u64, i128)>,
    /// Engine events of the current step.
    pub events: Seq<Event>,
    /// Next free id of the strategy.
    pub next_id: OrderId,
    pub step: u64,
    pub calls: Seq<Call>,
}

impl SimState {
    pub open spec fn start(cfg: SimConfig) -> SimState {
        SimState {
            book: BookState::empty(),
            flow: FlowState::start(cfg.seed, cfg.start_mid),
            account: Account::flat(),
            last_trade: None,
            last_mark: cfg.start_mid,
            sides: Map::empty(),
            curve: Seq::empty(),
            events: Seq::empty(),
            next_id: STRATEGY_ID_BASE,
            step: 0,
            calls: Seq::empty(),
        }
    }

    pub open spec fn mid(self) -> Option<Price> {
        mid_of(self.book, self.last_trade)
    }

    pub open spec fn ledger(self) -> Ledger {
        Ledger { account: self.account, last_trade: self.last_trade }
    }

    pub open spec fn sight(self) -> Sight {
        Sight {
            book: self.book,
            step: self.step,
            last_trade: self.last_trade,
            position: self.account.position,
            cash: self.account.cash,
        }
    }

    /// A message goes to the exchange: its events are booked and forwarded,
    /// and orders that left are forgotten.
    pub open spec fn exchanged(self, msg: Msg) -> SimState {
        let o = self.book.apply(msg);
        let ledger = self.ledger().routed(self.sides, o.events);
        SimState {
            book: o.book,
            account: ledger.account,
            last_trade: ledger.last_trade,
            sides: pruned(self.sides, o.events),
            events: self.events + o.events,
            calls: self.calls + tellings(o.events),
            ..self
        }
    }

    /// The message is safe: machine limits allow it and its bookkeeping, and
    /// the sides of the strategy's orders that it trades with are noted.
    pub open spec fn exchange_safe(self, msg: Msg) -> bool {
        &&& self.book.fits(msg)
        &&& self.ledger().can_route(self.sides, self.book.apply(msg).events)
    }

    /// One background message.
    pub open spec fn background(self, cfg: SimConfig) -> SimState {
        let (msg, flow) = self.flow.next_op(self.mid(), cfg.informed_pct);
        SimState { flow, events: Seq::empty(), ..self }.exchanged(msg)
    }

    /// The next background message is safe.
    pub open spec fn background_safe(self, cfg: SimConfig) -> bool {
        let (msg, flow) = self.flow.next_op(self.mid(), cfg.informed_pct);
        &&& self.flow.can_next_op(self.mid(), cfg.informed_pct)
        &&& SimState { flow, events: Seq::empty(), ..self }.exchange_safe(msg)
    }

    /// The strategy is woken and asks for these actions.
    pub open spec fn asked(self, actions: Seq<Action>, next_after: OrderId) -> SimState {
        SimState {
            next_id: next_after,
            calls: self.calls.push(
                Call::Wake { sight: self.sight(), next_id: self.next_id, actions, next_after },
            ),
            ..self
        }
    }

    /// The side of the order that an action submits is noted.
    pub open spec fn noted(self, action: Action) -> SimState {
        match action {
            Action::Limit { id, side, .. } => SimState {
                sides: self.sides.insert(id, side),
                ..self
            },
            Action::Market { id, side, .. } => SimState {
                sides: self.sides.insert(id, side),
                ..self
            },
            _ => self,
        }
    }

    /// One action of the strategy.
    pub open spec fn acted(self, action: Action) -> SimState {
        self.noted(action).exchanged(action.request())
    }

    pub open spec fn act_safe(self, action: Action) -> bool {
        self.noted(action).exchange_safe(action.request())
    }

    pub open spec fn acts(self, actions: Seq<Action>) -> SimState
        decreases actions.len(),
    {
        if actions.len() == 0 {
            self
        } else {
            self.acts(actions.drop_last()).acted(actions.last())
        }
    }

    pub open spec fn acts_safe(self, actions: Seq<Action>) -> bool
        decreases actions.len(),
    {
        if actions.len() == 0 {
            true
        } else {
            &&& self.acts_safe(actions.drop_last())
            &&& self.acts(actions.drop_last()).act_safe(actions.last())
        }
    }

    /// What cannot be done in part cannot be done.
    proof fn lemma_acts_safe_prefix(self, actions: Seq<Action>, n: int)
        requires
            0 <= n <= actions.len(),
            self.acts_safe(actions),
        ensures
            self.acts_safe(actions.take(n)),
        decreases actions.len(),
    {
        if n < actions.len() {
            self.lemma_acts_safe_prefix(actions.drop_last(), n);
            assert(actions.drop_last().take(n) =~= actions.take(n));
        } else {
            assert(actions.take(n) =~= actions);
        }
    }

    /// The price that positions are marked at: the mid, else the last trade,
    /// else what it was.
    pub open spec fn mark(self) -> Price {
        match self.mid() {
            Some(mid) => mid,
            None => self.last_mark,
        }
    }

    /// The equity curve is sampled where a sample is due.
    pub open spec fn sampled(self, cfg: SimConfig) -> SimState {
        if self.step % cfg.sample_every == 0 {
            SimState {
                last_mark: self.mark(),
                curve: self.curve.push((self.step, self.account.worth(self.mark()) as i128)),
                ..self
            }
        } else {
            self
        }
    }

    /// The equity to be sampled is a number of its type.
    pub open spec fn sample_safe(self, cfg: SimConfig) -> bool {
        self.step % cfg.sample_every == 0 ==> i128::MIN <= self.account.worth(self.mark())
            <= i128::MAX
    }

    /// The part of a step up to the strategy's answer.
    pub open spec fn consulted(
        self,
        cfg: SimConfig,
        actions: Seq<Action>,
        next_after: OrderId,
    ) -> SimState {
        if cfg.awake(self.step) {
            self.background(cfg).asked(actions, next_after)
        } else {
            self.background(cfg)
        }
    }

    /// One step: a background message; the strategy's answer, where it is
    /// woken; a sample of the equity curve, where one is due.
    pub open spec fn stepped(
        self,
        cfg: SimConfig,
        actions: Seq<Action>,
        next_after: OrderId,
    ) -> SimState {
        let told = self.consulted(cfg, actions, next_after);
        let done = if cfg.awake(self.step) {
            told.acts(actions)
        } else {
            told
        };
        SimState { step: (self.step + 1) as u64, ..done.sampled(cfg) }
    }

    pub open spec fn step_safe(
        self,
        cfg: SimConfig,
        actions: Seq<Action>,
        next_after: OrderId,
    ) -> bool {
        let told = self.consulted(cfg, actions, next_after);
        &&& self.background_safe(cfg)
        &&& if cfg.awake(self.step) {
            &&& told.acts_safe(actions)
            &&& told.acts(actions).sample_safe(cfg)
        } else {
            told.sample_safe(cfg)
        }
    }

    /// The simulation after as many steps as the script has entries: for each
    /// step the actions that the strategy asked for, if it was woken, and its
    /// next free id after that.
    pub open spec fn scripted(cfg: SimConfig, script: Seq<(Seq<Action>, OrderId)>) -> SimState
        decreases script.len(),
    {
        if script.len() == 0 {
            SimState::start(cfg)
        } else {
            SimState::scripted(cfg, script.drop_last()).stepped(
                cfg,
                script.last().0,
                script.last().1,
            )
        }
    }

    /// Equity when the simulation ends.
    pub open spec fn final_worth(self) -> int {
        self.account.worth(self.last_mark)
    }

    /// The samples and, last, the equity when the simulation ends.
    pub open spec fn final_curve(self, cfg: SimConfig) -> Seq<(u64, i128)> {
        self.curve.push((cfg.steps, self.final_worth() as i128))
    }

    /// The final equity and the largest fall of the curve are numbers of
    /// their type.
    pub open spec fn reportable(self, cfg: SimConfig) -> bool {
        &&& i128::MIN <= self.final_worth() <= i128::MAX
        &&& drawdown(self.final_curve(cfg)) <= i128::MAX
    }

    /// `done` is what a step makes of the state before the equity sample, and
    /// the way there is safe.
    pub open spec fn turned(
        self,
        cfg: SimConfig,
        actions: Seq<Action>,
        next_after: OrderId,
        done: SimState,
    ) -> bool {
        let told = self.consulted(cfg, actions, next_after);
        &&& self.background_safe(cfg)
        &&& if cfg.awake(self.step) {
            &&& told.acts_safe(actions)
            &&& done == told.acts(actions)
        } else {
            done == told
        }
    }

    /// With this strategy the next step may not be safe: the background
    /// message is not, or the strategy may give an answer that is not.
    pub open spec fn stuck<S: Strategy>(self, cfg: SimConfig, s: S) -> bool {
        ||| !self.background_safe(cfg)
        ||| exists|actions: Seq<Action>, next_after: OrderId, mid: S| #[trigger]
            self.may_answer(cfg, s, actions, next_after, mid) && !self.step_safe(
                cfg,
                actions,
                next_after,
            )
    }

    /// Up to its answer in the next step, the strategy may become `mid`.
    pub open spec fn may_answer<S: Strategy>(
        self,
        cfg: SimConfig,
        s: S,
        actions: Seq<Action>,
        next_after: OrderId,
        mid: S,
    ) -> bool {
        answers(
            s,
            self.consulted(cfg, actions, next_after).calls.skip(self.calls.len() as int),
            mid,
        )
    }
}

/// Actions do not change the step count.
proof fn lemma_acts_keep_step(state: SimState, actions: Seq<Action>)
    ensures
        state.acts(actions).step == state.step,
    decreases actions.len(),
{
    if actions.len() > 0 {
        lemma_acts_keep_step(state, actions.drop_last());
    }
}

/// What happens before the equity sample does not change the step count.
proof fn lemma_turned_keeps_step(
    state: SimState,
    cfg: SimConfig,
    answer: (Seq<Action>, OrderId),
    done: SimState,
)
    requires
        state.turned(cfg, answer.0, answer.1, done),
    ensures
        done.step == state.step,
{
    lemma_acts_keep_step(state.consulted(cfg, answer.0, answer.1), answer.0);
}

/// A step that goes well up to the equity sample, and whose sample is safe,
/// is a safe step.
proof fn lemma_step_done(
    state: SimState,
    cfg: SimConfig,
    answer: (Seq<Action>, OrderId),
    done: SimState,
    after: SimState,
)
    requires
        state.turned(cfg, answer.0, answer.1, done),
        done.sample_safe(cfg),
        after == (SimState { step: (state.step + 1) as u64, ..done.sampled(cfg) }),
    ensures
        exists|actions: Seq<Action>, next_after: OrderId|
            {
                &&& state.step_safe(cfg, actions, next_after)
                &&& after == #[trigger] state.stepped(cfg, actions, next_after)
            },
{
    assert(after == state.stepped(cfg, answer.0, answer.1));
}

/// A step whose equity sample is out of range is stuck.
proof fn lemma_sample_stuck<S: Strategy>(
    state: SimState,
    cfg: SimConfig,
    s: S,
    answer: (Seq<Action>, OrderId),
    done: SimState,
)
    requires
        state.turned(cfg, answer.0, answer.1, done),
        !done.sample_safe(cfg),
        exists|mid: S| #[trigger] state.may_answer(cfg, s, answer.0, answer.1, mid),
    ensures
        state.stuck(cfg, s),
{
    let mid = choose|mid: S| #[trigger] state.may_answer(cfg, s, answer.0, answer.1, mid);
    assert(state.may_answer(cfg, s, answer.0, answer.1, mid));
    assert(!state.step_safe(cfg, answer.0, answer.1));
}

/// What the strategy heard in a step in which it sleeps is all it answers.
proof fn lemma_may_answer_asleep<S: Strategy>(
    state: SimState,
    cfg: SimConfig,
    s: S,
    heard: Seq<Call>,
    s1: S,
    answer: (Seq<Action>, OrderId),
)
    requires
        !cfg.awake(state.step),
        state.background(cfg).calls == state.calls + heard,
        answers(s, heard, s1),
    ensures
        state.may_answer(cfg, s, answer.0, answer.1, s1),
{
    assert((state.calls + heard).skip(state.calls.len() as int) =~= heard);
}

/// In a step in which it wakes, the strategy also answers the wake-up.
proof fn lemma_may_answer_awake<S: Strategy>(
    state: SimState,
    cfg: SimConfig,
    s: S,
    heard: Seq<Call>,
    s1: S,
    answer: (Seq<Action>, OrderId),
    s2: S,
)
    requires
        cfg.awake(state.step),
        state.background(cfg).calls == state.calls + heard,
        answers(s, heard, s1),
        answers(
            s1,
            seq![
                Call::Wake {
                    sight: state.background(cfg).sight(),
                    next_id: state.background(cfg).next_id,
                    actions: answer.0,
                    next_after: answer.1,
                },
            ],
            s2,
        ),
    ensures
        state.may_answer(cfg, s, answer.0, answer.1, s2),
{
    let call = Call::Wake {
        sight: state.background(cfg).sight(),
        next_id: state.background(cfg).next_id,
        actions: answer.0,
        next_after: answer.1,
    };
    lemma_answers_concat(s, heard, s1, seq![call], s2);
    assert((state.calls + heard).push(call).skip(state.calls.len() as int) =~= heard + seq![call]);
}

/// Highest equity of a curve.
pub open spec fn peak(curve: Seq<(u64, i128)>) -> int
    decreases curve.len(),
{
    if curve.len() <= 1 {
        curve[0].1 as int
    } else {
        let before = peak(curve.drop_last());
        if before >= curve.last().1 {
            before
        } else {
            curve.last().1 as int
        }
    }
}

/// Largest fall of a curve from a point to a later one.
pub open spec fn drawdown(curve: Seq<(u64, i128)>) -> int
    decreases curve.len(),
{
    if curve.len() == 0 {
        0
    } else {
        let before = drawdown(curve.drop_last());
        let fall = peak(curve) - curve.last().1;
        if before >= fall {
            before
        } else {
            fall
        }
    }
}

proof fn lemma_peak(curve: Seq<(u64, i128)>)
    requires
        curve.len() > 0,
    ensures
        forall|i: int| 0 <= i < curve.len() ==> (#[trigger] curve[i]).1 <= peak(curve),
        exists|i: int| 0 <= i < curve.len() && (#[trigger] curve[i]).1 == peak(curve),
    decreases curve.len(),
{
    if curve.len() == 1 {
        assert(curve[0].1 == peak(curve));
    } else {
        let front = curve.drop_last();
        lemma_peak(front);
        let k = choose|k: int| 0 <= k < front.len() && (#[trigger] front[k]).1 == peak(front);
        assert(curve[k].1 == peak(front));
        assert(curve[curve.len() - 1].1 == curve.last().1);
        assert forall|i: int| 0 <= i < curve.len() implies (#[trigger] curve[i]).1 <= peak(
            curve,
        ) by {
            if i < front.len() {
                assert(front[i].1 <= peak(front));
            }
        }
    }
}

/// No fall along a curve is larger than its drawdown, and a drawdown other
/// than zero is such a fall.
pub proof fn law_drawdown_is_largest_fall(curve: Seq<(u64, i128)>)
    ensures
        drawdown(curve) >= 0,
        forall|i: int, j: int|
            0 <= i <= j < curve.len() ==> (#[trigger] curve[i]).1 - (#[trigger] curve[j]).1
                <= drawdown(curve),
        drawdown(curve) > 0 ==> exists|i: int, j: int|
            0 <= i <= j < curve.len() && (#[trigger] curve[i]).1 - (#[trigger] curve[j]).1
                == drawdown(curve),
    decreases curve.len(),
{
    if curve.len() > 0 {
        let front = curve.drop_last();
        let n = curve.len() - 1;
        law_drawdown_is_largest_fall(front);
        lemma_peak(curve);
        assert forall|i: int, j: int| 0 <= i <= j < curve.len() implies (#[trigger] curve[i]).1
            - (#[trigger] curve[j]).1 <= drawdown(curve) by {
            if j < n {
                assert(front[i].1 - front[j].1 <= drawdown(front));
            }
        }
        if drawdown(curve) > 0 {
            if drawdown(curve) == drawdown(front) {
                let (i, j) = choose|i: int, j: int|
                    0 <= i <= j < front.len() && (#[trigger] front[i]).1 - (#[trigger] front[j]).1
                        == drawdown(front);
                assert(curve[i].1 - curve[j].1 == drawdown(curve));
            } else {
                let k = choose|k: int| 0 <= k < curve.len() && (#[trigger] curve[k]).1 == peak(
                    curve,
                );
                assert(curve[k].1 - curve[n].1 == drawdown(curve));
            }
        }
    }
}

/// Largest fall of an equity curve from its running maximum, where it is a
/// number of its type.
pub fn checked_metrics(curve: &Vec<(u64, i128)>) -> (max_dd: Option<i128>)
    ensures
        max_dd == (if drawdown(curve@) <= i128::MAX {
            Some(drawdown(curve@) as i128)
        } else {
            None
        }),
{
    let mut max_seen: i128 = i128::MIN;
    let mut max_dd: i128 = 0;
    let mut i: usize = 0;
    while i < curve.len()
        invariant
            i <= curve@.len(),
            i == 0 ==> max_seen == i128::MIN,
            i > 0 ==> max_seen == peak(curve@.take(i as int)),
            max_dd == drawdown(curve@.take(i as int)),
            max_dd >= 0,
        decreases curve@.len() - i,
    {
        let (_, equity) = curve[i];
        let ghost more = curve@.take(i + 1);
        proof {
            assert(more.drop_last() =~= curve@.take(i as int));
            assert(more.last() == curve@[i as int]);
        }
        if equity > max_seen {
            max_seen = equity;
        }
        if equity < 0 && max_seen > i128::MAX + equity {
            proof {
                lemma_drawdown_grows(curve@, i + 1);
            }
            return None;
        }
        if max_seen - equity > max_dd {
            max_dd = max_seen - equity;
        }
        i = i + 1;
    }
    assert(curve@.take(i as int) =~= curve@);
    Some(max_dd)
}

/// A longer curve has no smaller drawdown.
proof fn lemma_drawdown_grows(curve: Seq<(u64, i128)>, n: int)
    requires
        0 <= n <= curve.len(),
    ensures
        drawdown(curve.take(n)) <= drawdown(curve),
    decreases curve.len(),
{
    if n < curve.len() {
        lemma_drawdown_grows(curve.drop_last(), n);
        assert(curve.drop_last().take(n) =~= curve.take(n));
    } else {
        assert(curve.take(n) =~= curve);
    }
}

/// Largest fall of an equity curve from its running maximum.
pub fn compute_metrics(curve: &Vec<(u64, i128)>) -> (max_dd: i128)
    requires
        forall|i: int, j: int|
            0 <= i <= j < curve@.len() ==> (#[trigger] curve@[i]).1 - (#[trigger] curve@[j]).1
                <= i128::MAX,
    ensures
        max_dd == drawdown(curve@),
{
    proof {
        law_drawdown_is_largest_fall(curve@);
    }
    checked_metrics(curve).unwrap()
}

/// Outcome of a simulation.
#[derive(Debug)]
pub struct Report {
    pub steps: u64,
    pub fills: u64,
    pub traded_lots: u64,
    pub bought_lots: u64,
    pub bought_notional: i128,
    pub sold_lots: u64,
    pub sold_notional: i128,
    pub final_position: i64,
    pub final_equity: i128,
    pub return_ticklots: i128,
    pub max_drawdown_ticklots: i128,
    pub equity_curve: Vec<(u64, i128)>,
}

impl Report {
    /// The report is that of a simulation that ended in this state.
    pub open spec fn reports(&self, cfg: SimConfig, end: SimState) -> bool {
        let curve = end.final_curve(cfg);
        &&& self.steps == cfg.steps
        &&& self.fills == end.account.fills
        &&& self.traded_lots == end.account.traded_lots
        &&& self.bought_lots == end.account.bought_lots
        &&& self.bought_notional == end.account.bought_notional
        &&& self.sold_lots == end.account.sold_lots
        &&& self.sold_notional == end.account.sold_notional
        &&& self.final_position == end.account.position
        &&& self.final_equity == end.final_worth()
        &&& self.return_ticklots == end.final_worth()
        &&& self.max_drawdown_ticklots == drawdown(curve)
        &&& self.equity_curve@ == curve
    }
}

proof fn lemma_answers_concat<S: Strategy>(
    before: S,
    a: Seq<Call>,
    mid: S,
    b: Seq<Call>,
    after: S,
)
    requires
        answers(before, a, mid),
        answers(mid, b, after),
    ensures
        answers(before, a + b, after),
    decreases b.len(),
{
    if b.len() == 0 {
        assert(a + b =~= a);
    } else {
        let m = choose|m: S|
            answers(mid, b.drop_last(), m) && #[trigger] answered(m, b.last(), after);
        lemma_answers_concat(before, a, mid, b.drop_last(), m);
        lemma_answers_push(before, a + b.drop_last(), m, b.last(), after);
        assert((a + b.drop_last()).push(b.last()) =~= a + b);
    }
}

/// Books a fill of an order where it is the strategy's. `false` if its side
/// is unknown or the account cannot hold the result.
fn book_fill(
    account: &mut Account,
    sides: &HashMap<OrderId, Side>,
    id: OrderId,
    price: Price,
    qty: Qty,
) -> (ok: bool)
    ensures
        ok == bookable(*old(account), sides@, id, price, qty),
        ok ==> *final(account) == booked(*old(account), sides@, id, price, qty),
{
    if !is_strategy(id) {
        return true;
    }
    match sides.get(&id) {
        Some(side) => if account.accepts(*side, price, qty) {
            account.on_fill(*side, price, qty);
            true
        } else {
            false
        },
        None => false,
    }
}

/// Books fills touching strategy orders and forwards their events. `false`
/// if a fill could not be booked.
fn route_events<S: Strategy>(
    events: &Vec<Event>,
    sides: &HashMap<OrderId, Side>,
    account: &mut Account,
    last_trade: &mut Option<Price>,
    strategy: &mut S,
) -> (ok: bool)
    ensures
        ({
            let ledger = Ledger { account: *old(account), last_trade: *old(last_trade) };
            &&& ok == ledger.can_route(sides@, events@)
            &&& ok ==> ledger.routed(sides@, events@) == (Ledger {
                account: *final(account),
                last_trade: *final(last_trade),
            })
        }),
        ok ==> answers(*old(strategy), tellings(events@), *final(strategy)),
{
    let ghost ledger = Ledger { account: *account, last_trade: *last_trade };
    let ghost first = *strategy;
    let mut i: usize = 0;
    assert(events@.take(0) =~= Seq::empty());
    while i < events.len()
        invariant
            i <= events@.len(),
            ledger == (Ledger { account: *old(account), last_trade: *old(last_trade) }),
            ledger.can_route(sides@, events@.take(i as int)),
            ledger.routed(sides@, events@.take(i as int)) == (Ledger {
                account: *account,
                last_trade: *last_trade,
            }),
            answers(first, tellings(events@.take(i as int)), *strategy),
        decreases events@.len() - i,
    {
        let ev: Event = events[i];
        let ghost seen = events@.take(i as int);
        let ghost more = events@.take(i + 1);
        let ghost before = *strategy;
        proof {
            assert(more.drop_last() =~= seen);
            assert(more.last() == ev);
        }
        if let Event::Trade { maker, taker, price, qty } = ev {
            *last_trade = Some(price);
            // Strategy on exactly one side of a trade (it never self-crosses
            // in the demo strategies; if it did, both arms fire and net out).
            let maker_ok: bool = book_fill(account, sides, maker, price, qty);
            let ok: bool = maker_ok && book_fill(account, sides, taker, price, qty);
            if !ok {
                proof {
                    assert(!ledger.can_route(sides@, more));
                    if ledger.can_route(sides@, events@) {
                        ledger.lemma_can_route_prefix(sides@, events@, i + 1);
                    }
                }
                return false;
            }
        }
        if involves(ev) {
            strategy.on_event(&ev);
            proof {
                lemma_answers_push(first, tellings(seen), before, Call::Hear { ev }, *strategy);
            }
        }
        i = i + 1;
    }
    assert(events@.take(i as int) =~= events@);
    true
}

/// Drops bookkeeping for strategy orders that left the book. A fully filled
/// order keeps its entry, which is harmless: ids are never reused.
fn prune_filled(events: &Vec<Event>, sides: &mut HashMap<OrderId, Side>)
    ensures
        final(sides)@ == pruned(old(sides)@, events@),
{
    let ghost all = sides@;
    let mut i: usize = 0;
    assert(sides@ =~= pruned(all, events@.take(0)));
    while i < events.len()
        invariant
            i <= events@.len(),
            sides@ == pruned(all, events@.take(i as int)),
        decreases events@.len() - i,
    {
        let ghost seen = events@.take(i as int);
        let ghost more = events@.take(i + 1);
        let ghost before = sides@;
        let ev: Event = events[i];
        proof {
            assert forall|id: OrderId| #[trigger] left_book(more, id) <==> left_book(seen, id) || (
            is_strategy(id) && (ev matches Event::Canceled { id: x, .. } && x == id)) by {
                if left_book(seen, id) {
                    let k = choose|k: int|
                        0 <= k < seen.len() && (#[trigger] seen[k] matches Event::Canceled {
                            id: x,
                            ..
                        } && x == id);
                    assert(more[k] == seen[k]);
                }
                if left_book(more, id) {
                    let k = choose|k: int|
                        0 <= k < more.len() && (#[trigger] more[k] matches Event::Canceled {
                            id: x,
                            ..
                        } && x == id);
                    if k < seen.len() {
                        assert(seen[k] == more[k]);
                    }
                }
                assert(more[i as int] == ev);
            }
        }
        if let Event::Canceled { id, .. } = ev {
            if is_strategy(id) {
                sides.remove(&id);
            }
        }
        proof {
            assert(sides@ =~= pruned(all, more)) by {
                assert forall|id: OrderId| sides@.contains_key(id) == pruned(
                    all,
                    more,
                ).contains_key(id) by {
                    assert(left_book(more, id) == left_book(more, id));
                }
            }
        }
        i = i + 1;
    }
    assert(events@.take(i as int) =~= events@);
}

/// A simulated exchange with its background flow and one strategy's account.
pub struct Sim {
    cfg: SimConfig,
    book: OrderBook,
    flow: FlowGen,
    account: Account,
    ids: IdGen,
    last_trade: Option<Price>,
    last_mark: Price,
    sides: HashMap<OrderId, Side>,
    curve: Vec<(u64, i128)>,
    events: Vec<Event>,
    step: u64,
    calls: Ghost<Seq<Call>>,
}

impl View for Sim {
    type V = SimState;

    closed spec fn view(&self) -> SimState {
        SimState {
            book: self.book@,
            flow: self.flow@,
            account: self.account,
            last_trade: self.last_trade,
            last_mark: self.last_mark,
            sides: self.sides@,
            curve: self.curve@,
            events: self.events@,
            next_id: self.ids@,
            step: self.step,
            calls: self.calls@,
        }
    }
}

impl Sim {
    pub closed spec fn wf(&self) -> bool {
        self.book.wf()
    }

    /// The configuration the simulation was made with.
    pub closed spec fn cfg(&self) -> SimConfig {
        self.cfg
    }

    pub fn new(cfg: SimConfig) -> (sim: Sim)
        ensures
            sim.wf(),
            sim.cfg() == cfg,
            sim@ == SimState::start(cfg),
    {
        Sim {
            cfg,
            book: OrderBook::with_capacity(65_536),
            flow: FlowGen::new(cfg.seed, cfg.start_mid),
            account: Account::default(),
            ids: IdGen::new(),
            last_trade: None,
            last_mark: cfg.start_mid,
            sides: HashMap::new(),
            curve: Vec::new(),
            events: Vec::new(),
            step: 0,
            calls: Ghost(Seq::empty()),
        }
    }

    /// Sends a message to the exchange, books and forwards its events.
    /// `false` if it is not safe.
    fn exchange<S: Strategy>(&mut self, msg: Msg, strategy: &mut S) -> (ok: bool)
        requires
            old(self).wf(),
        ensures
            final(self).wf(),
            final(self).cfg() == old(self).cfg(),
            ok == old(self)@.exchange_safe(msg),
            ok ==> final(self)@ == old(self)@.exchanged(msg),
            ok ==> answers(
                *old(strategy),
                tellings(old(self)@.book.apply(msg).events),
                *final(strategy),
            ),
    {
        let ghost before = self@;
        let ghost o = before.book.apply(msg);
        if !has_room_for(&self.book, msg) {
            return false;
        }
        let mut sink: VecSink = VecSink::default();
        let ghost sink0 = sink;
        apply(&mut self.book, msg, &mut sink);
        proof {
            law_vec_sink_appends(sink0, o.events, sink);
            assert(sink.events@ =~= o.events);
        }
        let ok: bool = route_events(
            &sink.events,
            &self.sides,
            &mut self.account,
            &mut self.last_trade,
            strategy,
        );
        if !ok {
            return false;
        }
        prune_filled(&sink.events, &mut self.sides);
        self.events.append(&mut sink.events);
        proof {
            self.calls@ = self.calls@ + tellings(o.events);
            assert(self@ =~= before.exchanged(msg));
        }
        true
    }

    /// Carries out one action of the strategy. `false` if it is not safe.
    fn act<S: Strategy>(&mut self, action: Action, strategy: &mut S) -> (ok: bool)
        requires
            old(self).wf(),
        ensures
            final(self).wf(),
            final(self).cfg() == old(self).cfg(),
            ok == old(self)@.act_safe(action),
            ok ==> final(self)@ == old(self)@.acted(action),
            ok ==> answers(
                *old(strategy),
                tellings(old(self)@.book.apply(action.request()).events),
                *final(strategy),
            ),
    {
        let ghost before = self@;
        match action {
            Action::Limit { id, side, .. } | Action::Market { id, side, .. } => {
                self.sides.insert(id, side);
            },
            _ => {},
        }
        assert(self@ =~= before.noted(action));
        self.exchange(action.request(), strategy)
    }

    /// Processes one background message. `false` if it is not safe.
    fn background<S: Strategy>(&mut self, strategy: &mut S) -> (ok: bool)
        requires
            old(self).wf(),
        ensures
            final(self).wf(),
            final(self).cfg() == old(self).cfg(),
            ok == old(self)@.background_safe(old(self).cfg()),
            ok ==> final(self)@ == old(self)@.background(old(self).cfg()),
            ok ==> exists|new: Seq<Call>|
                {
                    &&& final(self)@.calls == old(self)@.calls + new
                    &&& #[trigger] answers(*old(strategy), new, *final(strategy))
                },
    {
        let ghost before = self@;
        let mid: Option<Price> = book_mid(&self.book, self.last_trade);
        if !self.flow.allows_next_op(mid, self.cfg.informed_pct) {
            return false;
        }
        let msg: Msg = self.flow.next_op(mid, self.cfg.informed_pct);
        self.events.clear();
        proof {
            let (msg2, flow) = before.flow.next_op(before.mid(), self.cfg.informed_pct);
            assert(self@ =~= (SimState { flow, events: Seq::empty(), ..before }));
        }
        self.exchange(msg, strategy)
    }

    /// Samples the equity curve where a sample is due. `false` if the equity
    /// is out of range.
    fn sample(&mut self) -> (ok: bool)
        requires
            old(self).wf(),
            old(self).cfg().sample_every > 0,
        ensures
            final(self).wf(),
            final(self).cfg() == old(self).cfg(),
            ok == old(self)@.sample_safe(old(self).cfg()),
            ok ==> final(self)@ == old(self)@.sampled(old(self).cfg()),
    {
        let ghost before = self@;
        if self.step % self.cfg.sample_every == 0 {
            let mark: Price = match book_mid(&self.book, self.last_trade) {
                Some(mid) => mid,
                None => self.last_mark,
            };
            match self.account.checked_equity(mark) {
                Some(equity) => {
                    self.last_mark = mark;
                    self.curve.push((self.step, equity));
                    assert(self@ =~= before.sampled(self.cfg));
                },
                None => {
                    return false;
                },
            }
        }
        true
    }

    /// Wakes the strategy and carries out what it asks for. `false` if an
    /// action is not safe.
    fn wake<S: Strategy>(&mut self, strategy: &mut S) -> (r: (bool, Ghost<(Seq<Action>, OrderId)>))
        requires
            old(self).wf(),
        ensures
            final(self).wf(),
            final(self).cfg() == old(self).cfg(),
            r.0 ==> {
                let told = old(self)@.asked(r.1@.0, r.1@.1);
                &&& told.acts_safe(r.1@.0)
                &&& final(self)@ == told.acts(r.1@.0)
                &&& exists|new: Seq<Call>|
                    {
                        &&& final(self)@.calls == old(self)@.calls + new
                        &&& #[trigger] answers(*old(strategy), new, *final(strategy))
                    }
            },
            exists|mid: S| #[trigger]
                answers(
                    *old(strategy),
                    seq![
                        Call::Wake {
                            sight: old(self)@.sight(),
                            next_id: old(self)@.next_id,
                            actions: r.1@.0,
                            next_after: r.1@.1,
                        },
                    ],
                    mid,
                ),
            !r.0 ==> !old(self)@.asked(r.1@.0, r.1@.1).acts_safe(r.1@.0),
    {
        let ghost before = self@;
        let ghost first = *strategy;
        let mut actions: Vec<Action> = Vec::new();
        let view = MarketView {
            book: &self.book,
            step: self.step,
            last_trade: self.last_trade,
            position: self.account.position,
            cash: self.account.cash,
        };
        strategy.on_wake(&view, &mut self.ids, &mut actions);
        let ghost asked = actions@;
        let ghost next_after = self.ids@;
        let ghost call = Call::Wake {
            sight: before.sight(),
            next_id: before.next_id,
            actions: asked,
            next_after,
        };
        let ghost told = before.asked(asked, next_after);
        let ghost mut new: Seq<Call> = seq![call];
        proof {
            self.calls@ = self.calls@.push(call);
            assert(self@ =~= told);
            lemma_answers_push(first, Seq::empty(), first, call, *strategy);
            assert(Seq::<Call>::empty().push(call) =~= new);
            assert(before.calls.push(call) =~= before.calls + new);
            assert(asked.take(0) =~= Seq::empty());
        }
        let mut k: usize = 0;
        while k < actions.len()
            invariant
                self.wf(),
                self.cfg() == old(self).cfg(),
                before == old(self)@,
                first == *old(strategy),
                actions@ == asked,
                k <= asked.len(),
                told == before.asked(asked, next_after),
                told.acts_safe(asked.take(k as int)),
                self@ == told.acts(asked.take(k as int)),
                self@.calls == before.calls + new,
                answers(first, new, *strategy),
                exists|mid: S| #[trigger]
                    answers(
                        first,
                        seq![
                            Call::Wake {
                                sight: before.sight(),
                                next_id: before.next_id,
                                actions: asked,
                                next_after,
                            },
                        ],
                        mid,
                    ),
            decreases asked.len() - k,
        {
            let ghost done = self@;
            let ghost s1 = *strategy;
            let ghost more = asked.take(k + 1);
            let action: Action = actions[k];
            proof {
                assert(more.drop_last() =~= asked.take(k as int));
                assert(more.last() == action);
            }
            if !self.act(action, strategy) {
                proof {
                    assert(!told.acts_safe(more));
                    if told.acts_safe(asked) {
                        told.lemma_acts_safe_prefix(asked, k + 1);
                    }
                }
                return (false, Ghost((asked, next_after)));
            }
            proof {
                let heard = tellings(done.book.apply(action.request()).events);
                lemma_answers_concat(first, new, s1, heard, *strategy);
                assert(before.calls + (new + heard) =~= (before.calls + new) + heard);
                new = new + heard;
            }
            k = k + 1;
        }
        proof {
            assert(asked.take(k as int) =~= asked);
        }
        (true, Ghost((asked, next_after)))
    }

    /// The part of a step before the equity sample. `false` if it is not
    /// safe.
    fn turn<S: Strategy>(&mut self, strategy: &mut S) -> (r: (bool, Ghost<(Seq<Action>, OrderId)>))
        requires
            old(self).wf(),
            old(self).cfg().step_ok(old(self)@.step),
        ensures
            final(self).wf(),
            final(self).cfg() == old(self).cfg(),
            r.0 ==> old(self)@.turned(old(self).cfg(), r.1@.0, r.1@.1, final(self)@),
            r.0 ==> exists|mid: S| #[trigger]
                old(self)@.may_answer(
                    old(self).cfg(),
                    *old(strategy),
                    r.1@.0,
                    r.1@.1,
                    mid,
                ),
            r.0 ==> exists|new: Seq<Call>|
                {
                    &&& final(self)@.calls == old(self)@.calls + new
                    &&& #[trigger] answers(*old(strategy), new, *final(strategy))
                },
            !r.0 ==> old(self)@.stuck(old(self).cfg(), *old(strategy)),
    {
        let ghost cfg = self.cfg();
        let ghost before = self@;
        let ghost first = *strategy;
        let ghost nothing: (Seq<Action>, OrderId) = (Seq::empty(), 0);
        if !self.background(strategy) {
            return (false, Ghost(nothing));
        }
        let ghost heard = choose|heard: Seq<Call>|
            {
                &&& self@.calls == before.calls + heard
                &&& #[trigger] answers(first, heard, *strategy)
            };
        let ghost s1 = *strategy;
        let ghost mid = self@;
        if !(self.step >= self.cfg.warmup && self.step % self.cfg.wake_every == 0) {
            proof {
                lemma_may_answer_asleep(before, cfg, first, heard, s1, nothing);
            }
            return (true, Ghost(nothing));
        }
        let (ok, Ghost(given)) = self.wake(strategy);
        proof {
            let call = Call::Wake {
                sight: mid.sight(),
                next_id: mid.next_id,
                actions: given.0,
                next_after: given.1,
            };
            let s2 = choose|s2: S| #[trigger] answers(s1, seq![call], s2);
            lemma_may_answer_awake(before, cfg, first, heard, s1, given, s2);
        }
        if !ok {
            assert(!before.step_safe(cfg, given.0, given.1));
            return (false, Ghost(given));
        }
        proof {
            let calls = choose|calls: Seq<Call>|
                {
                    &&& self@.calls == mid.calls + calls
                    &&& #[trigger] answers(s1, calls, *strategy)
                };
            lemma_answers_concat(first, heard, s1, calls, *strategy);
            assert((before.calls + heard) + calls =~= before.calls + (heard + calls));
        }
        (true, Ghost(given))
    }

    /// One step: a background message, the strategy's wake-up and the equity
    /// sample where they are due. `false` if a number ran out of its range, or
    /// if a trade touched an order of the strategy's id range whose side was
    /// never noted.
    pub fn step<S: Strategy>(&mut self, strategy: &mut S) -> (ok: bool)
        requires
            old(self).wf(),
            old(self).cfg().step_ok(old(self)@.step),
            old(self)@.step < u64::MAX,
        ensures
            final(self).wf(),
            final(self).cfg() == old(self).cfg(),
            ok ==> exists|actions: Seq<Action>, next_after: OrderId|
                {
                    &&& old(self)@.step_safe(old(self).cfg(), actions, next_after)
                    &&& final(self)@ == #[trigger] old(self)@.stepped(
                        old(self).cfg(),
                        actions,
                        next_after,
                    )
                },
            ok ==> exists|new: Seq<Call>|
                {
                    &&& final(self)@.calls == old(self)@.calls + new
                    &&& #[trigger] answers(*old(strategy), new, *final(strategy))
                },
            !ok ==> old(self)@.stuck(old(self).cfg(), *old(strategy)),
    {
        let ghost cfg = self.cfg();
        let ghost before = self@;
        let ghost first = *strategy;
        let (ok, Ghost(answer)) = self.turn(strategy);
        if !ok {
            return false;
        }
        let ghost done = self@;
        proof {
            lemma_turned_keeps_step(before, cfg, answer, done);
        }
        if !self.sample() {
            proof {
                lemma_sample_stuck(before, cfg, first, answer, done);
            }
            return false;
        }
        self.step = self.step + 1;
        proof {
            lemma_step_done(before, cfg, answer, done, self@);
        }
        true
    }

    /// Sums the simulation up. `None` if the final equity or the largest fall
    /// of the curve is out of range.
    pub fn report(&self) -> (report: Option<Report>)
        requires
            self.wf(),
        ensures
            report is Some <==> self@.reportable(self.cfg()),
            report matches Some(report) ==> report.reports(self.cfg(), self@),
    {
        let final_equity: i128 = match self.account.checked_equity(self.last_mark) {
            Some(equity) => equity,
            None => {
                return None;
            },
        };
        let mut equity_curve: Vec<(u64, i128)> = copied(&self.curve);
        equity_curve.push((self.cfg.steps, final_equity));
        let max_dd: i128 = match checked_metrics(&equity_curve) {
            Some(max_dd) => max_dd,
            None => {
                return None;
            },
        };
        proof {
            law_drawdown_is_largest_fall(equity_curve@);
        }
        Some(
            Report {
                steps: self.cfg.steps,
                fills: self.account.fills,
                traded_lots: self.account.traded_lots,
                bought_lots: self.account.bought_lots,
                bought_notional: self.account.bought_notional,
                sold_lots: self.account.sold_lots,
                sold_notional: self.account.sold_notional,
                final_position: self.account.position,
                final_equity,
                return_ticklots: final_equity,
                max_drawdown_ticklots: max_dd,
                equity_curve,
            },
        )
    }

    /// The exchange's book.
    pub fn book(&self) -> (book: &OrderBook)
        requires
            self.wf(),
        ensures
            book.wf(),
            book@ == self@.book,
    {
        &self.book
    }

    /// The strategy's account.
    pub fn account(&self) -> (account: Account)
        ensures
            account == self@.account,
    {
        self.account
    }

    /// The price that the last sample was marked at.
    pub fn mark(&self) -> (mark: Price)
        ensures
            mark == self@.last_mark,
    {
        self.last_mark
    }

    /// Number of steps taken.
    pub fn current_step(&self) -> (step: u64)
        ensures
            step == self@.step,
    {
        self.step
    }

    pub fn config(&self) -> (cfg: SimConfig)
        ensures
            cfg == self.cfg(),
    {
        self.cfg
    }

    /// The samples taken.
    pub fn equity_curve(&self) -> (curve: &Vec<(u64, i128)>)
        ensures
            curve@ == self@.curve,
    {
        &self.curve
    }

    /// Engine events of the last step.
    pub fn last_events(&self) -> (events: &Vec<Event>)
        ensures
            events@ == self@.events,
    {
        &self.events
    }
}

fn copied(curve: &Vec<(u64, i128)>) -> (copy: Vec<(u64, i128)>)
    ensures
        copy@ == curve@,
{
    let mut copy: Vec<(u64, i128)> = Vec::new();
    let mut i: usize = 0;
    while i < curve.len()
        invariant
            i <= curve@.len(),
            copy@ == curve@.take(i as int),
        decreases curve@.len() - i,
    {
        copy.push(curve[i]);
        i = i + 1;
        assert(curve@.take(i as int) =~= curve@.take(i - 1).push(curve@[i - 1]));
    }
    assert(curve@.take(i as int) =~= curve@);
    copy
}

/// Every step of the script is safe.
pub open spec fn safe_script(cfg: SimConfig, script: Seq<(Seq<Action>, OrderId)>) -> bool
    decreases script.len(),
{
    script.len() > 0 ==> {
        &&& safe_script(cfg, script.drop_last())
        &&& SimState::scripted(cfg, script.drop_last()).step_safe(
            cfg,
            script.last().0,
            script.last().1,
        )
    }
}

/// The run ended: the strategy answered every call of a script with one entry
/// per step, every step was safe, and the report is that of the simulation
/// with that script.
pub open spec fn completed<S: Strategy>(
    cfg: SimConfig,
    before: S,
    script: Seq<(Seq<Action>, OrderId)>,
    after: S,
    report: &Report,
) -> bool {
    &&& script.len() == cfg.steps
    &&& safe_script(cfg, script)
    &&& answers(before, SimState::scripted(cfg, script).calls, after)
    &&& report.reports(cfg, SimState::scripted(cfg, script))
}

/// The run had to stop: the strategy answered every call of a script whose
/// steps were all safe, and what comes after it may not be.
pub open spec fn stopped<S: Strategy>(
    cfg: SimConfig,
    before: S,
    script: Seq<(Seq<Action>, OrderId)>,
    after: S,
) -> bool {
    let state = SimState::scripted(cfg, script);
    &&& script.len() <= cfg.steps
    &&& safe_script(cfg, script)
    &&& answers(before, state.calls, after)
    &&& if script.len() < cfg.steps {
        state.stuck(cfg, after)
    } else {
        !state.reportable(cfg)
    }
}

/// What a run of `before` may come to: a report, with `after` left of the
/// strategy, or none.
pub open spec fn ran<S: Strategy>(
    cfg: SimConfig,
    before: S,
    after: S,
    report: Option<Report>,
) -> bool {
    match report {
        Some(report) => exists|script: Seq<(Seq<Action>, OrderId)>| #[trigger]
            completed(cfg, before, script, after, &report),
        None => exists|script: Seq<(Seq<Action>, OrderId)>, mid: S| #[trigger]
            stopped(cfg, before, script, mid),
    }
}

/// Runs a strategy against the simulated exchange and reports on it. `None`
/// if a number runs out of its machine range on the way, or if a trade touches
/// an order of the strategy's id range whose side was never noted: one that no
/// action of the strategy submitted.
pub fn run<S: Strategy>(cfg: &SimConfig, strategy: &mut S) -> (report: Option<Report>)
    requires
        cfg.steps > 0 ==> cfg.sample_every > 0,
        cfg.steps > cfg.warmup ==> cfg.wake_every > 0,
    ensures
        ran(*cfg, *old(strategy), *final(strategy), report),
{
    let ghost first = *strategy;
    let mut sim = Sim::new(*cfg);
    let ghost mut script: Seq<(Seq<Action>, OrderId)> = Seq::empty();
    let mut step: u64 = 0;
    while step < cfg.steps
        invariant
            first == *old(strategy),
            cfg.steps > 0 ==> cfg.sample_every > 0,
            cfg.steps > cfg.warmup ==> cfg.wake_every > 0,
            step <= cfg.steps,
            sim.wf(),
            sim.cfg() == *cfg,
            sim@.step == step,
            script.len() == step,
            safe_script(*cfg, script),
            sim@ == SimState::scripted(*cfg, script),
            answers(first, sim@.calls, *strategy),
        decreases cfg.steps - step,
    {
        let ghost before = sim@;
        let ghost s1 = *strategy;
        if !sim.step(strategy) {
            proof {
                assert(stopped(*cfg, first, script, s1));
            }
            return None;
        }
        proof {
            let (actions, next_after) = choose|actions: Seq<Action>, next_after: OrderId|
                {
                    &&& before.step_safe(*cfg, actions, next_after)
                    &&& sim@ == #[trigger] before.stepped(*cfg, actions, next_after)
                };
            let new = choose|new: Seq<Call>|
                {
                    &&& sim@.calls == before.calls + new
                    &&& #[trigger] answers(s1, new, *strategy)
                };
            lemma_answers_concat(first, before.calls, s1, new, *strategy);
            let longer = script.push((actions, next_after));
            assert(longer.drop_last() =~= script);
            assert(longer.last() == (actions, next_after));
            script = longer;
            lemma_step_counts(before, *cfg, actions, next_after);
        }
        step = step + 1;
    }
    match sim.report() {
        Some(report) => {
            assert(completed(*cfg, first, script, *strategy, &report));
            Some(report)
        },
        None => {
            assert(stopped(*cfg, first, script, *strategy));
            None
        },
    }
}

/// A step counts one.
proof fn lemma_step_counts(
    state: SimState,
    cfg: SimConfig,
    actions: Seq<Action>,
    next_after: OrderId,
)
    requires
        state.step < u64::MAX,
    ensures
        state.stepped(cfg, actions, next_after).step == state.step + 1,
{
}

} // verus!
