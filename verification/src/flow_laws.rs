//! What the background flow promises, message by message.
use vstd::prelude::*;

use crate::flow::FlowState;
use crate::rng::{draw, stepped};
use crate::types::{OrderId, Price, Side, Tif};
use crate::wire::Msg;

verus! {

/// `a` is `b` with its price, where it has one, `d` ticks higher.
pub open spec fn moved_by(a: Msg, b: Msg, d: int) -> bool {
    match (a, b) {
        (
            Msg::New { id: id1, side: side1, price: p1, qty: q1, tif: tif1 },
            Msg::New { id: id2, side: side2, price: p2, qty: q2, tif: tif2 },
        ) => id1 == id2 && side1 == side2 && p1 == p2 + d && q1 == q2 && tif1 == tif2,
        (
            Msg::Replace { id: id1, price: p1, qty: q1 },
            Msg::Replace { id: id2, price: p2, qty: q2 },
        ) => id1 == id2 && p1 == p2 + d && q1 == q2,
        (Msg::Cancel { .. }, Msg::Cancel { .. }) => a == b,
        (Msg::Market { .. }, Msg::Market { .. }) => a == b,
        _ => false,
    }
}

/// The reference only sets the price level: around a reference `d` ticks
/// higher the flow sends the same message with its price `d` ticks higher,
/// and goes on from the same state.
pub proof fn law_messages_follow_the_reference(flow: FlowState, a: Price, b: Price)
    requires
        flow.can_pick(a),
        flow.can_pick(b),
    ensures
        moved_by(flow.picked(a).0, flow.picked(b).0, a - b),
        flow.picked(a).1 == flow.picked(b).1,
{
}

/// The dial is graded: of the hundred values that the draw may take, exactly
/// the first `informed_pct` make the reference the hidden mid, and the others
/// make it the mid of the book, where there is one.
pub proof fn law_dial_is_graded(flow: FlowState, book_mid: Price, informed_pct: u64)
    ensures
        draw(flow.rng, 100) < 100,
        draw(flow.rng, 100) < informed_pct ==> flow.reference(Some(book_mid), informed_pct)
            == flow.mid,
        draw(flow.rng, 100) >= informed_pct ==> flow.reference(Some(book_mid), informed_pct)
            == book_mid,
        flow.reference(None, informed_pct) == flow.mid,
{
}

/// Turning the dial up by one percent turns exactly one value of the draw
/// from uninformed to informed, wherever the dial stands.
pub proof fn law_dial_turns_one_value_at_a_time(
    flow: FlowState,
    book_mid: Price,
    informed_pct: u64,
)
    requires
        informed_pct < 100,
        flow.mid != book_mid,
    ensures
        flow.reference(Some(book_mid), informed_pct) != flow.reference(
            Some(book_mid),
            (informed_pct + 1) as u64,
        ) <==> draw(flow.rng, 100) == informed_pct,
{
}

/// What the dial does to a message: the informed one is what the flow sends
/// where no mid can be observed, whatever the dial; the uninformed one is the
/// same but for a price that has moved from around the hidden mid to around
/// the observed one. Which of the two is sent is up to one draw out of a
/// hundred, after the drift.
pub proof fn law_dial_decides_the_price_level(
    flow: FlowState,
    book_mid: Price,
    informed_pct: u64,
    other_pct: u64,
)
    requires
        flow.can_next_op(Some(book_mid), informed_pct),
        flow.can_next_op(None, informed_pct),
    ensures
        ({
            let moved = flow.drifted();
            let (msg, after) = flow.next_op(Some(book_mid), informed_pct);
            let (blind, then) = flow.next_op(None, other_pct);
            &&& after == then
            &&& draw(moved.rng, 100) < informed_pct ==> msg == blind
            &&& draw(moved.rng, 100) >= informed_pct ==> moved_by(msg, blind, book_mid - moved.mid)
        }),
{
    let moved = flow.drifted();
    let at = FlowState { rng: stepped(moved.rng), ..moved };
    if draw(moved.rng, 100) >= informed_pct {
        law_messages_follow_the_reference(at, book_mid, moved.mid);
    }
}

/// Without a mid to observe, a message is made around the hidden mid after it
/// has drifted, with one number of the generator passed over.
pub proof fn law_blind_flow_is_informed(flow: FlowState, informed_pct: u64)
    ensures
        ({
            let moved = flow.drifted();
            flow.next_op(None, informed_pct) == (FlowState {
                rng: stepped(moved.rng),
                ..moved
            }).picked(moved.mid)
        }),
{
}

/// The hidden mid moves by one tick where the draw out of eight is zero, up
/// or down by a coin, and else stays; nothing else of the flow changes. How
/// it moves does not depend on where it is.
pub proof fn law_drift_is_a_tick(flow: FlowState)
    requires
        flow.can_drift(),
    ensures
        ({
            let after = flow.drifted();
            let d = after.mid - flow.mid;
            let coin = draw(stepped(flow.rng), 2);
            &&& draw(flow.rng, 8) != 0 ==> d == 0 && after.rng == stepped(flow.rng)
            &&& draw(flow.rng, 8) == 0 ==> d * d == 1 && after.rng == stepped(stepped(flow.rng))
            &&& d > 0 <==> draw(flow.rng, 8) == 0 && coin == 0
            &&& after.live == flow.live
            &&& after.next_id == flow.next_id
        }),
{
    assert(1int * 1int == 1);
    assert((-1int) * (-1int) == 1) by (nonlinear_arith);
}

/// The mix, as shares of a hundred: 55 new GTC orders, 10 IOC, 5 FOK, 15
/// cancels, 10 cancel/replace requests, 5 market orders; new orders only while
/// no order is live.
pub proof fn law_flow_keeps_its_mix(flow: FlowState, reference: Price)
    ensures
        ({
            let roll = draw(flow.rng, 100);
            let msg = flow.picked(reference).0;
            let idle = flow.live.len() == 0;
            &&& roll < 100
            &&& msg is New <==> roll < 70 || idle
            &&& msg is Cancel <==> 70 <= roll < 70 + 15 && !idle
            &&& msg is Replace <==> 85 <= roll < 85 + 10 && !idle
            &&& msg is Market <==> 95 <= roll < 95 + 5 && !idle
            &&& msg matches Msg::New { tif, .. } ==> {
                &&& tif == Tif::Gtc <==> roll < 55
                &&& tif == Tif::Ioc <==> 55 <= roll < 55 + 10
                &&& tif == Tif::Fok <==> 65 <= roll
            }
        }),
{
}

/// A new order is priced up to 15 ticks from the reference, evenly, and on its
/// own side of it but for one draw out of five, which puts it on the other;
/// its quantity is evenly 1 to 100. A replacement is priced evenly from 8
/// ticks below the reference to 7 above. A market order has evenly 1 to 200
/// lots. Sides are a coin's. Every number is drawn once, in order.
pub proof fn law_flow_draws_evenly(flow: FlowState, reference: Price)
    requires
        flow.can_pick(reference),
        flow.live.len() <= u64::MAX,
    ensures
        ({
            let r1 = stepped(flow.rng);
            let r2 = stepped(r1);
            let r3 = stepped(r2);
            let r4 = stepped(r3);
            let (msg, after) = flow.picked(reference);
            match msg {
                Msg::New { side, price, qty, .. } => {
                    let through = draw(r3, 5) == 0;
                    &&& side == Side::Bid <==> draw(r1, 2) == 0
                    &&& price - reference == draw(r2, 16) || reference - price == draw(r2, 16)
                    &&& side == Side::Bid && !through ==> price <= reference
                    &&& side == Side::Bid && through ==> price >= reference
                    &&& side == Side::Ask && !through ==> price >= reference
                    &&& side == Side::Ask && through ==> price <= reference
                    &&& qty - 1 == draw(r4, 100)
                    &&& after.rng == stepped(r4)
                },
                Msg::Cancel { id } => {
                    &&& id == flow.live[draw(r1, flow.live.len() as u64) as int]
                    &&& after.rng == r2
                },
                Msg::Replace { id, price, qty } => {
                    &&& id == flow.live[draw(r1, flow.live.len() as u64) as int]
                    &&& price - (reference - 8) == draw(r2, 16)
                    &&& qty - 1 == draw(r3, 100)
                    &&& after.rng == r4
                },
                Msg::Market { side, qty, .. } => {
                    &&& side == Side::Bid <==> draw(r1, 2) == 0
                    &&& qty - 1 == draw(r2, 200)
                    &&& after.rng == r3
                },
            }
        }),
{
}

/// The flow keeps track of its own orders: a new GTC order joins the live
/// ones at the end, a canceled one leaves them and the last one takes its
/// place, all others stay in theirs, and no other message changes them. The
/// hidden mid is not moved by a message.
pub proof fn law_flow_tracks_its_orders(flow: FlowState, reference: Price, x: OrderId)
    requires
        flow.can_pick(reference),
        flow.live.no_duplicates(),
        flow.live.len() <= u64::MAX,
    ensures
        ({
            let (msg, after) = flow.picked(reference);
            &&& after.mid == flow.mid
            &&& after.live.contains(x) <==> match msg {
                Msg::New { id, tif, .. } => flow.live.contains(x) || tif == Tif::Gtc && x == id,
                Msg::Cancel { id } => flow.live.contains(x) && x != id,
                _ => flow.live.contains(x),
            }
            &&& msg matches Msg::New { id, tif, .. } ==> (tif == Tif::Gtc ==> after.live.last()
                == id)
            &&& forall|j: int|
                0 <= j < after.live.len() && j < flow.live.len() ==> {
                    ||| #[trigger] after.live[j] == flow.live[j]
                    ||| after.live[j] == flow.live.last() && msg == (Msg::Cancel {
                        id: flow.live[j],
                    })
                }
            &&& after.live.len() == flow.live.len() + (match msg {
                Msg::New { tif, .. } => if tif == Tif::Gtc {
                    1int
                } else {
                    0
                },
                Msg::Cancel { .. } => -1,
                _ => 0,
            })
        }),
{
    let (msg, after) = flow.picked(reference);
    match msg {
        Msg::New { id, tif, .. } => {
            if tif == Tif::Gtc {
                assert(after.live[after.live.len() - 1] == id);
                if flow.live.contains(x) {
                    let k = flow.live.index_of(x);
                    assert(after.live[k] == x);
                }
                if after.live.contains(x) {
                    let k = after.live.index_of(x);
                    if k < flow.live.len() {
                        assert(flow.live[k] == x);
                    }
                }
            }
        },
        Msg::Cancel { id } => {
            let at = draw(stepped(flow.rng), flow.live.len() as u64) as int;
            let n = flow.live.len() as int;
            assert(0 <= at < n);
            if flow.live.contains(x) && x != id {
                let k = flow.live.index_of(x);
                if k == n - 1 {
                    assert(after.live[at] == x);
                } else {
                    assert(after.live[k] == x);
                }
            }
            if after.live.contains(x) {
                let k = after.live.index_of(x);
                if k == at {
                    assert(flow.live[n - 1] == x);
                } else {
                    assert(flow.live[k] == x);
                }
            }
        },
        _ => {},
    }
}

/// The flow stops only where a machine limit stops it: away from the ends of
/// the price type and with ids left, the mid can drift and a message can be
/// made.
pub proof fn law_flow_runs_within_limits(
    flow: FlowState,
    reference: Price,
    book_mid: Option<Price>,
    informed_pct: u64,
)
    ensures
        i64::MIN < flow.mid < i64::MAX ==> flow.can_drift(),
        i64::MIN + 15 <= reference <= i64::MAX - 15 && flow.next_id < u64::MAX ==> flow.can_pick(
            reference,
        ),
        i64::MIN + 16 <= flow.mid <= i64::MAX - 16 && flow.next_id < u64::MAX && (
        book_mid matches Some(m) ==> i64::MIN + 15 <= m <= i64::MAX - 15) ==> flow.can_next_op(
            book_mid,
            informed_pct,
        ),
{
}

/// A new flow has sent nothing: no order is live, the first id is 1, and the
/// mid and the generator are where they were asked to start.
pub proof fn law_flow_starts_empty(seed: u64, start_mid: Price)
    ensures
        ({
            let flow = FlowState::start(seed, start_mid);
            flow.live.len() == 0 && flow.next_id == 1 && flow.mid == start_mid && flow.rng == seed
        }),
{
}

} // verus!
