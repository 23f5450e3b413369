//! Background order flow: seeded, mixed, around a random-walking mid.
//!
//! Mix: 55% new GTC limit, 10% IOC, 5% FOK, 15% cancel, 10% cancel/replace,
//! 5% market. Passive limits land within 16 ticks of the reference price on
//! their own side; one in five limits is priced through it so that real
//! matching happens.
use vstd::prelude::*;

use crate::rng::{draw, stepped, Rng};
use crate::types::{OrderId, Price, Qty, Side, Tif};
use crate::wire::Msg;

verus! {

/// What the generator knows: the random state, the ids of the orders it
/// submitted and has not canceled, the next id, and the hidden mid.
#[verifier::ext_equal]
pub struct FlowState {
    pub rng: u64,
    pub live: Seq<OrderId>,
    pub next_id: OrderId,
    pub mid: Price,
}

/// A sequence without the item at `at`, whose place the last item takes.
pub open spec fn swapped_out(s: Seq<OrderId>, at: int) -> Seq<OrderId> {
    s.update(at, s.last()).drop_last()
}

/// A fair coin decides the side.
pub open spec fn drawn_side(rng: u64) -> Side {
    if draw(rng, 2) == 0 {
        Side::Bid
    } else {
        Side::Ask
    }
}

/// Time in force of a new limit order, by its place in the mix.
pub open spec fn tif_of_roll(roll: u64) -> Tif {
    if roll <= 54 {
        Tif::Gtc
    } else if roll <= 64 {
        Tif::Ioc
    } else {
        Tif::Fok
    }
}

/// Price of a new limit order: up to 15 ticks to the passive side of the
/// reference or, one time in five, to the aggressive side.
pub open spec fn limit_price(side: Side, reference: Price, offset: u64, aggressive: bool) -> int {
    match (side, aggressive) {
        (Side::Bid, false) => reference - offset,
        (Side::Bid, true) => reference + offset,
        (Side::Ask, false) => reference + offset,
        (Side::Ask, true) => reference - offset,
    }
}

impl FlowState {
    pub open spec fn start(seed: u64, start_mid: Price) -> FlowState {
        FlowState { rng: seed, live: Seq::empty(), next_id: 1, mid: start_mid }
    }

    /// The mid moves one tick every eighth message or so.
    pub open spec fn drifted_mid(self) -> int {
        if draw(self.rng, 8) == 0 {
            if draw(stepped(self.rng), 2) == 0 {
                self.mid + 1
            } else {
                self.mid - 1
            }
        } else {
            self.mid as int
        }
    }

    pub open spec fn drifted(self) -> FlowState {
        FlowState {
            mid: self.drifted_mid() as Price,
            rng: if draw(self.rng, 8) == 0 {
                stepped(stepped(self.rng))
            } else {
                stepped(self.rng)
            },
            ..self
        }
    }

    /// The drift stays within the price type.
    pub open spec fn can_drift(self) -> bool {
        i64::MIN <= self.drifted_mid() <= i64::MAX
    }

    /// The price of the message that [`FlowState::picked`] makes, where it
    /// has one.
    pub open spec fn picked_price(self, reference: Price) -> int {
        let roll = draw(self.rng, 100);
        let r1 = stepped(self.rng);
        let r2 = stepped(r1);
        let r3 = stepped(r2);
        if roll < 70 || self.live.len() == 0 {
            limit_price(drawn_side(r1), reference, draw(r2, 16), draw(r3, 5) == 0)
        } else {
            reference + draw(r2, 16) - 8
        }
    }

    /// The next message, priced off `reference`, and what follows it.
    pub open spec fn picked(self, reference: Price) -> (Msg, FlowState) {
        let roll = draw(self.rng, 100);
        let r1 = stepped(self.rng);
        let r2 = stepped(r1);
        let r3 = stepped(r2);
        let r4 = stepped(r3);
        let price = self.picked_price(reference) as Price;
        if roll < 70 || self.live.len() == 0 {
            let id = self.next_id;
            let tif = tif_of_roll(roll);
            (
                Msg::New {
                    id,
                    side: drawn_side(r1),
                    price,
                    qty: (1 + draw(r4, 100)) as Qty,
                    tif,
                },
                FlowState {
                    rng: stepped(r4),
                    live: if tif == Tif::Gtc {
                        self.live.push(id)
                    } else {
                        self.live
                    },
                    next_id: (id + 1) as OrderId,
                    ..self
                },
            )
        } else if roll < 85 {
            let at = draw(r1, self.live.len() as u64) as int;
            (
                Msg::Cancel { id: self.live[at] },
                FlowState { rng: r2, live: swapped_out(self.live, at), ..self },
            )
        } else if roll < 95 {
            let at = draw(r1, self.live.len() as u64) as int;
            (
                Msg::Replace { id: self.live[at], price, qty: (1 + draw(r3, 100)) as Qty },
                FlowState { rng: r4, ..self },
            )
        } else {
            let id = self.next_id;
            (
                Msg::Market { id, side: drawn_side(r1), qty: (1 + draw(r2, 200)) as Qty },
                FlowState { rng: r3, next_id: (id + 1) as OrderId, ..self },
            )
        }
    }

    /// Price and id of the next message stay within their types.
    pub open spec fn can_pick(self, reference: Price) -> bool {
        let roll = draw(self.rng, 100);
        let limit = roll < 70 || self.live.len() == 0;
        &&& limit || roll >= 95 ==> self.next_id < u64::MAX
        &&& limit || 85 <= roll < 95 ==> i64::MIN <= self.picked_price(reference) <= i64::MAX
    }

    /// The price a message is made around: the hidden mid for informed flow,
    /// else the mid that anyone can observe.
    pub open spec fn reference(self, book_mid: Option<Price>, informed_pct: u64) -> Price {
        if draw(self.rng, 100) < informed_pct {
            self.mid
        } else {
            match book_mid {
                Some(mid) => mid,
                None => self.mid,
            }
        }
    }

    /// One message of the flow: the mid drifts, the reference is picked, and
    /// the message is made around it.
    pub open spec fn next_op(self, book_mid: Option<Price>, informed_pct: u64) -> (Msg, FlowState) {
        let moved = self.drifted();
        let reference = moved.reference(book_mid, informed_pct);
        FlowState { rng: stepped(moved.rng), ..moved }.picked(reference)
    }

    pub open spec fn can_next_op(self, book_mid: Option<Price>, informed_pct: u64) -> bool {
        let moved = self.drifted();
        let reference = moved.reference(book_mid, informed_pct);
        self.can_drift() && FlowState { rng: stepped(moved.rng), ..moved }.can_pick(reference)
    }
}

pub struct FlowGen {
    rng: Rng,
    live: Vec<OrderId>,
    next_id: OrderId,
    mid: Price,
}

impl View for FlowGen {
    type V = FlowState;

    closed spec fn view(&self) -> FlowState {
        FlowState { rng: self.rng@, live: self.live@, next_id: self.next_id, mid: self.mid }
    }
}

impl FlowGen {
    pub fn new(seed: u64, start_mid: Price) -> (flow: Self)
        ensures
            flow@ == FlowState::start(seed, start_mid),
    {
        FlowGen { rng: Rng::new(seed), live: Vec::new(), next_id: 1, mid: start_mid }
    }

    /// The hidden mid.
    pub fn mid(&self) -> (mid: Price)
        ensures
            mid == self@.mid,
    {
        self.mid
    }

    /// The id of the next new order.
    pub fn next_id(&self) -> (id: OrderId)
        ensures
            id == self@.next_id,
    {
        self.next_id
    }

    fn draw_side(&mut self) -> (side: Side)
        ensures
            side == drawn_side(old(self)@.rng),
            final(self)@ == (FlowState { rng: stepped(old(self)@.rng), ..old(self)@ }),
    {
        if self.rng.below(2) == 0 {
            Side::Bid
        } else {
            Side::Ask
        }
    }

    /// Moves the mid one tick, every eighth time or so.
    pub fn drift(&mut self)
        requires
            old(self)@.can_drift(),
        ensures
            final(self)@ == old(self)@.drifted(),
    {
        if self.rng.below(8) == 0 {
            if self.rng.below(2) == 0 {
                self.mid = self.mid + 1;
            } else {
                self.mid = self.mid - 1;
            }
        }
    }

    /// Makes the next message around a reference price.
    pub fn pick(&mut self, reference: Price) -> (msg: Msg)
        requires
            old(self)@.can_pick(reference),
        ensures
            msg == old(self)@.picked(reference).0,
            final(self)@ == old(self)@.picked(reference).1,
    {
        let roll: u64 = self.rng.below(100);
        if roll < 70 || self.live.len() == 0 {
            let side: Side = self.draw_side();
            let offset: u64 = self.rng.below(16);
            let aggressive: bool = self.rng.below(5) == 0;
            let price: Price = match (side, aggressive) {
                (Side::Bid, false) => reference - offset as i64,
                (Side::Bid, true) => reference + offset as i64,
                (Side::Ask, false) => reference + offset as i64,
                (Side::Ask, true) => reference - offset as i64,
            };
            let tif: Tif = if roll <= 54 {
                Tif::Gtc
            } else if roll <= 64 {
                Tif::Ioc
            } else {
                Tif::Fok
            };
            let id: OrderId = self.next_id;
            self.next_id = self.next_id + 1;
            if tif == Tif::Gtc {
                self.live.push(id);
            }
            let qty: Qty = 1 + self.rng.below(100);
            Msg::New { id, side, price, qty, tif }
        } else if roll < 85 {
            let at: usize = self.rng.below(self.live.len() as u64) as usize;
            Msg::Cancel { id: self.live.swap_remove(at) }
        } else if roll < 95 {
            let at: usize = self.rng.below(self.live.len() as u64) as usize;
            let id: OrderId = self.live[at];
            let price: i128 = reference as i128 + self.rng.below(16) as i128 - 8;
            let qty: Qty = 1 + self.rng.below(100);
            Msg::Replace { id, price: price as i64, qty }
        } else {
            let id: OrderId = self.next_id;
            self.next_id = self.next_id + 1;
            let side: Side = self.draw_side();
            let qty: Qty = 1 + self.rng.below(200);
            Msg::Market { id, side, qty }
        }
    }

    /// Whether price and id of the next message stay within their types. It
    /// draws what [`FlowGen::next_op`] will draw, from a copy of the random
    /// state.
    pub fn allows_next_op(&self, book_mid: Option<Price>, informed_pct: u64) -> (ok: bool)
        ensures
            ok == self@.can_next_op(book_mid, informed_pct),
    {
        let mut rng: Rng = self.rng.twin();
        let mut mid: i128 = self.mid as i128;
        if rng.below(8) == 0 {
            mid = if rng.below(2) == 0 {
                mid + 1
            } else {
                mid - 1
            };
        }
        if !is_price(mid) {
            return false;
        }
        let reference: i128 = if rng.below(100) < informed_pct {
            mid
        } else {
            match book_mid {
                Some(seen) => seen as i128,
                None => mid,
            }
        };
        let roll: u64 = rng.below(100);
        if roll < 70 || self.live.len() == 0 {
            let bid: bool = rng.below(2) == 0;
            let offset: i128 = rng.below(16) as i128;
            let aggressive: bool = rng.below(5) == 0;
            let price: i128 = if bid == aggressive {
                reference + offset
            } else {
                reference - offset
            };
            self.next_id < u64::MAX && is_price(price)
        } else if roll < 85 {
            true
        } else if roll < 95 {
            rng.next();
            is_price(reference + rng.below(16) as i128 - 8)
        } else {
            self.next_id < u64::MAX
        }
    }

    /// `informed_pct` of orders are priced off the true (hidden) mid; the
    /// rest are priced off `book_mid`, the mid any participant can observe.
    /// Uninformed flow is what a market maker earns the spread from;
    /// informed flow is what runs it over. The ratio is the toxicity dial.
    pub fn next_op(&mut self, book_mid: Option<Price>, informed_pct: u64) -> (msg: Msg)
        requires
            old(self)@.can_next_op(book_mid, informed_pct),
        ensures
            msg == old(self)@.next_op(book_mid, informed_pct).0,
            final(self)@ == old(self)@.next_op(book_mid, informed_pct).1,
    {
        self.drift();
        let reference: Price = if self.rng.below(100) < informed_pct {
            self.mid
        } else {
            match book_mid {
                Some(mid) => mid,
                None => self.mid,
            }
        };
        self.pick(reference)
    }
}

/// Whether a number is within the price type.
fn is_price(x: i128) -> (yes: bool)
    ensures
        yes == (i64::MIN <= x <= i64::MAX),
{
    i64::MIN as i128 <= x && x <= i64::MAX as i128
}

/// Whether a message keeps to the flow's terms: small quantities, prices near
/// the reference, fresh ids for new orders, live ids for all others.
pub open spec fn in_terms(flow: FlowState, reference: Price, msg: Msg) -> bool {
    match msg {
        Msg::New { id, price, qty, .. } => {
            &&& id == flow.next_id
            &&& 1 <= qty <= 100
            &&& -15 <= price - reference <= 15
        },
        Msg::Cancel { id } => flow.live.contains(id),
        Msg::Replace { id, price, qty } => {
            &&& flow.live.contains(id)
            &&& 1 <= qty <= 100
            &&& -8 <= price - reference <= 7
        },
        Msg::Market { id, qty, .. } => {
            &&& id == flow.next_id
            &&& 1 <= qty <= 200
        },
    }
}

/// Live ids are different from each other and were all handed out.
pub open spec fn orderly(flow: FlowState) -> bool {
    &&& flow.live.no_duplicates()
    &&& forall|i: int| 0 <= i < flow.live.len() ==> (#[trigger] flow.live[i]) < flow.next_id
}

/// Every message of the flow keeps to its terms.
pub proof fn law_messages_keep_to_terms(flow: FlowState, reference: Price)
    requires
        flow.can_pick(reference),
        flow.live.len() <= u64::MAX,
    ensures
        in_terms(flow, reference, flow.picked(reference).0),
{
    let roll = draw(flow.rng, 100);
    if roll >= 70 && flow.live.len() > 0 {
        let at = draw(stepped(flow.rng), flow.live.len() as u64) as int;
        assert(0 <= at < flow.live.len());
        assert(flow.live.contains(flow.live[at]));
    }
}

/// The flow never uses an id twice for a new order, and never cancels an
/// order twice: a fresh id is larger than all before it, and a canceled id
/// leaves the live ones.
pub proof fn law_flow_stays_orderly(flow: FlowState, reference: Price)
    requires
        orderly(flow),
        flow.can_pick(reference),
        flow.live.len() <= u64::MAX,
    ensures
        ({
            let (msg, after) = flow.picked(reference);
            &&& orderly(after)
            &&& flow.next_id <= after.next_id <= flow.next_id + 1
            &&& after.next_id > flow.next_id <==> msg is New || msg is Market
            &&& msg matches Msg::Cancel { id } ==> !after.live.contains(id)
        }),
{
    let roll = draw(flow.rng, 100);
    let (msg, after) = flow.picked(reference);
    if roll < 70 || flow.live.len() == 0 {
        assert forall|i: int| 0 <= i < after.live.len() implies (#[trigger] after.live[i])
            < after.next_id by {
            if i < flow.live.len() {
                assert(flow.live[i] < flow.next_id);
            }
        }
        assert(after.live.no_duplicates()) by {
            assert forall|i: int, j: int| 0 <= i < j < after.live.len() implies after.live[i]
                != after.live[j] by {
                if j < flow.live.len() {
                    assert(flow.live[i] != flow.live[j]);
                } else {
                    assert(flow.live[i] < flow.next_id);
                }
            }
        }
    } else if roll < 85 {
        let at = draw(stepped(flow.rng), flow.live.len() as u64) as int;
        let n = flow.live.len() as int;
        assert(0 <= at < n);
        assert forall|i: int| 0 <= i < after.live.len() implies (#[trigger] after.live[i])
            < after.next_id && after.live[i] != flow.live[at] by {
            if i == at {
                assert(flow.live[n - 1] != flow.live[at]);
            } else {
                assert(flow.live[i] != flow.live[at]);
            }
        }
        assert(after.live.no_duplicates());
    }
}

/// At the ends of the dial the flow is all informed or all uninformed: at
/// 100% it is always priced off the hidden mid, at 0% off the observable one.
pub proof fn law_dial_has_two_ends(flow: FlowState, book_mid: Price)
    ensures
        flow.reference(Some(book_mid), 100) == flow.mid,
        flow.reference(Some(book_mid), 0) == book_mid,
{
}

} // verus!
