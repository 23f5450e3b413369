//! Core scalar types and enums shared across the engine.
//!
//! Prices are integer ticks and quantities are integer lots. Using integers
//! end-to-end keeps matching exact and keeps the hot structs `Copy`.
use vstd::prelude::*;

verus! {

/// Price in ticks. Signed so spreads and deltas never underflow.
pub type Price = i64;

/// Quantity in lots.
pub type Qty = u64;

/// Client-assigned order id, unique per live order.
pub type OrderId = u64;

/// The side of the book an order belongs to.
#[derive(Clone, Copy, PartialEq, Eq, Structural, Debug)]
pub enum Side {
    Bid,
    Ask,
}

impl Side {
    pub open spec fn spec_opposite(self) -> Side {
        match self {
            Side::Bid => Side::Ask,
            Side::Ask => Side::Bid,
        }
    }

    /// The other side of the book.
    #[verifier::when_used_as_spec(spec_opposite)]
    pub fn opposite(self) -> (other: Side)
        ensures
            other == self.spec_opposite(),
    {
        match self {
            Side::Bid => Side::Ask,
            Side::Ask => Side::Bid,
        }
    }
}

/// Going to the other side twice comes back.
pub proof fn law_opposite_involutive(side: Side)
    ensures
        side.opposite().opposite() == side,
        side.opposite() != side,
{
}

/// Time-in-force for limit orders.
#[derive(Clone, Copy, PartialEq, Eq, Structural, Debug)]
pub enum Tif {
    /// Rest on the book after matching.
    Gtc,
    /// Match what crosses immediately, cancel the remainder.
    Ioc,
    /// Fill the entire quantity immediately or reject without trading.
    Fok,
}

/// Why a request was refused.
#[derive(Clone, Copy, PartialEq, Eq, Structural, Debug)]
pub enum RejectReason {
    DuplicateId,
    ZeroQty,
    UnknownOrder,
    /// FOK order could not be filled in full.
    FokUnfillable,
}

} // verus!
