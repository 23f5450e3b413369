//! Position, cash and mark-to-market equity of a strategy.
use vstd::prelude::*;

use crate::types::{Price, Qty, Side};

verus! {

/// Tracks the strategy's holdings. Prices are ticks, so cash is in
/// tick-lots; convert to currency at the caller's tick value.
#[derive(Clone, Copy, PartialEq, Eq, Structural, Debug)]
pub struct Account {
    pub position: i64,
    pub cash: i128,
    pub fills: u64,
    pub traded_lots: u64,
    pub bought_lots: u64,
    pub bought_notional: i128,
    pub sold_lots: u64,
    pub sold_notional: i128,
}

impl Default for Account {
    fn default() -> (account: Self)
        ensures
            account == Account::flat(),
    {
        Account {
            position: 0,
            cash: 0,
            fills: 0,
            traded_lots: 0,
            bought_lots: 0,
            bought_notional: 0,
            sold_lots: 0,
            sold_notional: 0,
        }
    }
}

impl Account {
    /// Nothing held, nothing traded.
    pub open spec fn flat() -> Account {
        Account {
            position: 0,
            cash: 0,
            fills: 0,
            traded_lots: 0,
            bought_lots: 0,
            bought_notional: 0,
            sold_lots: 0,
            sold_notional: 0,
        }
    }

    /// The account after one fill: a buy adds lots and takes cash, a sale
    /// takes lots and adds cash.
    pub open spec fn filled(self, side: Side, price: Price, qty: Qty) -> Account {
        let notional = price * qty;
        match side {
            Side::Bid => Account {
                position: (self.position + qty) as i64,
                cash: (self.cash - notional) as i128,
                fills: (self.fills + 1) as u64,
                traded_lots: (self.traded_lots + qty) as u64,
                bought_lots: (self.bought_lots + qty) as u64,
                bought_notional: (self.bought_notional + notional) as i128,
                ..self
            },
            Side::Ask => Account {
                position: (self.position - qty) as i64,
                cash: (self.cash + notional) as i128,
                fills: (self.fills + 1) as u64,
                traded_lots: (self.traded_lots + qty) as u64,
                sold_lots: (self.sold_lots + qty) as u64,
                sold_notional: (self.sold_notional + notional) as i128,
                ..self
            },
        }
    }

    /// Every sum of [`Account::filled`] stays within its type.
    pub open spec fn can_fill(self, side: Side, price: Price, qty: Qty) -> bool {
        let notional = price * qty;
        &&& qty <= i64::MAX
        &&& self.fills < u64::MAX
        &&& self.traded_lots + qty <= u64::MAX
        &&& match side {
            Side::Bid => {
                &&& self.position + qty <= i64::MAX
                &&& i128::MIN <= self.cash - notional <= i128::MAX
                &&& self.bought_lots + qty <= u64::MAX
                &&& i128::MIN <= self.bought_notional + notional <= i128::MAX
            },
            Side::Ask => {
                &&& i64::MIN <= self.position - qty
                &&& i128::MIN <= self.cash + notional <= i128::MAX
                &&& self.sold_lots + qty <= u64::MAX
                &&& i128::MIN <= self.sold_notional + notional <= i128::MAX
            },
        }
    }

    /// Cash plus position marked at `mark`.
    pub open spec fn worth(self, mark: Price) -> int {
        self.cash + self.position * mark
    }

    /// Whether a fill stays within the machine types.
    pub fn accepts(&self, side: Side, price: Price, qty: Qty) -> (ok: bool)
        ensures
            ok == self.can_fill(side, price, qty),
    {
        proof {
            lemma_notional(price, qty);
        }
        let notional: i128 = price as i128 * qty as i128;
        let common: bool = qty <= i64::MAX as u64 && self.fills < u64::MAX && self.traded_lots
            <= u64::MAX - qty;
        if !common {
            return false;
        }
        match side {
            Side::Bid => self.position as i128 + qty as i128 <= i64::MAX as i128 && adds_up(
                self.cash,
                -notional,
            ) && self.bought_lots <= u64::MAX - qty && adds_up(self.bought_notional, notional),
            Side::Ask => self.position as i128 - qty as i128 >= i64::MIN as i128 && adds_up(
                self.cash,
                notional,
            ) && self.sold_lots <= u64::MAX - qty && adds_up(self.sold_notional, notional),
        }
    }

    /// Applies one fill from the strategy's perspective.
    pub fn on_fill(&mut self, strategy_side: Side, price: Price, qty: Qty)
        requires
            old(self).can_fill(strategy_side, price, qty),
        ensures
            *final(self) == old(self).filled(strategy_side, price, qty),
    {
        proof {
            lemma_notional(price, qty);
        }
        let notional: i128 = price as i128 * qty as i128;
        match strategy_side {
            Side::Bid => {
                self.position = self.position + qty as i64;
                self.cash = self.cash - notional;
                self.bought_lots = self.bought_lots + qty;
                self.bought_notional = self.bought_notional + notional;
            },
            Side::Ask => {
                self.position = self.position - qty as i64;
                self.cash = self.cash + notional;
                self.sold_lots = self.sold_lots + qty;
                self.sold_notional = self.sold_notional + notional;
            },
        }
        self.fills = self.fills + 1;
        self.traded_lots = self.traded_lots + qty;
    }

    /// Cash plus position marked at `mark`.
    pub fn equity(&self, mark: Price) -> (equity: i128)
        requires
            i128::MIN <= self.worth(mark) <= i128::MAX,
        ensures
            equity == self.worth(mark),
    {
        proof {
            lemma_marked(self.position, mark);
        }
        self.cash + self.position as i128 * mark as i128
    }

    /// [`Account::equity`], where it is a number of its type.
    pub fn checked_equity(&self, mark: Price) -> (equity: Option<i128>)
        ensures
            equity == (if i128::MIN <= self.worth(mark) <= i128::MAX {
                Some(self.worth(mark) as i128)
            } else {
                None
            }),
    {
        proof {
            lemma_marked(self.position, mark);
        }
        let marked: i128 = self.position as i128 * mark as i128;
        if adds_up(self.cash, marked) {
            Some(self.cash + marked)
        } else {
            None
        }
    }
}

/// Whether a sum stays within `i128`.
fn adds_up(a: i128, b: i128) -> (ok: bool)
    ensures
        ok == (i128::MIN <= a + b <= i128::MAX),
{
    if b >= 0 {
        a <= i128::MAX - b
    } else {
        a >= i128::MIN - b
    }
}

/// The product of a price and a quantity fits 128 bits with sign to spare.
proof fn lemma_notional(price: Price, qty: Qty)
    by (nonlinear_arith)
    ensures
        -0x7FFF_FFFF_FFFF_FFFF_FFFF_FFFF_FFFF_FFFF <= price * qty
            <= 0x7FFF_FFFF_FFFF_FFFF_FFFF_FFFF_FFFF_FFFF,
{
}

/// The product of a position and a price is at most 2^126 in size.
proof fn lemma_marked(position: i64, mark: Price)
    by (nonlinear_arith)
    ensures
        -0x4000_0000_0000_0000_0000_0000_0000_0000 <= position * mark
            <= 0x4000_0000_0000_0000_0000_0000_0000_0000,
{
}

/// The books balance: lots held are lots bought less lots sold, and cash is
/// what sales brought less what purchases cost.
pub open spec fn balanced(account: Account) -> bool {
    &&& account.position == account.bought_lots - account.sold_lots
    &&& account.cash == account.sold_notional - account.bought_notional
    &&& account.traded_lots == account.bought_lots + account.sold_lots
}

/// A flat account balances, and every fill keeps an account balanced.
pub proof fn law_books_balance(account: Account, side: Side, price: Price, qty: Qty)
    requires
        balanced(account),
        account.can_fill(side, price, qty),
    ensures
        balanced(Account::flat()),
        balanced(account.filled(side, price, qty)),
{
    lemma_notional(price, qty);
}

/// A fill at the mark leaves equity as it was; a fill away from it gains or
/// loses the distance on every lot.
pub proof fn law_fill_moves_equity_by_its_edge(
    account: Account,
    side: Side,
    price: Price,
    qty: Qty,
    mark: Price,
)
    requires
        account.can_fill(side, price, qty),
    ensures
        account.filled(side, price, qty).worth(mark) - account.worth(mark) == (match side {
            Side::Bid => (mark - price) * qty,
            Side::Ask => (price - mark) * qty,
        }),
{
    lemma_notional(price, qty);
    let p = account.position as int;
    let m = mark as int;
    let q = qty as int;
    let x = price as int;
    assert((p + q) * m == p * m + q * m) by (nonlinear_arith);
    assert((p - q) * m == p * m - q * m) by (nonlinear_arith);
    assert((m - x) * q == q * m - x * q) by (nonlinear_arith);
    assert((x - m) * q == x * q - q * m) by (nonlinear_arith);
}

/// Buying and selling the same lots returns to the old position and earns
/// exactly the price difference on each lot, whatever the mark. Buying at the
/// ask and selling at the bid below it can only lose.
pub proof fn law_round_trip_earns_the_spread(
    account: Account,
    bought_at: Price,
    sold_at: Price,
    qty: Qty,
    mark: Price,
)
    requires
        account.can_fill(Side::Bid, bought_at, qty),
        account.filled(Side::Bid, bought_at, qty).can_fill(Side::Ask, sold_at, qty),
    ensures
        ({
            let after = account.filled(Side::Bid, bought_at, qty).filled(Side::Ask, sold_at, qty);
            &&& after.position == account.position
            &&& after.worth(mark) - account.worth(mark) == (sold_at - bought_at) * qty
            &&& sold_at <= bought_at ==> after.worth(mark) <= account.worth(mark)
        }),
{
    let mid = account.filled(Side::Bid, bought_at, qty);
    law_fill_moves_equity_by_its_edge(account, Side::Bid, bought_at, qty, mark);
    law_fill_moves_equity_by_its_edge(mid, Side::Ask, sold_at, qty, mark);
    let b = bought_at as int;
    let s = sold_at as int;
    let m = mark as int;
    let q = qty as int;
    assert((m - b) * q + (s - m) * q == (s - b) * q) by (nonlinear_arith);
    assert(s <= b ==> (s - b) * q <= 0) by (nonlinear_arith)
        requires
            q >= 0,
    ;
}

/// A fill changes an account by exactly its lots and its money, wherever the
/// account has room for it: one fill more, its lots traded and, on the side
/// that it is on, bought for or sold at its price; nothing of the other side.
pub proof fn law_fills_are_exact(account: Account, side: Side, price: Price, qty: Qty)
    requires
        account.can_fill(side, price, qty),
    ensures
        ({
            let after = account.filled(side, price, qty);
            let (bought, sold): (int, int) = match side {
                Side::Bid => (qty as int, 0),
                Side::Ask => (0, qty as int),
            };
            &&& after.fills == account.fills + 1
            &&& after.traded_lots == account.traded_lots + qty
            &&& after.bought_lots == account.bought_lots + bought
            &&& after.sold_lots == account.sold_lots + sold
            &&& after.bought_notional == account.bought_notional + price * bought
            &&& after.sold_notional == account.sold_notional + price * sold
            &&& after.position == account.position + bought - sold
            &&& after.cash == account.cash - price * bought + price * sold
        }),
{
    let p = price as int;
    assert(p * 0 == 0);
}

/// An account refuses a fill only for want of room: if the eight sums that it
/// comes to are numbers of their types, and so is the quantity as a signed
/// number, the account can be filled.
pub proof fn law_accounts_take_what_they_hold(
    account: Account,
    side: Side,
    price: Price,
    qty: Qty,
    after: Account,
)
    requires
        qty <= i64::MAX,
        after.fills == account.fills + 1,
        after.traded_lots == account.traded_lots + qty,
        side == Side::Bid ==> {
            &&& after.bought_lots == account.bought_lots + qty
            &&& after.bought_notional == account.bought_notional + price * qty
            &&& after.position == account.position + qty
            &&& after.cash == account.cash - price * qty
        },
        side == Side::Ask ==> {
            &&& after.sold_lots == account.sold_lots + qty
            &&& after.sold_notional == account.sold_notional + price * qty
            &&& after.position == account.position - qty
            &&& after.cash == account.cash + price * qty
        },
    ensures
        account.can_fill(side, price, qty),
{
}

/// Equity is cash for a flat account, moves by the position for each tick of
/// the mark, and by the cash for each tick-lot of cash.
pub proof fn law_equity_is_marked(account: Account, other: Account, mark: Price, ticks: int)
    requires
        i64::MIN <= mark + ticks <= i64::MAX,
    ensures
        account.worth(0) == account.cash,
        account.worth((mark + ticks) as Price) - account.worth(mark) == account.position * ticks,
        account.position == other.position ==> account.worth(mark) - other.worth(mark)
            == account.cash - other.cash,
{
    let p = account.position as int;
    let m = mark as int;
    assert(p * (m + ticks) == p * m + p * ticks) by (nonlinear_arith);
    assert(p * 0 == 0);
}

} // verus!
