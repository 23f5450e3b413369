//! One side of the book as a map from price to level, best price first.
//!
//! The levels sit in a `BTreeMap` keyed by [`rank`]: the price itself on the
//! ask side and its mirror image on the bid side. The smallest key is
//! therefore the best price on either side, and walking the map in key order
//! walks the ladder from the touch outwards.
use std::collections::BTreeMap;
use vstd::prelude::*;
use vstd::std_specs::iter::IteratorSpec;

use crate::lemmas::{lemma_best_empty, lemma_best_unique};
use crate::model::{better, is_best, liquidity, lists};
use crate::types::{Price, Qty, Side};

verus! {

/// Per-price FIFO queue plus cached aggregates.
#[derive(Clone, Copy)]
pub struct Level {
    /// Slab index of the oldest order.
    pub head: u32,
    /// Slab index of the newest order.
    pub tail: u32,
    /// Sum of the resting quantities.
    pub qty: Qty,
    /// Number of resting orders.
    pub orders: u32,
}

/// Key under which a price is stored: order-preserving for asks,
/// order-reversing for bids. It is its own inverse.
pub open spec fn spec_rank(side: Side, price: Price) -> i64 {
    match side {
        Side::Bid => (-1 - price) as i64,
        Side::Ask => price,
    }
}

#[verifier::when_used_as_spec(spec_rank)]
fn rank(side: Side, price: Price) -> (key: i64)
    ensures
        key == spec_rank(side, price),
{
    match side {
        Side::Bid => -1 - price,
        Side::Ask => price,
    }
}

/// The entries of a level map in the order in which it is walked.
spec fn walk(m: Map<i64, Level>, s: Seq<(&i64, &Level)>) -> bool {
    &&& forall|i: int, j: int|
        0 <= i < j < s.len() ==> *(#[trigger] s[i]).0 < *(#[trigger] s[j]).0
    &&& forall|i: int|
        0 <= i < s.len() ==> m.contains_key(*(#[trigger] s[i]).0) && m[*s[i].0] == *s[i].1
    &&& forall|k: i64| #[trigger]
        m.contains_key(k) ==> exists|i: int| 0 <= i < s.len() && *(#[trigger] s[i]).0 == k
}

proof fn lemma_walk(m: &BTreeMap<i64, Level>, s: Seq<(&i64, &Level)>)
    requires
        s == vstd::std_specs::btree::spec_btree_map_iter(m).remaining(),
        vstd::std_specs::btree::increasing_seq(s.map_values(|kv: (&i64, &Level)| *kv.0)),
    ensures
        walk(m@, s),
{
    let keys = s.map_values(|kv: (&i64, &Level)| *kv.0);
    assert forall|i: int, j: int| 0 <= i < j < s.len() implies *(#[trigger] s[i]).0 < *(
    #[trigger] s[j]).0 by {
        assert(keys[i] == *s[i].0);
        assert(keys[j] == *s[j].0);
        assert(vstd::laws_cmp::obeys_cmp::<i64>());
        assert(vstd::std_specs::cmp::OrdSpec::cmp_spec(&keys[i], &keys[j]) is Less);
    }
    assert forall|k: i64| #[trigger] m@.contains_key(k) implies exists|i: int|
        0 <= i < s.len() && *(#[trigger] s[i]).0 == k by {
        assert(s.contains((&k, &m@[k])));
    }
    assert forall|i: int| 0 <= i < s.len() implies m@.contains_key(*(#[trigger] s[i]).0)
        && m@[*s[i].0] == *s[i].1 by {
        assert(m@.contains_key(*s[i].0));
    }
}

/// The cached quantity per price.
pub open spec fn level_totals(levels: Map<Price, Level>) -> Map<Price, nat> {
    Map::new(|p: Price| levels.contains_key(p), |p: Price| levels[p].qty as nat)
}

pub struct Ladder {
    side: Side,
    levels: BTreeMap<i64, Level>,
}

impl View for Ladder {
    type V = Map<Price, Level>;

    closed spec fn view(&self) -> Map<Price, Level> {
        Map::new(
            |p: Price| self.levels@.contains_key(rank(self.side, p)),
            |p: Price| self.levels@[rank(self.side, p)],
        )
    }
}

impl Ladder {
    pub closed spec fn side(&self) -> Side {
        self.side
    }

    pub fn new(side: Side) -> (ladder: Ladder)
        ensures
            ladder.side() == side,
            ladder@ == Map::<Price, Level>::empty(),
    {
        let ladder = Ladder { side, levels: BTreeMap::new() };
        assert(ladder@ =~= Map::empty());
        ladder
    }

    pub fn get(&self, price: Price) -> (level: Option<Level>)
        ensures
            level == (if self@.contains_key(price) {
                Some(self@[price])
            } else {
                None
            }),
    {
        let key: i64 = rank(self.side, price);
        match self.levels.get(&key) {
            Some(level) => Some(*level),
            None => None,
        }
    }

    pub fn put(&mut self, price: Price, level: Level)
        ensures
            final(self).side() == old(self).side(),
            final(self)@ == old(self)@.insert(price, level),
    {
        let key: i64 = rank(self.side, price);
        self.levels.insert(key, level);
        assert(self@ =~= old(self)@.insert(price, level));
    }

    pub fn remove(&mut self, price: Price)
        ensures
            final(self).side() == old(self).side(),
            final(self)@ == old(self)@.remove(price),
    {
        let key: i64 = rank(self.side, price);
        self.levels.remove(&key);
        assert(self@ =~= old(self)@.remove(price));
    }

    /// The best price, if any.
    pub fn best(&self) -> (best: Option<Price>)
        ensures
            match best {
                Some(p) => is_best(self@, self.side(), p),
                None => self@ == Map::<Price, Level>::empty(),
            },
    {
        let iter = self.levels.iter();
        proof {
            lemma_walk(&self.levels, iter.remaining());
        }
        for kv in it: iter
            invariant
                walk(self.levels@, it.seq()),
                it.index() == 0,
        {
            let p: Price = rank(self.side, *kv.0);
            proof {
                assert(kv == it.seq()[0]);
                assert(rank(self.side, p) == *kv.0);
                assert forall|q: Price| #[trigger] self@.contains_key(q) implies q == p || better(
                    self.side,
                    p,
                    q,
                ) by {
                    let key = rank(self.side, q);
                    assert(self.levels@.contains_key(key));
                }
            }
            return Some(p);
        }
        assert(self@ =~= Map::empty()) by {
            assert forall|p: Price| !self@.contains_key(p) by {
                let key = rank(self.side, p);
                assert(!self.levels@.contains_key(key));
            }
        }
        None
    }

    /// All levels with their prices, best first.
    pub fn entries(&self) -> (entries: Vec<(Price, Level)>)
        ensures
            lists(self@, self.side(), entries@),
    {
        let mut entries: Vec<(Price, Level)> = Vec::new();
        let iter = self.levels.iter();
        proof {
            lemma_walk(&self.levels, iter.remaining());
        }
        for kv in it: iter
            invariant
                walk(self.levels@, it.seq()),
                entries@.len() == it.index(),
                forall|i: int|
                    #![trigger entries@[i]]
                    #![trigger it.seq()[i]]
                    0 <= i < it.index() ==> {
                        &&& rank(self.side, entries@[i].0) == *it.seq()[i].0
                        &&& entries@[i].1 == *it.seq()[i].1
                    },
        {
            entries.push((rank(self.side, *kv.0), *kv.1));
        }
        proof {
            assert forall|p: Price| #[trigger] self@.contains_key(p) implies exists|i: int|
                0 <= i < entries@.len() && (#[trigger] entries@[i]).0 == p by {
                let key = rank(self.side, p);
                assert(self.levels@.contains_key(key));
            }
        }
        entries
    }

    /// Quantity at the prices that a limit reaches, capped at `want` (stops
    /// summing once satisfied).
    pub fn fillable(&self, limit: Price, want: Qty) -> (qty: Qty)
        requires
            self@.dom().finite(),
        ensures
            ({
                let within = liquidity(level_totals(self@), self.side(), Some(limit));
                qty == if within < want {
                    within
                } else {
                    want as nat
                }
            }),
    {
        let ghost all = level_totals(self@);
        let ghost mut rest = all;
        let mut acc: Qty = 0;
        let iter = self.levels.iter();
        proof {
            lemma_walk(&self.levels, iter.remaining());
            assert(all.dom() =~= self@.dom());
        }
        for kv in it: iter
            invariant
                walk(self.levels@, it.seq()),
                all == level_totals(self@),
                rest.dom().finite(),
                acc <= want,
                acc + liquidity(rest, self.side, Some(limit)) == liquidity(
                    all,
                    self.side,
                    Some(limit),
                ),
                forall|p: Price| #[trigger]
                    rest.contains_key(p) ==> all.contains_key(p) && rest[p] == all[p] && exists|j: int|
                        it.index() <= j < it.seq().len() && *(#[trigger] it.seq()[j]).0 == rank(
                            self.side,
                            p,
                        ),
                forall|j: int, p: Price|
                    it.index() <= j < it.seq().len() && *(#[trigger] it.seq()[j]).0
                        == #[trigger] rank(self.side, p) ==> rest.contains_key(p),
        {
            let p: Price = rank(self.side, *kv.0);
            let ghost i = it.index();
            proof {
                assert(kv == it.seq()[i]);
                assert(rank(self.side, p) == *kv.0);
                assert(rest.contains_key(p));
                assert forall|q: Price| #[trigger] rest.contains_key(q) implies q == p || better(
                    self.side,
                    p,
                    q,
                ) by {
                    let j = choose|j: int|
                        i <= j < it.seq().len() && *(#[trigger] it.seq()[j]).0 == rank(
                            self.side,
                            q,
                        );
                    assert(it.seq()[j] == it.seq()[i] || *it.seq()[i].0 < *it.seq()[j].0);
                }
                assert(is_best(rest, self.side, p));
                lemma_best_unique(rest, self.side, p);
            }
            let reached: bool = match self.side {
                Side::Bid => limit <= p,
                Side::Ask => p <= limit,
            };
            if !reached {
                return acc;
            }
            let level_qty: Qty = kv.1.qty;
            proof {
                assert(rest[p] == level_qty);
            }
            if level_qty >= want - acc {
                return want;
            }
            acc = acc + level_qty;
            proof {
                let before = rest;
                rest = rest.remove(p);
                assert forall|q: Price| #[trigger] rest.contains_key(q) implies all.contains_key(q)
                    && rest[q] == all[q] && exists|j: int|
                    i + 1 <= j < it.seq().len() && *(#[trigger] it.seq()[j]).0 == rank(
                        self.side,
                        q,
                    ) by {
                    assert(before.contains_key(q));
                    let j = choose|j: int|
                        i <= j < it.seq().len() && *(#[trigger] it.seq()[j]).0 == rank(
                            self.side,
                            q,
                        );
                    assert(j != i);
                }
                assert forall|j: int, q: Price|
                    i + 1 <= j < it.seq().len() && *(#[trigger] it.seq()[j]).0 == #[trigger] rank(
                        self.side,
                        q,
                    ) implies rest.contains_key(q) by {
                    assert(before.contains_key(q));
                    assert(*it.seq()[i].0 < *it.seq()[j].0);
                }
            }
        }
        proof {
            assert(rest =~= Map::empty()) by {
                assert forall|p: Price| !rest.contains_key(p) by {}
            }
            lemma_best_empty::<nat>(self.side);
        }
        acc
    }
}

} // verus!
