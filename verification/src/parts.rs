//! How the engine's structures represent a book.
//!
//! [`Parts`] gathers the contents of the slab, the ladders and the id index,
//! together with the list of slab indices behind each level. [`Parts::ok`]
//! says when they fit together; [`Parts::state`] is the book they stand for.
use vstd::prelude::*;

use crate::ladder::{level_totals, Level};
use crate::lemmas::{
    law_ladder_lists, lemma_total_push, lemma_total_remove, lemma_total_update,
};
use crate::model::{
    append, ladder, queue_at, resize, take_out, total, totals, BookState, Queues, Resting,
};
use crate::slab::{link, OrderNode, NIL};
use crate::types::{OrderId, Price, Qty, Side};

verus! {

pub struct Parts {
    /// All slab nodes.
    pub nodes: Seq<OrderNode>,
    /// Indices of unallocated nodes.
    pub free: Seq<u32>,
    /// Live order id to slab index.
    pub ids: Map<OrderId, u32>,
    pub bid_levels: Map<Price, Level>,
    pub ask_levels: Map<Price, Level>,
    /// Slab indices of each level, oldest order first.
    pub bid_chains: Map<Price, Seq<u32>>,
    pub ask_chains: Map<Price, Seq<u32>>,
}

/// The order a node stands for.
pub open spec fn resting(node: OrderNode) -> Resting {
    Resting { id: node.id, qty: node.qty }
}

/// The queue a list of slab indices stands for.
pub open spec fn queue_of(nodes: Seq<OrderNode>, chain: Seq<u32>) -> Seq<Resting> {
    Seq::new(chain.len(), |i: int| resting(nodes[chain[i] as int]))
}

/// The queues a map of slab index lists stands for.
pub open spec fn queues_of(nodes: Seq<OrderNode>, chains: Map<Price, Seq<u32>>) -> Queues {
    Map::new(|p: Price| chains.contains_key(p), |p: Price| queue_of(nodes, chains[p]))
}

/// The aggregates a level caches for its list.
pub open spec fn level_of(nodes: Seq<OrderNode>, chain: Seq<u32>, level: Level) -> bool {
    &&& chain.len() > 0
    &&& level.head == chain[0]
    &&& level.tail == chain.last()
    &&& level.orders == chain.len()
    &&& level.qty == total(queue_of(nodes, chain))
}

impl Parts {
    pub open spec fn levels(self, side: Side) -> Map<Price, Level> {
        match side {
            Side::Bid => self.bid_levels,
            Side::Ask => self.ask_levels,
        }
    }

    pub open spec fn chains(self, side: Side) -> Map<Price, Seq<u32>> {
        match side {
            Side::Bid => self.bid_chains,
            Side::Ask => self.ask_chains,
        }
    }

    pub open spec fn state(self) -> BookState {
        BookState {
            bids: queues_of(self.nodes, self.bid_chains),
            asks: queues_of(self.nodes, self.ask_chains),
        }
    }

    /// The node at position `i` of a level's list carries the level's side
    /// and price, is linked to its neighbours and is what the id index names.
    pub open spec fn node_ok(self, side: Side, price: Price, chain: Seq<u32>, i: int) -> bool {
        let x = chain[i];
        let node = self.nodes[x as int];
        &&& x < self.nodes.len()
        &&& x != NIL
        &&& !self.free.contains(x)
        &&& node.side == side
        &&& node.price == price
        &&& node.qty > 0
        &&& node.prev == link(chain, i - 1)
        &&& node.next == link(chain, i + 1)
        &&& self.ids.contains_key(node.id)
        &&& self.ids[node.id] == x
    }

    pub open spec fn linked(self, side: Side, price: Price, chain: Seq<u32>) -> bool {
        &&& chain.no_duplicates()
        &&& forall|i: int| 0 <= i < chain.len() ==> #[trigger] self.node_ok(side, price, chain, i)
    }

    pub open spec fn level_ok(self, side: Side, price: Price) -> bool {
        let chain = self.chains(side)[price];
        &&& self.levels(side).contains_key(price)
        &&& self.linked(side, price, chain)
        &&& level_of(self.nodes, chain, self.levels(side)[price])
    }

    /// The id index entry leads to the order's place in its level.
    pub open spec fn id_ok(self, id: OrderId) -> bool {
        let x = self.ids[id];
        let node = self.nodes[x as int];
        &&& x < self.nodes.len()
        &&& node.id == id
        &&& self.chains(node.side).contains_key(node.price)
        &&& self.chains(node.side)[node.price].contains(x)
    }

    pub open spec fn ok(self) -> bool {
        &&& self.bid_chains.dom().finite()
        &&& self.ask_chains.dom().finite()
        &&& self.ids.dom().finite()
        &&& self.nodes.len() == self.ids.dom().len() + self.free.len()
        &&& forall|side: Side, price: Price| #[trigger]
            self.levels(side).contains_key(price) ==> self.chains(side).contains_key(price)
        &&& forall|side: Side, price: Price| #[trigger]
            self.chains(side).contains_key(price) ==> self.level_ok(side, price)
        &&& forall|id: OrderId| #[trigger] self.ids.contains_key(id) ==> self.id_ok(id)
    }

    /// A queue of the state is the queue of the list at that price.
    pub proof fn lemma_queue(self, side: Side, price: Price)
        ensures
            self.state().queues(side).contains_key(price) == self.chains(side).contains_key(price),
            self.chains(side).contains_key(price) ==> self.state().queues(side)[price] == queue_of(
                self.nodes,
                self.chains(side)[price],
            ),
    {
    }

    /// The slab index determines side, price and position.
    pub proof fn lemma_place_unique(
        self,
        side1: Side,
        price1: Price,
        i1: int,
        side2: Side,
        price2: Price,
        i2: int,
    )
        requires
            self.ok(),
            self.chains(side1).contains_key(price1),
            self.chains(side2).contains_key(price2),
            0 <= i1 < self.chains(side1)[price1].len(),
            0 <= i2 < self.chains(side2)[price2].len(),
            self.chains(side1)[price1][i1] == self.chains(side2)[price2][i2],
        ensures
            side1 == side2,
            price1 == price2,
            i1 == i2,
    {
        assert(self.level_ok(side1, price1));
        assert(self.level_ok(side2, price2));
        assert(self.node_ok(side1, price1, self.chains(side1)[price1], i1));
        assert(self.node_ok(side2, price2, self.chains(side2)[price2], i2));
    }

    /// A book whose structures fit together is well formed, and the id index
    /// holds exactly the resting orders.
    pub proof fn lemma_state(self)
        requires
            self.ok(),
        ensures
            self.state().well_formed(),
            forall|id: OrderId| #[trigger] self.state().holds(id) <==> self.ids.contains_key(id),
            self.state().ids() =~= self.ids.dom(),
    {
        let state = self.state();
        assert(state.bids.dom() =~= self.bid_chains.dom());
        assert(state.asks.dom() =~= self.ask_chains.dom());
        assert forall|side: Side, price: Price| #[trigger]
            state.queues(side).contains_key(price) implies state.queues(side)[price].len() > 0 by {
            self.lemma_queue(side, price);
            assert(self.level_ok(side, price));
        }
        assert forall|side: Side, price: Price, i: int| #[trigger]
            state.has(side, price, i) implies state.order_at(side, price, i).qty > 0 by {
            self.lemma_queue(side, price);
            assert(self.level_ok(side, price));
            assert(self.node_ok(side, price, self.chains(side)[price], i));
        }
        assert forall|side1: Side, price1: Price, i1: int, side2: Side, price2: Price, i2: int|
            #![trigger state.has(side1, price1, i1), state.has(side2, price2, i2)]
            state.has(side1, price1, i1) && state.has(side2, price2, i2) && state.order_at(
                side1,
                price1,
                i1,
            ).id == state.order_at(side2, price2, i2).id implies side1 == side2 && price1 == price2
            && i1 == i2 by {
            self.lemma_queue(side1, price1);
            self.lemma_queue(side2, price2);
            assert(self.level_ok(side1, price1));
            assert(self.level_ok(side2, price2));
            assert(self.node_ok(side1, price1, self.chains(side1)[price1], i1));
            assert(self.node_ok(side2, price2, self.chains(side2)[price2], i2));
            self.lemma_place_unique(side1, price1, i1, side2, price2, i2);
        }
        assert forall|id: OrderId| #[trigger] state.holds(id) <==> self.ids.contains_key(id) by {
            if state.holds(id) {
                let (side, price, i) = state.find(id);
                assert(state.sits_at(id, side, price, i));
                self.lemma_queue(side, price);
                assert(self.level_ok(side, price));
                assert(self.node_ok(side, price, self.chains(side)[price], i));
            }
            if self.ids.contains_key(id) {
                self.lemma_index(id);
            }
        }
    }

    /// Where the order behind an id index entry is.
    pub proof fn lemma_index(self, id: OrderId) -> (i: int)
        requires
            self.ok(),
            self.ids.contains_key(id),
        ensures
            ({
                let x = self.ids[id];
                let node = self.nodes[x as int];
                let chain = self.chains(node.side)[node.price];
                &&& x < self.nodes.len()
                &&& self.chains(node.side).contains_key(node.price)
                &&& 0 <= i < chain.len()
                &&& chain[i] == x
                &&& self.level_ok(node.side, node.price)
                &&& self.node_ok(node.side, node.price, chain, i)
                &&& self.state().sits_at(id, node.side, node.price, i)
                &&& self.state().order_at(node.side, node.price, i) == resting(node)
            }),
    {
        assert(self.id_ok(id));
        let x = self.ids[id];
        let node = self.nodes[x as int];
        let chain = self.chains(node.side)[node.price];
        let i = choose|i: int| 0 <= i < chain.len() && chain[i] == x;
        self.lemma_queue(node.side, node.price);
        assert(self.level_ok(node.side, node.price));
        assert(self.node_ok(node.side, node.price, chain, i));
        i
    }

    /// [`BookState::find`] answers the place the id index leads to.
    pub proof fn lemma_find(self, id: OrderId) -> (i: int)
        requires
            self.ok(),
            self.ids.contains_key(id),
        ensures
            ({
                let x = self.ids[id];
                let node = self.nodes[x as int];
                let chain = self.chains(node.side)[node.price];
                &&& x < self.nodes.len()
                &&& self.chains(node.side).contains_key(node.price)
                &&& 0 <= i < chain.len()
                &&& chain[i] == x
                &&& self.level_ok(node.side, node.price)
                &&& self.node_ok(node.side, node.price, chain, i)
                &&& self.state().holds(id)
                &&& self.state().find(id) == (node.side, node.price, i)
                &&& self.state().order_at(node.side, node.price, i) == resting(node)
            }),
    {
        let i = self.lemma_index(id);
        let node = self.nodes[self.ids[id] as int];
        self.lemma_state();
        let (side, price, j) = self.state().find(id);
        assert(self.state().sits_at(id, side, price, j));
        assert(self.state().has(side, price, j));
        assert(self.state().has(node.side, node.price, i));
        i
    }
}

impl Parts {
    /// The same structures with other levels on one side.
    pub open spec fn with_levels(self, side: Side, levels: Map<Price, Level>) -> Parts {
        match side {
            Side::Bid => Parts { bid_levels: levels, ..self },
            Side::Ask => Parts { ask_levels: levels, ..self },
        }
    }

    /// No level has more orders than the id index.
    pub proof fn lemma_chain_len(self, side: Side, price: Price)
        requires
            self.ok(),
            self.chains(side).contains_key(price),
        ensures
            self.chains(side)[price].len() <= self.ids.dom().len(),
    {
        let chain = self.chains(side)[price];
        let ids = Seq::new(chain.len(), |i: int| self.nodes[chain[i] as int].id);
        assert(self.level_ok(side, price));
        assert forall|i: int| 0 <= i < ids.len() implies self.ids.contains_key(#[trigger] ids[i])
            && self.ids[ids[i]] == chain[i] by {
            assert(self.node_ok(side, price, chain, i));
        }
        assert(ids.no_duplicates()) by {
            assert forall|i: int, j: int| 0 <= i < j < ids.len() implies ids[i] != ids[j] by {
                assert(chain[i] != chain[j]);
            }
        }
        ids.unique_seq_to_set();
        assert forall|id: OrderId| #[trigger] ids.to_set().contains(id) implies self.ids.dom().contains(
            id,
        ) by {
            let i = choose|i: int| 0 <= i < ids.len() && ids[i] == id;
            assert(self.ids.contains_key(ids[i]));
        }
        vstd::set_lib::lemma_len_subset(ids.to_set(), self.ids.dom());
    }

    /// The cached quantities are the totals of the queues.
    pub proof fn lemma_totals(self, side: Side)
        requires
            self.ok(),
        ensures
            level_totals(self.levels(side)) == totals(self.state().queues(side)),
            self.levels(side).dom() =~= self.state().queues(side).dom(),
    {
        assert forall|p: Price|
            self.levels(side).contains_key(p) == self.state().queues(side).contains_key(p) && (
            self.levels(side).contains_key(p) ==> self.levels(side)[p].qty == total(
                self.state().queues(side)[p],
            )) by {
            self.lemma_queue(side, p);
            if self.chains(side).contains_key(p) {
                assert(self.level_ok(side, p));
            }
        }
        assert(level_totals(self.levels(side)) =~= totals(self.state().queues(side)));
    }
}

/// The aggregates after the node at position `i` has left the list.
pub open spec fn level_without(level: Level, chain: Seq<u32>, i: int, qty: Qty) -> Level {
    let rest = chain.remove(i);
    Level {
        head: link(rest, 0),
        tail: link(rest, rest.len() - 1),
        qty: (level.qty - qty) as Qty,
        orders: (level.orders - 1) as u32,
    }
}

/// `post` is `pre` with the node at position `i` of a level's list unlinked,
/// freed and dropped from the id index.
pub open spec fn detached(pre: Parts, post: Parts, side: Side, price: Price, i: int) -> bool {
    let chain = pre.chains(side)[price];
    let x = chain[i];
    let gone = pre.nodes[x as int];
    &&& post.nodes.len() == pre.nodes.len()
    &&& forall|y: int|
        #![trigger post.nodes[y]]
        0 <= y < pre.nodes.len() && y != x ==> post.nodes[y] == (OrderNode {
            next: if i > 0 && y == chain[i - 1] {
                gone.next
            } else {
                pre.nodes[y].next
            },
            prev: if i + 1 < chain.len() && y == chain[i + 1] {
                gone.prev
            } else {
                pre.nodes[y].prev
            },
            ..pre.nodes[y]
        })
    &&& post.free == seq![x] + pre.free
    &&& post.ids == pre.ids.remove(gone.id)
    &&& post.chains(side) == (if chain.len() == 1 {
        pre.chains(side).remove(price)
    } else {
        pre.chains(side).insert(price, chain.remove(i))
    })
    &&& post.levels(side) == (if chain.len() == 1 {
        pre.levels(side).remove(price)
    } else {
        pre.levels(side).insert(
            price,
            level_without(pre.levels(side)[price], chain, i, gone.qty),
        )
    })
    &&& post.chains(side.opposite()) == pre.chains(side.opposite())
    &&& post.levels(side.opposite()) == pre.levels(side.opposite())
}

pub proof fn lemma_detached(pre: Parts, post: Parts, side: Side, price: Price, i: int)
    requires
        pre.ok(),
        pre.chains(side).contains_key(price),
        0 <= i < pre.chains(side)[price].len(),
        detached(pre, post, side, price, i),
    ensures
        post.ok(),
        post.state() == pre.state().with_queues(
            side,
            take_out(pre.state().queues(side), price, i),
        ),
{
    let chain = pre.chains(side)[price];
    let x = chain[i];
    let gone = pre.nodes[x as int];
    let rest = chain.remove(i);
    assert(pre.level_ok(side, price));
    assert(pre.node_ok(side, price, chain, i));
    // Every other node keeps what the book sees of it.
    assert forall|y: int| 0 <= y < pre.nodes.len() && y != x implies {
        &&& (#[trigger] post.nodes[y]).id == pre.nodes[y].id
        &&& post.nodes[y].qty == pre.nodes[y].qty
        &&& post.nodes[y].side == pre.nodes[y].side
        &&& post.nodes[y].price == pre.nodes[y].price
    } by {}
    // Lists at other places do not change.
    assert forall|s: Side, p: Price|
        pre.chains(s).contains_key(p) && !(s == side && p == price) implies {
        &&& #[trigger] post.chains(s).contains_key(p)
        &&& post.chains(s)[p] == pre.chains(s)[p]
        &&& post.levels(s).contains_key(p)
        &&& post.levels(s)[p] == pre.levels(s)[p]
        &&& post.level_ok(s, p)
        &&& queue_of(post.nodes, pre.chains(s)[p]) == queue_of(pre.nodes, pre.chains(s)[p])
    } by {
        let other = pre.chains(s)[p];
        assert(pre.level_ok(s, p));
        assert forall|j: int| 0 <= j < other.len() implies #[trigger] post.node_ok(s, p, other, j)
            && resting(post.nodes[other[j] as int]) == resting(pre.nodes[other[j] as int]) by {
            assert(pre.node_ok(s, p, other, j));
            if other[j] == x {
                pre.lemma_place_unique(s, p, j, side, price, i);
            }
            if i > 0 && other[j] == chain[i - 1] {
                pre.lemma_place_unique(s, p, j, side, price, i - 1);
            }
            if i + 1 < chain.len() && other[j] == chain[i + 1] {
                pre.lemma_place_unique(s, p, j, side, price, i + 1);
            }
            assert(post.nodes[other[j] as int] == pre.nodes[other[j] as int]);
            assert(!post.free.contains(other[j])) by {
                if post.free.contains(other[j]) {
                    let k = choose|k: int| 0 <= k < post.free.len() && post.free[k] == other[j];
                    assert(k > 0);
                    assert(pre.free[k - 1] == other[j]);
                }
            }
        }
        assert forall|j: int| 0 <= j < other.len() implies resting(
            post.nodes[#[trigger] other[j] as int],
        ) == resting(pre.nodes[other[j] as int]) by {
            assert(post.node_ok(s, p, other, j));
        }
        assert(queue_of(post.nodes, other) =~= queue_of(pre.nodes, other));
    }
    // The list itself closes the gap.
    let queue = queue_of(pre.nodes, chain);
    assert forall|j: int| 0 <= j < rest.len() implies #[trigger] post.node_ok(side, price, rest, j)
        && resting(post.nodes[rest[j] as int]) == queue.remove(i)[j] by {
        let k = if j < i {
            j
        } else {
            j + 1
        };
        assert(rest[j] == chain[k]);
        assert(pre.node_ok(side, price, chain, k));
        assert(chain[k] != x);
        assert(queue.remove(i)[j] == queue[k]);
        assert(i > 0 && chain[k] == chain[i - 1] ==> k == i - 1);
        assert(i + 1 < chain.len() && chain[k] == chain[i + 1] ==> k == i + 1);
        assert(link(rest, j + 1) == (if k == i - 1 {
            link(chain, i + 1)
        } else {
            link(chain, k + 1)
        }));
        assert(link(rest, j - 1) == (if k == i + 1 {
            link(chain, i - 1)
        } else {
            link(chain, k - 1)
        }));
        assert(!post.free.contains(rest[j])) by {
            if post.free.contains(rest[j]) {
                let m = choose|m: int| 0 <= m < post.free.len() && post.free[m] == rest[j];
                assert(m > 0);
                assert(pre.free[m - 1] == rest[j]);
            }
        }
    }
    assert(queue_of(post.nodes, rest) =~= queue.remove(i)) by {
        assert forall|j: int| 0 <= j < rest.len() implies resting(
            post.nodes[#[trigger] rest[j] as int],
        ) == queue.remove(i)[j] by {
            assert(post.node_ok(side, price, rest, j));
        }
    }
    lemma_total_remove(queue, i);
    if chain.len() > 1 {
        assert(rest.no_duplicates());
        assert(post.linked(side, price, rest));
        assert(level_of(post.nodes, rest, post.levels(side)[price]));
        assert(post.level_ok(side, price));
    }
    // The id index.
    assert forall|id: OrderId| #[trigger] post.ids.contains_key(id) implies post.id_ok(id) by {
        assert(pre.ids.contains_key(id));
        let k = pre.lemma_index(id);
        let y = pre.ids[id];
        let node = pre.nodes[y as int];
        assert(y != x);
        if node.side == side && node.price == price {
            assert(chain[k] == y);
            assert(k != i);
            if k < i {
                assert(rest[k] == y);
            } else {
                assert(rest[k - 1] == y);
            }
            assert(rest.contains(y));
        } else {
            assert(post.chains(node.side).contains_key(node.price));
        }
    }
    assert(post.ids.dom() =~= pre.ids.dom().remove(gone.id));
    assert forall|s: Side, p: Price| #[trigger] post.chains(s).contains_key(p) implies post.level_ok(
        s,
        p,
    ) by {
        if !(s == side && p == price) {
            assert(pre.chains(s).contains_key(p));
        }
    }
    assert forall|s: Side, p: Price| #[trigger]
        post.levels(s).contains_key(p) implies post.chains(s).contains_key(p) by {
        if !(s == side && p == price) {
            assert(pre.levels(s).contains_key(p));
        }
    }
    assert(post.bid_chains.dom().finite() && post.ask_chains.dom().finite());
    // The state.
    assert forall|s: Side| post.state().queues(s) =~= #[trigger] pre.state().with_queues(
        side,
        take_out(pre.state().queues(side), price, i),
    ).queues(s) by {
        let expected = pre.state().with_queues(
            side,
            take_out(pre.state().queues(side), price, i),
        ).queues(s);
        assert forall|p: Price| post.state().queues(s).contains_key(p) == expected.contains_key(p)
            && (expected.contains_key(p) ==> post.state().queues(s)[p] == expected[p]) by {
            pre.lemma_queue(s, p);
            post.lemma_queue(s, p);
            pre.lemma_queue(side, price);
            if s == side && p == price {
            } else if pre.chains(s).contains_key(p) {
                assert(post.chains(s).contains_key(p));
            }
        }
    }
    let expected = pre.state().with_queues(side, take_out(pre.state().queues(side), price, i));
    assert(post.state().queues(Side::Bid) =~= expected.queues(Side::Bid));
    assert(post.state().queues(Side::Ask) =~= expected.queues(Side::Ask));
}

/// `post` is `pre` with the quantity of the node at position `i` of a level's
/// list set to `qty`.
pub open spec fn resized(
    pre: Parts,
    post: Parts,
    side: Side,
    price: Price,
    i: int,
    qty: Qty,
) -> bool {
    let x = pre.chains(side)[price][i] as int;
    let level = pre.levels(side)[price];
    &&& post.nodes == pre.nodes.update(x, OrderNode { qty, ..pre.nodes[x] })
    &&& post.free == pre.free
    &&& post.ids == pre.ids
    &&& post.bid_chains == pre.bid_chains
    &&& post.ask_chains == pre.ask_chains
    &&& post.levels(side).contains_key(price)
    &&& post.levels(side)[price].qty == level.qty - pre.nodes[x].qty + qty
    &&& post.levels(side) == pre.levels(side).insert(
        price,
        Level { qty: post.levels(side)[price].qty, ..level },
    )
    &&& post.levels(side.opposite()) == pre.levels(side.opposite())
}

pub proof fn lemma_resized(pre: Parts, post: Parts, side: Side, price: Price, i: int, qty: Qty)
    requires
        pre.ok(),
        pre.chains(side).contains_key(price),
        0 <= i < pre.chains(side)[price].len(),
        qty > 0,
        resized(pre, post, side, price, i, qty),
    ensures
        post.ok(),
        post.state() == pre.state().with_queues(
            side,
            resize(pre.state().queues(side), price, i, qty),
        ),
{
    let chain = pre.chains(side)[price];
    let x = chain[i];
    let queue = queue_of(pre.nodes, chain);
    let order = Resting { id: queue[i].id, qty };
    assert(pre.level_ok(side, price));
    assert(pre.node_ok(side, price, chain, i));
    assert forall|s: Side, p: Price| #[trigger] pre.chains(s).contains_key(p) implies {
        &&& post.level_ok(s, p)
        &&& !(s == side && p == price) ==> queue_of(post.nodes, pre.chains(s)[p]) == queue_of(
            pre.nodes,
            pre.chains(s)[p],
        )
        &&& s == side && p == price ==> queue_of(post.nodes, pre.chains(s)[p]) == queue.update(
            i,
            order,
        )
    } by {
        let list = pre.chains(s)[p];
        assert(post.chains(s)[p] == list);
        assert(pre.level_ok(s, p));
        assert forall|j: int| 0 <= j < list.len() implies {
            &&& #[trigger] post.node_ok(s, p, list, j)
            &&& list[j] == x ==> s == side && p == price && j == i
        } by {
            assert(pre.node_ok(s, p, list, j));
            if list[j] == x {
                pre.lemma_place_unique(s, p, j, side, price, i);
            }
        }
        if s == side && p == price {
            assert forall|j: int| 0 <= j < list.len() implies resting(
                post.nodes[#[trigger] list[j] as int],
            ) == queue.update(i, order)[j] by {
                assert(post.node_ok(s, p, list, j));
            }
            assert(queue_of(post.nodes, list) =~= queue.update(i, order));
            lemma_total_update(queue, i, order);
        } else {
            assert forall|j: int| 0 <= j < list.len() implies resting(
                post.nodes[#[trigger] list[j] as int],
            ) == resting(pre.nodes[list[j] as int]) by {
                assert(post.node_ok(s, p, list, j));
            }
            assert(queue_of(post.nodes, list) =~= queue_of(pre.nodes, list));
        }
    }
    assert forall|id: OrderId| #[trigger] post.ids.contains_key(id) implies post.id_ok(id) by {
        assert(pre.id_ok(id));
    }
    assert forall|s: Side, p: Price| #[trigger] post.chains(s).contains_key(p) implies post.level_ok(
        s,
        p,
    ) by {
        assert(pre.chains(s).contains_key(p));
    }
    assert forall|s: Side, p: Price| #[trigger]
        post.levels(s).contains_key(p) implies post.chains(s).contains_key(p) by {
        if !(s == side && p == price) {
            assert(pre.levels(s).contains_key(p));
        }
    }
    let expected = pre.state().with_queues(side, resize(pre.state().queues(side), price, i, qty));
    assert forall|s: Side, p: Price|
        #[trigger] post.state().queues(s).contains_key(p) == expected.queues(s).contains_key(p) && (
        expected.queues(s).contains_key(p) ==> post.state().queues(s)[p] == expected.queues(s)[p]) by {
        pre.lemma_queue(s, p);
        post.lemma_queue(s, p);
        pre.lemma_queue(side, price);
        if pre.chains(s).contains_key(p) {
            assert(post.level_ok(s, p));
        }
    }
    assert(post.state().queues(Side::Bid) =~= expected.queues(Side::Bid));
    assert(post.state().queues(Side::Ask) =~= expected.queues(Side::Ask));
}

/// `post` is `pre` with a new node `x` linked behind the last one of a
/// level's list, which may be empty.
pub open spec fn appended(
    pre: Parts,
    post: Parts,
    side: Side,
    price: Price,
    x: u32,
    order: Resting,
) -> bool {
    let chain = if pre.chains(side).contains_key(price) {
        pre.chains(side)[price]
    } else {
        Seq::empty()
    };
    let level = post.levels(side)[price];
    &&& x < post.nodes.len()
    &&& x != NIL
    &&& pre.nodes.len() <= post.nodes.len()
    &&& post.nodes[x as int] == (OrderNode {
        id: order.id,
        price,
        qty: order.qty,
        side,
        prev: link(chain, chain.len() - 1),
        next: NIL,
    })
    &&& forall|y: int|
        #![trigger post.nodes[y]]
        0 <= y < pre.nodes.len() && y != x ==> post.nodes[y] == (OrderNode {
            next: if chain.len() > 0 && y == chain.last() {
                x
            } else {
                pre.nodes[y].next
            },
            ..pre.nodes[y]
        })
    &&& x < pre.nodes.len() ==> pre.free.contains(x)
    &&& !post.free.contains(x)
    &&& forall|y: u32| #[trigger] post.free.contains(y) ==> pre.free.contains(y)
    &&& post.nodes.len() - post.free.len() == pre.nodes.len() - pre.free.len() + 1
    &&& !pre.ids.contains_key(order.id)
    &&& post.ids == pre.ids.insert(order.id, x)
    &&& post.chains(side) == pre.chains(side).insert(price, chain.push(x))
    &&& post.levels(side) == pre.levels(side).insert(price, level)
    &&& level.head == link(chain.push(x), 0)
    &&& level.tail == x
    &&& level.orders == chain.len() + 1
    &&& level.qty == total(queue_at(pre.state().queues(side), price)) + order.qty
    &&& post.chains(side.opposite()) == pre.chains(side.opposite())
    &&& post.levels(side.opposite()) == pre.levels(side.opposite())
}

pub proof fn lemma_appended(
    pre: Parts,
    post: Parts,
    side: Side,
    price: Price,
    x: u32,
    order: Resting,
)
    requires
        pre.ok(),
        order.qty > 0,
        appended(pre, post, side, price, x, order),
    ensures
        post.ok(),
        post.state() == pre.state().with_queues(
            side,
            append(pre.state().queues(side), price, order),
        ),
{
    let chain = if pre.chains(side).contains_key(price) {
        pre.chains(side)[price]
    } else {
        Seq::empty()
    };
    let longer = chain.push(x);
    let queue = queue_at(pre.state().queues(side), price);
    pre.lemma_queue(side, price);
    assert(queue =~= queue_of(pre.nodes, chain));
    if pre.chains(side).contains_key(price) {
        assert(pre.level_ok(side, price));
    }
    // No list held the new node.
    assert forall|s: Side, p: Price, j: int|
        pre.chains(s).contains_key(p) && 0 <= j < pre.chains(s)[p].len() implies {
        &&& (#[trigger] pre.chains(s)[p][j]) != x
        &&& pre.chains(s)[p][j] < pre.nodes.len()
        &&& pre.node_ok(s, p, pre.chains(s)[p], j)
    } by {
        assert(pre.level_ok(s, p));
        assert(pre.node_ok(s, p, pre.chains(s)[p], j));
    }
    // Lists at other places do not change.
    assert forall|s: Side, p: Price|
        pre.chains(s).contains_key(p) && !(s == side && p == price) implies {
        &&& #[trigger] post.chains(s).contains_key(p)
        &&& post.chains(s)[p] == pre.chains(s)[p]
        &&& post.level_ok(s, p)
        &&& queue_of(post.nodes, pre.chains(s)[p]) == queue_of(pre.nodes, pre.chains(s)[p])
    } by {
        let other = pre.chains(s)[p];
        assert(pre.level_ok(s, p));
        assert forall|j: int| 0 <= j < other.len() implies #[trigger] post.node_ok(s, p, other, j)
            && post.nodes[other[j] as int] == pre.nodes[other[j] as int] by {
            assert(pre.node_ok(s, p, other, j));
            assert(pre.chains(s)[p][j] != x);
            if chain.len() > 0 && other[j] == chain.last() {
                pre.lemma_place_unique(s, p, j, side, price, chain.len() - 1);
            }
            if post.free.contains(other[j]) {
                assert(pre.free.contains(other[j]));
            }
        }
        assert forall|j: int| 0 <= j < other.len() implies resting(
            post.nodes[#[trigger] other[j] as int],
        ) == resting(pre.nodes[other[j] as int]) by {
            assert(post.node_ok(s, p, other, j));
        }
        assert(queue_of(post.nodes, other) =~= queue_of(pre.nodes, other));
    }
    // The longer list.
    assert forall|j: int| 0 <= j < longer.len() implies #[trigger] post.node_ok(
        side,
        price,
        longer,
        j,
    ) && resting(post.nodes[longer[j] as int]) == queue.push(order)[j] by {
        if j < chain.len() {
            assert(longer[j] == chain[j]);
            assert(pre.chains(side)[price][j] != x);
            assert(pre.node_ok(side, price, chain, j));
            assert(chain[j] == chain.last() ==> j == chain.len() - 1);
            assert(link(longer, j - 1) == link(chain, j - 1));
            assert(j + 1 < chain.len() ==> link(longer, j + 1) == link(chain, j + 1));
            if post.free.contains(chain[j]) {
                assert(pre.free.contains(chain[j]));
            }
        } else {
            assert(longer[j] == x);
            assert(link(longer, j - 1) == link(chain, chain.len() - 1));
            assert(link(longer, j + 1) == NIL);
        }
    }
    assert(queue_of(post.nodes, longer) =~= queue.push(order)) by {
        assert forall|j: int| 0 <= j < longer.len() implies resting(
            post.nodes[#[trigger] longer[j] as int],
        ) == queue.push(order)[j] by {
            assert(post.node_ok(side, price, longer, j));
        }
    }
    lemma_total_push(queue, order);
    assert(longer.no_duplicates()) by {
        assert forall|a: int, b: int| 0 <= a < b < longer.len() implies longer[a] != longer[b] by {
            assert(longer[a] == chain[a]);
            assert(pre.chains(side)[price][a] != x);
            if b < chain.len() {
                assert(longer[b] == chain[b]);
            }
        }
    }
    assert(post.linked(side, price, longer));
    assert(post.level_ok(side, price));
    assert forall|id: OrderId| #[trigger] post.ids.contains_key(id) implies post.id_ok(id) by {
        if id == order.id {
            assert(longer[chain.len() as int] == x);
            assert(longer.contains(x));
        } else {
            assert(pre.ids.contains_key(id));
            let k = pre.lemma_index(id);
            let y = pre.ids[id];
            let node = pre.nodes[y as int];
            assert(pre.chains(node.side)[node.price][k] != x);
            if node.side == side && node.price == price {
                assert(longer[k] == y);
                assert(longer.contains(y));
            } else {
                assert(post.chains(node.side).contains_key(node.price));
            }
        }
    }
    assert(post.ids.dom() =~= pre.ids.dom().insert(order.id));
    assert forall|s: Side, p: Price| #[trigger] post.chains(s).contains_key(p) implies post.level_ok(
        s,
        p,
    ) by {
        if !(s == side && p == price) {
            assert(pre.chains(s).contains_key(p));
        }
    }
    assert forall|s: Side, p: Price| #[trigger]
        post.levels(s).contains_key(p) implies post.chains(s).contains_key(p) by {
        if !(s == side && p == price) {
            assert(pre.levels(s).contains_key(p));
        }
    }
    let expected = pre.state().with_queues(side, append(pre.state().queues(side), price, order));
    assert forall|s: Side, p: Price|
        #[trigger] post.state().queues(s).contains_key(p) == expected.queues(s).contains_key(p) && (
        expected.queues(s).contains_key(p) ==> post.state().queues(s)[p] == expected.queues(s)[p]) by {
        pre.lemma_queue(s, p);
        post.lemma_queue(s, p);
        if s == side && p == price {
        } else if pre.chains(s).contains_key(p) {
            assert(post.chains(s).contains_key(p));
        }
    }
    assert(post.state().queues(Side::Bid) =~= expected.queues(Side::Bid));
    assert(post.state().queues(Side::Ask) =~= expected.queues(Side::Ask));
}

/// Number of orders that a list of levels counts.
pub open spec fn orders_in(entries: Seq<(Price, Level)>) -> nat
    decreases entries.len(),
{
    if entries.len() == 0 {
        0
    } else {
        orders_in(entries.drop_last()) + entries.last().1.orders as nat
    }
}

impl Parts {
    /// The node at position `i` of a list belongs to the level and is linked
    /// and indexed as its place says.
    pub open spec fn place_ok(self, side: Side, price: Price, chain: Seq<u32>, i: int) -> bool {
        let x = chain[i];
        let node = self.nodes[x as int];
        &&& x < self.nodes.len()
        &&& node.side == side
        &&& node.price == price
        &&& node.qty > 0
        &&& node.prev == link(chain, i - 1)
        &&& node.next == link(chain, i + 1)
        &&& self.ids.contains_key(node.id)
        &&& self.ids[node.id] == x
    }

    /// [`Parts::place_ok`] of the node `x` at position `i` of a list that may
    /// go on.
    pub open spec fn walked(
        self,
        side: Side,
        price: Price,
        x: u32,
        seen: Seq<u32>,
        i: int,
    ) -> bool {
        let node = self.nodes[x as int];
        &&& x < self.nodes.len()
        &&& node.side == side
        &&& node.price == price
        &&& node.qty > 0
        &&& node.prev == link(seen, i - 1)
        &&& i + 1 < seen.len() ==> node.next == seen[i + 1]
        &&& self.ids.contains_key(node.id)
        &&& self.ids[node.id] == x
    }

    /// Every place of the list is in order.
    pub open spec fn threads(self, side: Side, price: Price, chain: Seq<u32>) -> bool {
        forall|i: int| 0 <= i < chain.len() ==> #[trigger] self.place_ok(side, price, chain, i)
    }

    /// The level leads to a list of orders that is in order and that its
    /// cached aggregates describe.
    pub open spec fn level_consistent(self, side: Side, price: Price, level: Level) -> bool {
        exists|chain: Seq<u32>| #[trigger]
            self.threads(side, price, chain) && level_of(self.nodes, chain, level)
    }

    /// What can be checked of the structures without knowing how they came
    /// about: the book is not crossed, every level is consistent, and the
    /// levels hold as many orders as the id index.
    pub open spec fn consistent(self) -> bool {
        &&& forall|b: Price, a: Price| #[trigger]
            self.bid_levels.contains_key(b) && #[trigger] self.ask_levels.contains_key(a) ==> b < a
        &&& forall|side: Side, price: Price| #[trigger]
            self.levels(side).contains_key(price) ==> self.level_consistent(
                side,
                price,
                self.levels(side)[price],
            )
        &&& orders_in(ladder(self.bid_levels, Side::Bid)) + orders_in(
            ladder(self.ask_levels, Side::Ask),
        ) == self.ids.dom().len()
    }

    /// The ids of the orders at the prices of a list of levels.
    spec fn ids_in(self, side: Side, entries: Seq<(Price, Level)>) -> Set<OrderId> {
        self.ids.dom().filter(
            |id: OrderId|
                {
                    let node = self.nodes[self.ids[id] as int];
                    node.side == side && exists|k: int|
                        0 <= k < entries.len() && (#[trigger] entries[k]).0 == node.price
                },
        )
    }

    proof fn lemma_ids_in(self, side: Side, entries: Seq<(Price, Level)>)
        requires
            self.ok(),
            forall|i: int, j: int|
                0 <= i < j < entries.len() ==> (#[trigger] entries[i]).0 != (
                #[trigger] entries[j]).0,
            forall|i: int|
                0 <= i < entries.len() ==> self.levels(side).contains_key((#[trigger] entries[i]).0)
                    && self.levels(side)[entries[i].0] == entries[i].1,
        ensures
            self.ids_in(side, entries).len() == orders_in(entries),
        decreases entries.len(),
    {
        let all = self.ids_in(side, entries);
        if entries.len() == 0 {
            assert(all =~= Set::empty());
        } else {
            let front = entries.drop_last();
            let price = entries.last().0;
            assert forall|i: int| 0 <= i < front.len() implies self.levels(side).contains_key(
                (#[trigger] front[i]).0,
            ) && self.levels(side)[front[i].0] == front[i].1 by {
                assert(front[i] == entries[i]);
            }
            assert forall|i: int, j: int| 0 <= i < j < front.len() implies (#[trigger] front[i]).0
                != (#[trigger] front[j]).0 by {
                assert(front[i] == entries[i] && front[j] == entries[j]);
            }
            self.lemma_ids_in(side, front);
            let rest = self.ids_in(side, front);
            assert(self.levels(side).contains_key(entries[entries.len() - 1].0));
            assert(self.chains(side).contains_key(price));
            assert(self.level_ok(side, price));
            let chain = self.chains(side)[price];
            let here = Seq::new(chain.len(), |i: int| self.nodes[chain[i] as int].id);
            assert forall|i: int| 0 <= i < here.len() implies self.ids.contains_key(
                #[trigger] here[i],
            ) && self.ids[here[i]] == chain[i] && self.nodes[chain[i] as int].side == side
                && self.nodes[chain[i] as int].price == price by {
                assert(self.node_ok(side, price, chain, i));
            }
            assert(here.no_duplicates()) by {
                assert forall|i: int, j: int| 0 <= i < j < here.len() implies here[i] != here[j] by {
                    assert(chain[i] != chain[j]);
                }
            }
            here.unique_seq_to_set();
            let last = here.to_set();
            assert(all =~= rest.union(last)) by {
                assert forall|id: OrderId| all.contains(id) implies rest.union(last).contains(
                    id,
                ) by {
                    let node = self.nodes[self.ids[id] as int];
                    let k = choose|k: int|
                        0 <= k < entries.len() && (#[trigger] entries[k]).0 == node.price;
                    if k < front.len() {
                        assert(front[k].0 == node.price);
                    } else {
                        let i = self.lemma_index(id);
                        assert(here[i] == id);
                    }
                }
                assert forall|id: OrderId| rest.union(last).contains(id) implies all.contains(
                    id,
                ) by {
                    if rest.contains(id) {
                        let node = self.nodes[self.ids[id] as int];
                        let k = choose|k: int|
                            0 <= k < front.len() && (#[trigger] front[k]).0 == node.price;
                        assert(entries[k].0 == node.price);
                    } else {
                        let i = choose|i: int| 0 <= i < here.len() && here[i] == id;
                        assert(self.ids.contains_key(here[i]));
                        assert(entries[entries.len() - 1].0 == price);
                    }
                }
            }
            assert(rest.disjoint(last)) by {
                assert forall|id: OrderId| rest.contains(id) implies !last.contains(id) by {
                    let node = self.nodes[self.ids[id] as int];
                    let k = choose|k: int|
                        0 <= k < front.len() && (#[trigger] front[k]).0 == node.price;
                    assert(entries[k].0 != entries[entries.len() - 1].0);
                    if last.contains(id) {
                        let i = choose|i: int| 0 <= i < here.len() && here[i] == id;
                        assert(self.ids.contains_key(here[i]));
                    }
                }
            }
            vstd::set_lib::lemma_set_disjoint_lens(rest, last);
        }
    }

    /// Structures that fit together pass the consistency check.
    pub proof fn lemma_consistent(self)
        requires
            self.ok(),
            self.state().uncrossed(),
        ensures
            self.consistent(),
    {
        self.lemma_totals(Side::Bid);
        self.lemma_totals(Side::Ask);
        assert forall|b: Price, a: Price| #[trigger]
            self.bid_levels.contains_key(b) && #[trigger] self.ask_levels.contains_key(
                a,
            ) implies b < a by {
            assert(self.levels(Side::Bid).dom().contains(b));
            assert(self.levels(Side::Ask).dom().contains(a));
            assert(self.state().bids.contains_key(b) && self.state().asks.contains_key(a));
        }
        assert forall|side: Side, price: Price| #[trigger]
            self.levels(side).contains_key(price) implies self.level_consistent(
            side,
            price,
            self.levels(side)[price],
        ) by {
            assert(self.level_ok(side, price));
            let chain = self.chains(side)[price];
            assert(self.threads(side, price, chain)) by {
                assert forall|i: int| 0 <= i < chain.len() implies #[trigger] self.place_ok(
                    side,
                    price,
                    chain,
                    i,
                ) by {
                    assert(self.node_ok(side, price, chain, i));
                }
            }
        }
        self.lemma_state();
        let bids = ladder(self.bid_levels, Side::Bid);
        let asks = ladder(self.ask_levels, Side::Ask);
        law_ladder_lists(self.bid_levels, Side::Bid);
        law_ladder_lists(self.ask_levels, Side::Ask);
        self.lemma_ids_in(Side::Bid, bids);
        self.lemma_ids_in(Side::Ask, asks);
        let b = self.ids_in(Side::Bid, bids);
        let a = self.ids_in(Side::Ask, asks);
        assert(self.ids.dom() =~= b.union(a)) by {
            assert forall|id: OrderId| self.ids.contains_key(id) implies #[trigger] b.union(
                a,
            ).contains(id) by {
                let i = self.lemma_index(id);
                let node = self.nodes[self.ids[id] as int];
                assert(self.levels(node.side).contains_key(node.price));
            }
        }
        assert(b.disjoint(a));
        vstd::set_lib::lemma_set_disjoint_lens(b, a);
    }
}

impl Parts {
    /// The list that a level leads to, where it is consistent.
    spec fn list_behind(self, side: Side, price: Price) -> Seq<u32> {
        choose|chain: Seq<u32>| #[trigger]
            self.threads(side, price, chain) && level_of(
                self.nodes,
                chain,
                self.levels(side)[price],
            )
    }

    /// The lists that the levels of a side lead to.
    spec fn lists_behind(self, side: Side) -> Map<Price, Seq<u32>> {
        Map::new(
            |p: Price| self.levels(side).contains_key(p),
            |p: Price| self.list_behind(side, p),
        )
    }

    /// Every level of a side has its list, which is in order and which the
    /// level describes.
    spec fn described(self, side: Side) -> bool {
        &&& self.chains(side).dom() =~= self.levels(side).dom()
        &&& forall|p: Price| #[trigger]
            self.levels(side).contains_key(p) ==> self.threads(side, p, self.chains(side)[p])
                && level_of(self.nodes, self.chains(side)[p], self.levels(side)[p])
    }

    /// Two places of a list in order have different nodes.
    proof fn lemma_places_differ(self, side: Side, price: Price, chain: Seq<u32>, i: int, j: int)
        requires
            self.nodes.len() <= u32::MAX,
            self.threads(side, price, chain),
            0 <= i < j < chain.len(),
        ensures
            chain[i] != chain[j],
        decreases i,
    {
        assert(self.place_ok(side, price, chain, i));
        assert(self.place_ok(side, price, chain, j));
        assert(self.place_ok(side, price, chain, j - 1));
        if i > 0 {
            self.lemma_places_differ(side, price, chain, i - 1, j - 1);
        }
    }

    /// The id is that of an order in the list at a price.
    spec fn queued(self, side: Side, price: Price, id: OrderId) -> bool {
        exists|i: int|
            0 <= i < self.chains(side)[price].len() && self.nodes[(
            #[trigger] self.chains(side)[price][i]) as int].id == id
    }

    /// The ids of the orders in the lists of some levels.
    spec fn listed(self, side: Side, entries: Seq<(Price, Level)>) -> Set<OrderId> {
        Set::new(
            |id: OrderId|
                exists|k: int|
                    0 <= k < entries.len() && self.queued(side, (#[trigger] entries[k]).0, id),
        )
    }

    /// Where an id is queued, the index leads there.
    proof fn lemma_queued(self, side: Side, price: Price, id: OrderId)
        requires
            self.described(side),
            self.levels(side).contains_key(price),
            self.queued(side, price, id),
        ensures
            self.ids.contains_key(id),
            self.nodes[self.ids[id] as int].side == side,
            self.nodes[self.ids[id] as int].price == price,
    {
        let chain = self.chains(side)[price];
        let i = choose|i: int|
            0 <= i < chain.len() && self.nodes[(#[trigger] chain[i]) as int].id == id;
        assert(self.place_ok(side, price, chain, i));
    }

    /// Levels count the orders in their lists.
    proof fn lemma_listed(self, side: Side, entries: Seq<(Price, Level)>)
        requires
            self.nodes.len() <= u32::MAX,
            self.described(side),
            forall|i: int, j: int|
                0 <= i < j < entries.len() ==> (#[trigger] entries[i]).0 != (
                #[trigger] entries[j]).0,
            forall|i: int|
                0 <= i < entries.len() ==> self.levels(side).contains_key((#[trigger] entries[i]).0)
                    && self.levels(side)[entries[i].0] == entries[i].1,
        ensures
            self.listed(side, entries).finite(),
            self.listed(side, entries).len() == orders_in(entries),
        decreases entries.len(),
    {
        let all = self.listed(side, entries);
        if entries.len() == 0 {
            assert(all =~= Set::empty());
        } else {
            let front = entries.drop_last();
            let price = entries.last().0;
            let n = entries.len() - 1;
            assert forall|i: int| 0 <= i < front.len() implies self.levels(side).contains_key(
                (#[trigger] front[i]).0,
            ) && self.levels(side)[front[i].0] == front[i].1 by {
                assert(front[i] == entries[i]);
            }
            assert forall|i: int, j: int| 0 <= i < j < front.len() implies (#[trigger] front[i]).0
                != (#[trigger] front[j]).0 by {
                assert(front[i] == entries[i] && front[j] == entries[j]);
            }
            self.lemma_listed(side, front);
            let rest = self.listed(side, front);
            assert(self.levels(side).contains_key(entries[n].0));
            let chain = self.chains(side)[price];
            let here = Seq::new(chain.len(), |i: int| self.nodes[chain[i] as int].id);
            assert(here.no_duplicates()) by {
                assert forall|i: int, j: int| 0 <= i < j < here.len() implies here[i] != here[j] by {
                    self.lemma_places_differ(side, price, chain, i, j);
                    assert(self.place_ok(side, price, chain, i));
                    assert(self.place_ok(side, price, chain, j));
                }
            }
            here.unique_seq_to_set();
            let last = here.to_set();
            assert(all =~= rest.union(last)) by {
                assert forall|id: OrderId| all.contains(id) implies rest.union(last).contains(
                    id,
                ) by {
                    let k = choose|k: int|
                        0 <= k < entries.len() && self.queued(side, (#[trigger] entries[k]).0, id);
                    if k < n {
                        assert(front[k] == entries[k]);
                    } else {
                        let i = choose|i: int|
                            0 <= i < chain.len() && self.nodes[(#[trigger] chain[i]) as int].id
                                == id;
                        assert(here[i] == id);
                    }
                }
                assert forall|id: OrderId| rest.union(last).contains(id) implies all.contains(
                    id,
                ) by {
                    if rest.contains(id) {
                        let k = choose|k: int|
                            0 <= k < front.len() && self.queued(side, (#[trigger] front[k]).0, id);
                        assert(entries[k] == front[k]);
                    } else {
                        let i = choose|i: int| 0 <= i < here.len() && here[i] == id;
                        assert(self.nodes[chain[i] as int].id == id);
                        assert(self.queued(side, entries[n].0, id));
                    }
                }
            }
            assert(rest.disjoint(last)) by {
                assert forall|id: OrderId| rest.contains(id) implies !last.contains(id) by {
                    let k = choose|k: int|
                        0 <= k < front.len() && self.queued(side, (#[trigger] front[k]).0, id);
                    assert(front[k] == entries[k]);
                    self.lemma_queued(side, entries[k].0, id);
                    if last.contains(id) {
                        let i = choose|i: int| 0 <= i < here.len() && here[i] == id;
                        assert(self.nodes[chain[i] as int].id == id);
                        self.lemma_queued(side, price, id);
                    }
                    assert(entries[k].0 != entries[n].0);
                }
            }
            vstd::set_lib::lemma_set_disjoint_lens(rest, last);
        }
    }

    /// The book that described levels stand for is well formed.
    proof fn lemma_described_state(self)
        requires
            self.nodes.len() <= u32::MAX,
            self.described(Side::Bid),
            self.described(Side::Ask),
            self.bid_levels.dom().finite(),
            self.ask_levels.dom().finite(),
        ensures
            self.state().well_formed(),
            forall|side: Side, p: Price| #[trigger]
                self.state().queues(side).contains_key(p) <==> self.levels(side).contains_key(p),
            forall|id: OrderId| #[trigger]
                self.state().holds(id) <==> exists|side: Side, p: Price|
                    self.levels(side).contains_key(p) && #[trigger] self.queued(side, p, id),
    {
        let state = self.state();
        assert(state.bids.dom() =~= self.bid_levels.dom());
        assert(state.asks.dom() =~= self.ask_levels.dom());
        assert forall|side: Side, p: Price| #[trigger]
            state.queues(side).contains_key(p) implies self.levels(side).contains_key(p)
            && state.queues(side)[p] == queue_of(self.nodes, self.chains(side)[p])
            && self.threads(side, p, self.chains(side)[p]) && state.queues(side)[p].len() > 0 by {
            self.lemma_queue(side, p);
            assert(self.chains(side).dom().contains(p));
            assert(self.levels(side).dom().contains(p));
        }
        assert forall|side: Side, p: Price| #[trigger]
            self.levels(side).contains_key(p) implies state.queues(side).contains_key(p) by {
            self.lemma_queue(side, p);
            assert(self.chains(side).dom().contains(p));
        }
        assert forall|side: Side, price: Price, i: int| #[trigger]
            state.has(side, price, i) implies self.place_ok(
            side,
            price,
            self.chains(side)[price],
            i,
        ) && state.order_at(side, price, i).qty > 0 by {
            assert(self.threads(side, price, self.chains(side)[price]));
            assert(self.place_ok(side, price, self.chains(side)[price], i));
        }
        assert forall|side1: Side, price1: Price, i1: int, side2: Side, price2: Price, i2: int|
            #![trigger state.has(side1, price1, i1), state.has(side2, price2, i2)]
            state.has(side1, price1, i1) && state.has(side2, price2, i2) && state.order_at(
                side1,
                price1,
                i1,
            ).id == state.order_at(side2, price2, i2).id implies side1 == side2 && price1 == price2
            && i1 == i2 by {
            let chain = self.chains(side1)[price1];
            assert(self.place_ok(side1, price1, chain, i1));
            assert(self.place_ok(side2, price2, self.chains(side2)[price2], i2));
            if i1 < i2 {
                self.lemma_places_differ(side1, price1, chain, i1, i2);
            } else if i2 < i1 {
                self.lemma_places_differ(side1, price1, chain, i2, i1);
            }
        }
        assert forall|id: OrderId| #[trigger] state.holds(id) implies exists|side: Side, p: Price|
            self.levels(side).contains_key(p) && #[trigger] self.queued(side, p, id) by {
            let (side, p, i) = state.find(id);
            assert(state.sits_at(id, side, p, i));
            assert(self.nodes[self.chains(side)[p][i] as int].id == id);
            assert(self.queued(side, p, id));
        }
        assert forall|id: OrderId, side: Side, p: Price|
            self.levels(side).contains_key(p) && #[trigger] self.queued(
                side,
                p,
                id,
            ) implies state.holds(id) by {
            let chain = self.chains(side)[p];
            let i = choose|i: int|
                0 <= i < chain.len() && self.nodes[(#[trigger] chain[i]) as int].id == id;
            assert(state.queues(side).contains_key(p));
            assert(state.sits_at(id, side, p, i));
        }
    }

    /// Only structures of a book pass the consistency check: the lists behind
    /// the levels make up a valid book, whose queues the levels describe,
    /// total and number of orders each, and whose orders are exactly those in
    /// the id index.
    pub proof fn law_check_passes_only_books(self) -> (book: BookState)
        requires
            self.consistent(),
            self.nodes.len() <= u32::MAX,
            self.bid_levels.dom().finite(),
            self.ask_levels.dom().finite(),
            self.ids.dom().finite(),
        ensures
            book.valid(),
            forall|id: OrderId| #[trigger] book.holds(id) <==> self.ids.contains_key(id),
            forall|side: Side, p: Price| #[trigger]
                book.queues(side).contains_key(p) <==> self.levels(side).contains_key(p),
            forall|side: Side, p: Price| #[trigger]
                book.queues(side).contains_key(p) ==> {
                    &&& self.levels(side)[p].qty == total(book.queues(side)[p])
                    &&& self.levels(side)[p].orders == book.queues(side)[p].len()
                },
    {
        let whole = Parts {
            bid_chains: self.lists_behind(Side::Bid),
            ask_chains: self.lists_behind(Side::Ask),
            ..self
        };
        let book = whole.state();
        assert forall|side: Side| #[trigger] whole.described(side) by {
            assert(whole.levels(side) == self.levels(side));
            assert(whole.chains(side) == self.lists_behind(side));
            assert forall|p: Price| #[trigger] whole.levels(side).contains_key(p) implies {
                &&& whole.threads(side, p, whole.chains(side)[p])
                &&& level_of(whole.nodes, whole.chains(side)[p], whole.levels(side)[p])
            } by {
                assert(self.level_consistent(side, p, self.levels(side)[p]));
                let chain = self.list_behind(side, p);
                assert(self.threads(side, p, chain));
                assert forall|i: int| 0 <= i < chain.len() implies #[trigger] whole.place_ok(
                    side,
                    p,
                    chain,
                    i,
                ) by {
                    assert(self.place_ok(side, p, chain, i));
                }
            }
        }
        assert(whole.described(Side::Bid) && whole.described(Side::Ask));
        whole.lemma_described_state();
        assert(book.uncrossed()) by {
            assert forall|b: Price, a: Price| #[trigger]
                book.bids.contains_key(b) && #[trigger] book.asks.contains_key(a) implies b < a by {
                assert(book.queues(Side::Bid).contains_key(b));
                assert(book.queues(Side::Ask).contains_key(a));
                assert(self.bid_levels.contains_key(b) && self.ask_levels.contains_key(a));
            }
        }
        let bids = ladder(self.bid_levels, Side::Bid);
        let asks = ladder(self.ask_levels, Side::Ask);
        law_ladder_lists(self.bid_levels, Side::Bid);
        law_ladder_lists(self.ask_levels, Side::Ask);
        whole.lemma_listed(Side::Bid, bids);
        whole.lemma_listed(Side::Ask, asks);
        let b = whole.listed(Side::Bid, bids);
        let a = whole.listed(Side::Ask, asks);
        assert(book.ids() =~= b.union(a)) by {
            assert forall|id: OrderId| book.holds(id) implies b.union(a).contains(id) by {
                let (side, p) = choose|side: Side, p: Price|
                    whole.levels(side).contains_key(p) && #[trigger] whole.queued(side, p, id);
                match side {
                    Side::Bid => {
                        let k = choose|k: int| 0 <= k < bids.len() && (#[trigger] bids[k]).0 == p;
                        assert(whole.queued(Side::Bid, bids[k].0, id));
                    },
                    Side::Ask => {
                        let k = choose|k: int| 0 <= k < asks.len() && (#[trigger] asks[k]).0 == p;
                        assert(whole.queued(Side::Ask, asks[k].0, id));
                    },
                }
            }
            assert forall|id: OrderId| b.union(a).contains(id) implies book.holds(id) by {
                if b.contains(id) {
                    let k = choose|k: int|
                        0 <= k < bids.len() && whole.queued(Side::Bid, (#[trigger] bids[k]).0, id);
                    assert(whole.levels(Side::Bid).contains_key(bids[k].0));
                } else {
                    let k = choose|k: int|
                        0 <= k < asks.len() && whole.queued(Side::Ask, (#[trigger] asks[k]).0, id);
                    assert(whole.levels(Side::Ask).contains_key(asks[k].0));
                }
            }
        }
        assert(b.disjoint(a)) by {
            assert forall|id: OrderId| b.contains(id) implies !a.contains(id) by {
                let k = choose|k: int|
                    0 <= k < bids.len() && whole.queued(Side::Bid, (#[trigger] bids[k]).0, id);
                assert(whole.levels(Side::Bid).contains_key(bids[k].0));
                whole.lemma_queued(Side::Bid, bids[k].0, id);
                if a.contains(id) {
                    let j = choose|j: int|
                        0 <= j < asks.len() && whole.queued(Side::Ask, (#[trigger] asks[j]).0, id);
                    assert(whole.levels(Side::Ask).contains_key(asks[j].0));
                    whole.lemma_queued(Side::Ask, asks[j].0, id);
                }
            }
        }
        vstd::set_lib::lemma_set_disjoint_lens(b, a);
        assert(book.ids().subset_of(self.ids.dom())) by {
            assert forall|id: OrderId| book.ids().contains(id) implies self.ids.dom().contains(
                id,
            ) by {
                assert(book.holds(id));
                let (side, p) = choose|side: Side, p: Price|
                    whole.levels(side).contains_key(p) && #[trigger] whole.queued(side, p, id);
                assert(whole.described(side));
                whole.lemma_queued(side, p, id);
            }
        }
        vstd::set_lib::lemma_subset_equality(book.ids(), self.ids.dom());
        assert forall|id: OrderId| #[trigger] book.holds(id) <==> self.ids.contains_key(id) by {
            assert(book.ids().contains(id) == book.holds(id));
        }
        assert forall|side: Side, p: Price| #[trigger] book.queues(side).contains_key(p) implies {
            &&& self.levels(side)[p].qty == total(book.queues(side)[p])
            &&& self.levels(side)[p].orders == book.queues(side)[p].len()
        } by {
            assert(whole.described(side));
            whole.lemma_queue(side, p);
            assert(whole.levels(side).contains_key(p));
        }
        book
    }
}

} // verus!
