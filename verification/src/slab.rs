//! Slab storage for resting orders.
//!
//! All orders live in one contiguous `Vec`, addressed by `u32` index and
//! recycled through a free list threaded through the unused nodes.
use vstd::prelude::*;

use crate::types::{OrderId, Price, Qty, Side};

verus! {

/// Sentinel slab index ("null pointer") for intrusive lists.
pub const NIL: u32 = 0xFFFF_FFFF;

#[derive(Clone, Copy)]
pub struct OrderNode {
    pub id: OrderId,
    pub price: Price,
    pub qty: Qty,
    pub side: Side,
    /// Previous order at this price level (toward the head / oldest).
    pub prev: u32,
    /// Next order at this price level (toward the tail / newest). Doubles as
    /// the free-list link while the node is unallocated.
    pub next: u32,
}

/// The element at position `i` of a list of slab indices, or [`NIL`] past
/// either end of it.
pub open spec fn link(list: Seq<u32>, i: int) -> u32 {
    if 0 <= i < list.len() {
        list[i]
    } else {
        NIL
    }
}

pub struct Slab {
    nodes: Vec<OrderNode>,
    free_head: u32,
    free_list: Ghost<Seq<u32>>,
}

impl Slab {
    /// All nodes, allocated or not.
    pub closed spec fn nodes(&self) -> Seq<OrderNode> {
        self.nodes@
    }

    /// The indices of the unallocated nodes, next one to hand out first.
    pub closed spec fn free_list(&self) -> Seq<u32> {
        self.free_list@
    }

    pub closed spec fn wf(&self) -> bool {
        &&& self.nodes@.len() <= u32::MAX
        &&& self.free_list@.no_duplicates()
        &&& self.free_head == link(self.free_list@, 0)
        &&& forall|i: int|
            0 <= i < self.free_list@.len() ==> {
                &&& (#[trigger] self.free_list@[i]) < self.nodes@.len()
                &&& self.nodes@[self.free_list@[i] as int].next == link(self.free_list@, i + 1)
            }
    }

    /// The index names an allocated node.
    pub open spec fn allocated(&self, idx: u32) -> bool {
        idx < self.nodes().len() && !self.free_list().contains(idx)
    }

    /// Indices stay below the sentinel and free indices name nodes.
    pub proof fn lemma_bounds(&self)
        requires
            self.wf(),
        ensures
            self.nodes().len() <= u32::MAX,
            forall|i: int|
                0 <= i < self.free_list().len() ==> (#[trigger] self.free_list()[i])
                    < self.nodes().len(),
    {
    }

    pub fn with_capacity(orders: usize) -> (slab: Slab)
        ensures
            slab.wf(),
            slab.nodes() == Seq::<OrderNode>::empty(),
            slab.free_list() == Seq::<u32>::empty(),
    {
        Slab { nodes: Vec::with_capacity(orders), free_head: NIL, free_list: Ghost(Seq::empty()) }
    }

    /// Number of nodes, allocated or not.
    pub fn len(&self) -> (n: usize)
        ensures
            n == self.nodes().len(),
    {
        self.nodes.len()
    }

    pub fn get(&self, idx: u32) -> (node: OrderNode)
        requires
            idx < self.nodes().len(),
        ensures
            node == self.nodes()[idx as int],
    {
        self.nodes[idx as usize]
    }

    /// Overwrites an allocated node.
    pub fn set(&mut self, idx: u32, node: OrderNode)
        requires
            old(self).wf(),
            old(self).allocated(idx),
        ensures
            final(self).wf(),
            final(self).nodes() == old(self).nodes().update(idx as int, node),
            final(self).free_list() == old(self).free_list(),
    {
        self.nodes[idx as usize] = node;
        proof {
            assert forall|i: int| 0 <= i < self.free_list@.len() implies {
                &&& (#[trigger] self.free_list@[i]) < self.nodes@.len()
                &&& self.nodes@[self.free_list@[i] as int].next == link(self.free_list@, i + 1)
            } by {
                assert(self.free_list@.contains(self.free_list@[i]));
            }
        }
    }

    /// Stores a node in the slot freed last, or in a new one.
    pub fn allocate(&mut self, node: OrderNode) -> (idx: u32)
        requires
            old(self).wf(),
            old(self).free_list().len() > 0 || old(self).nodes().len() < u32::MAX,
        ensures
            final(self).wf(),
            final(self).allocated(idx),
            !old(self).allocated(idx),
            old(self).free_list().len() > 0 ==> {
                &&& idx == old(self).free_list()[0]
                &&& final(self).free_list() == old(self).free_list().drop_first()
                &&& final(self).nodes() == old(self).nodes().update(idx as int, node)
            },
            old(self).free_list().len() == 0 ==> {
                &&& idx == old(self).nodes().len()
                &&& final(self).free_list() == old(self).free_list()
                &&& final(self).nodes() == old(self).nodes().push(node)
            },
    {
        if self.free_head != NIL {
            let idx: u32 = self.free_head;
            proof {
                let list = self.free_list@;
                if list.len() == 0 {
                    assert(link(list, 0) == NIL);
                }
                assert(list[0] == idx);
                assert(list.contains(list[0]));
            }
            self.free_head = self.nodes[idx as usize].next;
            self.nodes[idx as usize] = node;
            proof {
                let list = self.free_list@;
                self.free_list@ = list.drop_first();
                assert forall|i: int| 0 <= i < self.free_list@.len() implies {
                    &&& (#[trigger] self.free_list@[i]) < self.nodes@.len()
                    &&& self.nodes@[self.free_list@[i] as int].next == link(self.free_list@, i + 1)
                } by {
                    assert(self.free_list@[i] == list[i + 1]);
                    assert(list[i + 1] != list[0]);
                    assert(link(list, i + 2) == link(self.free_list@, i + 1));
                }
                assert(self.free_list@.no_duplicates());
                if self.free_list@.contains(idx) {
                    let i = choose|i: int| 0 <= i < self.free_list@.len() && self.free_list@[i] == idx;
                    assert(list[i + 1] == list[0]);
                }
            }
            idx
        } else {
            proof {
                if self.free_list@.len() > 0 {
                    assert(self.free_list@[0] < self.nodes@.len());
                }
            }
            let idx: u32 = self.nodes.len() as u32;
            self.nodes.push(node);
            proof {
                assert(self.free_list@.len() == 0);
            }
            idx
        }
    }

    /// Returns a node to the free list.
    pub fn release(&mut self, idx: u32)
        requires
            old(self).wf(),
            old(self).allocated(idx),
        ensures
            final(self).wf(),
            final(self).free_list() == seq![idx] + old(self).free_list(),
            final(self).nodes().len() == old(self).nodes().len(),
            forall|j: int|
                0 <= j < old(self).nodes().len() && j != idx ==> (#[trigger] final(self).nodes()[j])
                    == old(self).nodes()[j],
    {
        let mut node: OrderNode = self.nodes[idx as usize];
        node.next = self.free_head;
        self.nodes[idx as usize] = node;
        self.free_head = idx;
        proof {
            let list = self.free_list@;
            self.free_list@ = seq![idx] + list;
            assert forall|i: int| 0 <= i < self.free_list@.len() implies {
                &&& (#[trigger] self.free_list@[i]) < self.nodes@.len()
                &&& self.nodes@[self.free_list@[i] as int].next == link(self.free_list@, i + 1)
            } by {
                if i > 0 {
                    assert(self.free_list@[i] == list[i - 1]);
                    assert(list.contains(list[i - 1]));
                    assert(link(list, i) == link(self.free_list@, i + 1));
                } else {
                    assert(link(list, 0) == link(self.free_list@, 1));
                }
            }
            assert(self.free_list@.no_duplicates()) by {
                assert forall|i: int, j: int|
                    0 <= i < j < self.free_list@.len() implies self.free_list@[i]
                    != self.free_list@[j] by {
                    assert(self.free_list@[j] == list[j - 1]);
                    if i == 0 {
                        assert(list.contains(list[j - 1]));
                    } else {
                        assert(self.free_list@[i] == list[i - 1]);
                    }
                }
            }
        }
    }
}

} // verus!
