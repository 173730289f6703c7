//! The fixed-capacity slot pool that active nodes occupy, and the queue of
//! slot commands handed to the rendering backend.

use vstd::prelude::*;

verus! {

use crate::quadtree::NodeId;

/// One command for the rendering backend: fill a slot with a node's data,
/// or mark a slot free.
#[derive(Clone, Copy, PartialEq, Eq, Structural, Debug)]
pub enum SlotCommand {
    Fill { slot: u32, id: NodeId },
    Free { slot: u32 },
}

/// The outbound queue of slot commands, appended to during lifecycle
/// resolution and consumed once per frame by the rendering backend.
pub struct QuadtreeUpdate(pub Vec<SlotCommand>);

impl QuadtreeUpdate {
    pub open spec fn view(self) -> Seq<SlotCommand> {
        self.0@
    }

    pub fn new() -> (q: Self)
        ensures
            q.view() == Seq::<SlotCommand>::empty(),
    {
        QuadtreeUpdate(Vec::new())
    }

    pub fn len(&self) -> (n: usize)
        ensures
            n == self.view().len(),
    {
        self.0.len()
    }

    pub fn get(&self, i: usize) -> (c: SlotCommand)
        requires
            i < self.view().len(),
        ensures
            c == self.view()[i as int],
    {
        self.0[i]
    }

    /// Forgets the queued commands, once the backend has consumed them.
    pub fn clear(&mut self)
        ensures
            final(self).view() == Seq::<SlotCommand>::empty(),
    {
        self.0.clear()
    }
}

pub open spec fn distinct_slots(s: Seq<u32>) -> bool {
    forall|i: int, j: int| 0 <= i < j < s.len() ==> s[i] != s[j]
}

/// The pool of atlas slots. Slots not held by an active node sit on the
/// free list; allocation takes the most recently freed slot first.
pub struct NodeAtlas {
    capacity: u32,
    free: Vec<u32>,
}

impl NodeAtlas {
    pub closed spec fn capacity_spec(self) -> u32 {
        self.capacity
    }

    /// The free slots, in the order they were freed.
    pub closed spec fn free_seq(self) -> Seq<u32> {
        self.free@
    }

    pub closed spec fn wf(self) -> bool {
        &&& self.capacity < u32::MAX
        &&& distinct_slots(self.free@)
        &&& forall|i: int| 0 <= i < self.free@.len() ==> #[trigger] self.free@[i] < self.capacity
    }

    pub fn new(capacity: u32) -> (a: Self)
        requires
            capacity < u32::MAX,
        ensures
            a.wf(),
            a.capacity_spec() == capacity,
            a.free_seq().len() == capacity,
            forall|i: int| 0 <= i < capacity ==> #[trigger] a.free_seq()[i] == i,
    {
        let mut free: Vec<u32> = Vec::new();
        let mut i: u32 = 0;
        while i < capacity
            invariant
                i <= capacity,
                free@.len() == i,
                forall|a: int| 0 <= a < i ==> #[trigger] free@[a] == a,
            decreases capacity - i,
        {
            free.push(i);
            i += 1;
        }
        NodeAtlas { capacity, free }
    }

    pub fn capacity(&self) -> (c: u32)
        ensures
            c == self.capacity_spec(),
    {
        self.capacity
    }

    pub fn free_count(&self) -> (n: usize)
        ensures
            n == self.free_seq().len(),
    {
        self.free.len()
    }

    /// Takes a slot from the free list, if one is left.
    pub fn allocate(&mut self) -> (r: Option<u32>)
        requires
            old(self).wf(),
        ensures
            final(self).wf(),
            final(self).capacity_spec() == old(self).capacity_spec(),
            match r {
                Some(slot) => old(self).free_seq().len() > 0 && slot == old(self).free_seq().last() && slot < old(self).capacity_spec() && final(self).free_seq()
                    == old(self).free_seq().drop_last() && !final(self).free_seq().contains(
                    slot,
                ),
                None => old(self).free_seq().len() == 0 && final(self).free_seq()
                    == old(self).free_seq(),
            },
    {
        proof {
            if self.free@.len() > 0 {
                assert(self.free@[self.free@.len() - 1] < self.capacity);
                if self.free@.drop_last().contains(self.free@[self.free@.len() - 1]) {
                    let a = choose|a: int|
                        0 <= a < self.free@.drop_last().len() && self.free@.drop_last()[a]
                            == self.free@[self.free@.len() - 1];
                    assert(self.free@[a] == self.free@[self.free@.len() - 1]);
                    assert(false);
                }
            }
        }
        self.free.pop()
    }

    /// Returns a slot to the free list.
    pub fn release(&mut self, slot: u32)
        requires
            old(self).wf(),
            slot < old(self).capacity_spec(),
            !old(self).free_seq().contains(slot),
            old(self).free_seq().len() < old(self).capacity_spec(),
        ensures
            final(self).wf(),
            final(self).capacity_spec() == old(self).capacity_spec(),
            final(self).free_seq() == old(self).free_seq().push(slot),
    {
        proof {
            assert(forall|i: int| 0 <= i < self.free@.len() ==> #[trigger] self.free@[i] != slot);
        }
        self.free.push(slot);
    }
}

} // verus!
