//! Per-terrain node lifecycle bookkeeping.
//!
//! Every node id owned by a terrain sits in exactly one of four stages:
//! loading (assets requested, not all arrived), inactive (loaded, evicted
//! from the atlas, reusable without a reload), active (holding an atlas
//! slot), or pending (loaded and awaiting a free slot).

use vstd::prelude::*;

verus! {

use crate::quadtree::NodeId;
use crate::table::HandleTable;
use crate::table::NodeTable;

/// The slot index carried by a node that holds no atlas slot.
pub const INVALID_SLOT: u32 = u32::MAX;

/// The payload bookkeeping for one node: its id and, while active, its
/// atlas slot.
#[derive(Clone, Copy, PartialEq, Eq, Structural, Debug)]
pub struct NodeData {
    pub id: NodeId,
    pub atlas_index: u32,
}

/// An in-flight node together with its load status: `finished` is set once
/// an awaited asset has arrived.
#[derive(Clone, Copy, PartialEq, Eq, Structural, Debug)]
pub struct LoadingNode {
    pub data: NodeData,
    pub finished: bool,
}

/// Hands out asset handles. One allocator is shared by all terrains, so a
/// handle is never issued twice.
pub struct HandleAllocator {
    pub next: u64,
}

impl HandleAllocator {
    pub fn new() -> (a: Self)
        ensures
            a.next == 0,
    {
        HandleAllocator { next: 0 }
    }
}

/// A load the caller must start: the node id and the asset handles that
/// were registered for it. Completion of any one of the handles is later
/// reported back through `update_load_status`.
pub struct LoadRequest {
    pub id: NodeId,
    pub handles: Vec<u64>,
}

/// The lifecycle store of one terrain instance.
pub struct Nodes {
    /// Routes an asset handle to the loading node waiting on it.
    pub handle_mapping: HandleTable,
    /// Nodes whose assets were requested and have not all arrived.
    pub loading_nodes: NodeTable<LoadingNode>,
    /// Loaded nodes currently evicted from the atlas, kept for reuse.
    /// Nodes leave the cache only by reactivation, so it is unbounded; a
    /// capacity with an eviction order can be layered on top where
    /// memory must be bounded.
    pub inactive_nodes: NodeTable<NodeData>,
    /// Nodes holding an atlas slot.
    pub active_nodes: NodeTable<NodeData>,
    /// Loaded nodes that found the atlas full; they retry next frame.
    pub pending_nodes: Vec<NodeData>,
    /// How many asset handles are registered for each fresh load.
    pub assets_per_node: u32,
}

impl Nodes {
    pub open spec fn handles(self) -> Map<u64, NodeId> {
        self.handle_mapping.view()
    }

    pub open spec fn loading(self) -> Map<NodeId, LoadingNode> {
        self.loading_nodes.view()
    }

    pub open spec fn inactive(self) -> Map<NodeId, NodeData> {
        self.inactive_nodes.view()
    }

    pub open spec fn active(self) -> Map<NodeId, NodeData> {
        self.active_nodes.view()
    }

    pub open spec fn pending(self) -> Seq<NodeData> {
        self.pending_nodes@
    }

    pub open spec fn pending_has(self, id: NodeId) -> bool {
        exists|i: int| 0 <= i < self.pending().len() && (#[trigger] self.pending()[i]).id == id
    }

    /// The well-formedness of the store: each value carries its key, only
    /// active nodes carry a slot, the four stages are pairwise disjoint,
    /// and every registered handle routes to a loading node.
    pub open spec fn wf(self) -> bool {
        &&& self.handle_mapping.wf()
        &&& self.loading_nodes.wf()
        &&& self.inactive_nodes.wf()
        &&& self.active_nodes.wf()
        &&& self.assets_per_node >= 1
        &&& forall|id: NodeId| self.loading().contains_key(id)
            ==> (#[trigger] self.loading()[id]).data.id == id && self.loading()[id].data.atlas_index
            == INVALID_SLOT
        &&& forall|id: NodeId| self.inactive().contains_key(id)
            ==> (#[trigger] self.inactive()[id]).id == id && self.inactive()[id].atlas_index
            == INVALID_SLOT
        &&& forall|id: NodeId| self.active().contains_key(id) ==> (#[trigger] self.active()[id]).id
            == id
        &&& forall|i: int| 0 <= i < self.pending().len() ==> (#[trigger] self.pending()[i]).atlas_index
            == INVALID_SLOT
        &&& forall|i: int, j: int| 0 <= i < j < self.pending().len()
            ==> (#[trigger] self.pending()[i]).id != (#[trigger] self.pending()[j]).id
        &&& forall|id: NodeId| #[trigger] self.loading().contains_key(id)
            ==> !self.inactive().contains_key(id) && !self.active().contains_key(id)
            && !self.pending_has(id)
        &&& forall|id: NodeId| #[trigger] self.inactive().contains_key(id)
            ==> !self.active().contains_key(id) && !self.pending_has(id)
        &&& forall|id: NodeId| #[trigger] self.active().contains_key(id) ==> !self.pending_has(id)
        &&& forall|h: u64| #[trigger] self.handles().contains_key(h)
            ==> self.loading().contains_key(self.handles()[h])
    }

    /// Every registered handle lies below `bound`; holds of the shared
    /// allocator's next handle.
    pub open spec fn handles_below(self, bound: int) -> bool {
        forall|h: u64| #[trigger] self.handles().contains_key(h) ==> h < bound
    }

    pub fn new(assets_per_node: u32) -> (n: Self)
        requires
            assets_per_node >= 1,
        ensures
            n.wf(),
            n.handles() == Map::<u64, NodeId>::empty(),
            n.loading() == Map::<NodeId, LoadingNode>::empty(),
            n.inactive() == Map::<NodeId, NodeData>::empty(),
            n.active() == Map::<NodeId, NodeData>::empty(),
            n.pending() == Seq::<NodeData>::empty(),
            n.assets_per_node == assets_per_node,
    {
        Nodes {
            handle_mapping: HandleTable::new(),
            loading_nodes: NodeTable::new(),
            inactive_nodes: NodeTable::new(),
            active_nodes: NodeTable::new(),
            pending_nodes: Vec::new(),
            assets_per_node,
        }
    }

    pub fn is_loading(&self, id: NodeId) -> (b: bool)
        requires
            self.wf(),
        ensures
            b == self.loading().contains_key(id),
    {
        self.loading_nodes.contains(id)
    }

    pub fn is_inactive(&self, id: NodeId) -> (b: bool)
        requires
            self.wf(),
        ensures
            b == self.inactive().contains_key(id),
    {
        self.inactive_nodes.contains(id)
    }

    pub fn is_active(&self, id: NodeId) -> (b: bool)
        requires
            self.wf(),
        ensures
            b == self.active().contains_key(id),
    {
        self.active_nodes.contains(id)
    }

    pub fn is_pending(&self, id: NodeId) -> (b: bool)
        requires
            self.wf(),
        ensures
            b == self.pending_has(id),
    {
        let n = self.pending_nodes.len();
        let mut i: usize = 0;
        while i < n
            invariant
                n == self.pending().len(),
                i <= n,
                forall|a: int| 0 <= a < i ==> (#[trigger] self.pending()[a]).id != id,
            decreases n - i,
        {
            if self.pending_nodes[i].id == id {
                return true;
            }
            i += 1;
        }
        false
    }

    pub fn loading_len(&self) -> (n: usize)
        requires
            self.wf(),
        ensures
            n == self.loading().dom().len(),
    {
        proof {
            self.loading_nodes.lemma_entries();
        }
        self.loading_nodes.len()
    }

    pub fn inactive_len(&self) -> (n: usize)
        requires
            self.wf(),
        ensures
            n == self.inactive().dom().len(),
    {
        proof {
            self.inactive_nodes.lemma_entries();
        }
        self.inactive_nodes.len()
    }

    pub fn active_len(&self) -> (n: usize)
        requires
            self.wf(),
        ensures
            n == self.active().dom().len(),
    {
        proof {
            self.active_nodes.lemma_entries();
        }
        self.active_nodes.len()
    }

    pub fn pending_len(&self) -> (n: usize)
        ensures
            n == self.pending().len(),
    {
        self.pending_nodes.len()
    }

    /// Re-establishes well-formedness from the well-formedness of a
    /// prior value whose stages hold the same ids, clause by clause.
    pub proof fn lemma_wf_preserved(pre: Nodes, post: Nodes)
        requires
            pre.wf(),
            post.handle_mapping.wf(),
            post.loading_nodes.wf(),
            post.inactive_nodes.wf(),
            post.active_nodes.wf(),
            post.assets_per_node == pre.assets_per_node,
            post.loading() == pre.loading(),
            post.inactive() == pre.inactive(),
            post.active() == pre.active(),
            post.pending() == pre.pending(),
            post.handles() == pre.handles(),
        ensures
            post.wf(),
    {
        assert forall|id: NodeId| #[trigger] post.loading().contains_key(id)
            implies !post.pending_has(id) by {
            if post.pending_has(id) {
                let a = choose|a: int|
                    0 <= a < post.pending().len() && (#[trigger] post.pending()[a]).id == id;
                assert((pre.pending()[a]).id == id);
            }
        }
        assert forall|id: NodeId| #[trigger] post.inactive().contains_key(id)
            implies !post.pending_has(id) by {
            if post.pending_has(id) {
                let a = choose|a: int|
                    0 <= a < post.pending().len() && (#[trigger] post.pending()[a]).id == id;
                assert((pre.pending()[a]).id == id);
            }
        }
        assert forall|id: NodeId| #[trigger] post.active().contains_key(id)
            implies !post.pending_has(id) by {
            if post.pending_has(id) {
                let a = choose|a: int|
                    0 <= a < post.pending().len() && (#[trigger] post.pending()[a]).id == id;
                assert((pre.pending()[a]).id == id);
            }
        }
    }

    /// The atlas slot an active node holds.
    pub fn active_slot(&self, id: NodeId) -> (r: Option<u32>)
        requires
            self.wf(),
        ensures
            match r {
                Some(slot) => self.active().contains_key(id) && slot == self.active()[
                    id
                ].atlas_index,
                None => !self.active().contains_key(id),
            },
    {
        match self.active_nodes.get(id) {
            Some(data) => Some(data.atlas_index),
            None => None,
        }
    }
}

} // verus!
