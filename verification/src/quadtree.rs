//! Node identifiers, viewers, and the quadtree that selects the nodes a
//! viewer requires each frame.

use vstd::prelude::*;

verus! {

use crate::table::NodeTable;

/// The deepest quadtree supported: seventeen levels of detail.
pub const MAX_DEPTH: u32 = 16;

/// The largest side length, in terrain units, of a node at the finest
/// level.
pub const MAX_NODE_SIZE: u32 = 65536;

/// `base` doubled once per level of detail.
pub open spec fn scale(base: int, lod: nat) -> int
    decreases lod,
{
    if lod == 0 {
        base
    } else {
        2 * scale(base, (lod - 1) as nat)
    }
}

pub proof fn lemma_scale_pos(base: int, lod: nat)
    requires
        base >= 1,
    ensures
        scale(base, lod) >= base,
    decreases lod,
{
    if lod > 0 {
        lemma_scale_pos(base, (lod - 1) as nat);
    }
}

pub proof fn lemma_scale_mono(base: int, l1: nat, l2: nat)
    requires
        base >= 1,
        l1 <= l2,
    ensures
        scale(base, l1) <= scale(base, l2),
    decreases l2,
{
    if l1 < l2 {
        lemma_scale_mono(base, l1, (l2 - 1) as nat);
        lemma_scale_pos(base, (l2 - 1) as nat);
    }
}

pub proof fn lemma_scale_mul(base: int, lod: nat)
    ensures
        scale(base, lod) == base * scale(1, lod),
    decreases lod,
{
    if lod > 0 {
        lemma_scale_mul(base, (lod - 1) as nat);
        assert(2 * (base * scale(1, (lod - 1) as nat)) == base * (2 * scale(
            1,
            (lod - 1) as nat,
        ))) by (nonlinear_arith);
    }
}

/// Bounds the growth of `scale` over the supported levels.
pub proof fn lemma_scale_bound(base: int, lod: nat)
    requires
        0 <= base,
        lod <= 16,
    ensures
        scale(base, lod) <= base * 65536,
        scale(1, lod) <= 65536,
{
    assert(scale(1, 16) == 65536) by {
        reveal_with_fuel(scale, 17);
    }
    if lod <= 16 {
        lemma_scale_mono(1, lod, 16);
    }
    lemma_scale_mul(base, lod);
    lemma_scale_pos(1, lod);
    assert(base * scale(1, lod) <= base * 65536) by (nonlinear_arith)
        requires
            0 <= base && scale(1, lod) <= 65536,
    ;
}

/// Identifies one terrain node: a square patch at a level of detail.
///
/// `lod` 0 is the finest level; each coarser level doubles the side length
/// of a node. `x` and `y` are grid coordinates within the level.
#[derive(Clone, Copy, PartialEq, Eq, Structural, Hash, Debug)]
pub struct NodeId {
    pub lod: u32,
    pub x: u32,
    pub y: u32,
}

/// A viewer for one frame: a position projected onto the terrain plane, in
/// terrain-local units, and the distance out to which detail is wanted.
#[derive(Clone, Copy, PartialEq, Eq, Structural, Debug)]
pub struct Viewer {
    pub x: i64,
    pub y: i64,
    pub view_distance: u32,
}

/// All ids of the sequence are distinct.
pub open spec fn distinct_ids(s: Seq<NodeId>) -> bool {
    forall|i: int, j: int| 0 <= i < j < s.len() ==> s[i] != s[j]
}

/// Whether the vector holds the id.
pub fn id_vec_contains(v: &Vec<NodeId>, id: NodeId) -> (b: bool)
    ensures
        b == v@.contains(id),
{
    let n = v.len();
    let mut i: usize = 0;
    while i < n
        invariant
            n == v@.len(),
            i <= n,
            forall|a: int| 0 <= a < i ==> v@[a] != id,
        decreases n - i,
    {
        if v[i] == id {
            return true;
        }
        i += 1;
    }
    false
}

/// The per-frame diff of required node changes for one terrain, filled by
/// quadtree traversal and drained by lifecycle resolution; after
/// resolution, `activated_nodes` reports the ids admitted that frame.
pub struct TreeUpdate {
    pub nodes_to_activate: Vec<NodeId>,
    pub nodes_to_deactivate: Vec<NodeId>,
    pub activated_nodes: Vec<NodeId>,
}

impl TreeUpdate {
    pub open spec fn to_activate(self) -> Seq<NodeId> {
        self.nodes_to_activate@
    }

    pub open spec fn to_deactivate(self) -> Seq<NodeId> {
        self.nodes_to_deactivate@
    }

    pub open spec fn activated(self) -> Seq<NodeId> {
        self.activated_nodes@
    }

    /// No id is listed twice, and no id is listed both for activation and
    /// for deactivation.
    pub open spec fn wf(self) -> bool {
        &&& distinct_ids(self.to_activate())
        &&& distinct_ids(self.to_deactivate())
        &&& distinct_ids(self.activated())
        &&& forall|id: NodeId| self.to_activate().contains(id) ==> !self.to_deactivate().contains(
            id,
        )
    }

    pub fn new() -> (t: Self)
        ensures
            t.wf(),
            t.to_activate() == Seq::<NodeId>::empty(),
            t.to_deactivate() == Seq::<NodeId>::empty(),
            t.activated() == Seq::<NodeId>::empty(),
    {
        TreeUpdate {
            nodes_to_activate: Vec::new(),
            nodes_to_deactivate: Vec::new(),
            activated_nodes: Vec::new(),
        }
    }

    /// Asks for a node to be brought in this frame.
    pub fn request_activation(&mut self, id: NodeId)
        requires
            old(self).wf(),
            !old(self).to_activate().contains(id),
            !old(self).to_deactivate().contains(id),
        ensures
            final(self).wf(),
            final(self).to_activate() == old(self).to_activate().push(id),
            final(self).to_deactivate() == old(self).to_deactivate(),
            final(self).activated() == old(self).activated(),
    {
        self.nodes_to_activate.push(id);
    }

    /// Asks for a node to leave the atlas this frame.
    pub fn request_deactivation(&mut self, id: NodeId)
        requires
            old(self).wf(),
            !old(self).to_activate().contains(id),
            !old(self).to_deactivate().contains(id),
        ensures
            final(self).wf(),
            final(self).to_deactivate() == old(self).to_deactivate().push(id),
            final(self).to_activate() == old(self).to_activate(),
            final(self).activated() == old(self).activated(),
    {
        self.nodes_to_deactivate.push(id);
    }

    pub fn activation_requested(&self, id: NodeId) -> (b: bool)
        ensures
            b == self.to_activate().contains(id),
    {
        id_vec_contains(&self.nodes_to_activate, id)
    }

    pub fn deactivation_requested(&self, id: NodeId) -> (b: bool)
        ensures
            b == self.to_deactivate().contains(id),
    {
        id_vec_contains(&self.nodes_to_deactivate, id)
    }

    pub fn was_activated(&self, id: NodeId) -> (b: bool)
        ensures
            b == self.activated().contains(id),
    {
        id_vec_contains(&self.activated_nodes, id)
    }

    pub fn activated_len(&self) -> (n: usize)
        ensures
            n == self.activated().len(),
    {
        self.activated_nodes.len()
    }
}

pub proof fn lemma_push_contains(s: Seq<NodeId>, v: NodeId, x: NodeId)
    ensures
        s.push(v).contains(x) <==> s.contains(x) || x == v,
{
    assert(s.push(v)[s.len() as int] == v);
    if s.contains(x) {
        let i = choose|i: int| 0 <= i < s.len() && s[i] == x;
        assert(s.push(v)[i] == x);
    }
    if s.push(v).contains(x) && x != v {
        let i = choose|i: int| 0 <= i < s.push(v).len() && s.push(v)[i] == x;
        assert(i < s.len());
        assert(s[i] == x);
    }
}

/// Candidates strictly before `(l, x, y)` in traversal order: all finer
/// levels, then lower rows, then lower columns within the row.
pub open spec fn before(id: NodeId, l: int, x: int, y: int) -> bool {
    ||| (id.lod as int) < l
    ||| ((id.lod as int) == l && (id.x as int) < x)
    ||| ((id.lod as int) == l && (id.x as int) == x && (id.y as int) < y)
}

/// The spatial index of one terrain instance. It selects, for a viewer,
/// the nodes required at each level of detail, and carries the selection
/// of the previous frame so each traversal yields a diff.
pub struct Quadtree {
    /// Levels of detail above the finest; level `depth` is one node.
    pub depth: u32,
    /// Side length of a node at the finest level, in terrain units.
    pub node_size: u32,
    /// The union of the node sets the previous frame's viewers required.
    pub previous: NodeTable<()>,
    /// The union of the node sets required so far this frame.
    pub frame: NodeTable<()>,
}

impl Quadtree {
    pub open spec fn wf(self) -> bool {
        &&& self.depth <= MAX_DEPTH
        &&& 1 <= self.node_size <= MAX_NODE_SIZE
        &&& self.previous.wf()
        &&& self.frame.wf()
    }

    pub open spec fn previous_has(self, id: NodeId) -> bool {
        self.previous.view().contains_key(id)
    }

    pub open spec fn frame_has(self, id: NodeId) -> bool {
        self.frame.view().contains_key(id)
    }

    /// Whether a node covers ground a viewer requires at the node's
    /// level of detail: the node's square lies within the view distance,
    /// both scaled by the level, so coarse nodes reach farther out.
    pub open spec fn selected(self, v: Viewer, id: NodeId) -> bool {
        let side = scale(self.node_size as int, id.lod as nat);
        let r = scale(v.view_distance as int, id.lod as nat);
        &&& id.lod <= self.depth
        &&& (id.x as int) < scale(1, (self.depth - id.lod) as nat)
        &&& (id.y as int) < scale(1, (self.depth - id.lod) as nat)
        &&& id.x * side - r <= v.x <= (id.x + 1) * side + r
        &&& id.y * side - r <= v.y <= (id.y + 1) * side + r
    }

    pub fn new(depth: u32, node_size: u32) -> (q: Self)
        requires
            depth <= MAX_DEPTH,
            1 <= node_size <= MAX_NODE_SIZE,
        ensures
            q.wf(),
            q.depth == depth,
            q.node_size == node_size,
            forall|id: NodeId| !q.previous_has(id),
            forall|id: NodeId| !q.frame_has(id),
    {
        Quadtree { depth, node_size, previous: NodeTable::new(), frame: NodeTable::new() }
    }

    /// Whether the node is selected for the viewer.
    pub fn check_selected(&self, v: Viewer, id: NodeId) -> (b: bool)
        requires
            self.wf(),
        ensures
            b == self.selected(v, id),
    {
        if id.lod > self.depth {
            return false;
        }
        let levels = self.depth - id.lod;
        let mut dim: u64 = 1;
        let mut t: u32 = 0;
        while t < levels
            invariant
                t <= levels <= 16,
                dim == scale(1, t as nat),
                dim <= 65536,
            decreases levels - t,
        {
            proof {
                lemma_scale_bound(1, (t + 1) as nat);
            }
            dim = dim * 2;
            t += 1;
        }
        if (id.x as u64) >= dim || (id.y as u64) >= dim {
            return false;
        }
        let mut side: u64 = self.node_size as u64;
        let mut r: u64 = v.view_distance as u64;
        let mut s: u32 = 0;
        while s < id.lod
            invariant
                s <= id.lod <= 16,
                self.wf(),
                side == scale(self.node_size as int, s as nat),
                r == scale(v.view_distance as int, s as nat),
                side <= 65536 * 65536,
                r <= 65536 * 4294967296,
            decreases id.lod - s,
        {
            proof {
                lemma_scale_bound(self.node_size as int, (s + 1) as nat);
                lemma_scale_bound(v.view_distance as int, (s + 1) as nat);
            }
            side = side * 2;
            r = r * 2;
            s += 1;
        }
        proof {
            assert((id.x as int) * (side as int) <= 65535 * (65536 * 65536) && 0 <= (id.x as int)
                * (side as int)) by (nonlinear_arith)
                requires
                    0 <= (id.x as int) < 65536 && 0 <= side <= 65536 * 65536,
            ;
            assert((id.y as int) * (side as int) <= 65535 * (65536 * 65536) && 0 <= (id.y as int)
                * (side as int)) by (nonlinear_arith)
                requires
                    0 <= (id.y as int) < 65536 && 0 <= side <= 65536 * 65536,
            ;
            assert(((id.x as int) + 1) * (side as int) == (id.x as int) * (side as int) + (
            side as int)) by (nonlinear_arith);
            assert(((id.y as int) + 1) * (side as int) == (id.y as int) * (side as int) + (
            side as int)) by (nonlinear_arith);
        }
        let x0 = ((id.x as u64) * side) as i64;
        let y0 = ((id.y as u64) * side) as i64;
        let side_i = side as i64;
        let r_i = r as i64;
        x0 - r_i <= v.x && v.x <= x0 + side_i + r_i && y0 - r_i <= v.y && v.y <= y0 + side_i
            + r_i
    }

    /// Computes the nodes the viewer requires, and accumulates them onto
    /// the frame's required set and, for nodes not previously required,
    /// onto the tree update's activation list. Repeated calls within one
    /// frame union their requirements; deactivations are derived from the
    /// whole union when the frame closes, so a node stays as long as any
    /// viewer requires it.
    pub fn traverse(&mut self, tree_update: &mut TreeUpdate, viewer: Viewer)
        requires
            old(self).wf(),
            old(tree_update).wf(),
            forall|id: NodeId| old(tree_update).to_activate().contains(id) ==> !old(self).previous_has(id),
            forall|id: NodeId| old(tree_update).to_deactivate().contains(id) ==> old(self).previous_has(id),
        ensures
            final(self).wf(),
            final(tree_update).wf(),
            final(self).depth == old(self).depth,
            final(self).node_size == old(self).node_size,
            final(self).previous == old(self).previous,
            forall|id: NodeId| final(tree_update).to_activate().contains(id) <==> old(
                tree_update,
            ).to_activate().contains(id) || (old(self).selected(viewer, id) && !old(self).previous_has(id)),
            final(tree_update).to_deactivate() == old(tree_update).to_deactivate(),
            final(tree_update).activated() == old(tree_update).activated(),
            forall|id: NodeId| final(self).frame_has(id) <==> old(self).frame_has(id) || old(self).selected(viewer, id),
            forall|id: NodeId| final(tree_update).to_activate().contains(id) ==> !final(self).previous_has(id),
            forall|id: NodeId| final(tree_update).to_deactivate().contains(id) ==> final(self).previous_has(id),
    {
        let ghost q0 = *old(self);
        let ghost tu0 = *old(tree_update);
        let depth = self.depth;
        let ns = self.node_size;

        // the grid dimension at the finest level
        let mut dim: u64 = 1;
        let mut t: u32 = 0;
        while t < depth
            invariant
                t <= depth <= 16,
                dim == scale(1, t as nat),
                dim <= 65536,
            decreases depth - t,
        {
            proof {
                lemma_scale_bound(1, (t + 1) as nat);
            }
            dim = dim * 2;
            t += 1;
        }

        let mut l: u32 = 0;
        while l <= depth
            invariant
                depth == q0.depth,
                ns == q0.node_size,
                l <= depth + 1,
                q0.wf(),
                self.wf(),
                self.depth == q0.depth,
                self.node_size == q0.node_size,
                self.previous == q0.previous,
                l <= depth ==> dim == scale(1, (depth - l) as nat),
                dim <= 65536,
                tree_update.wf(),
                tree_update.to_deactivate() == tu0.to_deactivate(),
                tree_update.activated() == tu0.activated(),
                forall|id: NodeId| #![trigger tree_update.to_activate().contains(id)]
                    tree_update.to_activate().contains(id) <==> tu0.to_activate().contains(id)
                        || (q0.selected(viewer, id) && !q0.previous_has(id) && (id.lod as int)
                        < l as int),
                forall|id: NodeId| #![trigger self.frame_has(id)]
                    self.frame_has(id) <==> q0.frame_has(id) || (q0.selected(viewer, id) && (
                    id.lod as int) < l as int),
                forall|id: NodeId| tree_update.to_activate().contains(id) ==> !q0.previous_has(
                    id,
                ),
                forall|id: NodeId| tu0.to_deactivate().contains(id) ==> q0.previous_has(id),
            decreases depth - l + 1,
        {
            let mut x: u64 = 0;
            while x < dim
                invariant
                    depth == q0.depth,
                    ns == q0.node_size,
                    l <= depth,
                    x <= dim,
                    q0.wf(),
                    self.wf(),
                    self.depth == q0.depth,
                    self.node_size == q0.node_size,
                    self.previous == q0.previous,
                    dim == scale(1, (depth - l) as nat),
                    dim <= 65536,
                    tree_update.wf(),
                    tree_update.to_deactivate() == tu0.to_deactivate(),
                    tree_update.activated() == tu0.activated(),
                    forall|id: NodeId| #![trigger tree_update.to_activate().contains(id)]
                        tree_update.to_activate().contains(id) <==> tu0.to_activate().contains(
                            id,
                        ) || (q0.selected(viewer, id) && !q0.previous_has(id) && before(
                            id,
                            l as int,
                            x as int,
                            0,
                        )),
                    forall|id: NodeId| #![trigger self.frame_has(id)]
                        self.frame_has(id) <==> q0.frame_has(id) || (q0.selected(viewer, id)
                            && before(id, l as int, x as int, 0)),
                    forall|id: NodeId| tree_update.to_activate().contains(id)
                        ==> !q0.previous_has(id),
                    forall|id: NodeId| tu0.to_deactivate().contains(id) ==> q0.previous_has(id),
                decreases dim - x,
            {
                let mut y: u64 = 0;
                while y < dim
                    invariant
                        depth == q0.depth,
                        ns == q0.node_size,
                        l <= depth,
                        x < dim,
                        y <= dim,
                        q0.wf(),
                        self.wf(),
                        self.depth == q0.depth,
                        self.node_size == q0.node_size,
                        self.previous == q0.previous,
                        dim == scale(1, (depth - l) as nat),
                        dim <= 65536,
                        tree_update.wf(),
                        tree_update.to_deactivate() == tu0.to_deactivate(),
                        tree_update.activated() == tu0.activated(),
                        forall|id: NodeId| #![trigger tree_update.to_activate().contains(id)]
                            tree_update.to_activate().contains(id) <==> tu0.to_activate().contains(
                                id,
                            ) || (q0.selected(viewer, id) && !q0.previous_has(id) && before(
                                id,
                                l as int,
                                x as int,
                                y as int,
                            )),
                        forall|id: NodeId| #![trigger self.frame_has(id)]
                            self.frame_has(id) <==> q0.frame_has(id) || (q0.selected(viewer, id)
                                && before(id, l as int, x as int, y as int)),
                        forall|id: NodeId| tree_update.to_activate().contains(id)
                            ==> !q0.previous_has(id),
                        forall|id: NodeId| tu0.to_deactivate().contains(id) ==> q0.previous_has(
                            id,
                        ),
                    decreases dim - y,
                {
                    let id = NodeId { lod: l, x: x as u32, y: y as u32 };
                    let in_range = self.check_selected(viewer, id);
                    proof {
                        assert(in_range == q0.selected(viewer, id));
                    }
                    let prev_hit = self.previous.contains(id);
                    let requested = tree_update.activation_requested(id);
                    let ghost tu_pre = *tree_update;
                    let ghost self_pre = *self;
                    let ghost pushed = in_range && !prev_hit && !requested;
                    if in_range && !prev_hit && !requested {
                        proof {
                            if tree_update.to_deactivate().contains(id) {
                                assert(q0.previous_has(id));
                            }
                        }
                        tree_update.request_activation(id);
                    }
                    if in_range {
                        self.frame.insert(id, ());
                    }
                    proof {
                        assert(before(id, l as int, x as int, y + 1));
                        assert forall|id2: NodeId| #![trigger tree_update.to_activate().contains(id2)]
                            tree_update.to_activate().contains(id2) <==> tu0.to_activate().contains(
                                id2,
                            ) || (q0.selected(viewer, id2) && !q0.previous_has(id2) && before(
                                id2,
                                l as int,
                                x as int,
                                y + 1,
                            )) by {
                            if pushed {
                                lemma_push_contains(tu_pre.to_activate(), id, id2);
                            }
                            if before(id2, l as int, x as int, y + 1) && !before(
                                id2,
                                l as int,
                                x as int,
                                y as int,
                            ) {
                                assert(id2.lod == l && id2.x == x && id2.y == y);
                                assert(id2 == id);
                            }
                            if id2 == id && q0.selected(viewer, id2) && !q0.previous_has(id2) {
                                assert(tu_pre.to_activate().contains(id2) || pushed);
                            }
                        }
                        assert forall|id2: NodeId| #![trigger self.frame_has(id2)]
                            self.frame_has(id2) <==> q0.frame_has(id2) || (q0.selected(
                                viewer,
                                id2,
                            ) && before(id2, l as int, x as int, y + 1)) by {
                            assert(self_pre.frame_has(id2) <==> q0.frame_has(id2) || (
                            q0.selected(viewer, id2) && before(id2, l as int, x as int, y as int)));
                            if in_range {
                                assert(self.frame.view() == self_pre.frame.view().insert(id, ()));
                            } else {
                                assert(self.frame == self_pre.frame);
                            }
                            if before(id2, l as int, x as int, y + 1) && !before(
                                id2,
                                l as int,
                                x as int,
                                y as int,
                            ) {
                                assert(id2.lod == l && id2.x == x && id2.y == y);
                                assert(id2 == id);
                            }
                        }
                    }
                    y += 1;
                }
                proof {
                    assert forall|id2: NodeId| #![trigger tree_update.to_activate().contains(id2)]
                        tree_update.to_activate().contains(id2) <==> tu0.to_activate().contains(
                            id2,
                        ) || (q0.selected(viewer, id2) && !q0.previous_has(id2) && before(
                            id2,
                            l as int,
                            x + 1,
                            0,
                        )) by {
                        if q0.selected(viewer, id2) && before(id2, l as int, x + 1, 0)
                            && !before(id2, l as int, x as int, dim as int) {
                            assert(id2.lod == l && id2.x == x);
                            assert((id2.y as int) < scale(1, (depth - l) as nat));
                        }
                    }
                    assert forall|id2: NodeId| #![trigger self.frame_has(id2)]
                        self.frame_has(id2) <==> q0.frame_has(id2) || (q0.selected(viewer, id2)
                            && before(id2, l as int, x + 1, 0)) by {
                        if q0.selected(viewer, id2) && before(id2, l as int, x + 1, 0)
                            && !before(id2, l as int, x as int, dim as int) {
                            assert(id2.lod == l && id2.x == x);
                            assert((id2.y as int) < scale(1, (depth - l) as nat));
                        }
                    }
                }
                x += 1;
            }
            proof {
                assert forall|id2: NodeId| #![trigger tree_update.to_activate().contains(id2)]
                    tree_update.to_activate().contains(id2) <==> tu0.to_activate().contains(id2)
                        || (q0.selected(viewer, id2) && !q0.previous_has(id2) && (id2.lod as int)
                        < l + 1) by {
                    if q0.selected(viewer, id2) && (id2.lod as int) < l + 1 && !before(
                        id2,
                        l as int,
                        dim as int,
                        0,
                    ) {
                        assert(id2.lod == l);
                        assert((id2.x as int) < scale(1, (depth - l) as nat));
                    }
                }
                assert forall|id2: NodeId| #![trigger self.frame_has(id2)]
                    self.frame_has(id2) <==> q0.frame_has(id2) || (q0.selected(viewer, id2) && (
                    id2.lod as int) < l + 1) by {
                    if q0.selected(viewer, id2) && (id2.lod as int) < l + 1 && !before(
                        id2,
                        l as int,
                        dim as int,
                        0,
                    ) {
                        assert(id2.lod == l);
                        assert((id2.x as int) < scale(1, (depth - l) as nat));
                    }
                }
            }
            l += 1;
            if l <= depth {
                proof {
                    assert(scale(1, (depth - (l - 1)) as nat) == 2 * scale(
                        1,
                        (depth - l) as nat,
                    ));
                }
                dim = dim / 2;
            }
        }
        proof {
            assert forall|id: NodeId| tree_update.to_activate().contains(id)
                implies !self.previous_has(id) by {
                assert(self.previous == q0.previous);
                assert(self.previous_has(id) == q0.previous_has(id));
            }
            assert forall|id: NodeId| tree_update.to_deactivate().contains(id)
                implies self.previous_has(id) by {
                assert(tu0.to_deactivate().contains(id));
                assert(q0.previous_has(id));
                assert(self.previous == q0.previous);
                assert(self.previous_has(id) == q0.previous_has(id));
            }
        }
    }

    /// Closes the frame: previously required nodes that no viewer of
    /// this frame required are listed for deactivation, and the union of
    /// this frame's required sets becomes the baseline the next frame
    /// diffs against. The diff is taken against the whole union, so a
    /// node stays resident as long as any viewer requires it.
    pub fn end_frame(&mut self, tree_update: &mut TreeUpdate)
        requires
            old(self).wf(),
            old(tree_update).wf(),
            forall|id: NodeId| old(tree_update).to_activate().contains(id) ==> !old(self).previous_has(id),
            forall|id: NodeId| old(tree_update).to_deactivate().contains(id) ==> old(self).previous_has(id),
        ensures
            final(self).wf(),
            final(tree_update).wf(),
            final(self).depth == old(self).depth,
            final(self).node_size == old(self).node_size,
            forall|id: NodeId| final(self).previous_has(id) <==> old(self).frame_has(id),
            forall|id: NodeId| !final(self).frame_has(id),
            final(tree_update).to_activate() == old(tree_update).to_activate(),
            final(tree_update).activated() == old(tree_update).activated(),
            forall|id: NodeId|
                #![trigger final(tree_update).to_deactivate().contains(id)]
                final(tree_update).to_deactivate().contains(id) <==> old(
                    tree_update,
                ).to_deactivate().contains(id) || (old(self).previous_has(id) && !old(
                    self,
                ).frame_has(id)),
    {
        let ghost q0 = *old(self);
        let ghost tu1 = *old(tree_update);
        let ghost entries = self.previous.entry_seq();
        proof {
            self.previous.lemma_entries();
            assert forall|k: int| 0 <= k < entries.len() implies q0.previous_has(
                (#[trigger] entries[k]).0,
            ) by {}
            assert forall|id2: NodeId| q0.previous_has(id2) implies exists|j: int|
                0 <= j < entries.len() && (#[trigger] entries[j]).0 == id2 by {
                let j = choose|j: int|
                    0 <= j < self.previous.entry_seq().len() && (
                    #[trigger] self.previous.entry_seq()[j]).0 == id2;
                assert((entries[j]).0 == id2);
            }
        }
        let pcount = self.previous.len();
        let mut i: usize = 0;
        while i < pcount
            invariant
                pcount == entries.len(),
                i <= pcount,
                q0.wf(),
                self.wf(),
                self.depth == q0.depth,
                self.node_size == q0.node_size,
                self.previous == q0.previous,
                self.frame == q0.frame,
                entries == q0.previous.entry_seq(),
                forall|k: int| 0 <= k < entries.len() ==> q0.previous_has(
                    (#[trigger] entries[k]).0,
                ),
                forall|id: NodeId| q0.previous_has(id) ==> exists|j: int|
                    0 <= j < entries.len() && (#[trigger] entries[j]).0 == id,
                tree_update.wf(),
                tree_update.to_activate() == tu1.to_activate(),
                tree_update.activated() == tu1.activated(),
                forall|id: NodeId| tu1.to_activate().contains(id) ==> !q0.previous_has(id),
                forall|id: NodeId| #![trigger tree_update.to_deactivate().contains(id)]
                    tree_update.to_deactivate().contains(id) <==> tu1.to_deactivate().contains(
                        id,
                    ) || (q0.previous_has(id) && !q0.frame_has(id) && (exists|j: int|
                        0 <= j < i && (#[trigger] entries[j]).0 == id)),
                forall|id: NodeId| tu1.to_deactivate().contains(id) ==> q0.previous_has(id),
            decreases pcount - i,
        {
            let e = self.previous.entry_at(i);
            let id = e.0;
            proof {
                assert(entries[i as int].0 == id);
                assert(q0.previous_has(id));
            }
            let still_required = self.frame.contains(id);
            let requested = tree_update.deactivation_requested(id);
            let ghost tu_pre = *tree_update;
            let ghost pushed = !still_required && !requested;
            if !still_required && !requested {
                proof {
                    if tree_update.to_activate().contains(id) {
                        assert(!q0.previous_has(id));
                    }
                }
                tree_update.request_deactivation(id);
            }
            proof {
                assert forall|id2: NodeId| #![trigger tree_update.to_deactivate().contains(id2)]
                    tree_update.to_deactivate().contains(id2) <==> tu1.to_deactivate().contains(
                        id2,
                    ) || (q0.previous_has(id2) && !q0.frame_has(id2) && (exists|j: int|
                        0 <= j < i + 1 && (#[trigger] entries[j]).0 == id2)) by {
                    if pushed {
                        lemma_push_contains(tu_pre.to_deactivate(), id, id2);
                    }
                    if tu_pre.to_deactivate().contains(id2) && !tu1.to_deactivate().contains(
                        id2,
                    ) {
                        let j = choose|j: int| 0 <= j < i && (#[trigger] entries[j]).0 == id2;
                        assert(0 <= j < i + 1 && (entries[j]).0 == id2);
                    }
                    if id2 == id {
                        assert((entries[i as int]).0 == id2);
                        if !q0.frame_has(id2) {
                            assert(tu_pre.to_deactivate().contains(id2) || pushed);
                        }
                    } else if !tu1.to_deactivate().contains(id2) && q0.previous_has(id2)
                        && !q0.frame_has(id2) && (exists|j: int|
                        0 <= j < i + 1 && (#[trigger] entries[j]).0 == id2) {
                        let j = choose|j: int|
                            0 <= j < i + 1 && (#[trigger] entries[j]).0 == id2;
                        assert(j < i);
                        assert(tu_pre.to_deactivate().contains(id2));
                    }
                }
            }
            i += 1;
        }
        proof {
            assert forall|id: NodeId| q0.previous_has(id) && !q0.frame_has(id)
                implies tree_update.to_deactivate().contains(id) by {
                let j = choose|j: int|
                    0 <= j < entries.len() && (#[trigger] entries[j]).0 == id;
                assert(exists|j2: int| 0 <= j2 < i && (#[trigger] entries[j2]).0 == id);
            }
        }
        let mut fresh: NodeTable<()> = NodeTable::new();
        core::mem::swap(&mut self.frame, &mut fresh);
        core::mem::swap(&mut self.previous, &mut fresh);
    }

    /// The ground square a node covers, in terrain units.
    pub open spec fn node_covers(self, id: NodeId, px: int, py: int) -> bool {
        let side = scale(self.node_size as int, id.lod as nat);
        &&& id.x * side <= px < (id.x + 1) * side
        &&& id.y * side <= py < (id.y + 1) * side
    }

    /// No holes: every terrain point within the view distance of a
    /// viewer lies in a node of the finest level that the viewer's
    /// selection holds. Coarser levels cover the same ground again by
    /// design, keeping ancestors resident.
    pub proof fn lemma_finest_level_covers(self, v: Viewer, px: int, py: int)
        requires
            self.wf(),
            0 <= px < (self.node_size as int) * scale(1, self.depth as nat),
            0 <= py < (self.node_size as int) * scale(1, self.depth as nat),
            v.x - v.view_distance <= px <= v.x + v.view_distance,
            v.y - v.view_distance <= py <= v.y + v.view_distance,
        ensures
            exists|id: NodeId|
                #[trigger] self.selected(v, id) && id.lod == 0 && self.node_covers(id, px, py),
    {
        let ns = self.node_size as int;
        let d = scale(1, self.depth as nat);
        lemma_scale_pos(1, self.depth as nat);
        lemma_scale_bound(1, self.depth as nat);
        vstd::arithmetic::div_mod::lemma_fundamental_div_mod(px, ns);
        vstd::arithmetic::div_mod::lemma_mod_bound(px, ns);
        vstd::arithmetic::div_mod::lemma_fundamental_div_mod(py, ns);
        vstd::arithmetic::div_mod::lemma_mod_bound(py, ns);
        let xi = px / ns;
        let yi = py / ns;
        assert(xi * ns <= px < (xi + 1) * ns) by (nonlinear_arith)
            requires
                px == ns * xi + (px % ns) && 0 <= px % ns < ns,
        ;
        assert(yi * ns <= py < (yi + 1) * ns) by (nonlinear_arith)
            requires
                py == ns * yi + (py % ns) && 0 <= py % ns < ns,
        ;
        assert(0 <= xi < d && 0 <= yi < d) by (nonlinear_arith)
            requires
                xi * ns <= px < (xi + 1) * ns && yi * ns <= py < (yi + 1) * ns && 0 <= px < ns
                    * d && 0 <= py < ns * d && ns >= 1 && d >= 1,
        ;
        let id = NodeId { lod: 0, x: xi as u32, y: yi as u32 };
        assert(id.x == xi && id.y == yi);
        assert(scale(ns, 0) == ns && scale(v.view_distance as int, 0) == v.view_distance as int);
        assert(self.selected(v, id));
        assert(self.node_covers(id, px, py));
    }

    /// No overlaps within a level: a point of ground covered by one node
    /// of a level is covered by no other node of that level.
    pub proof fn lemma_level_nodes_disjoint(self, id1: NodeId, id2: NodeId, px: int, py: int)
        requires
            self.wf(),
            id1.lod == id2.lod,
            id1 != id2,
            self.node_covers(id1, px, py),
        ensures
            !self.node_covers(id2, px, py),
    {
        let side = scale(self.node_size as int, id1.lod as nat);
        lemma_scale_pos(self.node_size as int, id1.lod as nat);
        if self.node_covers(id2, px, py) {
            if id1.x != id2.x {
                if id1.x < id2.x {
                    assert(((id1.x as int) + 1) * side <= (id2.x as int) * side) by (
                    nonlinear_arith)
                        requires
                            side >= 1 && (id1.x as int) + 1 <= id2.x as int,
                    ;
                } else {
                    assert(((id2.x as int) + 1) * side <= (id1.x as int) * side) by (
                    nonlinear_arith)
                        requires
                            side >= 1 && (id2.x as int) + 1 <= id1.x as int,
                    ;
                }
            } else if id1.y != id2.y {
                if id1.y < id2.y {
                    assert(((id1.y as int) + 1) * side <= (id2.y as int) * side) by (
                    nonlinear_arith)
                        requires
                            side >= 1 && (id1.y as int) + 1 <= id2.y as int,
                    ;
                } else {
                    assert(((id2.y as int) + 1) * side <= (id1.y as int) * side) by (
                    nonlinear_arith)
                        requires
                            side >= 1 && (id2.y as int) + 1 <= id1.y as int,
                    ;
                }
            }
        }
    }

    pub fn previously_required(&self, id: NodeId) -> (b: bool)
        requires
            self.wf(),
        ensures
            b == self.previous_has(id),
    {
        self.previous.contains(id)
    }
}

} // verus!
