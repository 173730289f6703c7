//! The per-frame systems: quadtree traversal over all viewers, lifecycle
//! resolution of one terrain's nodes against its atlas, and routing of
//! asynchronous load completions.
//!
//! Lifecycle resolution runs its steps in a fixed order each frame: stale
//! output is cleared, requested nodes are served from the inactive cache
//! or sent to load, finished loads join the activation queue, nodes no
//! longer required free their slots, and only then are queued nodes
//! admitted, so slots freed this frame are reusable this frame.

use vstd::prelude::*;

verus! {

use crate::node_atlas::NodeAtlas;
use crate::node_atlas::QuadtreeUpdate;
use crate::node_atlas::SlotCommand;
use crate::nodes::HandleAllocator;
use crate::nodes::INVALID_SLOT;
use crate::nodes::LoadRequest;
use crate::nodes::LoadingNode;
use crate::nodes::NodeData;
use crate::nodes::Nodes;
use crate::quadtree::NodeId;
use crate::quadtree::Quadtree;
use crate::quadtree::TreeUpdate;
use crate::quadtree::Viewer;
use crate::quadtree::distinct_ids;

pub open spec fn min2(a: int, b: int) -> int {
    if a <= b {
        a
    } else {
        b
    }
}

/// Couples a terrain's store with its atlas: every active node holds a
/// distinct allocated slot below the capacity, and no held slot is also
/// free, so the count of active nodes can never pass the capacity.
pub open spec fn atlas_coupled(nodes: Nodes, atlas: NodeAtlas) -> bool {
    &&& forall|id: NodeId| #[trigger] nodes.active().contains_key(id)
        ==> nodes.active()[id].atlas_index < atlas.capacity_spec() && !atlas.free_seq().contains(
            nodes.active()[id].atlas_index,
        )
    &&& forall|id1: NodeId, id2: NodeId|
        #![trigger nodes.active()[id1], nodes.active()[id2]]
        nodes.active().contains_key(id1) && nodes.active().contains_key(id2) && id1 != id2
            ==> nodes.active()[id1].atlas_index != nodes.active()[id2].atlas_index
    &&& nodes.active().dom().len() + atlas.free_seq().len() == atlas.capacity_spec()
}

/// Requested ids that need a fresh load (no inactive cache entry), in
/// request order.
pub open spec fn miss_seq(n: Nodes, a: Seq<NodeId>) -> Seq<NodeId> {
    a.filter(|id: NodeId| !n.inactive().contains_key(id))
}

/// The loading entry a fresh load request creates.
pub open spec fn fresh_loading(id: NodeId) -> LoadingNode {
    LoadingNode { data: NodeData { id, atlas_index: INVALID_SLOT }, finished: false }
}

proof fn lemma_filter_take_step<A>(s: Seq<A>, i: int, pred: spec_fn(A) -> bool)
    requires
        0 <= i < s.len(),
    ensures
        pred(s[i]) ==> s.take(i + 1).filter(pred) == s.take(i).filter(pred).push(s[i]),
        !pred(s[i]) ==> s.take(i + 1).filter(pred) == s.take(i).filter(pred),
{
    reveal(Seq::filter);
    assert(s.take(i + 1).drop_last() =~= s.take(i));
    assert(s.take(i + 1).last() == s[i]);
}

/// Activation requests: an id with an inactive cache entry is served from
/// the cache and queued without a reload; any other id gets a fresh
/// loading entry, asset handles registered for it, and a load request the
/// caller must start.
fn load_or_reuse(
    ids: &Vec<NodeId>,
    nodes: &mut Nodes,
    allocator: &mut HandleAllocator,
    queue: &mut Vec<NodeData>,
) -> (requests: Vec<LoadRequest>)
    requires
        old(nodes).wf(),
        distinct_ids(ids@),
        old(nodes).pending().len() == 0,
        forall|k: int| 0 <= k < ids@.len() ==> !old(nodes).active().contains_key(
            #[trigger] ids@[k],
        ),
        old(nodes).handles_below(old(allocator).next as int),
        old(allocator).next + old(nodes).assets_per_node * ids@.len() <= u64::MAX,
        forall|k: int, j: int| 0 <= k < j < old(queue)@.len() ==> (#[trigger] old(queue)@[k]).id != (#[trigger] old(queue)@[j]).id,
        forall|k: int| 0 <= k < old(queue)@.len() ==> !old(nodes).inactive().contains_key(
            (#[trigger] old(queue)@[k]).id,
        ) && !old(nodes).loading().contains_key(old(queue)@[k].id) && !ids@.contains(
            old(queue)@[k].id,
        ),
    ensures
        final(nodes).wf(),
        final(nodes).active() == old(nodes).active(),
        final(nodes).pending() == old(nodes).pending(),
        final(nodes).assets_per_node == old(nodes).assets_per_node,
        forall|id: NodeId| #[trigger] final(nodes).inactive().contains_key(id) <==> old(
            nodes,
        ).inactive().contains_key(id) && !ids@.contains(id),
        forall|id: NodeId| #[trigger] final(nodes).inactive().contains_key(id) ==> final(nodes).inactive()[id] == old(nodes).inactive()[id],
        forall|id: NodeId| #[trigger] final(nodes).loading().contains_key(id) <==> old(
            nodes,
        ).loading().contains_key(id) || (ids@.contains(id) && !old(
            nodes,
        ).inactive().contains_key(id)),
        forall|id: NodeId| ids@.contains(id) && !old(nodes).inactive().contains_key(id)
            ==> #[trigger] final(nodes).loading()[id] == fresh_loading(id),
        forall|id: NodeId| old(nodes).loading().contains_key(id) && !ids@.contains(id)
            ==> #[trigger] final(nodes).loading()[id] == old(nodes).loading()[id],
        forall|h: u64| #[trigger] final(nodes).handles().contains_key(h) <==> old(
            nodes,
        ).handles().contains_key(h) || (old(allocator).next <= h < final(allocator).next),
        forall|h: u64| #[trigger] old(nodes).handles().contains_key(h) ==> final(nodes).handles()[h] == old(nodes).handles()[h],
        forall|h: u64| old(allocator).next <= h < final(allocator).next ==> ids@.contains(
            #[trigger] final(nodes).handles()[h],
        ) && !old(nodes).inactive().contains_key(final(nodes).handles()[h]),
        final(allocator).next == old(allocator).next + old(nodes).assets_per_node * miss_seq(
            *old(nodes),
            ids@,
        ).len(),
        final(nodes).handles_below(final(allocator).next as int),
        // the queue gains the cache hits
        final(queue)@.len() >= old(queue)@.len(),
        forall|k: int| 0 <= k < old(queue)@.len() ==> #[trigger] final(queue)@[k] == old(queue)@[k],
        forall|k: int| old(queue)@.len() <= k < final(queue)@.len() ==> ids@.contains(
            (#[trigger] final(queue)@[k]).id,
        ) && old(nodes).inactive().contains_key(final(queue)@[k].id) && final(queue)@[k]
            == old(nodes).inactive()[final(queue)@[k].id],
        forall|id: NodeId| ids@.contains(id) && old(nodes).inactive().contains_key(id)
            ==> exists|k: int|
            old(queue)@.len() <= k < final(queue)@.len() && (#[trigger] final(queue)@[k]).id
                == id,
        forall|k: int, j: int| 0 <= k < j < final(queue)@.len() ==> (#[trigger] final(queue)@[k]).id != (#[trigger] final(queue)@[j]).id,
        // the load requests the caller must start
        requests@.len() == miss_seq(*old(nodes), ids@).len(),
        forall|k: int| 0 <= k < requests@.len() ==> (#[trigger] requests@[k]).id == miss_seq(
            *old(nodes),
            ids@,
        )[k],
        forall|k: int| 0 <= k < requests@.len() ==> (#[trigger] requests@[k]).handles@.len()
            == old(nodes).assets_per_node,
        forall|k: int, j: int| 0 <= k < requests@.len() && 0 <= j < old(nodes).assets_per_node
            ==> #[trigger] requests@[k].handles@[j] == old(allocator).next + k * old(nodes).assets_per_node + j,
        forall|k: int, j: int| 0 <= k < requests@.len() && 0 <= j < old(nodes).assets_per_node
            ==> final(nodes).handles().contains_key(#[trigger] requests@[k].handles@[j])
            && final(nodes).handles()[requests@[k].handles@[j]] == requests@[k].id,
{
    let ghost n0 = *old(nodes);
    let ghost next0 = old(allocator).next;
    let ghost q0 = old(queue)@;
    let apn = nodes.assets_per_node;
    let mut requests: Vec<LoadRequest> = Vec::new();
    let n = ids.len();
    let mut i: usize = 0;
    while i < n
        invariant
            n == ids@.len(),
            i <= n,
            nodes.wf(),
            distinct_ids(ids@),
            apn == n0.assets_per_node,
            forall|k: int| 0 <= k < ids@.len() ==> !n0.active().contains_key(
                #[trigger] ids@[k],
            ),
            n0.handles_below(next0 as int),
            forall|k: int, j: int| 0 <= k < j < q0.len() ==> (#[trigger] q0[k]).id != (
            #[trigger] q0[j]).id,
            forall|k: int| 0 <= k < q0.len() ==> !n0.inactive().contains_key(
                (#[trigger] q0[k]).id,
            ) && !n0.loading().contains_key(q0[k].id) && !ids@.contains(q0[k].id),
            nodes.active() == n0.active(),
            nodes.pending() == n0.pending(),
            nodes.pending().len() == 0,
            nodes.assets_per_node == n0.assets_per_node,
            forall|id: NodeId| #[trigger] nodes.inactive().contains_key(id)
                <==> n0.inactive().contains_key(id) && !ids@.take(i as int).contains(id),
            forall|id: NodeId| #[trigger] nodes.inactive().contains_key(id)
                ==> nodes.inactive()[id] == n0.inactive()[id],
            forall|id: NodeId| #[trigger] nodes.loading().contains_key(id)
                <==> n0.loading().contains_key(id) || (ids@.take(i as int).contains(id)
                && !n0.inactive().contains_key(id)),
            forall|id: NodeId| ids@.take(i as int).contains(id) && !n0.inactive().contains_key(
                id,
            ) ==> #[trigger] nodes.loading()[id] == fresh_loading(id),
            forall|id: NodeId| n0.loading().contains_key(id) && !ids@.take(i as int).contains(
                id,
            ) ==> #[trigger] nodes.loading()[id] == n0.loading()[id],
            forall|h: u64| #[trigger] nodes.handles().contains_key(h)
                <==> n0.handles().contains_key(h) || (next0 <= h < allocator.next),
            forall|h: u64| #[trigger] n0.handles().contains_key(h) ==> nodes.handles()[h]
                == n0.handles()[h],
            forall|h: u64| next0 <= h < allocator.next ==> ids@.take(i as int).contains(
                #[trigger] nodes.handles()[h],
            ) && !n0.inactive().contains_key(nodes.handles()[h]),
            allocator.next == next0 + apn * miss_seq(n0, ids@.take(i as int)).len(),
            miss_seq(n0, ids@.take(i as int)).len() <= i,
            next0 + apn * ids@.len() <= u64::MAX,
            queue@.len() >= q0.len(),
            forall|k: int| 0 <= k < q0.len() ==> #[trigger] queue@[k] == q0[k],
            forall|k: int| q0.len() <= k < queue@.len() ==> ids@.take(i as int).contains(
                (#[trigger] queue@[k]).id,
            ) && n0.inactive().contains_key(queue@[k].id) && queue@[k] == n0.inactive()[queue@[k].id],
            forall|id: NodeId| ids@.take(i as int).contains(id) && n0.inactive().contains_key(id)
                ==> exists|k: int|
                q0.len() <= k < queue@.len() && (#[trigger] queue@[k]).id == id,
            forall|k: int, j: int| 0 <= k < j < queue@.len() ==> (#[trigger] queue@[k]).id != (
            #[trigger] queue@[j]).id,
            requests@.len() == miss_seq(n0, ids@.take(i as int)).len(),
            forall|k: int| 0 <= k < requests@.len() ==> (#[trigger] requests@[k]).id == miss_seq(
                n0,
                ids@.take(i as int),
            )[k],
            forall|k: int| 0 <= k < requests@.len() ==> (#[trigger] requests@[k]).handles@.len()
                == apn,
            forall|k: int, j: int| 0 <= k < requests@.len() && 0 <= j < apn
                ==> #[trigger] requests@[k].handles@[j] == next0 + k * apn + j,
            forall|k: int, j: int| 0 <= k < requests@.len() && 0 <= j < apn
                ==> nodes.handles().contains_key(#[trigger] requests@[k].handles@[j])
                && nodes.handles()[requests@[k].handles@[j]] == requests@[k].id,
        decreases n - i,
    {
        let id = ids[i];
        let ghost head = *nodes;
        let ghost taken = ids@.take(i as int);
        let ghost misses = miss_seq(n0, taken);
        proof {
            assert(ids@.take(i + 1).drop_last() =~= taken);
            assert(ids@.take(i + 1).last() == id);
            lemma_filter_take_step(ids@, i as int, |x: NodeId| !n0.inactive().contains_key(x));
            assert(miss_seq(n0, ids@.take(i + 1)) == if !n0.inactive().contains_key(id) {
                misses.push(id)
            } else {
                misses
            });
            assert(!taken.contains(id));
            assert forall|id2: NodeId| ids@.take(i + 1).contains(id2) implies taken.contains(id2)
                || id2 == id by {}
            assert forall|id2: NodeId| taken.contains(id2) implies ids@.take(i + 1).contains(
                id2,
            ) by {
                let a = choose|a: int| 0 <= a < taken.len() && taken[a] == id2;
                assert(ids@.take(i + 1)[a] == id2);
            }
            assert(ids@.take(i + 1).contains(id)) by {
                assert(ids@.take(i + 1)[i as int] == id);
            }
            assert(nodes.inactive().contains_key(id) == n0.inactive().contains_key(id));
        }
        match nodes.inactive_nodes.remove(id) {
            Some(nd) => {
                proof {
                    assert(nd.id == id);
                    assert(head.inactive().contains_key(id));
                }
                let ghost q_pre = queue@;
                queue.push(nd);
                proof {
                    assert(nodes.loading() == head.loading());
                    assert(nodes.handles() == head.handles());
                    assert forall|id2: NodeId| #[trigger] nodes.inactive().contains_key(id2)
                        <==> n0.inactive().contains_key(id2) && !ids@.take(i + 1).contains(id2)
                        by {
                        if id2 != id {
                            assert(nodes.inactive().contains_key(id2) == head.inactive().contains_key(
                                id2,
                            ));
                        }
                    }
                    assert forall|id2: NodeId| #[trigger] nodes.loading().contains_key(id2)
                        <==> n0.loading().contains_key(id2) || (ids@.take(i + 1).contains(id2)
                        && !n0.inactive().contains_key(id2)) by {
                        assert(head.loading().contains_key(id2) <==> n0.loading().contains_key(
                            id2,
                        ) || (taken.contains(id2) && !n0.inactive().contains_key(id2)));
                        if id2 == id {
                            assert(n0.inactive().contains_key(id2));
                        }
                    }
                    assert(queue@[queue@.len() - 1] == nd);
                    assert(nd == n0.inactive()[id]) by {
                        assert(head.inactive().contains_key(id));
                        assert(head.inactive()[id] == n0.inactive()[id]);
                    }
                    assert forall|id2: NodeId| ids@.take(i + 1).contains(id2)
                        && n0.inactive().contains_key(id2) implies exists|k: int|
                        q0.len() <= k < queue@.len() && (#[trigger] queue@[k]).id == id2 by {
                        if id2 == id {
                            assert((queue@[queue@.len() - 1]).id == id2);
                        } else {
                            assert(taken.contains(id2));
                            let k = choose|k: int|
                                q0.len() <= k < q_pre.len() && (#[trigger] q_pre[k]).id == id2;
                            assert((queue@[k]).id == id2);
                        }
                    }
                    assert forall|k: int, j: int| 0 <= k < j < queue@.len() implies (
                    #[trigger] queue@[k]).id != (#[trigger] queue@[j]).id by {
                        if j == queue@.len() - 1 {
                            if k < q0.len() {
                                assert(!n0.inactive().contains_key((queue@[k]).id));
                            } else {
                                assert(ids@.take(i as int).contains((queue@[k]).id));
                                assert(!taken.contains(id));
                            }
                        }
                    }
                    assert forall|k2: int, j2: int|
                        0 <= k2 < requests@.len() && 0 <= j2 < apn
                        implies nodes.handles().contains_key(
                        #[trigger] requests@[k2].handles@[j2],
                    ) && nodes.handles()[requests@[k2].handles@[j2]] == requests@[k2].id by {
                        assert(head.handles().contains_key(requests@[k2].handles@[j2]));
                        assert(head.handles()[requests@[k2].handles@[j2]] == requests@[k2].id);
                    }
                }
            },
            None => {
                let ghost mk = misses.len() as int;
                proof {
                    assert(misses.push(id)[mk] == id);
                    assert(allocator.next == next0 + apn * mk);
                    assert(apn * mk + apn == apn * (mk + 1)) by (nonlinear_arith);
                    assert(mk + 1 <= i + 1);
                    assert(apn * (mk + 1) <= apn * (i + 1) && apn * (i + 1) <= apn * (
                    ids@.len() as int)) by (nonlinear_arith)
                        requires
                            apn >= 1 && mk + 1 <= i + 1 <= ids@.len(),
                    ;
                }
                let ghost before_ins = *nodes;
                nodes.loading_nodes.insert(
                    id,
                    LoadingNode {
                        data: NodeData { id, atlas_index: INVALID_SLOT },
                        finished: false,
                    },
                );
                proof {
                    assert(!before_ins.inactive().contains_key(id));
                    assert(!n0.active().contains_key(id));
                    assert forall|id2: NodeId| #[trigger] nodes.loading().contains_key(id2)
                        implies nodes.loading()[id2].data.id == id2
                        && nodes.loading()[id2].data.atlas_index == INVALID_SLOT
                        && !nodes.inactive().contains_key(id2)
                        && !nodes.active().contains_key(id2) && !nodes.pending_has(id2) by {
                        if id2 != id {
                            assert(before_ins.loading().contains_key(id2));
                            assert(nodes.loading()[id2] == before_ins.loading()[id2]);
                        }
                        if nodes.pending_has(id2) {
                            let a = choose|a: int|
                                0 <= a < nodes.pending().len() && (
                                #[trigger] nodes.pending()[a]).id == id2;
                            assert((before_ins.pending()[a]).id == id2);
                        }
                    }
                    assert forall|id2: NodeId| #[trigger] nodes.inactive().contains_key(id2)
                        implies !nodes.active().contains_key(id2) && !nodes.pending_has(id2)
                        by {
                        if nodes.pending_has(id2) {
                            let a = choose|a: int|
                                0 <= a < nodes.pending().len() && (
                                #[trigger] nodes.pending()[a]).id == id2;
                            assert((before_ins.pending()[a]).id == id2);
                        }
                    }
                    assert forall|id2: NodeId| #[trigger] nodes.active().contains_key(id2)
                        implies !nodes.pending_has(id2) by {
                        if nodes.pending_has(id2) {
                            let a = choose|a: int|
                                0 <= a < nodes.pending().len() && (
                                #[trigger] nodes.pending()[a]).id == id2;
                            assert((before_ins.pending()[a]).id == id2);
                        }
                    }
                    assert forall|h: u64| #[trigger] nodes.handles().contains_key(h)
                        implies nodes.loading().contains_key(nodes.handles()[h]) by {
                        assert(before_ins.handles().contains_key(h));
                        assert(before_ins.loading().contains_key(before_ins.handles()[h]));
                    }
                    assert(nodes.wf());
                }
                let ghost hstart = allocator.next;
                let ghost pre = *nodes;
                proof {
                    assert(nodes.handles() == head.handles());
                    assert forall|h: u64| next0 <= h < hstart implies ids@.take(
                        i as int,
                    ).contains(#[trigger] pre.handles()[h]) && !n0.inactive().contains_key(
                        pre.handles()[h],
                    ) by {
                        assert(n0.handles().contains_key(h) ==> h < next0);
                        assert(head.handles().contains_key(h));
                        assert(head.handles()[h] == pre.handles()[h]);
                    }
                }
                let mut handles: Vec<u64> = Vec::new();
                let mut j: u32 = 0;
                while j < apn
                    invariant
                        j <= apn,
                        nodes.wf(),
                        allocator.next == hstart + j,
                        hstart + apn <= u64::MAX,
                        next0 <= hstart,
                        handles@.len() == j,
                        forall|t: int| 0 <= t < j ==> #[trigger] handles@[t] == hstart + t,
                        n0.handles_below(next0 as int),
                        nodes.loading() == pre.loading(),
                        nodes.inactive() == pre.inactive(),
                        nodes.active() == pre.active(),
                        nodes.pending() == pre.pending(),
                        nodes.assets_per_node == pre.assets_per_node,
                        pre.loading().contains_key(id),
                        forall|h: u64| #[trigger] nodes.handles().contains_key(h)
                            <==> n0.handles().contains_key(h) || (next0 <= h < allocator.next),
                        forall|h: u64| #[trigger] n0.handles().contains_key(h)
                            ==> nodes.handles()[h] == n0.handles()[h],
                        forall|h: u64| next0 <= h < hstart ==> #[trigger] nodes.handles()[h]
                            == pre.handles()[h],
                        forall|h: u64| next0 <= h < hstart ==> ids@.take(i as int).contains(
                            #[trigger] pre.handles()[h],
                        ) && !n0.inactive().contains_key(pre.handles()[h]),
                        forall|h: u64| hstart <= h < allocator.next
                            ==> #[trigger] nodes.handles()[h] == id,
                    decreases apn - j,
                {
                    let h = allocator.next;
                    proof {
                        if nodes.handles().contains_key(h) {
                            assert(n0.handles().contains_key(h) ==> h < next0);
                            assert(false);
                        }
                    }
                    let ghost hpre = *nodes;
                    nodes.handle_mapping.insert_fresh(h, id);
                    handles.push(h);
                    proof {
                        assert forall|h2: u64| #[trigger] nodes.handles().contains_key(h2)
                            implies nodes.loading().contains_key(nodes.handles()[h2]) by {
                            if h2 != h {
                                assert(hpre.handles().contains_key(h2));
                            }
                        }
                    }
                    allocator.next = allocator.next + 1;
                    j += 1;
                }
                requests.push(LoadRequest { id, handles });
                proof {
                    assert(!n0.inactive().contains_key(id));
                    assert forall|id2: NodeId| #[trigger] nodes.inactive().contains_key(id2)
                        <==> n0.inactive().contains_key(id2) && !ids@.take(i + 1).contains(id2)
                        by {}
                    assert forall|id2: NodeId| #[trigger] nodes.loading().contains_key(id2)
                        <==> n0.loading().contains_key(id2) || (ids@.take(i + 1).contains(id2)
                        && !n0.inactive().contains_key(id2)) by {
                        if id2 != id {
                            assert(nodes.loading().contains_key(id2) == before_ins.loading().contains_key(
                                id2,
                            ));
                        }
                    }
                    assert forall|id2: NodeId| ids@.take(i + 1).contains(id2)
                        && !n0.inactive().contains_key(id2) implies #[trigger] nodes.loading()[id2]
                        == fresh_loading(id2) by {
                        if id2 != id {
                            assert(nodes.loading()[id2] == before_ins.loading()[id2]);
                        }
                    }
                    assert forall|id2: NodeId| n0.loading().contains_key(id2) && !ids@.take(
                        i + 1,
                    ).contains(id2) implies #[trigger] nodes.loading()[id2] == n0.loading()[id2]
                        by {
                        assert(nodes.loading()[id2] == before_ins.loading()[id2]);
                    }
                    assert forall|h: u64| next0 <= h < allocator.next implies ids@.take(
                        i + 1,
                    ).contains(#[trigger] nodes.handles()[h]) && !n0.inactive().contains_key(
                        nodes.handles()[h],
                    ) by {
                        if h < hstart {
                            assert(nodes.handles()[h] == pre.handles()[h]);
                            assert(ids@.take(i as int).contains(pre.handles()[h]));
                        } else {
                            assert(nodes.handles()[h] == id);
                        }
                    }
                    assert(miss_seq(n0, ids@.take(i + 1)) == misses.push(id));
                    assert(requests@.len() == misses.push(id).len());
                    assert forall|k: int| 0 <= k < requests@.len() implies (
                    #[trigger] requests@[k]).id == miss_seq(n0, ids@.take(i + 1))[k] by {
                        if k < mk {
                            assert(misses.push(id)[k] == misses[k]);
                        }
                    }
                    assert forall|k: int, j: int|
                        0 <= k < requests@.len() && 0 <= j < apn implies #[trigger] requests@[k].handles@[j]
                        == next0 + k * apn + j by {
                        if k == mk {
                            assert(requests@[k].handles@[j] == hstart + j);
                            assert(hstart == next0 + apn * mk);
                            assert(apn * mk == mk * apn) by (nonlinear_arith);
                        }
                    }
                    assert forall|k: int| q0.len() <= k < queue@.len() implies ids@.take(
                        i + 1,
                    ).contains((#[trigger] queue@[k]).id) by {
                        assert(ids@.take(i as int).contains((queue@[k]).id));
                    }
                    assert forall|id2: NodeId| ids@.take(i + 1).contains(id2)
                        && n0.inactive().contains_key(id2) implies exists|k: int|
                        q0.len() <= k < queue@.len() && (#[trigger] queue@[k]).id == id2 by {
                        assert(id2 != id);
                        assert(ids@.take(i as int).contains(id2));
                    }
                    assert forall|k2: int, j2: int|
                        0 <= k2 < requests@.len() && 0 <= j2 < apn
                        implies nodes.handles().contains_key(
                        #[trigger] requests@[k2].handles@[j2],
                    ) && nodes.handles()[requests@[k2].handles@[j2]] == requests@[k2].id by {
                        let h = requests@[k2].handles@[j2];
                        if k2 < mk {
                            assert(h == next0 + k2 * apn + j2);
                            assert(k2 * apn + j2 < mk * apn) by (nonlinear_arith)
                                requires
                                    0 <= k2 < mk && 0 <= j2 < apn && apn >= 1,
                            ;
                            assert(h < hstart);
                            assert(head.handles().contains_key(
                                #[trigger] requests@[k2].handles@[j2],
                            ));
                            assert(head.handles()[h] == requests@[k2].id);
                            assert(nodes.handles()[h] == pre.handles()[h]);
                            assert(pre.handles()[h] == head.handles()[h]);
                        } else {
                            assert(k2 == mk);
                            assert(h == next0 + mk * apn + j2);
                            assert(h == hstart + j2);
                            assert(nodes.handles()[h] == id);
                        }
                    }
                }
            },
        }
        i += 1;
    }
    proof {
        assert(ids@.take(n as int) =~= ids@);
    }
    requests
}

/// Deactivation: every listed id leaves `active_nodes`, its slot returns
/// to the free list with a free command emitted, and its data moves into
/// the inactive cache for later reuse without a reload.
fn apply_deactivations(
    ids: &Vec<NodeId>,
    nodes: &mut Nodes,
    atlas: &mut NodeAtlas,
    output: &mut QuadtreeUpdate,
)
    requires
        old(nodes).wf(),
        old(atlas).wf(),
        atlas_coupled(*old(nodes), *old(atlas)),
        distinct_ids(ids@),
        forall|k: int| 0 <= k < ids@.len() ==> old(nodes).active().contains_key(
            #[trigger] ids@[k],
        ),
    ensures
        final(nodes).wf(),
        final(atlas).wf(),
        atlas_coupled(*final(nodes), *final(atlas)),
        final(atlas).capacity_spec() == old(atlas).capacity_spec(),
        final(nodes).loading() == old(nodes).loading(),
        final(nodes).handles() == old(nodes).handles(),
        final(nodes).pending() == old(nodes).pending(),
        final(nodes).assets_per_node == old(nodes).assets_per_node,
        forall|id: NodeId| #[trigger] final(nodes).active().contains_key(id) <==> old(
            nodes,
        ).active().contains_key(id) && !ids@.contains(id),
        forall|id: NodeId| #[trigger] final(nodes).active().contains_key(id) ==> final(nodes).active()[id] == old(nodes).active()[id],
        forall|id: NodeId| #[trigger] final(nodes).inactive().contains_key(id) <==> old(
            nodes,
        ).inactive().contains_key(id) || ids@.contains(id),
        forall|id: NodeId| old(nodes).inactive().contains_key(id) ==> #[trigger] final(nodes).inactive()[id] == old(nodes).inactive()[id],
        forall|k: int| 0 <= k < ids@.len() ==> final(nodes).inactive()[#[trigger] ids@[k]] == (
        NodeData { id: ids@[k], atlas_index: INVALID_SLOT }),
        final(atlas).free_seq().len() == old(atlas).free_seq().len() + ids@.len(),
        forall|a: int| 0 <= a < old(atlas).free_seq().len() ==> #[trigger] final(atlas).free_seq()[a] == old(atlas).free_seq()[a],
        forall|k: int| 0 <= k < ids@.len() ==> #[trigger] final(atlas).free_seq()[old(atlas).free_seq().len() + k] == old(nodes).active()[ids@[k]].atlas_index,
        final(output).view().len() == old(output).view().len() + ids@.len(),
        forall|a: int| 0 <= a < old(output).view().len() ==> #[trigger] final(output).view()[a]
            == old(output).view()[a],
        forall|k: int| 0 <= k < ids@.len() ==> #[trigger] final(output).view()[old(output).view().len() + k] == (SlotCommand::Free {
            slot: old(nodes).active()[ids@[k]].atlas_index,
        }),
{
    let n = ids.len();
    let mut i: usize = 0;
    while i < n
        invariant
            n == ids@.len(),
            i <= n,
            nodes.wf(),
            atlas.wf(),
            atlas_coupled(*nodes, *atlas),
            atlas.capacity_spec() == old(atlas).capacity_spec(),
            distinct_ids(ids@),
            forall|k: int| 0 <= k < ids@.len() ==> old(nodes).active().contains_key(
                #[trigger] ids@[k],
            ),
            nodes.loading() == old(nodes).loading(),
            nodes.handles() == old(nodes).handles(),
            nodes.pending() == old(nodes).pending(),
            nodes.assets_per_node == old(nodes).assets_per_node,
            forall|id: NodeId| nodes.active().contains_key(id) <==> old(nodes).active().contains_key(id) && !ids@.take(i as int).contains(id),
            forall|id: NodeId| #[trigger] nodes.active().contains_key(id) ==> nodes.active()[id]
                == old(nodes).active()[id],
            forall|id: NodeId| nodes.inactive().contains_key(id) <==> old(nodes).inactive().contains_key(id) || ids@.take(i as int).contains(id),
            forall|id: NodeId| old(nodes).inactive().contains_key(id) ==> #[trigger] nodes.inactive()[id]
                == old(nodes).inactive()[id],
            forall|k: int| 0 <= k < i ==> nodes.inactive()[#[trigger] ids@[k]] == (NodeData {
                id: ids@[k],
                atlas_index: INVALID_SLOT,
            }),
            atlas.free_seq().len() == old(atlas).free_seq().len() + i,
            forall|a: int| 0 <= a < old(atlas).free_seq().len() ==> #[trigger] atlas.free_seq()[a]
                == old(atlas).free_seq()[a],
            forall|k: int| 0 <= k < i ==> #[trigger] atlas.free_seq()[old(atlas).free_seq().len() + k] == old(nodes).active()[ids@[k]].atlas_index,
            output.view().len() == old(output).view().len() + i,
            forall|a: int| 0 <= a < old(output).view().len() ==> #[trigger] output.view()[a]
                == old(output).view()[a],
            forall|k: int| 0 <= k < i ==> #[trigger] output.view()[old(output).view().len() + k]
                == (SlotCommand::Free { slot: old(nodes).active()[ids@[k]].atlas_index }),
        decreases n - i,
    {
        let id = ids[i];
        proof {
            assert(!ids@.take(i as int).contains(id));
            assert(nodes.active().contains_key(id));
            nodes.active_nodes.lemma_entries();
        }
        let ghost pre = *nodes;
        let ghost pre_atlas = *atlas;
        let mut nd = nodes.active_nodes.remove_existing(id);
        let slot = nd.atlas_index;
        proof {
            assert(pre.active().dom().remove(id).len() == pre.active().dom().len() - 1);
            assert(nodes.active().dom() =~= pre.active().dom().remove(id));
            assert(atlas.free_seq().len() < atlas.capacity_spec());
        }
        atlas.release(slot);
        output.0.push(SlotCommand::Free { slot });
        nd.atlas_index = INVALID_SLOT;
        let ghost before_ins = *nodes;
        nodes.inactive_nodes.insert(id, nd);
        proof {
            assert forall|id2: NodeId| #[trigger] nodes.inactive().contains_key(id2)
                implies nodes.inactive()[id2].id == id2 && nodes.inactive()[id2].atlas_index
                == INVALID_SLOT && !nodes.active().contains_key(id2) && !nodes.pending_has(id2)
                by {
                if id2 != id {
                    assert(before_ins.inactive().contains_key(id2));
                    assert(nodes.inactive()[id2] == before_ins.inactive()[id2]);
                    assert(before_ins.inactive() == pre.inactive());
                    assert(pre.inactive().contains_key(id2));
                    assert((pre.inactive()[id2]).id == id2);
                    assert((pre.inactive()[id2]).atlas_index == INVALID_SLOT);
                } else {
                    assert(pre.active().contains_key(id));
                    assert((pre.active()[id]).id == id);
                    assert(nd.atlas_index == INVALID_SLOT);
                }
                if nodes.pending_has(id2) {
                    let a = choose|a: int|
                        0 <= a < nodes.pending().len() && (#[trigger] nodes.pending()[a]).id
                            == id2;
                    assert((before_ins.pending()[a]).id == id2);
                }
            }
            assert forall|id2: NodeId| #[trigger] nodes.loading().contains_key(id2)
                implies !nodes.inactive().contains_key(id2) && !nodes.active().contains_key(id2)
                by {
                assert(before_ins.loading().contains_key(id2));
                if id2 == id {
                    assert(old(nodes).active().contains_key(id));
                }
            }
            assert(nodes.wf());
            assert(ids@.take(i + 1).drop_last() =~= ids@.take(i as int));
            assert(ids@.take(i + 1).last() == ids@[i as int]);
            assert forall|id2: NodeId| ids@.take(i + 1).contains(id2) implies ids@.take(
                i as int,
            ).contains(id2) || id2 == id by {}
            assert forall|id2: NodeId| #[trigger] nodes.active().contains_key(id2) implies !atlas.free_seq().contains(
                nodes.active()[id2].atlas_index,
            ) by {
                assert(pre.active().contains_key(id2));
                assert(nodes.active()[id2] == pre.active()[id2]);
                assert(nodes.active()[id2].atlas_index != slot);
                assert(forall|a: int| 0 <= a < pre_atlas.free_seq().len()
                    ==> #[trigger] atlas.free_seq()[a] == pre_atlas.free_seq()[a]);
            }
        }
        i += 1;
    }
    proof {
        assert(ids@.take(n as int) =~= ids@);
    }
}

/// The join point with the asynchronous load pipeline: every loading
/// entry marked finished is consumed — removed together with its
/// remaining asset handles — and its node data joins the activation
/// queue. Unfinished entries stay for a later frame.
#[verifier::rlimit(60)]
fn sweep_finished(nodes: &mut Nodes, queue: &mut Vec<NodeData>)
    requires
        old(nodes).wf(),
    ensures
        final(nodes).wf(),
        final(nodes).active() == old(nodes).active(),
        final(nodes).inactive() == old(nodes).inactive(),
        final(nodes).pending() == old(nodes).pending(),
        final(nodes).assets_per_node == old(nodes).assets_per_node,
        forall|id: NodeId| #[trigger] final(nodes).loading().contains_key(id) <==> old(
            nodes,
        ).loading().contains_key(id) && !old(nodes).loading()[id].finished,
        forall|id: NodeId| #[trigger] final(nodes).loading().contains_key(id) ==> final(nodes).loading()[id] == old(nodes).loading()[id],
        forall|h: u64| #[trigger] final(nodes).handles().contains_key(h) <==> old(
            nodes,
        ).handles().contains_key(h) && !old(nodes).loading()[old(nodes).handles()[h]].finished,
        forall|h: u64| #[trigger] final(nodes).handles().contains_key(h) ==> final(nodes).handles()[h] == old(nodes).handles()[h],
        final(queue)@.len() >= old(queue)@.len(),
        forall|k: int| 0 <= k < old(queue)@.len() ==> #[trigger] final(queue)@[k] == old(queue)@[k],
        forall|k: int| old(queue)@.len() <= k < final(queue)@.len() ==> old(nodes).loading().contains_key((#[trigger] final(queue)@[k]).id) && old(nodes).loading()[final(queue)@[k].id].finished && final(queue)@[k] == old(nodes).loading()[final(queue)@[k].id].data,
        forall|id: NodeId| old(nodes).loading().contains_key(id) && old(nodes).loading()[id].finished ==> exists|k: int|
            old(queue)@.len() <= k < final(queue)@.len() && (#[trigger] final(queue)@[k]).id
                == id,
        forall|k: int, j: int| old(queue)@.len() <= k < j < final(queue)@.len() ==> (
        #[trigger] final(queue)@[k]).id != (#[trigger] final(queue)@[j]).id,
{
    let ghost n0 = *old(nodes);
    let ghost entries = nodes.loading_nodes.entry_seq();
    proof {
        nodes.loading_nodes.lemma_entries();
    }
    let m = nodes.loading_nodes.len();
    let mut fins: Vec<(NodeId, NodeData)> = Vec::new();
    let mut i: usize = 0;
    while i < m
        invariant
            m == entries.len(),
            i <= m,
            *nodes == n0,
            n0.wf(),
            entries == n0.loading_nodes.entry_seq(),
            forall|k: int| 0 <= k < fins@.len() ==> exists|t: int|
                0 <= t < i && #[trigger] entries[t] == (
                (#[trigger] fins@[k]).0,
                LoadingNode { data: fins@[k].1, finished: true },
                ),
            forall|t: int| 0 <= t < i && (#[trigger] entries[t]).1.finished ==> exists|k: int|
                0 <= k < fins@.len() && (#[trigger] fins@[k]).0 == entries[t].0,
            forall|k: int, j: int| 0 <= k < j < fins@.len() ==> (#[trigger] fins@[k]).0 != (
            #[trigger] fins@[j]).0,
        decreases m - i,
    {
        let e = nodes.loading_nodes.entry_at(i);
        let ghost pre_fins = fins@;
        if e.1.finished {
            proof {
                nodes.loading_nodes.lemma_entries();
                assert forall|k: int| 0 <= k < fins@.len() implies (#[trigger] fins@[k]).0
                    != e.0 by {
                    let t = choose|t: int|
                        0 <= t < i && #[trigger] entries[t] == (
                        fins@[k].0,
                        LoadingNode { data: fins@[k].1, finished: true },
                        );
                    assert(entries[t].0 != entries[i as int].0);
                }
            }
            fins.push((e.0, e.1.data));
        }
        proof {
            assert forall|t: int| 0 <= t < i + 1 && (#[trigger] entries[t]).1.finished
                implies exists|k: int|
                0 <= k < fins@.len() && (#[trigger] fins@[k]).0 == entries[t].0 by {
                if t < i {
                    let k = choose|k: int|
                        0 <= k < pre_fins.len() && (#[trigger] pre_fins[k]).0 == entries[t].0;
                    assert((fins@[k]).0 == entries[t].0);
                } else {
                    assert((fins@[fins@.len() - 1]).0 == entries[t].0);
                }
            }
        }
        i += 1;
    }
    proof {
        nodes.loading_nodes.lemma_entries();
        assert forall|k: int| 0 <= k < fins@.len() implies n0.loading().contains_key(
            (#[trigger] fins@[k]).0,
        ) && n0.loading()[fins@[k].0] == (LoadingNode { data: fins@[k].1, finished: true })
            by {
            let t = choose|t: int|
                0 <= t < m && #[trigger] entries[t] == (
                fins@[k].0,
                LoadingNode { data: fins@[k].1, finished: true },
                );
            assert(entries[t].0 == fins@[k].0);
        }
        assert forall|id: NodeId| n0.loading().contains_key(id) && n0.loading()[id].finished
            implies exists|k: int| 0 <= k < fins@.len() && (#[trigger] fins@[k]).0 == id by {
            let t = choose|t: int| 0 <= t < entries.len() && (#[trigger] entries[t]).0 == id;
            assert(entries[t].1 == n0.loading()[id]);
            assert(entries[t].1.finished);
        }
    }
    let ghost q0 = queue@;
    let fin_count = fins.len();
    let mut k: usize = 0;
    while k < fin_count
        invariant
            fin_count == fins@.len(),
            k <= fin_count,
            nodes.wf(),
            n0.wf(),
            forall|a: int| 0 <= a < fins@.len() ==> n0.loading().contains_key(
                (#[trigger] fins@[a]).0,
            ) && n0.loading()[fins@[a].0] == (LoadingNode { data: fins@[a].1, finished: true }),
            forall|a: int, b: int| 0 <= a < b < fins@.len() ==> (#[trigger] fins@[a]).0 != (
            #[trigger] fins@[b]).0,
            nodes.active() == n0.active(),
            nodes.inactive() == n0.inactive(),
            nodes.pending() == n0.pending(),
            nodes.assets_per_node == n0.assets_per_node,
            forall|id: NodeId| #[trigger] nodes.loading().contains_key(id)
                <==> n0.loading().contains_key(id) && !(exists|a: int|
                0 <= a < k && (#[trigger] fins@[a]).0 == id),
            forall|id: NodeId| #[trigger] nodes.loading().contains_key(id)
                ==> nodes.loading()[id] == n0.loading()[id],
            forall|h: u64| #[trigger] nodes.handles().contains_key(h)
                <==> n0.handles().contains_key(h) && !(exists|a: int|
                0 <= a < k && (#[trigger] fins@[a]).0 == n0.handles()[h]),
            forall|h: u64| #[trigger] nodes.handles().contains_key(h) ==> nodes.handles()[h]
                == n0.handles()[h],
            queue@.len() == q0.len() + k,
            forall|a: int| 0 <= a < q0.len() ==> #[trigger] queue@[a] == q0[a],
            forall|a: int| 0 <= a < k ==> #[trigger] queue@[q0.len() + a] == fins@[a].1,
        decreases fin_count - k,
    {
        let e = fins[k];
        proof {
            assert(n0.loading().contains_key(e.0));
            if exists|a: int| 0 <= a < k && (#[trigger] fins@[a]).0 == e.0 {
                let a = choose|a: int| 0 <= a < k && (#[trigger] fins@[a]).0 == e.0;
                assert((fins@[a]).0 != (fins@[k as int]).0);
                assert(false);
            }
        }
        let ghost pre = *nodes;
        proof {
            assert(nodes.loading().contains_key(e.0));
        }
        let _ = nodes.loading_nodes.remove_existing(e.0);
        nodes.handle_mapping.purge_value(e.0);
        queue.push(e.1);
        proof {
            assert forall|id2: NodeId| #[trigger] nodes.loading().contains_key(id2)
                <==> n0.loading().contains_key(id2) && !(exists|a: int|
                0 <= a < k + 1 && (#[trigger] fins@[a]).0 == id2) by {
                assert(nodes.loading() == pre.loading().remove(e.0));
                assert(pre.loading().contains_key(id2) <==> n0.loading().contains_key(id2) && !(
                exists|a: int| 0 <= a < k && (#[trigger] fins@[a]).0 == id2));
                if id2 == e.0 {
                    assert((fins@[k as int]).0 == id2);
                }
            }
            assert forall|id2: NodeId| #[trigger] nodes.loading().contains_key(id2)
                implies !nodes.pending_has(id2) && nodes.loading()[id2] == pre.loading()[id2]
                by {
                assert(pre.loading().contains_key(id2));
            }
            assert forall|h2: u64| #[trigger] nodes.handles().contains_key(h2)
                implies nodes.loading().contains_key(nodes.handles()[h2]) by {
                assert(pre.handles().contains_key(h2));
                assert(nodes.handles()[h2] == pre.handles()[h2]);
                assert(pre.handles()[h2] != e.0);
            }
            assert(nodes.wf());
            assert forall|h2: u64| #[trigger] nodes.handles().contains_key(h2)
                <==> n0.handles().contains_key(h2) && !(exists|a: int|
                0 <= a < k + 1 && (#[trigger] fins@[a]).0 == n0.handles()[h2]) by {
                if nodes.handles().contains_key(h2) {
                    assert(pre.handles().contains_key(h2));
                }
                if n0.handles().contains_key(h2) && !(exists|a: int|
                    0 <= a < k + 1 && (#[trigger] fins@[a]).0 == n0.handles()[h2]) {
                    assert(!(exists|a: int|
                        0 <= a < k && (#[trigger] fins@[a]).0 == n0.handles()[h2]));
                    assert(pre.handles().contains_key(h2));
                    assert(pre.handles()[h2] == n0.handles()[h2]);
                    assert(fins@[k as int].0 != n0.handles()[h2]);
                }
            }
            assert forall|h2: u64| #[trigger] nodes.handles().contains_key(h2)
                implies nodes.handles()[h2] == n0.handles()[h2] by {
                assert(pre.handles().contains_key(h2));
                assert(nodes.handles()[h2] == pre.handles()[h2]);
            }
        }
        k += 1;
    }
    proof {
        assert forall|id: NodeId| nodes.loading().contains_key(id) implies n0.loading().contains_key(
            id,
        ) && !n0.loading()[id].finished by {
            if n0.loading()[id].finished {
                let a = choose|a: int| 0 <= a < fins@.len() && (#[trigger] fins@[a]).0 == id;
                assert(false);
            }
        }
        assert forall|id: NodeId| n0.loading().contains_key(id) && !n0.loading()[id].finished
            implies nodes.loading().contains_key(id) by {
            if exists|a: int| 0 <= a < fins@.len() && (#[trigger] fins@[a]).0 == id {
                let a = choose|a: int| 0 <= a < fins@.len() && (#[trigger] fins@[a]).0 == id;
                assert(false);
            }
        }
        assert forall|h: u64| nodes.handles().contains_key(h) implies n0.handles().contains_key(
            h,
        ) && !n0.loading()[n0.handles()[h]].finished by {
            assert(n0.loading().contains_key(n0.handles()[h]));
            if n0.loading()[n0.handles()[h]].finished {
                let a = choose|a: int|
                    0 <= a < fins@.len() && (#[trigger] fins@[a]).0 == n0.handles()[h];
                assert(false);
            }
        }
        assert forall|h: u64| n0.handles().contains_key(h) && !n0.loading()[n0.handles()[h]].finished implies nodes.handles().contains_key(h) by {
            if exists|a: int| 0 <= a < fins@.len() && (#[trigger] fins@[a]).0 == n0.handles()[h] {
                let a = choose|a: int|
                    0 <= a < fins@.len() && (#[trigger] fins@[a]).0 == n0.handles()[h];
                assert(false);
            }
        }
        assert forall|a: int| q0.len() <= a < queue@.len() implies n0.loading().contains_key(
            (#[trigger] queue@[a]).id,
        ) && n0.loading()[queue@[a].id].finished && queue@[a] == n0.loading()[queue@[a].id].data
            by {
            let b = a - q0.len();
            assert(queue@[q0.len() + b] == fins@[b].1);
            assert(queue@[a] == fins@[b].1);
            assert(n0.loading()[fins@[b].0] == (LoadingNode { data: fins@[b].1, finished: true }));
            assert(n0.wf());
            assert(n0.loading()[fins@[b].0].data.id == fins@[b].0);
            assert(fins@[b].1.id == fins@[b].0);
        }
        assert forall|id: NodeId| n0.loading().contains_key(id) && n0.loading()[id].finished
            implies exists|k2: int|
            q0.len() <= k2 < queue@.len() && (#[trigger] queue@[k2]).id == id by {
            let a = choose|a: int| 0 <= a < fins@.len() && (#[trigger] fins@[a]).0 == id;
            assert(queue@[q0.len() + a] == fins@[a].1);
            assert(fins@[a].1.id == id);
        }
        assert forall|k2: int, j2: int| q0.len() <= k2 < j2 < queue@.len() implies (
        #[trigger] queue@[k2]).id != (#[trigger] queue@[j2]).id by {
            assert(queue@[q0.len() + (k2 - q0.len())] == fins@[k2 - q0.len()].1);
            assert(queue@[q0.len() + (j2 - q0.len())] == fins@[j2 - q0.len()].1);
            assert(queue@[k2] == fins@[k2 - q0.len()].1);
            assert(queue@[j2] == fins@[j2 - q0.len()].1);
            assert(fins@[k2 - q0.len()].1.id == fins@[k2 - q0.len()].0);
            assert(fins@[j2 - q0.len()].1.id == fins@[j2 - q0.len()].0);
        }
    }
}

/// Admission: queued nodes enter the atlas in queue order while free
/// slots remain; when the atlas runs full, the remainder is kept pending
/// and retried next frame rather than dropped or silently grown.
fn admit_queue(
    queue: Vec<NodeData>,
    activated: &mut Vec<NodeId>,
    nodes: &mut Nodes,
    atlas: &mut NodeAtlas,
    output: &mut QuadtreeUpdate,
)
    requires
        old(nodes).wf(),
        old(atlas).wf(),
        atlas_coupled(*old(nodes), *old(atlas)),
        old(activated)@.len() == 0,
        old(nodes).pending().len() == 0,
        forall|k: int, j: int| 0 <= k < j < queue@.len() ==> (#[trigger] queue@[k]).id != (
        #[trigger] queue@[j]).id,
        forall|k: int| 0 <= k < queue@.len() ==> !old(nodes).loading().contains_key(
            (#[trigger] queue@[k]).id,
        ) && !old(nodes).inactive().contains_key(queue@[k].id)
            && !old(nodes).active().contains_key(queue@[k].id),
        forall|k: int| 0 <= k < queue@.len() ==> (#[trigger] queue@[k]).atlas_index
            == INVALID_SLOT,
    ensures
        final(nodes).wf(),
        final(atlas).wf(),
        atlas_coupled(*final(nodes), *final(atlas)),
        final(atlas).capacity_spec() == old(atlas).capacity_spec(),
        final(nodes).loading() == old(nodes).loading(),
        final(nodes).handles() == old(nodes).handles(),
        final(nodes).inactive() == old(nodes).inactive(),
        final(nodes).assets_per_node == old(nodes).assets_per_node,
        final(activated)@.len() == min2(
            old(atlas).free_seq().len() as int,
            queue@.len() as int,
        ),
        forall|k: int| 0 <= k < final(activated)@.len() ==> #[trigger] final(activated)@[k]
            == queue@[k].id,
        final(nodes).pending().len() == queue@.len() - final(activated)@.len(),
        forall|k: int| 0 <= k < final(nodes).pending().len() ==> #[trigger] final(nodes).pending()[k] == queue@[final(activated)@.len() + k],
        forall|id: NodeId| #[trigger] final(nodes).active().contains_key(id) <==> old(
            nodes,
        ).active().contains_key(id) || final(activated)@.contains(id),
        forall|id: NodeId| old(nodes).active().contains_key(id) ==> #[trigger] final(nodes).active()[id] == old(nodes).active()[id],
        forall|k: int| 0 <= k < final(activated)@.len() ==> final(nodes).active().contains_key(
            (#[trigger] queue@[k]).id,
        ) && final(nodes).active()[queue@[k].id] == (NodeData {
            id: queue@[k].id,
            atlas_index: old(atlas).free_seq()[old(atlas).free_seq().len() - 1 - k],
        }),
        final(atlas).free_seq() == old(atlas).free_seq().take(
            old(atlas).free_seq().len() - final(activated)@.len(),
        ),
        final(output).view().len() == old(output).view().len() + final(activated)@.len(),
        forall|a: int| 0 <= a < old(output).view().len() ==> #[trigger] final(output).view()[a]
            == old(output).view()[a],
        forall|k: int| 0 <= k < final(activated)@.len() ==> #[trigger] final(output).view()[old(output).view().len() + k] == (SlotCommand::Fill {
            slot: old(atlas).free_seq()[old(atlas).free_seq().len() - 1 - k],
            id: queue@[k].id,
        }),
        final(atlas).free_seq().len() > 0 ==> final(nodes).pending().len() == 0,
{
    let n = queue.len();
    let ghost f0 = old(atlas).free_seq().len() as int;
    let mut k: usize = 0;
    while k < n
        invariant
            n == queue@.len(),
            k <= n,
            nodes.wf(),
            atlas.wf(),
            atlas_coupled(*nodes, *atlas),
            atlas.capacity_spec() == old(atlas).capacity_spec(),
            f0 == old(atlas).free_seq().len(),
            forall|a: int, j: int| 0 <= a < j < queue@.len() ==> (#[trigger] queue@[a]).id != (
            #[trigger] queue@[j]).id,
            forall|a: int| 0 <= a < queue@.len() ==> !old(nodes).loading().contains_key(
                (#[trigger] queue@[a]).id,
            ) && !old(nodes).inactive().contains_key(queue@[a].id)
                && !old(nodes).active().contains_key(queue@[a].id),
            forall|a: int| 0 <= a < queue@.len() ==> (#[trigger] queue@[a]).atlas_index
                == INVALID_SLOT,
            nodes.loading() == old(nodes).loading(),
            nodes.handles() == old(nodes).handles(),
            nodes.inactive() == old(nodes).inactive(),
            nodes.assets_per_node == old(nodes).assets_per_node,
            activated@.len() == min2(f0, k as int),
            forall|a: int| 0 <= a < activated@.len() ==> #[trigger] activated@[a]
                == queue@[a].id,
            nodes.pending().len() == k - activated@.len(),
            forall|a: int| 0 <= a < nodes.pending().len() ==> #[trigger] nodes.pending()[a]
                == queue@[activated@.len() + a],
            forall|id: NodeId| #[trigger] nodes.active().contains_key(id) <==> old(nodes).active().contains_key(id) || activated@.contains(id),
            forall|id: NodeId| old(nodes).active().contains_key(id) ==> #[trigger] nodes.active()[id]
                == old(nodes).active()[id],
            forall|a: int| 0 <= a < activated@.len() ==> nodes.active().contains_key(
                (#[trigger] queue@[a]).id,
            ) && nodes.active()[queue@[a].id] == (NodeData {
                id: queue@[a].id,
                atlas_index: old(atlas).free_seq()[f0 - 1 - a],
            }),
            atlas.free_seq() == old(atlas).free_seq().take(f0 - activated@.len()),
            output.view().len() == old(output).view().len() + activated@.len(),
            forall|a: int| 0 <= a < old(output).view().len() ==> #[trigger] output.view()[a]
                == old(output).view()[a],
            forall|a: int| 0 <= a < activated@.len() ==> #[trigger] output.view()[old(output).view().len() + a] == (SlotCommand::Fill {
                slot: old(atlas).free_seq()[f0 - 1 - a],
                id: queue@[a].id,
            }),
            atlas.free_seq().len() > 0 ==> nodes.pending().len() == 0,
        decreases n - k,
    {
        let mut nd = queue[k];
        let ghost pre = *nodes;
        let ghost pre_atlas = *atlas;
        match atlas.allocate() {
            Some(slot) => {
                proof {
                    assert(pre_atlas.free_seq().len() == f0 - activated@.len());
                    assert(activated@.len() == k);
                    assert(pre_atlas.free_seq().last() == old(atlas).free_seq()[f0 - 1
                        - k as int]);
                    nodes.active_nodes.lemma_entries();
                    assert(nd == queue@[k as int]);
                    assert(!old(nodes).active().contains_key(nd.id));
                    if activated@.contains(nd.id) {
                        let a = choose|a: int|
                            0 <= a < activated@.len() && activated@[a] == nd.id;
                        assert((queue@[a]).id == (queue@[k as int]).id);
                        assert(false);
                    }
                    assert(!pre.active().contains_key(nd.id));
                }
                nd.atlas_index = slot;
                output.0.push(SlotCommand::Fill { slot, id: nd.id });
                let ghost act_pre = activated@;
                activated.push(nd.id);
                nodes.active_nodes.insert(nd.id, nd);
                proof {
                    assert(nodes.active().dom() =~= pre.active().dom().insert(nd.id));
                    assert(nodes.active().dom().len() == pre.active().dom().len() + 1);
                    assert(atlas.free_seq() =~= old(atlas).free_seq().take(
                        f0 - activated@.len(),
                    ));
                    assert forall|id2: NodeId| #[trigger] nodes.active().contains_key(id2)
                        implies nodes.active()[id2].atlas_index < atlas.capacity_spec()
                        && !atlas.free_seq().contains(nodes.active()[id2].atlas_index) by {
                        if id2 == nd.id {
                            assert(!atlas.free_seq().contains(slot));
                        } else {
                            assert(pre.active().contains_key(id2));
                            if atlas.free_seq().contains(pre.active()[id2].atlas_index) {
                                let a = choose|a: int|
                                    0 <= a < atlas.free_seq().len() && atlas.free_seq()[a]
                                        == pre.active()[id2].atlas_index;
                                assert(pre_atlas.free_seq()[a] == pre.active()[id2].atlas_index);
                            }
                        }
                    }
                    assert forall|id2: NodeId| #[trigger] nodes.active().contains_key(id2)
                        <==> old(nodes).active().contains_key(id2) || activated@.contains(id2)
                        by {
                        crate::quadtree::lemma_push_contains(act_pre, nd.id, id2);
                        assert(activated@ == act_pre.push(nd.id));
                        if id2 != nd.id {
                            assert(pre.active().contains_key(id2) <==> old(
                                nodes,
                            ).active().contains_key(id2) || act_pre.contains(id2));
                        }
                    }
                    assert forall|id2: NodeId| #[trigger] nodes.active().contains_key(id2)
                        implies nodes.active()[id2].id == id2 && !nodes.pending_has(id2) by {
                        if id2 != nd.id {
                            assert(pre.active().contains_key(id2));
                            assert(nodes.active()[id2] == pre.active()[id2]);
                        }
                        if nodes.pending_has(id2) {
                            let a = choose|a: int|
                                0 <= a < nodes.pending().len() && (
                                #[trigger] nodes.pending()[a]).id == id2;
                            assert(nodes.pending()[a] == queue@[act_pre.len() + a]);
                            assert((queue@[act_pre.len() + a]).id == id2);
                            if id2 == nd.id {
                                assert((queue@[k as int]).id == id2);
                                assert(act_pre.len() + a < k);
                                assert(false);
                            } else {
                                assert(pre.pending_has(id2));
                            }
                        }
                    }
                    assert forall|id2: NodeId| #[trigger] nodes.loading().contains_key(id2)
                        implies !nodes.active().contains_key(id2) by {
                        if id2 == nd.id {
                            assert(!old(nodes).loading().contains_key((queue@[k as int]).id));
                        }
                    }
                    assert forall|id2: NodeId| #[trigger] nodes.inactive().contains_key(id2)
                        implies !nodes.active().contains_key(id2) by {
                        if id2 == nd.id {
                            assert(!old(nodes).inactive().contains_key((queue@[k as int]).id));
                        }
                    }
                    assert(nodes.wf());
                }
            },
            None => {
                proof {
                    assert(activated@.len() == f0);
                    assert(min2(f0, k as int) == f0);
                    assert(min2(f0, k + 1) == f0);
                    assert(nd == queue@[k as int]);
                    assert(!old(nodes).active().contains_key(nd.id));
                    if activated@.contains(nd.id) {
                        let a = choose|a: int|
                            0 <= a < activated@.len() && activated@[a] == nd.id;
                        assert((queue@[a]).id == (queue@[k as int]).id);
                        assert(false);
                    }
                    assert(!nodes.active().contains_key(nd.id));
                    if nodes.pending_has(nd.id) {
                        let a = choose|a: int|
                            0 <= a < nodes.pending().len() && (#[trigger] nodes.pending()[a]).id
                                == nd.id;
                        assert(nodes.pending()[a] == queue@[activated@.len() + a]);
                        assert((queue@[activated@.len() + a]).id == (queue@[k as int]).id);
                        assert(false);
                    }
                }
                let ghost pre2 = *nodes;
                nodes.pending_nodes.push(nd);
                proof {
                    assert forall|id2: NodeId| #[trigger] nodes.pending_has(id2)
                        implies pre2.pending_has(id2) || id2 == nd.id by {
                        let a = choose|a: int|
                            0 <= a < nodes.pending().len() && (#[trigger] nodes.pending()[a]).id
                                == id2;
                        if a < pre2.pending().len() {
                            assert((pre2.pending()[a]).id == id2);
                        }
                    }
                    assert forall|id2: NodeId| #[trigger] nodes.loading().contains_key(id2)
                        implies !nodes.pending_has(id2) by {
                        if id2 == nd.id {
                            assert(!old(nodes).loading().contains_key((queue@[k as int]).id));
                        }
                    }
                    assert forall|id2: NodeId| #[trigger] nodes.inactive().contains_key(id2)
                        implies !nodes.pending_has(id2) by {
                        if id2 == nd.id {
                            assert(!old(nodes).inactive().contains_key((queue@[k as int]).id));
                        }
                    }
                    assert forall|id2: NodeId| #[trigger] nodes.active().contains_key(id2)
                        implies !nodes.pending_has(id2) by {}
                    assert forall|a: int, b: int| 0 <= a < b < nodes.pending().len() implies (
                    #[trigger] nodes.pending()[a]).id != (#[trigger] nodes.pending()[b]).id by {
                        assert(nodes.pending()[a] == queue@[activated@.len() + a]);
                        assert(nodes.pending()[b] == queue@[activated@.len() + b]);
                    }
                    assert(nodes.wf());
                }
            },
        }
        k += 1;
    }
}

/// Traverses the quadtree once per viewer. Each viewer's activation and
/// deactivation deltas against the previous frame accumulate onto the
/// same tree update: a node required by any viewer is requested once.
pub fn traverse_quadtree(
    quadtree: &mut Quadtree,
    tree_update: &mut TreeUpdate,
    viewers: &Vec<Viewer>,
)
    requires
        old(quadtree).wf(),
        old(tree_update).wf(),
        forall|id: NodeId| old(tree_update).to_activate().contains(id) ==> !old(quadtree).previous_has(id),
        forall|id: NodeId| old(tree_update).to_deactivate().contains(id) ==> old(quadtree).previous_has(id),
    ensures
        final(quadtree).wf(),
        final(tree_update).wf(),
        final(quadtree).depth == old(quadtree).depth,
        final(quadtree).node_size == old(quadtree).node_size,
        final(quadtree).previous == old(quadtree).previous,
        final(tree_update).activated() == old(tree_update).activated(),
        forall|id: NodeId|
            #![trigger final(tree_update).to_activate().contains(id)]
            final(tree_update).to_activate().contains(id) <==> old(tree_update).to_activate().contains(id) || (!old(quadtree).previous_has(id) && exists|k: int|
                0 <= k < viewers@.len() && old(quadtree).selected(#[trigger] viewers@[k], id)),
        final(tree_update).to_deactivate() == old(tree_update).to_deactivate(),
        forall|id: NodeId|
            #![trigger final(quadtree).frame_has(id)]
            final(quadtree).frame_has(id) <==> old(quadtree).frame_has(id) || exists|k: int|
                0 <= k < viewers@.len() && old(quadtree).selected(#[trigger] viewers@[k], id),
        forall|id: NodeId| final(tree_update).to_activate().contains(id) ==> !final(quadtree).previous_has(id),
        forall|id: NodeId| final(tree_update).to_deactivate().contains(id) ==> final(quadtree).previous_has(id),
{
    let ghost q0 = *old(quadtree);
    let ghost tu0 = *old(tree_update);
    let n = viewers.len();
    let mut k: usize = 0;
    while k < n
        invariant
            n == viewers@.len(),
            k <= n,
            quadtree.wf(),
            tree_update.wf(),
            quadtree.depth == q0.depth,
            quadtree.node_size == q0.node_size,
            quadtree.previous == q0.previous,
            tree_update.activated() == tu0.activated(),
            forall|id: NodeId|
                #![trigger tree_update.to_activate().contains(id)]
                tree_update.to_activate().contains(id) <==> tu0.to_activate().contains(id) || (
                !q0.previous_has(id) && exists|j: int|
                    0 <= j < k && q0.selected(#[trigger] viewers@[j], id)),
            tree_update.to_deactivate() == tu0.to_deactivate(),
            forall|id: NodeId|
                #![trigger quadtree.frame_has(id)]
                quadtree.frame_has(id) <==> q0.frame_has(id) || exists|j: int|
                    0 <= j < k && q0.selected(#[trigger] viewers@[j], id),
            forall|id: NodeId| tree_update.to_activate().contains(id) ==> !q0.previous_has(id),
            forall|id: NodeId| tree_update.to_deactivate().contains(id) ==> q0.previous_has(id),
        decreases n - k,
    {
        let viewer = viewers[k];
        let ghost q_pre = *quadtree;
        let ghost tu_pre = *tree_update;
        proof {
            assert forall|id: NodeId| tree_update.to_activate().contains(id)
                implies !quadtree.previous_has(id) by {
                assert(quadtree.previous == q0.previous);
                assert(quadtree.previous_has(id) == q0.previous_has(id));
            }
            assert forall|id: NodeId| tree_update.to_deactivate().contains(id)
                implies quadtree.previous_has(id) by {
                assert(quadtree.previous == q0.previous);
                assert(quadtree.previous_has(id) == q0.previous_has(id));
            }
        }
        quadtree.traverse(tree_update, viewer);
        proof {
            assert forall|id: NodeId| q_pre.selected(viewer, id) == q0.selected(
                #[trigger] viewers@[k as int],
                id,
            ) by {}
            assert forall|id: NodeId| #[trigger] q_pre.previous_has(id) == q0.previous_has(id)
                by {
                assert(q_pre.previous == q0.previous);
            }
            assert forall|id: NodeId|
                #![trigger tree_update.to_activate().contains(id)]
                tree_update.to_activate().contains(id) <==> tu0.to_activate().contains(id) || (
                !q0.previous_has(id) && exists|j: int|
                    0 <= j < k + 1 && q0.selected(#[trigger] viewers@[j], id)) by {
                assert(tu_pre.to_activate().contains(id) <==> tu0.to_activate().contains(id) || (
                !q0.previous_has(id) && exists|j: int|
                    0 <= j < k && q0.selected(#[trigger] viewers@[j], id)));
                assert(q_pre.selected(viewer, id) == q0.selected(viewers@[k as int], id));
                assert(q_pre.previous_has(id) == q0.previous_has(id));
                if tu_pre.to_activate().contains(id) && !tu0.to_activate().contains(id) {
                    let j = choose|j: int| 0 <= j < k && q0.selected(#[trigger] viewers@[j], id);
                    assert(0 <= j < k + 1 && q0.selected(viewers@[j], id));
                }
                if !q0.previous_has(id) && exists|j: int|
                    0 <= j < k + 1 && q0.selected(#[trigger] viewers@[j], id) {
                    let j = choose|j: int|
                        0 <= j < k + 1 && q0.selected(#[trigger] viewers@[j], id);
                    if j < k {
                        assert(tu_pre.to_activate().contains(id));
                    } else {
                        assert(q_pre.selected(viewer, id));
                    }
                }
            }
            assert forall|id: NodeId|
                #![trigger quadtree.frame_has(id)]
                quadtree.frame_has(id) <==> q0.frame_has(id) || exists|j: int|
                    0 <= j < k + 1 && q0.selected(#[trigger] viewers@[j], id) by {
                assert(q_pre.frame_has(id) <==> q0.frame_has(id) || exists|j: int|
                    0 <= j < k && q0.selected(#[trigger] viewers@[j], id));
                assert(q_pre.selected(viewer, id) == q0.selected(viewers@[k as int], id));
                if q_pre.frame_has(id) && !q0.frame_has(id) {
                    let j = choose|j: int| 0 <= j < k && q0.selected(#[trigger] viewers@[j], id);
                    assert(0 <= j < k + 1 && q0.selected(viewers@[j], id));
                }
                if exists|j: int| 0 <= j < k + 1 && q0.selected(#[trigger] viewers@[j], id) {
                    let j = choose|j: int|
                        0 <= j < k + 1 && q0.selected(#[trigger] viewers@[j], id);
                    if j < k {
                        assert(q_pre.frame_has(id));
                    } else {
                        assert(q_pre.selected(viewer, id));
                    }
                }
            }
        }
        k += 1;
    }
    proof {
        assert forall|id: NodeId| tree_update.to_activate().contains(id)
            implies !quadtree.previous_has(id) by {
            assert(quadtree.previous == q0.previous);
            assert(quadtree.previous_has(id) == q0.previous_has(id));
        }
        assert forall|id: NodeId| tree_update.to_deactivate().contains(id)
            implies quadtree.previous_has(id) by {
            assert(tu0.to_deactivate().contains(id));
            assert(q0.previous_has(id));
            assert(quadtree.previous == q0.previous);
            assert(quadtree.previous_has(id) == q0.previous_has(id));
        }
    }
}

/// Whether lifecycle resolution with activation list `a` queues `id` for
/// admission: it waited as pending, or was requested and sat in the
/// inactive cache, or its load had finished and it was not requested
/// anew.
pub open spec fn queued_for_activation(n: Nodes, a: Seq<NodeId>, id: NodeId) -> bool {
    ||| n.pending_has(id)
    ||| (a.contains(id) && n.inactive().contains_key(id))
    ||| (n.loading().contains_key(id) && n.loading()[id].finished && !a.contains(id))
}

/// Resolves one terrain's lifecycle for one frame, in fixed order: stale
/// output is cleared; requested ids are served from the inactive cache or
/// sent to load; finished loads join the activation queue; deactivated
/// nodes free their slots into the inactive cache; queued nodes are then
/// admitted while free slots remain, the rest staying pending. Returns
/// the loads the caller must start.
pub fn update_nodes(
    tree_update: &mut TreeUpdate,
    nodes: &mut Nodes,
    node_atlas: &mut NodeAtlas,
    output: &mut QuadtreeUpdate,
    allocator: &mut HandleAllocator,
) -> (requests: Vec<LoadRequest>)
    requires
        old(tree_update).wf(),
        old(nodes).wf(),
        old(node_atlas).wf(),
        atlas_coupled(*old(nodes), *old(node_atlas)),
        old(nodes).handles_below(old(allocator).next as int),
        old(allocator).next + old(nodes).assets_per_node * old(tree_update).to_activate().len() <= u64::MAX,
        forall|id: NodeId| old(tree_update).to_activate().contains(id) ==> !old(nodes).active().contains_key(id) && !old(nodes).pending_has(id),
        forall|id: NodeId| old(tree_update).to_deactivate().contains(id) ==> old(nodes).active().contains_key(id),
    ensures
        final(tree_update).wf(),
        final(nodes).wf(),
        final(node_atlas).wf(),
        atlas_coupled(*final(nodes), *final(node_atlas)),
        final(node_atlas).capacity_spec() == old(node_atlas).capacity_spec(),
        final(tree_update).to_activate().len() == 0,
        final(tree_update).to_deactivate().len() == 0,
        final(nodes).assets_per_node == old(nodes).assets_per_node,
        final(nodes).active().dom().len() <= final(node_atlas).capacity_spec(),
        // loading: fresh misses join, finished loads leave, the rest stays
        forall|id: NodeId| final(nodes).loading().contains_key(id) <==> (old(tree_update).to_activate().contains(id) && !old(nodes).inactive().contains_key(id)) || (old(nodes).loading().contains_key(id) && !old(nodes).loading()[id].finished && !old(tree_update).to_activate().contains(id)),
        forall|id: NodeId| old(tree_update).to_activate().contains(id) && !old(nodes).inactive().contains_key(id) ==> #[trigger] final(nodes).loading()[id]
            == fresh_loading(id),
        forall|id: NodeId| old(nodes).loading().contains_key(id) && !old(nodes).loading()[id].finished && !old(tree_update).to_activate().contains(id)
            ==> #[trigger] final(nodes).loading()[id] == old(nodes).loading()[id],
        // inactive: cache hits leave, deactivated nodes join slotless
        forall|id: NodeId| final(nodes).inactive().contains_key(id) <==> (old(nodes).inactive().contains_key(id) && !old(tree_update).to_activate().contains(id)) || old(tree_update).to_deactivate().contains(id),
        forall|id: NodeId| old(nodes).inactive().contains_key(id) && !old(tree_update).to_activate().contains(id) ==> #[trigger] final(nodes).inactive()[id] == old(nodes).inactive()[id],
        forall|id: NodeId| old(tree_update).to_deactivate().contains(id) ==> #[trigger] final(nodes).inactive()[id] == (NodeData { id, atlas_index: INVALID_SLOT }),
        // handles: routes of consumed loads go away, fresh loads get routes
        forall|h: u64| final(nodes).handles().contains_key(h) <==> (old(nodes).handles().contains_key(h) && !(old(nodes).loading()[old(nodes).handles()[h]].finished && !old(tree_update).to_activate().contains(
            old(nodes).handles()[h],
        ))) || (old(allocator).next <= h < final(allocator).next),
        forall|h: u64| old(nodes).handles().contains_key(h) && final(nodes).handles().contains_key(h) ==> #[trigger] final(nodes).handles()[h] == old(nodes).handles()[h],
        final(allocator).next == old(allocator).next + old(nodes).assets_per_node * miss_seq(
            *old(nodes),
            old(tree_update).to_activate(),
        ).len(),
        final(nodes).handles_below(final(allocator).next as int),
        // the load requests: one per miss, in request order
        requests@.len() == miss_seq(*old(nodes), old(tree_update).to_activate()).len(),
        forall|k: int| 0 <= k < requests@.len() ==> (#[trigger] requests@[k]).id == miss_seq(
            *old(nodes),
            old(tree_update).to_activate(),
        )[k],
        forall|k: int| 0 <= k < requests@.len() ==> (#[trigger] requests@[k]).handles@.len()
            == old(nodes).assets_per_node,
        forall|k: int, j: int| 0 <= k < requests@.len() && 0 <= j < old(nodes).assets_per_node
            ==> #[trigger] requests@[k].handles@[j] == old(allocator).next + k * old(nodes).assets_per_node + j,
        forall|k: int, j: int| 0 <= k < requests@.len() && 0 <= j < old(nodes).assets_per_node
            ==> final(nodes).handles().contains_key(#[trigger] requests@[k].handles@[j])
            && final(nodes).handles()[requests@[k].handles@[j]] == requests@[k].id,
        // activation: queued nodes are admitted or kept pending, nothing lost
        forall|id: NodeId| final(tree_update).activated().contains(id) <==> queued_for_activation(
            *old(nodes),
            old(tree_update).to_activate(),
            id,
        ) && !final(nodes).pending_has(id),
        forall|id: NodeId| final(nodes).pending_has(id) ==> queued_for_activation(
            *old(nodes),
            old(tree_update).to_activate(),
            id,
        ),
        forall|id: NodeId| final(nodes).active().contains_key(id) <==> (old(nodes).active().contains_key(id) && !old(tree_update).to_deactivate().contains(id)) || final(tree_update).activated().contains(id),
        forall|id: NodeId| old(nodes).active().contains_key(id) && !old(tree_update).to_deactivate().contains(id) ==> #[trigger] final(nodes).active()[id] == old(nodes).active()[id],
        // the atlas defers only when full
        final(node_atlas).free_seq().len() > 0 ==> final(nodes).pending().len() == 0,
        // cache reuse: a requested id with a cache entry is reactivated
        // without a reload
        forall|id: NodeId| old(tree_update).to_activate().contains(id) && old(nodes).inactive().contains_key(id) ==> !final(nodes).loading().contains_key(id) && (final(nodes).active().contains_key(id) || final(nodes).pending_has(id)),
        // load then activate: a fresh request starts loading, unfinished,
        // and is not admitted this frame
        forall|id: NodeId| old(tree_update).to_activate().contains(id) && !old(nodes).inactive().contains_key(id) ==> final(nodes).loading().contains_key(id) && !final(nodes).loading()[id].finished && !final(nodes).active().contains_key(id),
        // output commands: one free per deactivation, then one fill per
        // admission, appended in order
        final(output).view().len() == old(output).view().len() + old(tree_update).to_deactivate().len() + final(tree_update).activated().len(),
        forall|a: int| 0 <= a < old(output).view().len() ==> #[trigger] final(output).view()[a]
            == old(output).view()[a],
        forall|k: int| 0 <= k < old(tree_update).to_deactivate().len() ==> #[trigger] final(output).view()[old(output).view().len() + k] == (SlotCommand::Free {
            slot: old(nodes).active()[old(tree_update).to_deactivate()[k]].atlas_index,
        }),
        forall|k: int| 0 <= k < final(tree_update).activated().len() ==> #[trigger] final(output).view()[old(output).view().len() + old(tree_update).to_deactivate().len() + k] == (
        SlotCommand::Fill {
            slot: final(nodes).active()[final(tree_update).activated()[k]].atlas_index,
            id: final(tree_update).activated()[k],
        }),
{
    let ghost n0 = *old(nodes);
    let ghost a_seq = old(tree_update).to_activate();
    let ghost d_seq = old(tree_update).to_deactivate();

    // step one: clear the output of the previous frame
    tree_update.activated_nodes.clear();

    // the pending nodes of the previous frame head the activation queue
    let mut queue: Vec<NodeData> = Vec::new();
    let pn = nodes.pending_nodes.len();
    let mut pi: usize = 0;
    while pi < pn
        invariant
            *nodes == n0,
            pn == n0.pending().len(),
            pi <= pn,
            queue@ == n0.pending().take(pi as int),
        decreases pn - pi,
    {
        let nd = nodes.pending_nodes[pi];
        queue.push(nd);
        proof {
            assert(n0.pending().take(pi + 1) =~= n0.pending().take(pi as int).push(
                n0.pending()[pi as int],
            ));
        }
        pi += 1;
    }
    proof {
        assert(n0.pending().take(pn as int) =~= n0.pending());
    }
    nodes.pending_nodes.clear();
    proof {
        assert forall|id2: NodeId| #[trigger] nodes.loading().contains_key(id2)
            implies nodes.loading()[id2].data.id == id2 && nodes.loading()[id2].data.atlas_index
            == INVALID_SLOT && !nodes.inactive().contains_key(id2)
            && !nodes.active().contains_key(id2) && !nodes.pending_has(id2) by {
            assert(n0.loading().contains_key(id2));
            assert(nodes.loading()[id2] == n0.loading()[id2]);
        }
        assert forall|id2: NodeId| #[trigger] nodes.inactive().contains_key(id2)
            implies nodes.inactive()[id2].id == id2 && nodes.inactive()[id2].atlas_index
            == INVALID_SLOT && !nodes.active().contains_key(id2) && !nodes.pending_has(id2) by {
            assert(n0.inactive().contains_key(id2));
            assert(nodes.inactive()[id2] == n0.inactive()[id2]);
        }
        assert forall|id2: NodeId| #[trigger] nodes.active().contains_key(id2)
            implies nodes.active()[id2].id == id2 && !nodes.pending_has(id2) by {
            assert(n0.active().contains_key(id2));
            assert(nodes.active()[id2] == n0.active()[id2]);
        }
        assert forall|h: u64| #[trigger] nodes.handles().contains_key(h)
            implies nodes.loading().contains_key(nodes.handles()[h]) by {
            assert(n0.handles().contains_key(h));
            assert(nodes.handles()[h] == n0.handles()[h]);
        }
        assert(nodes.wf());
        assert forall|h: u64| #[trigger] nodes.handles().contains_key(h)
            implies h < allocator.next by {
            assert(n0.handles().contains_key(h));
        }
        assert forall|k: int| 0 <= k < queue@.len() implies !nodes.inactive().contains_key(
            (#[trigger] queue@[k]).id,
        ) && !nodes.loading().contains_key(queue@[k].id) && !a_seq.contains(queue@[k].id) by {
            assert(queue@[k] == n0.pending()[k]);
            assert((n0.pending()[k]).id == queue@[k].id);
            assert(n0.pending_has(queue@[k].id));
            if nodes.inactive().contains_key(queue@[k].id) {
                assert(n0.inactive().contains_key(queue@[k].id));
                assert(!n0.pending_has(queue@[k].id));
            }
            if nodes.loading().contains_key(queue@[k].id) {
                assert(n0.loading().contains_key(queue@[k].id));
                assert(!n0.pending_has(queue@[k].id));
            }
            if a_seq.contains(queue@[k].id) {
                assert(!n0.pending_has(queue@[k].id));
            }
        }
    }

    // step two: serve requests from the cache or start loads
    let requests = load_or_reuse(&tree_update.nodes_to_activate, nodes, allocator, &mut queue);
    let ghost n1 = *nodes;
    let ghost q1 = queue@;

    // step three: finished loads join the activation queue
    sweep_finished(nodes, &mut queue);
    let ghost n2 = *nodes;
    let ghost q2 = queue@;

    proof {
        // translate the sweep against the state the load step produced
        assert forall|id: NodeId| nodes.loading().contains_key(id) <==> (a_seq.contains(id)
            && !n0.inactive().contains_key(id)) || (n0.loading().contains_key(id)
            && !n0.loading()[id].finished && !a_seq.contains(id)) by {
            if nodes.loading().contains_key(id) {
                assert(n1.loading().contains_key(id) && !n1.loading()[id].finished);
            }
            if a_seq.contains(id) && !n0.inactive().contains_key(id) {
                assert(n1.loading()[id] == fresh_loading(id));
            }
            if n0.loading().contains_key(id) && !n0.loading()[id].finished && !a_seq.contains(
                id,
            ) {
                assert(n1.loading().contains_key(id));
                assert(n1.loading()[id] == n0.loading()[id]);
            }
        }
        assert(nodes.active() == n0.active());
        assert(nodes.inactive() == n1.inactive());
        assert(atlas_coupled(*nodes, *node_atlas)) by {
            assert(nodes.active().dom() =~= n0.active().dom());
        }
    }

    proof {
        assert forall|kk: int| 0 <= kk < tree_update.nodes_to_deactivate@.len()
            implies nodes.active().contains_key(
            #[trigger] tree_update.nodes_to_deactivate@[kk],
        ) by {
            assert(d_seq.contains(d_seq[kk]));
            assert(n0.active().contains_key(d_seq[kk]));
        }
    }

    // step four: nodes no longer required leave the atlas
    apply_deactivations(&tree_update.nodes_to_deactivate, nodes, node_atlas, output);
    let ghost n3 = *nodes;

    proof {
        assert forall|k: int, j: int| 0 <= k < j < q2.len() implies (#[trigger] q2[k]).id != (
        #[trigger] q2[j]).id by {
            if k < q1.len() && q1.len() <= j {
                if k < n0.pending().len() {
                    assert(q2[k] == q1[k]);
                    assert(q2[k] == n0.pending()[k]);
                    assert((n0.pending()[k]).id == q2[k].id);
                    assert(n0.pending_has(q2[k].id));
                    assert(n1.loading().contains_key(q2[j].id));
                } else {
                    assert(n0.inactive().contains_key(q2[k].id));
                    assert(n1.loading().contains_key(q2[j].id));
                    if a_seq.contains(q2[j].id) && !n0.inactive().contains_key(q2[j].id) {
                    } else {
                        assert(n0.loading().contains_key(q2[j].id));
                    }
                }
            }
            if k < n0.pending().len() && n0.pending().len() <= j < q1.len() {
                assert(n0.pending_has(q2[k].id));
                assert(n0.inactive().contains_key(q2[j].id));
            }
        }
        assert forall|k: int| 0 <= k < q2.len() implies !nodes.loading().contains_key(
            (#[trigger] q2[k]).id,
        ) && !nodes.inactive().contains_key(q2[k].id) && !nodes.active().contains_key(
            q2[k].id,
        ) && q2[k].atlas_index == INVALID_SLOT by {
            let id = q2[k].id;
            if k < n0.pending().len() {
                assert(q2[k] == n0.pending()[k]);
                assert(n0.pending_has(id));
                assert(!n0.active().contains_key(id));
                assert(!n0.inactive().contains_key(id));
                assert(!n0.loading().contains_key(id));
                assert(!a_seq.contains(id));
                assert(!nodes.loading().contains_key(id));
                if d_seq.contains(id) {
                    assert(n0.active().contains_key(id));
                }
            } else if k < q1.len() {
                assert(a_seq.contains(id) && n0.inactive().contains_key(id));
                assert(!n0.active().contains_key(id));
                assert(!n0.loading().contains_key(id));
                assert(!nodes.loading().contains_key(id));
                assert(!n1.inactive().contains_key(id));
                if d_seq.contains(id) {
                    assert(n0.active().contains_key(id));
                }
            } else {
                assert(n1.loading().contains_key(id) && n1.loading()[id].finished);
                assert(n0.loading().contains_key(id)) by {
                    if a_seq.contains(id) && !n0.inactive().contains_key(id) {
                        assert(n1.loading()[id] == fresh_loading(id));
                    }
                    if a_seq.contains(id) && n0.inactive().contains_key(id) {
                        assert(!n1.loading().contains_key(id));
                    }
                }
                assert(!n0.active().contains_key(id));
                assert(!n0.inactive().contains_key(id));
                assert(!n2.loading().contains_key(id));
                assert(!n1.inactive().contains_key(id));
                if d_seq.contains(id) {
                    assert(n0.active().contains_key(id));
                }
            }
        }
    }

    // step five: admit queued nodes while the atlas has room
    admit_queue(queue, &mut tree_update.activated_nodes, nodes, node_atlas, output);

    // the request lists are consumed
    tree_update.nodes_to_activate.clear();
    tree_update.nodes_to_deactivate.clear();

    proof {
        let acts = tree_update.activated();
        assert forall|id: NodeId| #[trigger] nodes.inactive().contains_key(id) <==> (
        n0.inactive().contains_key(id) && !a_seq.contains(id)) || d_seq.contains(id) by {
            assert(nodes.inactive() == n3.inactive());
            assert(n3.inactive().contains_key(id) <==> n2.inactive().contains_key(id)
                || d_seq.contains(id));
            assert(n2.inactive().contains_key(id) == n1.inactive().contains_key(id));
            assert(n1.inactive().contains_key(id) <==> n0.inactive().contains_key(id)
                && !a_seq.contains(id));
        }
        assert forall|id: NodeId| #[trigger] nodes.active().contains_key(id) <==> (
        n0.active().contains_key(id) && !d_seq.contains(id)) || acts.contains(id) by {
            assert(n3.active().contains_key(id) <==> n2.active().contains_key(id)
                && !d_seq.contains(id));
            assert(n2.active().contains_key(id) == n0.active().contains_key(id));
        }
        assert forall|id: NodeId| acts.contains(id) || nodes.pending_has(id)
            implies queued_for_activation(n0, a_seq, id) by {
            let k = if acts.contains(id) {
                choose|k: int| 0 <= k < acts.len() && acts[k] == id
            } else {
                (choose|k: int|
                    0 <= k < nodes.pending().len() && (#[trigger] nodes.pending()[k]).id == id)
                    + acts.len()
            };
            assert(q2[k].id == id);
            if k < n0.pending().len() {
                assert(n0.pending_has(id));
            } else if k < q1.len() {
                assert(a_seq.contains(id) && n0.inactive().contains_key(id));
            } else {
                assert(n1.loading().contains_key(id) && n1.loading()[id].finished);
                assert(n0.loading().contains_key(id) && n0.loading()[id].finished
                    && !a_seq.contains(id)) by {
                    if a_seq.contains(id) {
                        if n0.inactive().contains_key(id) {
                            assert(!n1.loading().contains_key(id));
                        } else {
                            assert(n1.loading()[id] == fresh_loading(id));
                        }
                    }
                }
            }
        }
        assert forall|id: NodeId| queued_for_activation(n0, a_seq, id) implies acts.contains(id)
            || nodes.pending_has(id) by {
            if n0.pending_has(id) {
                let k = choose|k: int|
                    0 <= k < n0.pending().len() && (#[trigger] n0.pending()[k]).id == id;
                assert(q2[k].id == id);
                queued_witness(q2, acts, *nodes, k, id);
            } else if a_seq.contains(id) && n0.inactive().contains_key(id) {
                let k = choose|k: int|
                    q1.len() - q1.len() <= k && n0.pending().len() <= k < q1.len() && (
                    #[trigger] q1[k]).id == id;
                assert(q2[k].id == id);
                queued_witness(q2, acts, *nodes, k, id);
            } else {
                assert(n1.loading().contains_key(id) && n1.loading()[id].finished) by {
                    assert(n1.loading()[id] == n0.loading()[id]);
                }
                let k = choose|k: int| q1.len() <= k < q2.len() && (#[trigger] q2[k]).id == id;
                queued_witness(q2, acts, *nodes, k, id);
            }
        }
        assert forall|id: NodeId| acts.contains(id) implies !nodes.pending_has(id) by {
            let k = choose|k: int| 0 <= k < acts.len() && acts[k] == id;
            if nodes.pending_has(id) {
                let j = choose|j: int|
                    0 <= j < nodes.pending().len() && (#[trigger] nodes.pending()[j]).id == id;
                assert(q2[acts.len() + j].id == id);
                assert(q2[k].id == id);
            }
        }
        assert(distinct_ids(acts)) by {
            assert forall|k: int, j: int| 0 <= k < j < acts.len() implies acts[k] != acts[j] by {
                assert(acts[k] == q2[k].id);
                assert(acts[j] == q2[j].id);
            }
        }
        assert(tree_update.wf());
        assert(nodes.active().dom().len() + node_atlas.free_seq().len()
            == node_atlas.capacity_spec());
        assert forall|h: u64| #[trigger] nodes.handles().contains_key(h) implies h < allocator.next
            by {
            assert(n1.handles().contains_key(h));
        }
    }
    requests
}

/// One terrain's store after an asset-ready notification routed into it:
/// the handle's route is consumed and the waiting node is marked
/// finished, whole, even when further assets of it are still under way.
pub open spec fn routes_one(pre: Nodes, post: Nodes, handle: u64) -> bool {
    &&& pre.handles().contains_key(handle)
    &&& post.handles() == pre.handles().remove(handle)
    &&& post.loading() == pre.loading().insert(
        pre.handles()[handle],
        LoadingNode { data: pre.loading()[pre.handles()[handle]].data, finished: true },
    )
    &&& post.inactive() == pre.inactive()
    &&& post.active() == pre.active()
    &&& post.pending() == pre.pending()
    &&& post.assets_per_node == pre.assets_per_node
}

/// The terrains after an asset-ready notification was routed: the one
/// waiting on the handle consumes it; a notification nobody waits on is
/// ignored.
pub open spec fn routed(pre: Seq<Nodes>, post: Seq<Nodes>, handle: u64) -> bool {
    &&& post.len() == pre.len()
    &&& forall|t: int| 0 <= t < pre.len() && !(#[trigger] pre[t]).handles().contains_key(handle)
        ==> post[t] == pre[t]
    &&& forall|t: int| 0 <= t < pre.len() && (#[trigger] pre[t]).handles().contains_key(handle)
        ==> routes_one(pre[t], post[t], handle)
}

/// Routes one asset-ready notification to the terrain whose node waits
/// on the handle. Handles are issued by one shared allocator, so at most
/// one terrain holds a route for it and the search may stop at the first.
pub fn update_load_status(handle: u64, terrains: &mut Vec<Nodes>)
    requires
        forall|t: int| 0 <= t < old(terrains)@.len() ==> (#[trigger] old(terrains)@[t]).wf(),
        forall|t: int, u: int|
            0 <= t < u < old(terrains)@.len() && (#[trigger] old(terrains)@[t]).handles().contains_key(handle) ==> !(#[trigger] old(terrains)@[u]).handles().contains_key(handle),
    ensures
        final(terrains)@.len() == old(terrains)@.len(),
        forall|t: int| 0 <= t < final(terrains)@.len() ==> (#[trigger] final(terrains)@[t]).wf(),
        routed(old(terrains)@, final(terrains)@, handle),
        forall|t: int, h: u64|
            0 <= t < final(terrains)@.len()
                && #[trigger] final(terrains)@[t].handles().contains_key(h) ==> old(
                terrains,
            )@[t].handles().contains_key(h),
{
    let n = terrains.len();
    let mut t: usize = 0;
    while t < n
        invariant
            n == terrains@.len(),
            n == old(terrains)@.len(),
            t <= n,
            forall|u: int| 0 <= u < n ==> #[trigger] terrains@[u] == old(terrains)@[u],
            forall|u: int| 0 <= u < n ==> (#[trigger] old(terrains)@[u]).wf(),
            forall|u: int| 0 <= u < t ==> !(#[trigger] old(terrains)@[u]).handles().contains_key(handle),
            forall|u: int, v: int|
                0 <= u < v < n && (#[trigger] old(terrains)@[u]).handles().contains_key(handle)
                    ==> !(#[trigger] old(terrains)@[v]).handles().contains_key(handle),
        decreases n - t,
    {
        let terrain = &mut terrains[t];
        let found = terrain.handle_mapping.remove(handle);
        match found {
            Some(id) => {
                proof {
                    assert(old(terrains)@[t as int].handles().contains_key(handle));
                    assert(old(terrains)@[t as int].loading().contains_key(id));
                }
                let status = terrain.loading_nodes.remove_existing(id);
                terrain.loading_nodes.insert(
                    id,
                    LoadingNode { data: status.data, finished: true },
                );
                proof {
                    let ghost pre = old(terrains)@[t as int];
                    let ghost cur = *terrain;
                    assert(cur.loading() =~= pre.loading().insert(
                        id,
                        LoadingNode { data: pre.loading()[id].data, finished: true },
                    ));
                    assert(cur.handles() == pre.handles().remove(handle));
                    assert forall|id2: NodeId| #[trigger] cur.loading().contains_key(id2)
                        implies pre.loading().contains_key(id2) by {}
                    assert forall|id2: NodeId| #[trigger] cur.loading().contains_key(id2)
                        implies cur.loading()[id2].data.id == id2
                        && cur.loading()[id2].data.atlas_index == crate::nodes::INVALID_SLOT
                        && !cur.inactive().contains_key(id2) && !cur.active().contains_key(id2)
                        && !cur.pending_has(id2) by {
                        assert(pre.loading().contains_key(id2));
                        if id2 != id {
                            assert(cur.loading()[id2] == pre.loading()[id2]);
                        } else {
                            assert(pre.loading()[id].data.id == id);
                            assert(pre.loading()[id].data.atlas_index
                                == crate::nodes::INVALID_SLOT);
                        }
                        if cur.pending_has(id2) {
                            let a = choose|a: int|
                                0 <= a < cur.pending().len() && (#[trigger] cur.pending()[a]).id
                                    == id2;
                            assert((pre.pending()[a]).id == id2);
                        }
                    }
                    assert forall|id2: NodeId| #[trigger] cur.inactive().contains_key(id2)
                        implies !cur.active().contains_key(id2) && !cur.pending_has(id2) by {
                        if cur.pending_has(id2) {
                            let a = choose|a: int|
                                0 <= a < cur.pending().len() && (#[trigger] cur.pending()[a]).id
                                    == id2;
                            assert((pre.pending()[a]).id == id2);
                        }
                    }
                    assert forall|id2: NodeId| #[trigger] cur.active().contains_key(id2)
                        implies !cur.pending_has(id2) by {
                        if cur.pending_has(id2) {
                            let a = choose|a: int|
                                0 <= a < cur.pending().len() && (#[trigger] cur.pending()[a]).id
                                    == id2;
                            assert((pre.pending()[a]).id == id2);
                        }
                    }
                    assert forall|h2: u64| #[trigger] cur.handles().contains_key(h2)
                        implies cur.loading().contains_key(cur.handles()[h2]) by {
                        assert(pre.handles().contains_key(h2));
                        assert(pre.loading().contains_key(pre.handles()[h2]));
                    }
                    assert forall|id2: NodeId| #[trigger] cur.inactive().contains_key(id2)
                        implies cur.inactive()[id2].id == id2 && cur.inactive()[id2].atlas_index
                        == crate::nodes::INVALID_SLOT by {
                        assert(cur.inactive() == pre.inactive());
                    }
                    assert forall|id2: NodeId| #[trigger] cur.active().contains_key(id2)
                        implies cur.active()[id2].id == id2 by {
                        assert(cur.active() == pre.active());
                    }
                    assert(cur.pending() == pre.pending());
                    assert(cur.assets_per_node == pre.assets_per_node);
                    assert(cur.wf());
                    assert(routes_one(pre, cur, handle));
                }
                return ;
            },
            None => {},
        }
        proof {
            assert(terrains@[t as int] == old(terrains)@[t as int]);
        }
        t += 1;
    }
}

/// Idempotent notification routing: routing the same asset-ready
/// notification a second time finds its route already consumed and
/// changes nothing.
pub proof fn lemma_routing_idempotent(
    s0: Seq<Nodes>,
    s1: Seq<Nodes>,
    s2: Seq<Nodes>,
    handle: u64,
)
    requires
        routed(s0, s1, handle),
        routed(s1, s2, handle),
    ensures
        forall|t: int| 0 <= t < s2.len() ==> s2[t] == s1[t],
{
    assert forall|t: int| 0 <= t < s1.len() implies !(
    #[trigger] s1[t]).handles().contains_key(handle) by {
        if s0[t].handles().contains_key(handle) {
            assert(routes_one(s0[t], s1[t], handle));
        } else {
            assert(s1[t] == s0[t]);
        }
    }
}

/// The queue position `k` of a queued id shows it was admitted or kept
/// pending.
proof fn queued_witness(q2: Seq<NodeData>, acts: Seq<NodeId>, n: Nodes, k: int, id: NodeId)
    requires
        0 <= k < q2.len(),
        q2[k].id == id,
        acts.len() + n.pending().len() == q2.len(),
        forall|a: int| 0 <= a < acts.len() ==> #[trigger] acts[a] == q2[a].id,
        forall|a: int| 0 <= a < n.pending().len() ==> #[trigger] n.pending()[a] == q2[acts.len()
            + a],
    ensures
        acts.contains(id) || n.pending_has(id),
{
    if k < acts.len() {
        assert(acts[k] == id);
    } else {
        assert(n.pending()[k - acts.len()] == q2[k]);
        assert(n.pending()[k - acts.len()].id == id);
    }
}

} // verus!
