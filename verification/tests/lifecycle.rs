use terrain_stream::node_atlas::{NodeAtlas, QuadtreeUpdate, SlotCommand};
use terrain_stream::nodes::{HandleAllocator, Nodes, INVALID_SLOT};
use terrain_stream::quadtree::{NodeId, TreeUpdate};
use terrain_stream::systems::{update_load_status, update_nodes};

fn id(lod: u32, x: u32, y: u32) -> NodeId {
    NodeId { lod, x, y }
}

fn assert_stage_disjoint(nodes: &Nodes, ids: &[NodeId]) {
    for &i in ids {
        let mut stages = 0;
        if nodes.is_loading(i) {
            stages += 1;
        }
        if nodes.is_inactive(i) {
            stages += 1;
        }
        if nodes.is_active(i) {
            stages += 1;
        }
        if nodes.is_pending(i) {
            stages += 1;
        }
        assert!(stages <= 1, "a node id sits in more than one stage");
    }
}

fn assert_slots_valid(nodes: &Nodes, atlas: &NodeAtlas, ids: &[NodeId]) {
    let mut seen: Vec<u32> = Vec::new();
    for &i in ids {
        if let Some(slot) = nodes.active_slot(i) {
            assert!(slot < atlas.capacity());
            assert_ne!(slot, INVALID_SLOT);
            assert!(!seen.contains(&slot), "two active nodes share a slot");
            seen.push(slot);
        }
    }
}

/// Scenario: four fresh requests fill an atlas of capacity four.
#[test]
fn four_loads_fill_the_atlas() {
    let ids = [id(0, 0, 0), id(0, 1, 0), id(0, 0, 1), id(0, 1, 1)];
    let mut terrains = vec![Nodes::new(1)];
    let mut atlas = NodeAtlas::new(4);
    let mut output = QuadtreeUpdate::new();
    let mut allocator = HandleAllocator::new();
    let mut tu = TreeUpdate::new();
    for &i in &ids {
        tu.request_activation(i);
    }

    let requests = update_nodes(&mut tu, &mut terrains[0], &mut atlas, &mut output, &mut allocator);

    // all four enter loading, nothing is active yet
    assert_eq!(requests.len(), 4);
    for (k, r) in requests.iter().enumerate() {
        assert_eq!(r.id, ids[k]);
        assert_eq!(r.handles, vec![k as u64]);
    }
    assert_eq!(terrains[0].loading_len(), 4);
    assert_eq!(terrains[0].active_len(), 0);
    for &i in &ids {
        assert!(terrains[0].is_loading(i));
        assert!(!terrains[0].is_active(i));
    }
    assert_eq!(atlas.free_count(), 4);
    assert_stage_disjoint(&terrains[0], &ids);

    // all four assets arrive
    for r in &requests {
        update_load_status(r.handles[0], &mut terrains);
    }
    // still loading until the next lifecycle resolution
    assert_eq!(terrains[0].loading_len(), 4);

    update_nodes(&mut tu, &mut terrains[0], &mut atlas, &mut output, &mut allocator);

    assert_eq!(terrains[0].active_len(), 4);
    assert_eq!(terrains[0].loading_len(), 4 - 4);
    assert_eq!(atlas.free_count(), 0);
    assert_eq!(tu.activated_nodes.len(), 4);
    for &i in &ids {
        assert!(tu.was_activated(i));
        assert!(terrains[0].is_active(i));
    }
    assert!(terrains[0].active_len() <= atlas.capacity() as usize);
    assert_stage_disjoint(&terrains[0], &ids);
    assert_slots_valid(&terrains[0], &atlas, &ids);

    // one fill command per admitted node, in admission order, with the
    // most recently freed slot handed out first
    assert_eq!(output.len(), 4);
    for k in 0..4 {
        assert_eq!(output.get(k), SlotCommand::Fill { slot: 3 - k as u32, id: ids[k] });
    }
}

/// Scenario: two of four active nodes are evicted into the inactive
/// cache, and one of them is requested again and served without a
/// reload.
#[test]
fn eviction_then_cache_reuse() {
    let ids = [id(0, 0, 0), id(0, 1, 0), id(0, 0, 1), id(0, 1, 1)];
    let mut terrains = vec![Nodes::new(1)];
    let mut atlas = NodeAtlas::new(4);
    let mut output = QuadtreeUpdate::new();
    let mut allocator = HandleAllocator::new();
    let mut tu = TreeUpdate::new();
    for &i in &ids {
        tu.request_activation(i);
    }
    let requests = update_nodes(&mut tu, &mut terrains[0], &mut atlas, &mut output, &mut allocator);
    for r in &requests {
        update_load_status(r.handles[0], &mut terrains);
    }
    update_nodes(&mut tu, &mut terrains[0], &mut atlas, &mut output, &mut allocator);
    assert_eq!(terrains[0].active_len(), 4);

    // deactivate two of the four
    output.clear();
    tu.request_deactivation(ids[0]);
    tu.request_deactivation(ids[1]);
    update_nodes(&mut tu, &mut terrains[0], &mut atlas, &mut output, &mut allocator);
    assert!(terrains[0].is_inactive(ids[0]));
    assert!(terrains[0].is_inactive(ids[1]));
    assert!(!terrains[0].is_active(ids[0]));
    assert_eq!(terrains[0].active_len(), 2);
    assert_eq!(atlas.free_count(), 2);
    assert_eq!(output.len(), 2);
    assert!(matches!(output.get(0), SlotCommand::Free { .. }));
    assert_stage_disjoint(&terrains[0], &ids);

    // request one of the two again: served from the cache, no reload
    let requests = {
        tu.request_activation(ids[0]);
        update_nodes(&mut tu, &mut terrains[0], &mut atlas, &mut output, &mut allocator)
    };
    assert!(requests.is_empty(), "a cached node must not be reloaded");
    assert!(!terrains[0].is_loading(ids[0]));
    assert!(terrains[0].is_active(ids[0]));
    assert!(!terrains[0].is_inactive(ids[0]));
    assert!(terrains[0].is_inactive(ids[1]));
    assert_eq!(terrains[0].active_len(), 3);
    assert_eq!(atlas.free_count(), 1);
    assert_stage_disjoint(&terrains[0], &ids);
    assert_slots_valid(&terrains[0], &atlas, &ids);
}

/// Scenario: a fifth node is requested while the atlas is full; it waits
/// as pending instead of being dropped, and is admitted once a slot
/// frees up.
#[test]
fn full_atlas_defers_admission() {
    let ids = [id(0, 0, 0), id(0, 1, 0), id(0, 0, 1), id(0, 1, 1)];
    let fifth = id(0, 2, 0);
    let mut terrains = vec![Nodes::new(1)];
    let mut atlas = NodeAtlas::new(4);
    let mut output = QuadtreeUpdate::new();
    let mut allocator = HandleAllocator::new();
    let mut tu = TreeUpdate::new();
    for &i in &ids {
        tu.request_activation(i);
    }
    let requests = update_nodes(&mut tu, &mut terrains[0], &mut atlas, &mut output, &mut allocator);
    for r in &requests {
        update_load_status(r.handles[0], &mut terrains);
    }
    update_nodes(&mut tu, &mut terrains[0], &mut atlas, &mut output, &mut allocator);
    assert_eq!(atlas.free_count(), 0);

    // request the fifth node and let its asset arrive
    tu.request_activation(fifth);
    let requests = update_nodes(&mut tu, &mut terrains[0], &mut atlas, &mut output, &mut allocator);
    assert_eq!(requests.len(), 1);
    update_load_status(requests[0].handles[0], &mut terrains);
    update_nodes(&mut tu, &mut terrains[0], &mut atlas, &mut output, &mut allocator);

    // the atlas is full: the node waits as pending, not dropped
    assert!(terrains[0].is_pending(fifth));
    assert!(!terrains[0].is_active(fifth));
    assert!(!terrains[0].is_loading(fifth));
    assert_eq!(terrains[0].pending_len(), 1);
    assert_eq!(terrains[0].active_len(), 4);
    assert_eq!(atlas.free_count(), 0);
    assert_stage_disjoint(&terrains[0], &[ids[0], ids[1], ids[2], ids[3], fifth]);

    // once a slot frees, the pending node is admitted first
    tu.request_deactivation(ids[3]);
    update_nodes(&mut tu, &mut terrains[0], &mut atlas, &mut output, &mut allocator);
    assert!(terrains[0].is_active(fifth));
    assert!(!terrains[0].is_pending(fifth));
    assert_eq!(terrains[0].pending_len(), 0);
    assert_eq!(terrains[0].active_len(), 4);
    assert!(tu.was_activated(fifth));
    assert_slots_valid(&terrains[0], &atlas, &[ids[0], ids[1], ids[2], fifth]);
}

/// A node that needs several assets is marked finished by the first
/// arrival, and repeating the same notification changes nothing.
#[test]
fn notification_routing_is_idempotent() {
    let a = id(1, 0, 0);
    let mut terrains = vec![Nodes::new(3)];
    let mut atlas = NodeAtlas::new(2);
    let mut output = QuadtreeUpdate::new();
    let mut allocator = HandleAllocator::new();
    let mut tu = TreeUpdate::new();
    tu.request_activation(a);
    let requests = update_nodes(&mut tu, &mut terrains[0], &mut atlas, &mut output, &mut allocator);
    assert_eq!(requests.len(), 1);
    assert_eq!(requests[0].handles.len(), 3);

    // the first asset's arrival marks the whole node finished; sending
    // the same notification again is a no-op
    update_load_status(requests[0].handles[0], &mut terrains);
    update_load_status(requests[0].handles[0], &mut terrains);
    assert!(terrains[0].is_loading(a));
    assert_eq!(terrains[0].loading_len(), 1);

    update_nodes(&mut tu, &mut terrains[0], &mut atlas, &mut output, &mut allocator);
    assert!(terrains[0].is_active(a));
    assert_eq!(terrains[0].active_len(), 1);

    // a notification for an already-consumed handle is silently ignored
    update_load_status(requests[0].handles[1], &mut terrains);
    update_load_status(7777, &mut terrains);
    assert!(terrains[0].is_active(a));
    assert_eq!(terrains[0].loading_len(), 0);
}

/// A handle routes to the terrain waiting on it when several terrains
/// share the notification stream.
#[test]
fn routing_across_terrains() {
    let a = id(0, 0, 0);
    let b = id(0, 5, 5);
    let mut terrains = vec![Nodes::new(1), Nodes::new(1)];
    let mut atlas_a = NodeAtlas::new(1);
    let mut atlas_b = NodeAtlas::new(1);
    let mut out_a = QuadtreeUpdate::new();
    let mut out_b = QuadtreeUpdate::new();
    let mut allocator = HandleAllocator::new();
    let mut tu_a = TreeUpdate::new();
    let mut tu_b = TreeUpdate::new();
    tu_a.request_activation(a);
    tu_b.request_activation(b);
    let req_a = update_nodes(&mut tu_a, &mut terrains[0], &mut atlas_a, &mut out_a, &mut allocator);
    let req_b = update_nodes(&mut tu_b, &mut terrains[1], &mut atlas_b, &mut out_b, &mut allocator);
    assert_ne!(req_a[0].handles[0], req_b[0].handles[0]);

    update_load_status(req_b[0].handles[0], &mut terrains);
    update_nodes(&mut tu_a, &mut terrains[0], &mut atlas_a, &mut out_a, &mut allocator);
    update_nodes(&mut tu_b, &mut terrains[1], &mut atlas_b, &mut out_b, &mut allocator);
    assert!(terrains[0].is_loading(a), "the other terrain's node is untouched");
    assert!(terrains[1].is_active(b));
}

/// The slot pool hands out the most recently freed slot first and never
/// exceeds its capacity.
#[test]
fn atlas_allocation_order() {
    let mut atlas = NodeAtlas::new(3);
    assert_eq!(atlas.capacity(), 3);
    assert_eq!(atlas.free_count(), 3);
    assert_eq!(atlas.allocate(), Some(2));
    assert_eq!(atlas.allocate(), Some(1));
    assert_eq!(atlas.allocate(), Some(0));
    assert_eq!(atlas.allocate(), None);
    atlas.release(1);
    assert_eq!(atlas.allocate(), Some(1));
}
