use terrain_stream::quadtree::{NodeId, Quadtree, TreeUpdate, Viewer};
use terrain_stream::systems::traverse_quadtree;

fn id(lod: u32, x: u32, y: u32) -> NodeId {
    NodeId { lod, x, y }
}

/// A viewer in the corner of a two-level terrain requires the nearest
/// fine node and the coarse root node.
#[test]
fn corner_viewer_selection() {
    let mut tree = Quadtree::new(1, 16);
    let mut tu = TreeUpdate::new();
    let viewer = Viewer { x: 0, y: 0, view_distance: 1 };

    tree.traverse(&mut tu, viewer);

    assert!(tu.activation_requested(id(0, 0, 0)));
    assert!(!tu.activation_requested(id(0, 1, 0)));
    assert!(!tu.activation_requested(id(0, 0, 1)));
    assert!(!tu.activation_requested(id(0, 1, 1)));
    assert!(tu.activation_requested(id(1, 0, 0)));
    assert_eq!(tu.nodes_to_activate.len(), 2);
    assert_eq!(tu.nodes_to_deactivate.len(), 0);
}

/// A node required in the previous frame but out of range now is listed
/// for deactivation, and a still-required node is not requested again.
#[test]
fn moving_away_deactivates() {
    let mut tree = Quadtree::new(1, 16);
    let mut tu = TreeUpdate::new();
    let near = Viewer { x: 0, y: 0, view_distance: 1 };
    tree.traverse(&mut tu, near);
    tree.end_frame(&mut tu);
    assert_eq!(tu.nodes_to_deactivate.len(), 0);
    assert!(tree.previously_required(id(0, 0, 0)));
    assert!(tree.previously_required(id(1, 0, 0)));

    let mut tu2 = TreeUpdate::new();
    let far = Viewer { x: 1000, y: 0, view_distance: 1 };
    tree.traverse(&mut tu2, far);
    tree.end_frame(&mut tu2);
    assert_eq!(tu2.nodes_to_activate.len(), 0);
    assert!(tu2.deactivation_requested(id(0, 0, 0)));
    assert!(tu2.deactivation_requested(id(1, 0, 0)));
    assert_eq!(tu2.nodes_to_deactivate.len(), 2);
}

/// A still-visible node stays out of both lists across frames.
#[test]
fn steady_viewer_yields_empty_diff() {
    let mut tree = Quadtree::new(2, 8);
    let viewer = Viewer { x: 12, y: 12, view_distance: 4 };
    let mut tu = TreeUpdate::new();
    tree.traverse(&mut tu, viewer);
    let first = tu.nodes_to_activate.len();
    assert!(first > 0);
    tree.end_frame(&mut tu);

    let mut tu2 = TreeUpdate::new();
    tree.traverse(&mut tu2, viewer);
    tree.end_frame(&mut tu2);
    assert_eq!(tu2.nodes_to_activate.len(), 0);
    assert_eq!(tu2.nodes_to_deactivate.len(), 0);
}

/// Two viewers union their requirements; a node required by either is
/// requested once, and only nodes required by neither leave.
#[test]
fn two_viewers_compose() {
    let mut tree = Quadtree::new(1, 16);
    let mut tu = TreeUpdate::new();
    let left = Viewer { x: 0, y: 0, view_distance: 1 };
    let right = Viewer { x: 31, y: 0, view_distance: 1 };
    let viewers = vec![left, right];

    traverse_quadtree(&mut tree, &mut tu, &viewers);

    assert!(tu.activation_requested(id(0, 0, 0)));
    assert!(tu.activation_requested(id(0, 1, 0)));
    assert!(tu.activation_requested(id(1, 0, 0)));
    assert_eq!(tu.nodes_to_activate.len(), 3);

    // the viewers' coverage carries over as the next frame's baseline
    tree.end_frame(&mut tu);
    let mut tu2 = TreeUpdate::new();
    traverse_quadtree(&mut tree, &mut tu2, &vec![left]);
    tree.end_frame(&mut tu2);
    assert_eq!(tu2.nodes_to_activate.len(), 0);
    assert!(tu2.deactivation_requested(id(0, 1, 0)));
    assert_eq!(tu2.nodes_to_deactivate.len(), 1);
}

/// A node required by only one of several persistent viewers stays
/// resident: deactivation follows the union of the frame's
/// requirements, not any single viewer's view.
#[test]
fn union_of_viewers_keeps_nodes() {
    let mut tree = Quadtree::new(1, 16);
    let left = Viewer { x: 0, y: 0, view_distance: 1 };
    let right = Viewer { x: 31, y: 0, view_distance: 1 };
    let viewers = vec![left, right];

    let mut tu = TreeUpdate::new();
    traverse_quadtree(&mut tree, &mut tu, &viewers);
    tree.end_frame(&mut tu);
    assert!(tu.activation_requested(id(0, 1, 0)));

    // the same viewers next frame: the node only `right` requires is
    // neither re-requested nor deactivated
    let mut tu2 = TreeUpdate::new();
    traverse_quadtree(&mut tree, &mut tu2, &viewers);
    tree.end_frame(&mut tu2);
    assert_eq!(tu2.nodes_to_activate.len(), 0);
    assert_eq!(tu2.nodes_to_deactivate.len(), 0);
}

/// The selection reaches farther out at coarser levels: a viewer just
/// outside a fine node's reach still requires the coarse node over it.
#[test]
fn coarse_nodes_reach_farther() {
    let tree = Quadtree::new(1, 16);
    let viewer = Viewer { x: 19, y: 0, view_distance: 2 };
    // fine node (0,0,0) spans 0..16 with reach 2: 19 is out of range
    assert!(!tree.check_selected(viewer, id(0, 0, 0)));
    // its neighbour holds the viewer
    assert!(tree.check_selected(viewer, id(0, 1, 0)));
    // the root at the coarse level spans 0..32 with reach 4
    assert!(tree.check_selected(viewer, id(1, 0, 0)));
    // out-of-grid coordinates are never selected
    assert!(!tree.check_selected(viewer, id(0, 2, 0)));
    assert!(!tree.check_selected(viewer, id(2, 0, 0)));
}
