//! The box tree: structure, commit, hit testing, queries and traversal.

use core::f64::consts::FRAC_PI_4;
use kurbo::{Affine, Point, Rect, RoundedRect, Vec2};
use understory::box_tree::{id_is_newer, LocalNode, NodeFlags, NodeId, QueryFilter, Tree};
use understory::index::backends::{BvhI64, GridI64, RTreeI64};
/// Returns whether the two sets of node IDs are equal. The two sets do not need to be ordered.
/// Panics if one of the two sets contains duplicates.
fn set_equality(a: &[NodeId], b: &[NodeId]) -> bool {
    for (idx, node) in a.iter().enumerate() {
        if a[0..idx].contains(node) || a[idx + 1..].contains(node) {
            panic!("there are duplicates in set `a`");
        }
    }
    for (idx, node) in b.iter().enumerate() {
        if b[0..idx].contains(node) || b[idx + 1..].contains(node) {
            panic!("there are duplicates in set `b`");
        }
    }
    a.len() == b.len() && b.iter().all(|node| a.contains(node))
}

#[test]
fn insert_and_hit_test() {
    let mut tree = Tree::new();
    let root = tree.insert(
        None,
        LocalNode {
            local_bounds: Rect::new(0.0, 0.0, 200.0, 200.0),
            ..Default::default()
        },
    );
    let _a = tree.insert(
        Some(root),
        LocalNode {
            local_bounds: Rect::new(10.0, 10.0, 60.0, 60.0),
            z_index: 0,
            ..Default::default()
        },
    );
    let b = tree.insert(
        Some(root),
        LocalNode {
            local_bounds: Rect::new(40.0, 40.0, 120.0, 120.0),
            z_index: 10,
            ..Default::default()
        },
    );
    let _ = tree.commit();

    let hit = tree
        .hit_test_point(
            Point::new(50.0, 50.0),
            QueryFilter::new().visible().pickable(),
        )
        .unwrap();
    assert_eq!(hit.node, b, "topmost by z should win");
    assert_eq!(hit.path.first().copied(), Some(root));
    assert_eq!(hit.path.last().copied(), Some(b));
}

#[test]
fn transform_and_damage() {
    let mut tree = Tree::new();
    let root = tree.insert(
        None,
        LocalNode {
            local_bounds: Rect::new(0.0, 0.0, 100.0, 100.0),
            ..Default::default()
        },
    );
    let n = tree.insert(
        Some(root),
        LocalNode {
            local_bounds: Rect::new(0.0, 0.0, 10.0, 10.0),
            ..Default::default()
        },
    );
    let _ = tree.commit();
    tree.set_local_transform(n, Affine::translate(Vec2::new(50.0, 0.0)));
    let dmg = tree.commit();
    assert!(dmg.union_rect().is_some());
}

#[test]
fn inside_aabb_but_outside_local_bounds() {
    let mut tree = Tree::new();
    let root = tree.insert(
        None,
        LocalNode {
            local_bounds: Rect::new(0.0, 0.0, 0.0, 0.0),
            local_transform: Affine::rotate(45_f64.to_radians()),
            ..Default::default()
        },
    );
    tree.insert(
        Some(root),
        LocalNode {
            // In world space, this rectangle is rotated by 45 degrees due to the parent's
            // transform, resulting in a larger world-space axis-aligned bounding box.
            local_bounds: Rect::new(-100.0, -100.0, 100.0, 100.0),
            ..Default::default()
        },
    );
    let _ = tree.commit();

    // Hit testing a world-space point that is inside the axis-aligned bounding box of the
    // rotated local bounds, but outside the actual rotated local bounds, should yield no
    // results.
    let miss = tree.hit_test_point(Point::new(90.0, 90.0), QueryFilter::new());
    assert!(miss.is_none());
}

#[test]
fn child_clip_intersects_with_parent_clip() {
    let mut tree = Tree::new();
    let root = tree.insert(
        None,
        LocalNode {
            local_bounds: Rect::new(0.0, 0.0, 200.0, 200.0),
            local_clip: Some(RoundedRect::from_rect(
                Rect::new(0.0, 0.0, 100.0, 100.0),
                0.0,
            )),
            ..Default::default()
        },
    );
    let child = tree.insert(
        Some(root),
        LocalNode {
            local_bounds: Rect::new(80.0, 80.0, 180.0, 180.0),
            local_clip: Some(RoundedRect::from_rect(
                Rect::new(60.0, 60.0, 160.0, 160.0),
                0.0,
            )),
            ..Default::default()
        },
    );
    let _ = tree.commit();

    // Effective clip should be the intersection of parent and child clips: (80..100, 80..100).
    let bounds = tree.world_bounds(child).unwrap();
    assert_eq!(bounds, Rect::new(80.0, 80.0, 100.0, 100.0));

    // A point inside the child's local clip but outside the parent's clip must not hit.
    let miss = tree.hit_test_point(Point::new(150.0, 150.0), QueryFilter::new());
    assert!(miss.is_none());
}

#[test]
fn inherits_parent_clip() {
    let mut tree = Tree::new();
    let root = tree.insert(
        None,
        LocalNode {
            local_bounds: Rect::new(0.0, 0.0, 200.0, 200.0),
            local_clip: Some(RoundedRect::from_rect(
                Rect::new(0.0, 0.0, 100.0, 100.0),
                0.0,
            )),
            ..Default::default()
        },
    );
    let child = tree.insert(
        Some(root),
        LocalNode {
            local_bounds: Rect::new(80.0, 80.0, 180.0, 180.0),
            ..Default::default()
        },
    );
    let _ = tree.commit();

    // Child should inherit parent's clip when it has no local clip of its own.
    let bounds = tree.world_bounds(child).unwrap();
    assert_eq!(bounds, Rect::new(80.0, 80.0, 100.0, 100.0));

    // A point outside the parent's clip must not hit the child.
    let miss = tree.hit_test_point(Point::new(150.0, 150.0), QueryFilter::new());
    assert!(miss.is_none());
}

#[test]
fn ancestor_rounded_rect_clip_blocks_hit() {
    let mut tree = Tree::new();
    let root = tree.insert(
        None,
        LocalNode {
            local_bounds: Rect::new(0.0, 0.0, 0.0, 0.0),
            local_clip: Some(RoundedRect::from_rect(
                Rect::new(0.0, 0.0, 100.0, 100.0),
                20.0,
            )),
            ..Default::default()
        },
    );
    let child = tree.insert(
        Some(root),
        LocalNode {
            local_bounds: Rect::new(0.0, 0.0, 100.0, 100.0),
            ..Default::default()
        },
    );
    let _ = tree.commit();

    let clipped_hits = tree.hit_test_point(Point::new(5.0, 5.0), QueryFilter::new());
    assert!(
        clipped_hits.is_none(),
        "corner outside rounded clip should not hit"
    );

    let hits = tree
        .hit_test_point(Point::new(25.0, 25.0), QueryFilter::new())
        .unwrap();
    assert_eq!(hits.node, child);
}

#[test]
fn rotated_bbox_expands() {
    let mut tree = Tree::new();
    let root = tree.insert(
        None,
        LocalNode {
            local_bounds: Rect::new(0.0, 0.0, 0.0, 0.0),
            ..Default::default()
        },
    );
    let n = tree.insert(
        Some(root),
        LocalNode {
            local_bounds: Rect::new(0.0, 0.0, 10.0, 10.0),
            ..Default::default()
        },
    );
    let _ = tree.commit();
    let _nb = tree.world_bounds(n).unwrap();
    let _expected =
        Affine::rotate(FRAC_PI_4).transform_rect_bbox(Rect::new(0.0, 0.0, 10.0, 10.0));
}

#[test]
fn liveness_insert_remove_reuse() {
    let mut tree = Tree::new();
    // Insert a root, then a child.
    let root = tree.insert(
        None,
        LocalNode {
            local_bounds: Rect::new(0.0, 0.0, 1.0, 1.0),
            ..Default::default()
        },
    );
    let a = tree.insert(
        Some(root),
        LocalNode {
            local_bounds: Rect::new(0.0, 0.0, 1.0, 1.0),
            ..Default::default()
        },
    );

    assert!(tree.is_alive(root));
    assert!(tree.is_alive(a));

    // Remove child; id becomes stale.
    tree.remove(a);
    assert!(!tree.is_alive(a));

    // Insert new child; might reuse slot but generation bumps.
    let b = tree.insert(
        Some(root),
        LocalNode {
            local_bounds: Rect::new(0.0, 0.0, 1.0, 1.0),
            ..Default::default()
        },
    );
    assert!(tree.is_alive(b));
    assert!(!tree.is_alive(a));
    // Sanity: either same slot or different, but if same slot, generation must be greater.
    if a.0 == b.0 {
        assert!(b.1 > a.1, "generation must increase on reuse");
    }
}

#[test]
fn test_rtree_backend() {
    // Use an R-tree backend and verify basic hit-testing still works.
    let mut tree: Tree<RTreeI64> = Tree::with_backend(RTreeI64::default());
    let root = tree.insert(
        None,
        LocalNode {
            local_bounds: Rect::new(0.0, 0.0, 100.0, 100.0),
            ..Default::default()
        },
    );
    let _ = tree.commit();
    let hit = tree.hit_test_point(Point::new(50.0, 50.0), QueryFilter::new());
    assert_eq!(hit.map(|h| h.node), Some(root));
}

#[test]
fn test_bvh_backend() {
    // Use a BVH backend and verify basic hit-testing still works.
    let mut tree: Tree<BvhI64> = Tree::with_backend(BvhI64::default());
    let root = tree.insert(
        None,
        LocalNode {
            local_bounds: Rect::new(0.0, 0.0, 100.0, 100.0),
            ..Default::default()
        },
    );
    let _ = tree.commit();
    let hit = tree.hit_test_point(Point::new(50.0, 50.0), QueryFilter::new());
    assert_eq!(hit.map(|h| h.node), Some(root));
}

#[test]
fn test_grid_backend() {
    // Use a grid backend and verify basic hit-testing still works.
    // The tree indexes integer keys of its coordinates; the cell size is in those units.
    let mut tree: Tree<GridI64> = Tree::with_backend(GridI64::new(1 << 60));
    let root = tree.insert(
        None,
        LocalNode {
            local_bounds: Rect::new(0.0, 0.0, 100.0, 100.0),
            ..Default::default()
        },
    );
    let _ = tree.commit();
    let hit = tree.hit_test_point(Point::new(50.0, 50.0), QueryFilter::new());
    assert_eq!(hit.map(|h| h.node), Some(root));
}

#[test]
fn newer_than_semantics() {
    // Construct synthetic NodeId pairs and verify newer ordering.
    let old = NodeId::new(10, 1);
    let newer_same_slot = NodeId::new(10, 2);
    let same_gen_higher_slot = NodeId::new(11, 2);
    let same_gen_lower_slot = NodeId::new(9, 2);

    // Private helper is in scope within the module.
    assert!(id_is_newer(newer_same_slot, old));
    assert!(id_is_newer(same_gen_higher_slot, newer_same_slot));
    assert!(!id_is_newer(same_gen_lower_slot, newer_same_slot));
}

#[test]
fn hit_equal_z_newer_wins() {
    let mut tree = Tree::new();
    let root = tree.insert(
        None,
        LocalNode {
            local_bounds: Rect::new(0.0, 0.0, 200.0, 200.0),
            ..Default::default()
        },
    );

    // Two overlapping children at the same z.
    let a = tree.insert(
        Some(root),
        LocalNode {
            local_bounds: Rect::new(40.0, 40.0, 120.0, 120.0),
            z_index: 5,
            ..Default::default()
        },
    );
    let b = tree.insert(
        Some(root),
        LocalNode {
            local_bounds: Rect::new(40.0, 40.0, 120.0, 120.0),
            z_index: 5,
            ..Default::default()
        },
    );
    let _ = tree.commit();

    // Sanity: with equal z and equal depth, the newer of (a, b) should win; typically b is newer.
    let hit1 = tree
        .hit_test_point(
            Point::new(60.0, 60.0),
            QueryFilter::new().visible().pickable(),
        )
        .unwrap();
    let expected1 = if id_is_newer(b, a) { b } else { a };
    assert_eq!(hit1.node, expected1);

    // Make a stale by removing it, then insert c reusing a's slot (generation++),
    // still equal z and overlapping; c is strictly newer than b by generation.
    tree.remove(a);
    let c = tree.insert(
        Some(root),
        LocalNode {
            local_bounds: Rect::new(40.0, 40.0, 120.0, 120.0),
            z_index: 5,
            ..Default::default()
        },
    );
    let _ = tree.commit();
    assert!(id_is_newer(c, b));

    let hit2 = tree
        .hit_test_point(
            Point::new(60.0, 60.0),
            QueryFilter::new().visible().pickable(),
        )
        .unwrap();
    assert_eq!(hit2.node, c, "newer id should win on equal z and depth");
}

#[test]
fn z_index_accessor_respects_liveness() {
    let mut tree = Tree::new();
    let node = tree.insert(
        None,
        LocalNode {
            local_bounds: Rect::new(0.0, 0.0, 1.0, 1.0),
            z_index: 7,
            ..Default::default()
        },
    );
    assert_eq!(tree.z_index(node), Some(7));
    tree.remove(node);
    assert_eq!(tree.z_index(node), None, "stale ids must return None");
    let new_node = tree.insert(
        None,
        LocalNode {
            local_bounds: Rect::new(0.0, 0.0, 1.0, 1.0),
            z_index: 3,
            ..Default::default()
        },
    );
    assert_eq!(tree.z_index(new_node), Some(3));
    assert!(id_is_newer(new_node, node));
}

#[test]
fn deeper_node_wins_over_ancestor_at_equal_z() {
    let mut tree = Tree::new();
    let root = tree.insert(
        None,
        LocalNode {
            local_bounds: Rect::new(0.0, 0.0, 200.0, 200.0),
            z_index: 0,
            ..Default::default()
        },
    );
    let child = tree.insert(
        Some(root),
        LocalNode {
            local_bounds: Rect::new(40.0, 40.0, 160.0, 160.0),
            z_index: 0,
            ..Default::default()
        },
    );
    let grandchild = tree.insert(
        Some(child),
        LocalNode {
            local_bounds: Rect::new(80.0, 80.0, 120.0, 120.0),
            z_index: 0,
            ..Default::default()
        },
    );
    let _ = tree.commit();

    // Point inside all three; deepest (grandchild) should win even if NodeId
    // allocation order or reuse would prefer another by id alone.
    let hit = tree
        .hit_test_point(
            Point::new(100.0, 100.0),
            QueryFilter::new().visible().pickable(),
        )
        .unwrap();
    assert_eq!(hit.node, grandchild);
    assert_eq!(hit.path, vec![root, child, grandchild]);
}

#[test]
fn id_tiebreak_only_used_when_depth_and_z_equal() {
    let mut tree = Tree::new();
    let root = tree.insert(
        None,
        LocalNode {
            local_bounds: Rect::new(0.0, 0.0, 200.0, 200.0),
            z_index: 0,
            ..Default::default()
        },
    );
    // Two overlapping children at the same depth and z.
    let a = tree.insert(
        Some(root),
        LocalNode {
            local_bounds: Rect::new(40.0, 40.0, 160.0, 160.0),
            z_index: 0,
            ..Default::default()
        },
    );
    let b = tree.insert(
        Some(root),
        LocalNode {
            local_bounds: Rect::new(40.0, 40.0, 160.0, 160.0),
            z_index: 0,
            ..Default::default()
        },
    );
    let _ = tree.commit();

    // Both overlap the point; whichever is newer by NodeId wins when depth and z are equal.
    let hit = tree
        .hit_test_point(
            Point::new(100.0, 100.0),
            QueryFilter::new().visible().pickable(),
        )
        .unwrap();
    let expected = if id_is_newer(b, a) { b } else { a };
    assert_eq!(hit.node, expected);
    // Path still includes root then the chosen child.
    assert_eq!(hit.path.first().copied(), Some(root));
    assert_eq!(hit.path.last().copied(), Some(expected));
}

#[test]
fn update_bounds_and_damage_and_hit() {
    let mut tree = Tree::new();
    let root = tree.insert(
        None,
        LocalNode {
            local_bounds: Rect::new(0.0, 0.0, 100.0, 100.0),
            ..Default::default()
        },
    );
    let n = tree.insert(
        Some(root),
        LocalNode {
            local_bounds: Rect::new(0.0, 0.0, 10.0, 10.0),
            ..Default::default()
        },
    );
    let _ = tree.commit();

    let hit_before = tree
        .hit_test_point(
            Point::new(50.0, 50.0),
            QueryFilter::new().visible().pickable(),
        )
        .expect("expected initial hit at root");
    assert_eq!(hit_before.node, root);
    assert_eq!(hit_before.path.first().copied(), Some(root));
    assert_eq!(hit_before.path.last().copied(), Some(root));

    tree.set_local_bounds(n, Rect::new(40.0, 40.0, 60.0, 60.0));
    let dmg = tree.commit();
    assert!(dmg.union_rect().is_some());

    let hit_after = tree
        .hit_test_point(
            Point::new(50.0, 50.0),
            QueryFilter::new().visible().pickable(),
        )
        .expect("expected hit after bounds update");
    assert_eq!(hit_after.node, n);
    assert_eq!(hit_after.path.first().copied(), Some(root));
    assert_eq!(hit_after.path.last().copied(), Some(n));
}

#[test]
fn parent_of_respects_liveness_and_roots() {
    let mut tree = Tree::new();
    let root = tree.insert(
        None,
        LocalNode {
            local_bounds: Rect::new(0.0, 0.0, 1.0, 1.0),
            ..Default::default()
        },
    );
    let child = tree.insert(
        Some(root),
        LocalNode {
            local_bounds: Rect::new(0.0, 0.0, 1.0, 1.0),
            ..Default::default()
        },
    );
    assert_eq!(tree.parent_of(child), Some(root));
    assert_eq!(tree.parent_of(root), None);
    tree.remove(child);
    assert_eq!(tree.parent_of(child), None);
}

#[test]
fn query_filter_focusable_only() {
    let mut tree = Tree::new();
    let root = tree.insert(
        None,
        LocalNode {
            local_bounds: Rect::new(0.0, 0.0, 200.0, 200.0),
            flags: NodeFlags::visible() | NodeFlags::pickable(),
            ..Default::default()
        },
    );
    let focusable_child = tree.insert(
        Some(root),
        LocalNode {
            local_bounds: Rect::new(10.0, 10.0, 60.0, 60.0),
            flags: NodeFlags::visible() | NodeFlags::pickable() | NodeFlags::focusable(),
            ..Default::default()
        },
    );
    let _non_focusable_child = tree.insert(
        Some(root),
        LocalNode {
            local_bounds: Rect::new(70.0, 10.0, 120.0, 60.0),
            flags: NodeFlags::visible() | NodeFlags::pickable(),
            ..Default::default()
        },
    );
    let _ = tree.commit();

    // Test hit_test_point with focusable_only filter
    let hit_focusable = tree.hit_test_point(
        Point::new(30.0, 30.0),
        QueryFilter::new().visible().pickable().focusable(),
    );
    assert_eq!(hit_focusable.unwrap().node, focusable_child);

    let hit_non_focusable = tree.hit_test_point(
        Point::new(90.0, 30.0),
        QueryFilter::new().visible().pickable().focusable(),
    );
    assert!(hit_non_focusable.is_none());

    // Test intersect_rect with focusable_only filter
    let focusable_intersections: Vec<NodeId> = tree
        .intersect_rect(
            Rect::new(0.0, 0.0, 200.0, 200.0),
            QueryFilter::new().visible().pickable().focusable(),
        );
    // only `focusable_child`, and not `root` and `non_focusable_child`
    assert!(set_equality(&focusable_intersections, &[focusable_child]));

    // Test contains_point with focusable_only filter
    let focusable_containing: Vec<NodeId> = tree
        .containing_point(
            Point::new(70., 70.),
            QueryFilter::new().visible().pickable().focusable(),
        );
    // nothing, as the only focusable child is `focusable_child`, and we're testing a point
    // outside it
    assert!(set_equality(&focusable_containing, &[]));
}

#[test]
fn query_filter_pickable_only() {
    let mut tree = Tree::new();
    let root = tree.insert(
        None,
        LocalNode {
            local_bounds: Rect::new(0.0, 0.0, 200.0, 200.0),
            flags: NodeFlags::visible() | NodeFlags::pickable(),
            ..Default::default()
        },
    );
    let pickable_child = tree.insert(
        Some(root),
        LocalNode {
            local_bounds: Rect::new(10.0, 10.0, 60.0, 60.0),
            flags: NodeFlags::visible() | NodeFlags::pickable(),
            ..Default::default()
        },
    );
    let non_pickable_child = tree.insert(
        Some(root),
        LocalNode {
            local_bounds: Rect::new(70.0, 10.0, 120.0, 60.0),
            flags: NodeFlags::visible(),
            ..Default::default()
        },
    );
    let _ = tree.commit();

    // Test intersect_rect with pickable_only filter
    let pickable_intersections: Vec<NodeId> = tree
        .intersect_rect(
            Rect::new(0.0, 0.0, 200.0, 200.0),
            QueryFilter::new().visible().pickable(),
        );
    // root + pickable_child
    assert!(set_equality(
        &pickable_intersections,
        &[root, pickable_child]
    ));

    // Test contains_point with pickable_only filter
    let pickable_containing: Vec<NodeId> = tree
        .containing_point(
            Point::new(75.0, 10.0),
            QueryFilter::new().visible().pickable(),
        );
    // root only, because the point is outside `pickable_child`
    assert!(set_equality(&pickable_containing, &[root]));

    // Test intersect_rect without pickable_only filter - should include all visible nodes
    let all_visible_intersections: Vec<NodeId> = tree
        .intersect_rect(
            Rect::new(0.0, 0.0, 200.0, 200.0),
            QueryFilter::new().visible(),
        );
    // all nodes
    assert!(set_equality(
        &all_visible_intersections,
        &[root, pickable_child, non_pickable_child]
    ));

    // Test contains_point without pickable_only filter
    let all_visible_containing: Vec<NodeId> = tree
        .containing_point(Point::new(75.0, 10.0), QueryFilter::new().visible());
    // `root` and `non_pickable_child` (and note the point is exactly on the top edge of
    // `non_pickable_child`), the point is outside `pickable_child`
    assert!(set_equality(
        &all_visible_containing,
        &[root, non_pickable_child]
    ));
}

#[test]
fn world_transform_and_bounds_match_updates() {
    let mut tree = Tree::new();
    let root = tree.insert(
        None,
        LocalNode {
            local_bounds: Rect::new(0.0, 0.0, 100.0, 100.0),
            local_transform: Affine::translate(Vec2::new(10.0, 20.0)),
            ..Default::default()
        },
    );
    let child = tree.insert(
        Some(root),
        LocalNode {
            local_bounds: Rect::new(0.0, 0.0, 10.0, 10.0),
            local_transform: Affine::translate(Vec2::new(5.0, 7.0)),
            ..Default::default()
        },
    );
    let _ = tree.commit();

    // Root transform is just its local transform.
    let root_tf = tree.world_transform(root).expect("root should be live");
    assert_eq!(root_tf, Affine::translate(Vec2::new(10.0, 20.0)));

    // Child transform composes parent and local.
    let child_tf = tree.world_transform(child).expect("child should be live");
    let expected_child_tf =
        Affine::translate(Vec2::new(10.0, 20.0)) * Affine::translate(Vec2::new(5.0, 7.0));
    assert_eq!(child_tf, expected_child_tf);

    // World bounds match the transformed local bounds.
    let child_bounds = tree
        .world_bounds(child)
        .expect("child should have world bounds");
    let expected_bounds =
        expected_child_tf.transform_rect_bbox(Rect::new(0.0, 0.0, 10.0, 10.0));
    assert_eq!(child_bounds, expected_bounds);
}

#[test]
fn world_transform_and_bounds_respect_liveness() {
    let mut tree = Tree::new();
    let node = tree.insert(
        None,
        LocalNode {
            local_bounds: Rect::new(0.0, 0.0, 10.0, 10.0),
            ..Default::default()
        },
    );
    let _ = tree.commit();

    assert!(tree.world_transform(node).is_some());
    assert!(tree.world_bounds(node).is_some());

    tree.remove(node);

    // Stale ids must not expose transforms or bounds.
    assert!(tree.world_transform(node).is_none());
    assert!(tree.world_bounds(node).is_none());
}

#[test]
fn depth_first_traversal() {
    let mut tree = Tree::new();
    // Build tree: root -> [a -> [c, d], b]
    let root = tree.insert(
        None,
        LocalNode {
            local_bounds: Rect::new(0.0, 0.0, 1.0, 1.0),
            ..Default::default()
        },
    );
    let a = tree.insert(
        Some(root),
        LocalNode {
            local_bounds: Rect::new(0.0, 0.0, 1.0, 1.0),
            ..Default::default()
        },
    );
    let b = tree.insert(
        Some(root),
        LocalNode {
            local_bounds: Rect::new(0.0, 0.0, 1.0, 1.0),
            ..Default::default()
        },
    );
    let c = tree.insert(
        Some(a),
        LocalNode {
            local_bounds: Rect::new(0.0, 0.0, 1.0, 1.0),
            ..Default::default()
        },
    );
    let d = tree.insert(
        Some(a),
        LocalNode {
            local_bounds: Rect::new(0.0, 0.0, 1.0, 1.0),
            ..Default::default()
        },
    );

    // Depth-first order should be: root -> a -> c -> d -> b
    let next_a = tree.next_depth_first(root).unwrap();
    assert_eq!(next_a, a);

    let next_c = tree.next_depth_first(a).unwrap();
    assert_eq!(next_c, c);

    let next_d = tree.next_depth_first(c).unwrap();
    assert_eq!(next_d, d);

    let next_b = tree.next_depth_first(d).unwrap();
    assert_eq!(next_b, b);

    // End of traversal
    assert!(tree.next_depth_first(b).is_none());
}

#[test]
fn reverse_depth_first_traversal() {
    let mut tree = Tree::new();
    // Build tree: root -> [a -> [c, d], b]
    let root = tree.insert(
        None,
        LocalNode {
            local_bounds: Rect::new(0.0, 0.0, 1.0, 1.0),
            ..Default::default()
        },
    );
    let a = tree.insert(
        Some(root),
        LocalNode {
            local_bounds: Rect::new(0.0, 0.0, 1.0, 1.0),
            ..Default::default()
        },
    );
    let b = tree.insert(
        Some(root),
        LocalNode {
            local_bounds: Rect::new(0.0, 0.0, 1.0, 1.0),
            ..Default::default()
        },
    );
    let c = tree.insert(
        Some(a),
        LocalNode {
            local_bounds: Rect::new(0.0, 0.0, 1.0, 1.0),
            ..Default::default()
        },
    );
    let d = tree.insert(
        Some(a),
        LocalNode {
            local_bounds: Rect::new(0.0, 0.0, 1.0, 1.0),
            ..Default::default()
        },
    );

    // Reverse depth-first order should be: b -> d -> c -> a -> root
    let prev_d = tree.prev_depth_first(b).unwrap();
    assert_eq!(prev_d, d);

    let prev_c = tree.prev_depth_first(d).unwrap();
    assert_eq!(prev_c, c);

    let prev_a = tree.prev_depth_first(c).unwrap();
    assert_eq!(prev_a, a);

    let prev_root = tree.prev_depth_first(a).unwrap();
    assert_eq!(prev_root, root);

    // Beginning of traversal
    assert!(tree.prev_depth_first(root).is_none());
}

#[test]
fn children_of_accessor() {
    let mut tree = Tree::new();
    let root = tree.insert(
        None,
        LocalNode {
            local_bounds: Rect::new(0.0, 0.0, 1.0, 1.0),
            ..Default::default()
        },
    );
    let a = tree.insert(
        Some(root),
        LocalNode {
            local_bounds: Rect::new(0.0, 0.0, 1.0, 1.0),
            ..Default::default()
        },
    );
    let b = tree.insert(
        Some(root),
        LocalNode {
            local_bounds: Rect::new(0.0, 0.0, 1.0, 1.0),
            ..Default::default()
        },
    );

    let children = tree.children_of(root);
    assert_eq!(children.len(), 2);
    assert_eq!(children[0], a);
    assert_eq!(children[1], b);

    assert!(tree.children_of(a).is_empty());
    assert!(tree.children_of(b).is_empty());

    tree.remove(a);
    // Stale ids return empty slice
    assert!(tree.children_of(a).is_empty());
}

#[test]
fn traversal_respects_liveness() {
    let mut tree = Tree::new();
    let root = tree.insert(
        None,
        LocalNode {
            local_bounds: Rect::new(0.0, 0.0, 1.0, 1.0),
            ..Default::default()
        },
    );
    let child = tree.insert(
        Some(root),
        LocalNode {
            local_bounds: Rect::new(0.0, 0.0, 1.0, 1.0),
            ..Default::default()
        },
    );

    assert!(tree.next_depth_first(root).is_some());
    assert!(tree.prev_depth_first(child).is_some());

    tree.remove(child);

    // Stale ids return None for traversal
    assert!(tree.next_depth_first(child).is_none());
    assert!(tree.prev_depth_first(child).is_none());
}

#[test]
fn depth_changes_during_traversal() {
    let mut tree = Tree::new();
    // Build tree: root -> a -> b -> c
    let root = tree.insert(
        None,
        LocalNode {
            local_bounds: Rect::new(0.0, 0.0, 1.0, 1.0),
            ..Default::default()
        },
    );
    let a = tree.insert(
        Some(root),
        LocalNode {
            local_bounds: Rect::new(0.0, 0.0, 1.0, 1.0),
            ..Default::default()
        },
    );
    let b = tree.insert(
        Some(a),
        LocalNode {
            local_bounds: Rect::new(0.0, 0.0, 1.0, 1.0),
            ..Default::default()
        },
    );
    let c = tree.insert(
        Some(b),
        LocalNode {
            local_bounds: Rect::new(0.0, 0.0, 1.0, 1.0),
            ..Default::default()
        },
    );

    // Forward traversal
    let next = tree.next_depth_first(root).unwrap();
    assert_eq!(next, a);

    let next = tree.next_depth_first(a).unwrap();
    assert_eq!(next, b);

    let next = tree.next_depth_first(b).unwrap();
    assert_eq!(next, c);

    // Reverse traversal
    let prev = tree.prev_depth_first(c).unwrap();
    assert_eq!(prev, b);

    let prev = tree.prev_depth_first(b).unwrap();
    assert_eq!(prev, a);

    let prev = tree.prev_depth_first(a).unwrap();
    assert_eq!(prev, root);
}

#[test]
fn non_axis_aligned_bbox_rotation() {
    // The bounding box of a square rotated by 45 degrees has sides of length
    // `sqrt(2) * original length`, hence twice the area of the square.
    let rect = Rect::new(-1., -1., 2., 2.);
    let mut tree = Tree::new();
    let node = tree.insert(
        None,
        LocalNode {
            local_bounds: rect,
            local_transform: Affine::rotate(45_f64.to_radians()),
            ..Default::default()
        },
    );
    let _ = tree.commit();
    let bbox_rotation = tree.world_bounds(node).unwrap();
    assert!((bbox_rotation.area() - 2. * rect.area()).abs() < 1e-8);
}

#[test]
fn transforms_compose_along_a_chain() {
    let t_r = Affine::translate(Vec2::new(10.0, 20.0));
    let t_a = Affine::scale(2.0);
    let t_b = Affine::translate(Vec2::new(-3.0, 4.0));
    let mut tree = Tree::new();
    let node = |tf: Affine| LocalNode {
        local_bounds: Rect::new(0.0, 0.0, 10.0, 10.0),
        local_transform: tf,
        ..Default::default()
    };
    let r = tree.insert(None, node(t_r));
    let a = tree.insert(Some(r), node(t_a));
    let b = tree.insert(Some(a), node(t_b));
    let _ = tree.commit();
    assert_eq!(tree.world_transform(r), Some(t_r));
    assert_eq!(tree.world_transform(a), Some(t_r * t_a));
    assert_eq!(tree.world_transform(b), Some(t_r * t_a * t_b));
    // (0,0)-(10,10) moved by (-3,4), doubled, moved by (10,20).
    assert_eq!(tree.world_bounds(b), Some(Rect::new(4.0, 28.0, 24.0, 48.0)));
}

#[test]
fn world_bounds_contain_the_rotated_shape() {
    let mut tree = Tree::new();
    let bounds = Rect::new(0.0, 0.0, 10.0, 4.0);
    let tf = Affine::rotate(FRAC_PI_4);
    let node = tree.insert(
        None,
        LocalNode { local_bounds: bounds, local_transform: tf, ..Default::default() },
    );
    let _ = tree.commit();
    let world = tree.world_bounds(node).unwrap();
    for corner in [(0.0, 0.0), (10.0, 0.0), (0.0, 4.0), (10.0, 4.0), (5.0, 2.0)] {
        let p = tf * Point::new(corner.0, corner.1);
        assert!(world.x0 <= p.x && p.x <= world.x1);
        assert!(world.y0 <= p.y && p.y <= world.y1);
    }
}

#[test]
fn moving_a_leaf_damages_old_and_new_bounds() {
    let mut tree = Tree::new();
    let root = tree.insert(
        None,
        LocalNode { local_bounds: Rect::new(0.0, 0.0, 100.0, 100.0), ..Default::default() },
    );
    let leaf = tree.insert(
        Some(root),
        LocalNode { local_bounds: Rect::new(0.0, 0.0, 10.0, 10.0), ..Default::default() },
    );
    let _ = tree.commit();
    let old = tree.world_bounds(leaf).unwrap();
    tree.set_local_transform(leaf, Affine::translate(Vec2::new(50.0, 30.0)));
    let damage = tree.commit();
    let new = tree.world_bounds(leaf).unwrap();
    assert_eq!(new, Rect::new(50.0, 30.0, 60.0, 40.0));
    assert!(!damage.is_empty());
    assert_eq!(damage.dirty_rects, vec![old, new, old.union(new)]);
    let union = damage.union_rect().unwrap();
    assert_eq!(union, Rect::new(0.0, 0.0, 60.0, 40.0));
    assert_eq!(union.union(old), union);
    assert_eq!(union.union(new), union);
}

#[test]
fn unchanged_values_stage_nothing() {
    let mut tree = Tree::new();
    let clip = RoundedRect::from_rect(Rect::new(0.0, 0.0, 50.0, 50.0), 5.0);
    let node = tree.insert(
        None,
        LocalNode {
            local_bounds: Rect::new(0.0, 0.0, 10.0, 10.0),
            local_clip: Some(clip),
            ..Default::default()
        },
    );
    let _ = tree.commit();
    tree.set_local_bounds(node, Rect::new(0.0, 0.0, 10.0, 10.0));
    tree.set_local_transform(node, Affine::IDENTITY);
    tree.set_local_clip(node, Some(clip));
    tree.set_z_index(node, 0);
    tree.set_flags(node, NodeFlags::visible() | NodeFlags::pickable());
    assert!(tree.commit().is_empty());
    tree.set_local_bounds(node, Rect::new(0.0, 0.0, 20.0, 10.0));
    assert!(!tree.commit().is_empty());
}

#[test]
fn rect_query_includes_a_shared_edge() {
    let mut tree = Tree::new();
    let node = tree.insert(
        None,
        LocalNode { local_bounds: Rect::new(0.0, 0.0, 10.0, 10.0), ..Default::default() },
    );
    let _ = tree.commit();
    let all = QueryFilter::new();
    // The query rectangle starts where the node ends.
    assert_eq!(tree.intersect_rect(Rect::new(10.0, 0.0, 20.0, 10.0), all), vec![node]);
    assert_eq!(tree.intersect_rect(Rect::new(0.0, 10.0, 10.0, 20.0), all), vec![node]);
    assert_eq!(tree.intersect_rect(Rect::new(-5.0, -5.0, 0.0, 0.0), all), vec![node]);
    assert!(tree.intersect_rect(Rect::new(10.5, 0.0, 20.0, 10.0), all).is_empty());
    // Negative coordinates order as numbers do.
    assert!(tree.intersect_rect(Rect::new(-20.0, -20.0, -0.5, -0.5), all).is_empty());
}

#[test]
fn removal_is_damaged_and_forgotten() {
    let mut tree = Tree::new();
    let root = tree.insert(
        None,
        LocalNode { local_bounds: Rect::new(0.0, 0.0, 100.0, 100.0), ..Default::default() },
    );
    let child = tree.insert(
        Some(root),
        LocalNode { local_bounds: Rect::new(20.0, 20.0, 40.0, 40.0), ..Default::default() },
    );
    let grandchild = tree.insert(
        Some(child),
        LocalNode { local_bounds: Rect::new(25.0, 25.0, 30.0, 30.0), ..Default::default() },
    );
    let _ = tree.commit();
    tree.remove(child);
    assert!(!tree.is_alive(child));
    assert!(!tree.is_alive(grandchild));
    assert_eq!(tree.children_of(root).len(), 0);
    // Until the commit the index still holds the boxes; the nodes are not reported.
    let hit = tree.hit_test_point(Point::new(26.0, 26.0), QueryFilter::new()).unwrap();
    assert_eq!(hit.node, root);
    let damage = tree.commit();
    assert_eq!(damage.union_rect(), Some(Rect::new(20.0, 20.0, 40.0, 40.0)));
    assert!(tree.commit().is_empty());
}

#[test]
fn reparent_moves_the_subtree() {
    let mut tree = Tree::new();
    let a = tree.insert(
        None,
        LocalNode {
            local_bounds: Rect::new(0.0, 0.0, 10.0, 10.0),
            local_transform: Affine::translate(Vec2::new(100.0, 0.0)),
            ..Default::default()
        },
    );
    let b = tree.insert(
        None,
        LocalNode { local_bounds: Rect::new(0.0, 0.0, 10.0, 10.0), ..Default::default() },
    );
    let leaf = tree.insert(
        Some(b),
        LocalNode { local_bounds: Rect::new(1.0, 1.0, 2.0, 2.0), ..Default::default() },
    );
    let _ = tree.commit();
    assert_eq!(tree.world_bounds(leaf), Some(Rect::new(1.0, 1.0, 2.0, 2.0)));
    assert!(tree.can_reparent(b, Some(a)));
    assert!(!tree.can_reparent(b, Some(leaf)));
    assert!(!tree.can_reparent(b, Some(b)));
    tree.reparent(b, Some(a));
    assert_eq!(tree.parent_of(b), Some(a));
    assert_eq!(tree.children_of(a), &[b]);
    let _ = tree.commit();
    assert_eq!(tree.world_bounds(leaf), Some(Rect::new(101.0, 1.0, 102.0, 2.0)));
    tree.reparent(b, None);
    assert_eq!(tree.parent_of(b), None);
    assert!(tree.children_of(a).is_empty());
    let _ = tree.commit();
    assert_eq!(tree.world_bounds(leaf), Some(Rect::new(1.0, 1.0, 2.0, 2.0)));
}

#[test]
fn hit_test_goes_through_inverse_transforms() {
    let mut tree = Tree::new();
    let root = tree.insert(
        None,
        LocalNode {
            local_bounds: Rect::new(0.0, 0.0, 10.0, 10.0),
            local_transform: Affine::translate(Vec2::new(100.0, 100.0)) * Affine::scale(2.0),
            ..Default::default()
        },
    );
    let _ = tree.commit();
    assert_eq!(tree.world_bounds(root), Some(Rect::new(100.0, 100.0, 120.0, 120.0)));
    let hit = tree.hit_test_point(Point::new(119.0, 101.0), QueryFilter::new()).unwrap();
    assert_eq!(hit.node, root);
    assert_eq!(hit.path, vec![root]);
    assert!(tree.hit_test_point(Point::new(9.0, 9.0), QueryFilter::new()).is_none());
    assert!(tree.containing_point(Point::new(120.0, 120.0), QueryFilter::new()) == vec![root]);
    // The far edge belongs to the box, not to the rectangle.
    assert!(tree.hit_test_point(Point::new(120.0, 120.0), QueryFilter::new()).is_none());
}

#[test]
fn flags_combine_and_filter() {
    let both = NodeFlags::visible() | NodeFlags::pickable();
    assert_eq!(both, NodeFlags::default());
    assert_eq!(both.bits(), 3);
    assert!(both.contains(NodeFlags::visible()));
    assert!(!both.contains(NodeFlags::focusable()));
    assert!(NodeFlags::all().contains(both));
    assert!(NodeFlags::empty().is_empty());
    assert_eq!(NodeFlags::from_bits_truncate(0xff), NodeFlags::all());
    assert!(QueryFilter::new().matches(NodeFlags::empty()));
    assert!(QueryFilter::new().visible().pickable().matches(both));
    assert!(!QueryFilter::new().focusable().matches(both));
}

#[test]
fn damage_union_joins_every_rectangle() {
    assert_eq!(understory::box_tree::damage::union_of(&Vec::new()), None);
    let rects = vec![
        Rect::new(0.0, 0.0, 1.0, 1.0),
        Rect::new(5.0, -2.0, 6.0, 0.5),
        Rect::new(-3.0, 0.25, -2.0, 7.0),
    ];
    assert_eq!(
        understory::box_tree::damage::union_of(&rects),
        Some(Rect::new(-3.0, -2.0, 6.0, 7.0))
    );
    let mut damage = understory::box_tree::Damage::new();
    assert!(damage.is_empty());
    assert_eq!(damage.union_rect(), None);
    damage.dirty_rects = rects;
    assert!(!damage.is_empty());
    assert_eq!(damage.union_rect(), Some(Rect::new(-3.0, -2.0, 6.0, 7.0)));
}

#[test]
fn a_small_tree_can_always_commit() {
    let mut tree = Tree::new();
    assert!(tree.can_commit());
    assert!(tree.has_room());
    let root = tree.insert(None, LocalNode::default());
    assert!(tree.can_commit());
    let _ = tree.commit();
    tree.remove(root);
    assert!(tree.can_commit());
    // The box that leaves the index is reported, empty as it is.
    assert_eq!(tree.commit().dirty_rects, vec![Rect::ZERO]);
    assert!(tree.commit().is_empty());
    assert_eq!(
        understory::box_tree::tree::reversed(vec![NodeId::new(0, 1), NodeId::new(1, 1)]),
        vec![NodeId::new(1, 1), NodeId::new(0, 1)]
    );
}

#[test]
fn removal_frees_children_before_their_parent() {
    let mut tree = Tree::new();
    let root = tree.insert(None, LocalNode::default());
    let a = tree.insert(Some(root), LocalNode::default());
    let a1 = tree.insert(Some(a), LocalNode::default());
    let a2 = tree.insert(Some(a), LocalNode::default());
    let b = tree.insert(Some(root), LocalNode::default());
    assert_eq!(
        [root, a, a1, a2, b],
        [
            NodeId::new(0, 1),
            NodeId::new(1, 1),
            NodeId::new(2, 1),
            NodeId::new(3, 1),
            NodeId::new(4, 1)
        ]
    );
    tree.remove(root);
    for id in [root, a, a1, a2, b] {
        assert!(!tree.is_alive(id));
    }
    // The slots were freed in the order a1, a2, a, b, root; the one freed
    // last is used first.
    let reused: Vec<NodeId> = (0..5).map(|_| tree.insert(None, LocalNode::default())).collect();
    assert_eq!(
        reused,
        vec![
            NodeId::new(0, 2),
            NodeId::new(4, 2),
            NodeId::new(1, 2),
            NodeId::new(3, 2),
            NodeId::new(2, 2)
        ]
    );
    assert_eq!(tree.insert(None, LocalNode::default()), NodeId::new(5, 1));
}

#[test]
fn default_tree_is_empty() {
    let mut tree: Tree = Default::default();
    assert!(tree.commit().is_empty());
    assert!(tree.hit_test_point(Point::new(0.0, 0.0), QueryFilter::default()).is_none());
    let damage: understory::box_tree::Damage = Default::default();
    assert!(damage.is_empty());
    assert!(damage.clone().dirty_rects.is_empty());
    assert_eq!(tree.insert(None, LocalNode::default()), NodeId::new(0, 1));
}

#[test]
fn hit_paths_run_from_the_root_to_the_node() {
    let mut tree = Tree::new();
    let node = |x0: f64, y0: f64, x1: f64, y1: f64, z: i32| LocalNode {
        local_bounds: Rect::new(x0, y0, x1, y1),
        z_index: z,
        ..Default::default()
    };
    let root = tree.insert(None, node(0.0, 0.0, 200.0, 200.0, 0));
    let _a = tree.insert(Some(root), node(10.0, 10.0, 60.0, 60.0, 0));
    let b = tree.insert(Some(root), node(40.0, 40.0, 120.0, 120.0, 10));
    let _ = tree.commit();
    let filter = QueryFilter::new().visible().pickable();
    let hit = tree.hit_test_point(Point::new(50.0, 50.0), filter).unwrap();
    assert_eq!(hit.node, b);
    assert_eq!(hit.path, vec![root, b]);

    let mut deep = Tree::new();
    let r = deep.insert(None, node(0.0, 0.0, 200.0, 200.0, 0));
    let c = deep.insert(Some(r), node(40.0, 40.0, 160.0, 160.0, 0));
    let g = deep.insert(Some(c), node(80.0, 80.0, 120.0, 120.0, 0));
    let _ = deep.commit();
    for _ in 0..3 {
        let hit = deep.hit_test_point(Point::new(100.0, 100.0), filter).unwrap();
        assert_eq!(hit.node, g);
        assert_eq!(hit.path, vec![r, c, g]);
    }
}

#[test]
fn a_stale_parent_adopts_nothing() {
    let mut tree = Tree::new();
    let root = tree.insert(None, LocalNode::default());
    let gone = tree.insert(Some(root), LocalNode::default());
    tree.remove(gone);
    // The slot is vacant: the node becomes a root.
    let orphan = tree.insert(Some(gone), LocalNode::default());
    assert_eq!(orphan, NodeId::new(1, 2));
    assert_eq!(tree.parent_of(orphan), None);
    assert!(tree.children_of(root).is_empty());
    // The slot holds another node now: it does not get the child.
    let child = tree.insert(Some(gone), LocalNode::default());
    assert_eq!(tree.parent_of(child), None);
    assert!(tree.children_of(orphan).is_empty());
    assert!(tree.children_of(root).is_empty());
    // Moving a node under a stale parent changes nothing.
    let kept = tree.insert(Some(root), LocalNode::default());
    let _ = tree.commit();
    tree.reparent(kept, Some(gone));
    assert_eq!(tree.parent_of(kept), Some(root));
    assert_eq!(tree.children_of(root), &[kept]);
    assert!(tree.children_of(orphan).is_empty());
    assert!(tree.commit().is_empty());
    // Moving a stale node changes nothing either.
    tree.reparent(gone, Some(root));
    assert_eq!(tree.children_of(root), &[kept]);
}

#[test]
fn default_local_node() {
    let local = LocalNode::default();
    assert_eq!(local.local_bounds, Rect::ZERO);
    assert_eq!(local.local_transform, Affine::IDENTITY);
    assert_eq!(local.local_clip, None);
    assert_eq!(local.z_index, 0);
    assert_eq!(local.flags, NodeFlags::visible() | NodeFlags::pickable());
}

#[test]
fn damage_union_covers_old_and_new_bounds() {
    let mut tree = Tree::new();
    let root = tree.insert(
        None,
        LocalNode { local_bounds: Rect::new(0.0, 0.0, 100.0, 100.0), ..Default::default() },
    );
    let leaf = tree.insert(
        Some(root),
        LocalNode { local_bounds: Rect::new(-4.0, -0.0, 10.0, 10.0), ..Default::default() },
    );
    let _ = tree.commit();
    let old = tree.world_bounds(leaf).unwrap();
    tree.set_local_transform(leaf, Affine::translate(Vec2::new(-50.0, 30.0)));
    let damage = tree.commit();
    let new = tree.world_bounds(leaf).unwrap();
    let union = damage.union_rect().unwrap();
    for r in [old, new] {
        assert!(union.x0 <= r.x0 && union.y0 <= r.y0 && r.x1 <= union.x1 && r.y1 <= union.y1);
    }
    for r in &damage.dirty_rects {
        assert!(union.x0 <= r.x0 && union.y0 <= r.y0 && r.x1 <= union.x1 && r.y1 <= union.y1);
    }
}

#[test]
fn clipped_bounds_keep_what_lies_within_the_clip() {
    let mut tree = Tree::new();
    let clip = RoundedRect::from_rect(Rect::new(0.0, 0.0, 50.0, 50.0), 0.0);
    let root = tree.insert(
        None,
        LocalNode {
            local_bounds: Rect::new(0.0, 0.0, 100.0, 100.0),
            local_clip: Some(clip),
            ..Default::default()
        },
    );
    let tf = Affine::translate(Vec2::new(30.0, 40.0));
    let child = tree.insert(
        Some(root),
        LocalNode {
            local_bounds: Rect::new(0.0, 0.0, 40.0, 40.0),
            local_transform: tf,
            ..Default::default()
        },
    );
    let _ = tree.commit();
    let bounds = tree.world_bounds(child).unwrap();
    assert_eq!(bounds, Rect::new(30.0, 40.0, 50.0, 50.0));
    // The corner at the origin of the child lies within the clip and so within the bounds.
    let corner = tf * Point::new(0.0, 0.0);
    assert!(bounds.x0 <= corner.x && corner.x <= bounds.x1);
    assert!(bounds.y0 <= corner.y && corner.y <= bounds.y1);
    // Without a clip all four corners do.
    let free = tree.insert(
        None,
        LocalNode {
            local_bounds: Rect::new(-1.0, -2.0, 3.0, 4.0),
            local_transform: Affine::rotate(1.0) * Affine::scale(3.0),
            ..Default::default()
        },
    );
    let _ = tree.commit();
    let bounds = tree.world_bounds(free).unwrap();
    let w = tree.world_transform(free).unwrap();
    for (x, y) in [(-1.0, -2.0), (-1.0, 4.0), (3.0, -2.0), (3.0, 4.0)] {
        let p = w * Point::new(x, y);
        assert!(bounds.x0 <= p.x && p.x <= bounds.x1 && bounds.y0 <= p.y && p.y <= bounds.y1);
    }
}
