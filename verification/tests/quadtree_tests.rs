use geomath::dim2::Vec2;
use geomath::quadtree::Extent;
use geomath::quadtree::QuadtreeError;
use geomath::quadtree::QuadtreeNode;
use geomath::quadtree::SpatialIndex;

fn v(x: i64, y: i64) -> Vec2 {
    Vec2 { x, y }
}

/// Checks that every leaf in the tree holds at most `cap` entries.
fn leaves_within<T>(node: &QuadtreeNode<T>, cap: usize) -> bool {
    match node {
        QuadtreeNode::Leaf { data, .. } => data.len() <= cap,
        QuadtreeNode::Internal { children, .. } => {
            leaves_within(&children.nw, cap)
                && leaves_within(&children.ne, cap)
                && leaves_within(&children.sw, cap)
                && leaves_within(&children.se, cap)
        }
    }
}

#[test]
fn scenario_split_at_capacity() {
    // Root extent [(0,0),(4,4)], capacity 2.
    let mut idx: SpatialIndex<i32> = SpatialIndex::new([v(0, 0), v(4, 4)], 2).unwrap();
    idx.insert(v(1, 1), 10).unwrap();
    idx.insert(v(1, 2), 20).unwrap();
    assert_eq!(idx.len(), 2);
    assert!(matches!(idx.root, QuadtreeNode::Leaf { .. }));

    // The third insert triggers a split.
    idx.insert(v(1, 3), 30).unwrap();
    assert_eq!(idx.len(), 3);
    match &idx.root {
        QuadtreeNode::Internal { extent, children } => {
            assert_eq!(*extent, Extent { min: v(0, 0), max: v(4, 4) });
            // All four children are leaves covering the quadrants.
            assert!(matches!(children.nw, QuadtreeNode::Leaf { .. }));
            assert!(matches!(children.ne, QuadtreeNode::Leaf { .. }));
            assert!(matches!(children.sw, QuadtreeNode::Leaf { .. }));
            assert!(matches!(children.se, QuadtreeNode::Leaf { .. }));
            // Each point sits in the first child (in scan order) whose
            // extent contains it: (1,2) and (1,3) in NW, (1,1) in SW.
            match &children.nw {
                QuadtreeNode::Leaf { extent, data } => {
                    assert_eq!(*extent, Extent { min: v(0, 2), max: v(2, 4) });
                    assert_eq!(*data, vec![(v(1, 2), 20), (v(1, 3), 30)]);
                }
                _ => unreachable!(),
            }
            match &children.sw {
                QuadtreeNode::Leaf { extent, data } => {
                    assert_eq!(*extent, Extent { min: v(0, 0), max: v(2, 2) });
                    assert_eq!(*data, vec![(v(1, 1), 10)]);
                }
                _ => unreachable!(),
            }
            match &children.ne {
                QuadtreeNode::Leaf { data, .. } => assert!(data.is_empty()),
                _ => unreachable!(),
            }
            match &children.se {
                QuadtreeNode::Leaf { data, .. } => assert!(data.is_empty()),
                _ => unreachable!(),
            }
        }
        _ => panic!("root should be an internal node after the split"),
    }
    assert!(leaves_within(&idx.root, 2));
}

#[test]
fn scenario_invalid_extent() {
    let r: Result<SpatialIndex<i32>, QuadtreeError> =
        SpatialIndex::new([v(1, 1), v(0, 0)], 8);
    match r {
        Err(e) => assert_eq!(e, QuadtreeError::InvalidExtent),
        Ok(_) => panic!("an inverted extent must be rejected"),
    }
    let n: Result<QuadtreeNode<i32>, QuadtreeError> = QuadtreeNode::new([v(1, 1), v(0, 0)]);
    assert_eq!(n.unwrap_err(), QuadtreeError::InvalidExtent);
}

#[test]
fn scenario_out_of_bounds_insert() {
    let mut idx: SpatialIndex<i32> = SpatialIndex::new([v(0, 0), v(4, 4)], 2).unwrap();
    idx.insert(v(1, 1), 1).unwrap();
    let before = idx.len();
    assert_eq!(idx.insert(v(5, 5), 2), Err(QuadtreeError::OutOfBounds));
    // The failed insert corrupted nothing.
    assert_eq!(idx.len(), before);
    let entries = idx.entries();
    assert_eq!(entries.len(), 1);
    assert_eq!(*entries[0], (v(1, 1), 1));
}

#[test]
fn duplicates_are_kept() {
    let mut idx: SpatialIndex<i32> = SpatialIndex::new([v(0, 0), v(4, 4)], 4).unwrap();
    idx.insert(v(1, 1), 7).unwrap();
    idx.insert(v(1, 1), 7).unwrap();
    assert_eq!(idx.len(), 2);
    let entries = idx.entries();
    assert!(entries.iter().all(|e| **e == (v(1, 1), 7)));
}

#[test]
fn identical_inserts_build_identical_trees() {
    let points = [
        (v(0, 0), 1),
        (v(4, 4), 2),
        (v(2, 2), 3),
        (v(1, 3), 4),
        (v(3, 1), 5),
        (v(2, 2), 6),
        (v(0, 4), 7),
    ];
    let mut a: SpatialIndex<i32> = SpatialIndex::new([v(0, 0), v(4, 4)], 2).unwrap();
    let mut b: SpatialIndex<i32> = SpatialIndex::new([v(0, 0), v(4, 4)], 2).unwrap();
    for (p, d) in points.iter() {
        let ra = a.insert(*p, *d);
        let rb = b.insert(*p, *d);
        assert_eq!(ra, rb);
    }
    assert_eq!(a.root, b.root);
    assert_eq!(a.capacity, b.capacity);
}

#[test]
fn boundary_point_routes_to_first_matching_child() {
    // (2,2) lies exactly on both splitting lines of [(0,0),(4,4)]; the
    // first matching child in scan order is NW.
    let mut idx: SpatialIndex<i32> = SpatialIndex::new([v(0, 0), v(4, 4)], 2).unwrap();
    idx.insert(v(2, 2), 1).unwrap();
    idx.insert(v(2, 2), 2).unwrap();
    idx.insert(v(3, 3), 3).unwrap();
    match &idx.root {
        QuadtreeNode::Internal { children, .. } => {
            match &children.nw {
                QuadtreeNode::Leaf { data, .. } => {
                    assert_eq!(*data, vec![(v(2, 2), 1), (v(2, 2), 2)]);
                }
                _ => unreachable!(),
            }
            match &children.ne {
                QuadtreeNode::Leaf { data, .. } => {
                    assert_eq!(*data, vec![(v(3, 3), 3)]);
                }
                _ => unreachable!(),
            }
        }
        _ => panic!("expected a split"),
    }
}

#[test]
fn conservation_across_splits() {
    let points = [
        (v(0, 0), 0),
        (v(1, 1), 1),
        (v(2, 2), 2),
        (v(3, 3), 3),
        (v(4, 4), 4),
        (v(4, 0), 5),
        (v(0, 4), 6),
        (v(1, 2), 7),
        (v(2, 1), 8),
    ];
    let mut idx: SpatialIndex<i32> = SpatialIndex::new([v(0, 0), v(4, 4)], 2).unwrap();
    for (p, d) in points.iter() {
        idx.insert(*p, *d).unwrap();
    }
    assert_eq!(idx.len(), points.len());
    // Every inserted pair is reachable exactly once.
    let entries = idx.entries();
    for (p, d) in points.iter() {
        let count = entries.iter().filter(|e| ***e == (*p, *d)).count();
        assert_eq!(count, 1);
    }
    assert!(leaves_within(&idx.root, 2));
}

#[test]
fn saturated_cluster_is_rejected_and_tree_unchanged() {
    // Two points that share the degenerate north-east corner cell of
    // [(0,0),(1,1)] can never be separated by subdivision.
    let mut idx: SpatialIndex<i32> = SpatialIndex::new([v(0, 0), v(1, 1)], 1).unwrap();
    idx.insert(v(1, 0), 1).unwrap();
    assert_eq!(idx.insert(v(1, 1), 2), Err(QuadtreeError::Saturated));
    assert_eq!(idx.len(), 1);
    assert!(matches!(idx.root, QuadtreeNode::Leaf { .. }));
    let entries = idx.entries();
    assert_eq!(*entries[0], (v(1, 0), 1));
}

#[test]
fn empty_index_has_no_entries() {
    let idx: SpatialIndex<i32> = SpatialIndex::new([v(-8, -8), v(8, 8)], 8).unwrap();
    assert_eq!(idx.len(), 0);
    assert!(idx.entries().is_empty());
    match &idx.root {
        QuadtreeNode::Leaf { extent, data } => {
            assert_eq!(*extent, Extent { min: v(-8, -8), max: v(8, 8) });
            assert!(data.is_empty());
        }
        _ => unreachable!(),
    }
}

#[test]
fn negative_coordinates_are_supported() {
    let mut idx: SpatialIndex<&str> = SpatialIndex::new([v(-100, -100), v(100, 100)], 2).unwrap();
    idx.insert(v(-50, -50), "a").unwrap();
    idx.insert(v(50, 50), "b").unwrap();
    idx.insert(v(-50, 50), "c").unwrap();
    idx.insert(v(50, -50), "d").unwrap();
    assert_eq!(idx.len(), 4);
    assert!(leaves_within(&idx.root, 2));
}

#[test]
fn node_level_api() {
    // The node type can be driven directly, passing the capacity per
    // call.
    let mut node: QuadtreeNode<u8> = QuadtreeNode::new([v(0, 0), v(8, 8)]).unwrap();
    node.insert(v(3, 3), 1, 1).unwrap();
    assert_eq!(node.len(), 1);
    node.insert(v(6, 6), 2, 1).unwrap();
    assert_eq!(node.len(), 2);
    assert!(matches!(node, QuadtreeNode::Internal { .. }));
    assert_eq!(node.insert(v(9, 9), 3, 1), Err(QuadtreeError::OutOfBounds));
    let entries = node.entries();
    assert_eq!(entries.len(), 2);
}
