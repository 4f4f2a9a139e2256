use quadtree::geometry::Rect;
use quadtree::tree::QuadTree;

fn rect(x: i32, y: i32, w: i32, h: i32) -> Rect {
    Rect { x, y, w, h }
}

fn point(x: i32, y: i32) -> Rect {
    Rect { x, y, w: 1, h: 1 }
}

/// The entries as sortable tuples, for order-insensitive comparison.
fn keys(entries: &[Rect]) -> Vec<(i32, i32, i32, i32)> {
    let mut v: Vec<(i32, i32, i32, i32)> = entries.iter().map(|r| (r.x, r.y, r.w, r.h)).collect();
    v.sort();
    v
}

#[test]
fn containment_boundary_inclusivity() {
    let boundary = rect(0, 0, 10, 10);
    assert!(boundary.contains(&point(0, 0)));
    assert!(boundary.contains(&point(10, 10)));
    assert!(boundary.contains(&point(10, 0)));
    assert!(boundary.contains(&point(0, 10)));
    assert!(!boundary.contains(&point(11, 0)));
    assert!(!boundary.contains(&point(-1, 5)));
}

#[test]
fn intersection_edge_exclusivity() {
    let a = rect(0, 0, 10, 10);
    let touching = rect(10, 0, 10, 10);
    let overlapping = rect(9, 0, 10, 10);
    assert!(!a.intersects(&touching));
    assert!(!touching.intersects(&a));
    assert!(a.intersects(&overlapping));
    assert!(overlapping.intersects(&a));
}

#[test]
fn capacity_respected_before_split() {
    let mut tree = QuadTree::new(rect(0, 0, 100, 100), 4);
    assert_eq!(tree.boundaries().len(), 1);

    // Four entries fill a fresh leaf exactly; children stay absent.
    assert!(tree.insert(point(10, 10)));
    assert!(tree.insert(point(60, 10)));
    assert!(tree.insert(point(10, 60)));
    assert!(tree.insert(point(60, 60)));
    assert_eq!(tree.boundaries().len(), 1);
    assert_eq!(tree.stored_entries().len(), 4);

    // One more causes exactly one subdivision at the root: the root
    // boundary plus four quadrant boundaries.
    assert!(tree.insert(point(30, 30)));
    assert_eq!(tree.boundaries().len(), 5);
    assert_eq!(tree.stored_entries().len(), 5);
}

#[test]
fn subdivision_quadrants_truncate() {
    let mut tree = QuadTree::new(rect(0, 0, 101, 51), 1);
    assert!(tree.insert(point(1, 1)));
    assert!(tree.insert(point(80, 40)));
    let bs = tree.boundaries();
    assert_eq!(
        keys(&bs),
        keys(&[
            rect(0, 0, 101, 51),
            rect(0, 0, 50, 25),
            rect(50, 0, 50, 25),
            rect(0, 25, 50, 25),
            rect(50, 25, 50, 25),
        ])
    );
}

#[test]
fn insert_query_consistency() {
    let boundary = rect(0, 0, 100, 100);
    let mut tree = QuadTree::new(boundary, 2);
    let entries = [
        point(5, 5),
        point(95, 5),
        point(5, 95),
        point(95, 95),
        point(50, 50),
        point(12, 73),
        point(73, 12),
    ];
    for e in &entries {
        assert!(tree.insert(*e));
    }
    let found = tree.query(boundary).expect("the boundary intersects itself");
    assert_eq!(keys(&found), keys(&entries));
}

#[test]
fn entries_before_subdivision_stay_at_node() {
    let boundary = rect(0, 0, 100, 100);
    let mut tree = QuadTree::new(boundary, 2);
    assert!(tree.insert(point(10, 10)));
    assert!(tree.insert(point(20, 20)));
    assert!(tree.insert(point(70, 70)));
    assert_eq!(tree.boundaries().len(), 5);
    // Storage order: the root's two pre-subdivision entries first, then the
    // one that descended into a quadrant.
    let stored = tree.stored_entries();
    assert_eq!(stored, vec![point(10, 10), point(20, 20), point(70, 70)]);
    // A boundary-wide query reports them in that same order.
    let found = tree.query(boundary).expect("the boundary intersects itself");
    assert_eq!(found, stored);
}

#[test]
fn disjoint_region_pruning() {
    let mut tree = QuadTree::new(rect(0, 0, 100, 100), 4);
    assert!(tree.insert(point(50, 50)));
    // Wholly outside: pruned with the "none" signal.
    assert_eq!(tree.query(rect(200, 200, 50, 50)), None);
    // Touching the right edge exactly: intersection is strict, still pruned.
    assert_eq!(tree.query(rect(100, 0, 10, 10)), None);
    // Overlapping by one unit: not pruned.
    assert!(tree.query(rect(99, 0, 10, 10)).is_some());
}

#[test]
fn out_of_bounds_rejection() {
    let mut tree = QuadTree::new(rect(0, 0, 100, 100), 4);
    assert!(tree.insert(point(3, 3)));
    let before = tree.stored_entries();
    assert!(!tree.insert(point(101, 5)));
    assert!(!tree.insert(point(5, -1)));
    assert_eq!(tree.stored_entries(), before);
}

#[test]
fn idempotent_query() {
    let mut tree = QuadTree::new(rect(0, 0, 100, 100), 2);
    for e in [point(5, 5), point(95, 5), point(50, 50), point(12, 73)] {
        assert!(tree.insert(e));
    }
    let region = rect(10, 10, 60, 60);
    let first = tree.query(region);
    let second = tree.query(region);
    assert_eq!(first, second);
}

#[test]
fn query_region_containment_is_inclusive() {
    let mut tree = QuadTree::new(rect(0, 0, 100, 100), 4);
    assert!(tree.insert(point(30, 30)));
    // The query region's containment test is edge-inclusive, so an entry
    // whose origin sits exactly on the region's corner is reported.
    let found = tree.query(rect(30, 30, 5, 5)).expect("regions overlap");
    assert_eq!(found, vec![point(30, 30)]);
    // An entry just outside the region is not.
    let found = tree.query(rect(31, 31, 5, 5)).expect("regions overlap");
    assert_eq!(found, Vec::<Rect>::new());
}

#[test]
fn zero_area_query_region_is_well_defined() {
    let mut tree = QuadTree::new(rect(0, 0, 100, 100), 4);
    assert!(tree.insert(point(50, 50)));
    // A zero-area region still overlaps a boundary of positive extent under
    // the strict intersection test, and its inclusive containment test
    // matches an entry sitting exactly on its origin.
    assert_eq!(tree.query(rect(50, 50, 0, 0)), Some(vec![point(50, 50)]));
    // Away from any entry it matches nothing, but still signals `Some`.
    assert_eq!(tree.query(rect(20, 20, 0, 0)), Some(Vec::<Rect>::new()));
}

#[test]
fn clustered_entries_reject_once_quadrants_collapse() {
    // Entries that share one coordinate force subdivision after
    // subdivision; integer halving collapses the quadrants around (5, 5)
    // after a few levels, and once no quadrant of positive extent contains
    // the point any further, insertion reports rejection instead of
    // recursing without bound.
    let mut tree = QuadTree::new(rect(0, 0, 100, 100), 1);
    let mut accepted = 0usize;
    let mut rejected = 0usize;
    for _ in 0..20 {
        if tree.insert(point(5, 5)) {
            accepted += 1;
        } else {
            rejected += 1;
        }
    }
    assert!(accepted > 0);
    assert!(rejected > 0);
    assert_eq!(tree.stored_entries().len(), accepted);
    // Every stored copy is still found by a query around the cluster.
    let found = tree.query(rect(0, 0, 10, 10)).expect("regions overlap");
    assert_eq!(found.len(), accepted);
}

#[test]
fn fresh_tree_queries_empty() {
    let boundary = rect(0, 0, 800, 450);
    let tree = QuadTree::new(boundary, 4);
    assert_eq!(tree.boundaries(), vec![boundary]);
    assert_eq!(tree.stored_entries(), Vec::<Rect>::new());
    assert_eq!(tree.query(boundary), Some(Vec::<Rect>::new()));
}
