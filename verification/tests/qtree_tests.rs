use quadtree::qtree::{QTreeError, QTreeNode};
use quadtree::rect::{Point, Rect};

/// Check that subdivision arranges subnodes correctly
#[test]
fn subdiv_produces_children() {
    let cx = rand::random::<u16>() as i64;
    let cy = rand::random::<u16>() as i64;
    let wh = rand::random::<u16>() as i64;
    let hh = rand::random::<u16>() as i64;
    let rect = Rect {
        center: Point::new(cx, cy),
        w_half: wh,
        h_half: hh,
    };

    let qw = wh / 2;
    let qh = hh / 2;
    let expected_rects = vec![
        Rect {
            // NE
            center: Point::new(cx + qw, cy - qh),
            w_half: qw,
            h_half: qh,
        },
        Rect {
            // NW
            center: Point::new(cx - qw, cy - qh),
            w_half: qw,
            h_half: qh,
        },
        Rect {
            // SW
            center: Point::new(cx - qw, cy + qh),
            w_half: qw,
            h_half: qh,
        },
        Rect {
            // SE
            center: Point::new(cx + qw, cy + qh),
            w_half: qw,
            h_half: qh,
        },
    ];

    let mut qt = QTreeNode::new(rect, 4);
    qt.subdiv();

    assert!(qt.children.is_some());

    let children = qt.children.as_ref().unwrap();

    let found_rects = vec![
        children.ne.boundary,
        children.nw.boundary,
        children.sw.boundary,
        children.se.boundary,
    ];

    assert_eq!(found_rects, expected_rects);
}

#[test]
fn insert_capacity_works() {
    let boundary = Rect::new(0, 0, 200, 200);
    let capacity: usize = 4;

    let mut qt = QTreeNode::new(boundary, capacity);

    let mut item = Rect::new(50, 50, 50, 50);

    // None of the objects fits the subregions, so they all end up in
    // qt.objects despite capacity
    for i in 0..capacity + 1 {
        qt.insert(&item, i as u64).unwrap();

        assert_eq!(qt.objects[i], (i as u64, item));
        item.center.x += 5;
    }

    // But as soon as something fitting one of the quarters appears, into a
    // subregion it goes!
    let fitting_item = Rect::new(10, 10, 10, 10);
    qt.insert(&fitting_item, 99).unwrap();
    assert!(qt.children.is_some());

    let children = qt.children.as_ref().unwrap();
    assert_eq!(children.nw.objects[0], (99, fitting_item));
}

#[test]
fn insert_discards_not_fitting() {
    let boundary = Rect::new(10, 10, 10, 10);

    let item = Rect::new(0, 0, 20, 20);

    let mut qt = QTreeNode::new(boundary, 4);

    assert!(qt.insert(&item, 1).is_err());
}

#[test]
fn query_point_finds_all_rects() {
    let boundary = Rect::new(0, 0, 10, 10);
    let capacity: usize = 4;
    let mut qt = QTreeNode::new(boundary, capacity);

    for i in 0..capacity + 1 {
        qt.insert(&boundary, i as u64).unwrap();
    }

    let found_rects = qt.query_point(&Point::new(5, 5), None);

    assert_eq!(found_rects.len(), capacity + 1);
}

#[test]
fn capacity_is_soft() {
    // A box that straddles the shared center fits no quadrant, so every
    // copy stays in the root's bucket even past capacity.
    let boundary = Rect::new(0, 0, 200, 200);
    let mut qt = QTreeNode::new(boundary, 4);
    let straddler = Rect::new(75, 75, 50, 50);

    for i in 0..5u64 {
        qt.insert(&straddler, i).unwrap();
    }

    assert_eq!(qt.objects.len(), 5);
    for i in 0..5usize {
        assert_eq!(qt.objects[i], (i as u64, straddler));
    }
}

#[test]
fn capacity_triggers_delegation_when_fit_exists() {
    let boundary = Rect::new(0, 0, 200, 200);
    let mut qt = QTreeNode::new(boundary, 4);
    let straddler = Rect::new(75, 75, 50, 50);

    for i in 0..5u64 {
        qt.insert(&straddler, i).unwrap();
    }

    let small = Rect::new(10, 10, 10, 10);
    qt.insert(&small, 42).unwrap();

    // The straddlers stay at the root; the small box lands in exactly one
    // child node.
    assert_eq!(qt.objects.len(), 5);
    assert!(qt.children.is_some());
    let children = qt.children.as_ref().unwrap();
    assert_eq!(children.nw.objects, vec![(42, small)]);
    assert!(children.ne.objects.is_empty());
    assert!(children.sw.objects.is_empty());
    assert!(children.se.objects.is_empty());
}

#[test]
fn out_of_boundary_rejection() {
    let boundary = Rect::new(10, 10, 10, 10);
    let mut qt = QTreeNode::new(boundary, 4);
    let item = Rect::new(0, 0, 20, 20);

    assert_eq!(qt.insert(&item, 7), Err(QTreeError::RectDoesNotFit));
    assert!(qt.objects.is_empty());
    assert!(qt.children.is_none());
}

#[test]
fn query_returns_each_id_once() {
    let boundary = Rect::new(0, 0, 10, 10);
    let mut qt = QTreeNode::new(boundary, 4);

    for i in 0..5u64 {
        qt.insert(&boundary, i).unwrap();
    }

    let mut found = qt.query_point(&Point::new(5, 5), None);
    found.sort();
    assert_eq!(found, vec![0, 1, 2, 3, 4]);
}

#[test]
fn query_point_outside_boundary_is_empty() {
    let boundary = Rect::new(0, 0, 10, 10);
    let mut qt = QTreeNode::new(boundary, 4);
    qt.insert(&boundary, 1).unwrap();

    let found = qt.query_point(&Point::new(50, 5), None);
    assert!(found.is_empty());
}

#[test]
fn query_point_idempotent() {
    let boundary = Rect::new(0, 0, 200, 200);
    let mut qt = QTreeNode::new(boundary, 4);
    let straddler = Rect::new(75, 75, 50, 50);
    for i in 0..5u64 {
        qt.insert(&straddler, i).unwrap();
    }
    qt.insert(&Rect::new(10, 10, 10, 10), 42).unwrap();

    let p = Point::new(100, 100);
    let first = qt.query_point(&p, None);
    let second = qt.query_point(&p, None);
    assert_eq!(first, second);

    let limited_first = qt.query_point(&p, Some(2));
    let limited_second = qt.query_point(&p, Some(2));
    assert_eq!(limited_first, limited_second);
}

#[test]
fn query_limit_stops_matching_in_scan_order() {
    let boundary = Rect::new(0, 0, 100, 100);
    let mut qt = QTreeNode::new(boundary, 10);
    let straddler = Rect::new(25, 25, 50, 50);
    for i in 0..4u64 {
        qt.insert(&straddler, i).unwrap();
    }

    let p = Point::new(50, 50);
    let mut limited = qt.query_point(&p, Some(2));
    limited.sort();
    assert_eq!(limited, vec![0, 1]);

    assert!(qt.query_point(&p, Some(0)).is_empty());
}

#[test]
fn enumerate_objects_lists_every_stored_box() {
    let boundary = Rect::new(0, 0, 200, 200);
    let mut qt = QTreeNode::new(boundary, 4);
    let straddler = Rect::new(75, 75, 50, 50);
    for i in 0..5u64 {
        qt.insert(&straddler, i).unwrap();
    }
    let small = Rect::new(10, 10, 10, 10);
    qt.insert(&small, 42).unwrap();

    let objects = qt.enumerate_objects();
    assert_eq!(objects.len(), 6);
    assert_eq!(objects.iter().filter(|r| **r == straddler).count(), 5);
    assert_eq!(objects.iter().filter(|r| **r == small).count(), 1);
}

#[test]
fn enumerate_regions_lists_every_boundary() {
    let boundary = Rect::new(0, 0, 200, 200);
    let mut qt = QTreeNode::new(boundary, 4);

    let regions = qt.enumerate_regions();
    assert_eq!(regions, vec![boundary]);

    qt.subdiv();
    let regions = qt.enumerate_regions();
    assert_eq!(regions.len(), 5);
    assert_eq!(regions[0], boundary);
    let children = qt.children.as_ref().unwrap();
    assert!(regions.contains(&children.ne.boundary));
    assert!(regions.contains(&children.nw.boundary));
    assert!(regions.contains(&children.sw.boundary));
    assert!(regions.contains(&children.se.boundary));
}

#[test]
fn subdiv_children_lie_within_parent() {
    let boundary = Rect::new(0, 0, 101, 57);
    let mut qt = QTreeNode::new(boundary, 4);
    qt.subdiv();
    let children = qt.children.as_ref().unwrap();
    assert!(boundary.contains_rect(&children.ne.boundary));
    assert!(boundary.contains_rect(&children.nw.boundary));
    assert!(boundary.contains_rect(&children.sw.boundary));
    assert!(boundary.contains_rect(&children.se.boundary));
}

#[test]
fn subdiv_is_idempotent() {
    let boundary = Rect::new(0, 0, 100, 100);
    let mut qt = QTreeNode::new(boundary, 4);
    qt.subdiv();
    let before: Vec<Rect> = qt.enumerate_regions();
    qt.subdiv();
    let after: Vec<Rect> = qt.enumerate_regions();
    assert_eq!(before, after);
}
