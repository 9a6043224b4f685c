use quadtree::rect::{Corner, Point, Rect};

/// Ultimate edge case for bound checking
#[test]
fn rect_contains_itself() {
    let r = Rect {
        center: Point::new(50, 50),
        w_half: 50,
        h_half: 50,
    };
    assert!(r.contains_rect(&r));
}

#[test]
fn rect_contains_corners() {
    let r = Rect {
        center: Point::new(50, 50),
        w_half: 50,
        h_half: 50,
    };
    assert!(r.contains_point(&r.corner(Corner::NE)));
    assert!(r.contains_point(&r.corner(Corner::NW)));
    assert!(r.contains_point(&r.corner(Corner::SW)));
    assert!(r.contains_point(&r.corner(Corner::SE)));
}

#[test]
fn rect_contains_center() {
    let r = Rect {
        center: Point::new(50, 50),
        w_half: 50,
        h_half: 50,
    };

    assert!(r.contains_point(&r.center));
}

#[test]
fn rect_overlap_is_not_enough() {
    let r = Rect {
        center: Point::new(50, 50),
        w_half: 50,
        h_half: 50,
    };

    let r2 = Rect {
        center: Point::new(r.center.x + 1, r.center.y + 1),
        w_half: r.w_half,
        h_half: r.h_half,
    };

    assert!(!r.contains_rect(&r2));
}

#[test]
fn rect_no_overlap() {
    let r = Rect {
        center: Point::new(50, 50),
        w_half: 50,
        h_half: 50,
    };

    let r2 = Rect {
        center: Point::new(r.center.x + 1, r.center.y + 1),
        w_half: r.w_half,
        h_half: r.h_half,
    };

    assert!(!r.contains_rect(&r2));
}

#[test]
fn rect_new_converts_top_left_to_center_form() {
    let r = Rect::new(10, 20, 30, 40);
    assert_eq!(r.center, Point::new(25, 40));
    assert_eq!(r.w_half, 15);
    assert_eq!(r.h_half, 20);
}

#[test]
fn rect_corner_formulas() {
    let r = Rect::new(0, 0, 100, 50);
    assert_eq!(r.corner(Corner::NE), Point::new(100, 0));
    assert_eq!(r.corner(Corner::NW), Point::new(0, 0));
    assert_eq!(r.corner(Corner::SW), Point::new(0, 50));
    assert_eq!(r.corner(Corner::SE), Point::new(100, 50));
}

#[test]
fn rect_contains_point_edges_inclusive() {
    let r = Rect::new(0, 0, 100, 100);
    assert!(r.contains_point(&Point::new(0, 0)));
    assert!(r.contains_point(&Point::new(100, 100)));
    assert!(r.contains_point(&Point::new(0, 100)));
    assert!(r.contains_point(&Point::new(50, 0)));
    assert!(!r.contains_point(&Point::new(101, 50)));
    assert!(!r.contains_point(&Point::new(-1, 0)));
    assert!(!r.contains_point(&Point::new(50, 101)));
}

#[test]
fn rect_shifted_any_direction_not_contained() {
    let r = Rect {
        center: Point::new(50, 50),
        w_half: 50,
        h_half: 50,
    };
    let shifts = [(1, 0), (0, 1), (-1, 0), (0, -1), (3, -2)];
    for (dx, dy) in shifts {
        let shifted = Rect {
            center: Point::new(r.center.x + dx, r.center.y + dy),
            w_half: r.w_half,
            h_half: r.h_half,
        };
        assert!(!r.contains_rect(&shifted));
    }
}

#[test]
fn rect_partial_overlap_not_contained_but_points_shared() {
    let r = Rect::new(0, 0, 100, 100);
    let other = Rect::new(50, 50, 100, 100);
    assert!(!r.contains_rect(&other));
    assert!(r.contains_point(&other.corner(Corner::NW)));
}
