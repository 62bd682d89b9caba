//! Geometry tests: closed-interval intersection, including edge- and
//! corner-touching rectangles.

use quadtree::Point;
use quadtree::Rect;

fn center_origin_square() -> Rect {
    Rect::new(Point { x: -1, y: -1 }, Point { x: 1, y: 1 })
}

#[test]
fn intersects_with_self() {
    let extents = center_origin_square();
    assert!(extents.intersects(&extents));
}

#[test]
fn intersects_on_right_edge() {
    let extents = Rect::new(Point { x: 1, y: -1 }, Point { x: 3, y: -1 });
    assert!(center_origin_square().intersects(&extents));
}

#[test]
fn intersects_on_bottom_edge() {
    let extents = Rect::new(Point { x: -1, y: 1 }, Point { x: 1, y: 3 });
    assert!(center_origin_square().intersects(&extents));
}

#[test]
fn intersects_on_left_edge() {
    let extents = Rect::new(Point { x: -3, y: -1 }, Point { x: -1, y: 1 });
    assert!(center_origin_square().intersects(&extents));
}

#[test]
fn intersects_on_top_edge() {
    let extents = Rect::new(Point { x: -1, y: -3 }, Point { x: 1, y: -1 });
    assert!(center_origin_square().intersects(&extents));
}

#[test]
fn intersects_on_top_right_corner() {
    let extents = Rect::new(Point { x: 1, y: -3 }, Point { x: 3, y: -1 });
    assert!(center_origin_square().intersects(&extents));
}

// The separations here are one tenth of the square's half-width, so the
// square and the probes are scaled by ten to keep whole coordinates.
#[test]
fn non_intersects() {
    let square = Rect::new(Point { x: -10, y: -10 }, Point { x: 10, y: 10 });

    let extents = Rect::new(Point { x: 11, y: -10 }, Point { x: 30, y: 10 });
    assert!(!square.intersects(&extents));

    let extents = Rect::new(Point { x: -10, y: 11 }, Point { x: 10, y: 30 });
    assert!(!square.intersects(&extents));

    let extents = Rect::new(Point { x: -30, y: -10 }, Point { x: -11, y: 10 });
    assert!(!square.intersects(&extents));

    let extents = Rect::new(Point { x: -10, y: -30 }, Point { x: 10, y: -11 });
    assert!(!square.intersects(&extents));

    let extents = Rect::new(Point { x: 11, y: -30 }, Point { x: 30, y: -10 });
    assert!(!square.intersects(&extents));

    let extents = Rect::new(Point { x: 10, y: -30 }, Point { x: 30, y: -11 });
    assert!(!square.intersects(&extents));
}

#[test]
fn intersects_is_symmetric() {
    let a = Rect::new(Point { x: -2, y: -2 }, Point { x: 3, y: 1 });
    let b = Rect::new(Point { x: 1, y: 0 }, Point { x: 7, y: 9 });
    let c = Rect::new(Point { x: 4, y: 2 }, Point { x: 9, y: 9 });
    assert_eq!(a.intersects(&b), b.intersects(&a));
    assert_eq!(a.intersects(&c), c.intersects(&a));
    assert!(a.intersects(&b));
    assert!(!a.intersects(&c));
}

// Two rectangles sharing only the line x = 1 count as intersecting.
#[test]
fn edge_touching_rectangles_intersect() {
    let a = Rect::new(Point { x: -1, y: -1 }, Point { x: 1, y: 1 });
    let b = Rect::new(Point { x: 1, y: -1 }, Point { x: 3, y: 1 });
    assert!(a.intersects(&b));
    assert!(b.intersects(&a));
}
