//! End-to-end tests of the quadtree index: insertion, splitting,
//! duplication across quadrants, and the broad-phase query.

use quadtree::COORD_LIMIT;
use quadtree::Point;
use quadtree::QuadTree;
use quadtree::Rect;

#[test]
fn it_works() {
    let result = 2 + 2;
    assert_eq!(result, 4);
}

fn rect(tlx: i64, tly: i64, brx: i64, bry: i64) -> Rect {
    Rect::new(Point { x: tlx, y: tly }, Point { x: brx, y: bry })
}

// Five circle bounding squares of radius 3, centered at the origin and at
// the four corners (+-6, +-6), over bounds [(-10,-10),(10,10)] with leaf
// capacity 2. The center square touches each corner square at a corner;
// squares of different corners are disjoint.
fn five_circles() -> (QuadTree<u32, 2>, [Rect; 5]) {
    let bounds = rect(-10, -10, 10, 10);
    let boxes = [
        rect(-3, -3, 3, 3),
        rect(3, 3, 9, 9),
        rect(-9, -9, -3, -3),
        rect(-9, 3, -3, 9),
        rect(3, -9, 9, -3),
    ];
    let mut tree = QuadTree::<u32, 2>::new(bounds);
    let mut tag: u32 = 0;
    for b in boxes.iter() {
        tree.push_with_tag(b, tag);
        tag += 1;
    }
    (tree, boxes)
}

#[test]
fn touching_circles_see_each_other() {
    let (tree, boxes) = five_circles();
    let near_center = tree.nearby(&boxes[0]);
    for corner in 1u32..5 {
        assert!(near_center.contains(&corner));
    }
    for corner in 1usize..5 {
        let near_corner = tree.nearby(&boxes[corner]);
        assert!(near_corner.contains(&0));
        assert!(near_corner.contains(&(corner as u32)));
    }
}

#[test]
fn opposite_corners_do_not_see_each_other() {
    let (tree, boxes) = five_circles();
    let near_b1 = tree.nearby(&boxes[1]);
    assert!(!near_b1.contains(&2));
    assert!(!near_b1.contains(&3));
    assert!(!near_b1.contains(&4));
    let near_b2 = tree.nearby(&boxes[2]);
    assert!(!near_b2.contains(&1));
    assert!(!near_b2.contains(&3));
    assert!(!near_b2.contains(&4));
}

// Capacity 2, three disjoint tiny rectangles away from every split line:
// the third insertion splits the root, and a query over the full bounds
// returns exactly the three tags with no duplicates.
#[test]
fn overflow_splits_once_and_keeps_all_items() {
    let bounds = rect(-10, -10, 10, 10);
    let mut tree = QuadTree::<u32, 2>::new(bounds);
    tree.push_with_tag(&rect(1, 1, 2, 2), 0);
    assert!(!tree.is_split());
    tree.push_with_tag(&rect(6, 6, 7, 7), 1);
    assert!(!tree.is_split());
    tree.push_with_tag(&rect(-6, 3, -5, 4), 2);
    assert!(tree.is_split());

    let mut all = tree.nearby(&bounds);
    assert_eq!(all.len(), 3);
    all.sort();
    assert_eq!(all, vec![0, 1, 2]);
}

// An item spanning both split lines of the root branch is filed in all
// four quadrants and comes back from each quadrant's own query.
#[test]
fn straddling_item_in_every_quadrant_query() {
    let bounds = rect(-10, -10, 10, 10);
    let mut tree = QuadTree::<u32, 1>::new(bounds);
    tree.push_with_tag(&rect(-5, -5, 5, 5), 9);
    tree.push_with_tag(&rect(1, 1, 2, 2), 1);
    assert!(tree.is_split());

    let quadrants = [
        rect(-10, -10, 0, 0),
        rect(0, -10, 10, 0),
        rect(-10, 0, 0, 10),
        rect(0, 0, 10, 10),
    ];
    for q in quadrants.iter() {
        assert!(tree.nearby(q).contains(&9));
    }
}

#[test]
fn query_is_idempotent() {
    let (tree, boxes) = five_circles();
    let first = tree.nearby(&boxes[0]);
    let second = tree.nearby(&boxes[0]);
    assert_eq!(first, second);
    let third = tree.nearby(&boxes[3]);
    let fourth = tree.nearby(&boxes[3]);
    assert_eq!(third, fourth);
}

#[test]
fn empty_tree_returns_nothing() {
    let bounds = rect(-10, -10, 10, 10);
    let tree = QuadTree::<u32, 8>::new(bounds);
    assert_eq!(tree.nearby(&rect(-1, -1, 1, 1)), Vec::<u32>::new());
}

// A region too small to subdivide never splits: its leaf grows past the
// nominal capacity instead, which keeps insertion of coincident
// degenerate rectangles terminating.
#[test]
fn tiny_region_grows_past_capacity() {
    let bounds = rect(0, 0, 1, 1);
    let mut tree = QuadTree::<u32, 1>::new(bounds);
    let dot = rect(0, 0, 0, 0);
    tree.push_with_tag(&dot, 1);
    tree.push_with_tag(&dot, 2);
    tree.push_with_tag(&dot, 3);
    assert!(!tree.is_split());
    assert_eq!(tree.nearby(&bounds), vec![1, 2, 3]);
}

// The same tag can be inserted many times; a covering query returns one
// occurrence per stored copy.
#[test]
fn duplicate_tags_are_kept() {
    let bounds = rect(-10, -10, 10, 10);
    let mut tree = QuadTree::<u32, 4>::new(bounds);
    tree.push_with_tag(&rect(1, 1, 2, 2), 7);
    tree.push_with_tag(&rect(4, 4, 5, 5), 7);
    let all = tree.nearby(&bounds);
    assert_eq!(all, vec![7, 7]);
}

// An item outside the root bounds is still accepted; while the root is a
// leaf, every query returns it.
#[test]
fn out_of_bounds_item_in_single_leaf() {
    let bounds = rect(0, 0, 10, 10);
    let mut tree = QuadTree::<u32, 4>::new(bounds);
    tree.push_with_tag(&rect(20, 20, 21, 21), 5);
    assert_eq!(tree.nearby(&rect(20, 20, 21, 21)), vec![5]);
}

// Once the tree has split, an item wholly outside the bounds overlaps no
// quadrant: it is silently dropped and the tree is unchanged.
#[test]
fn out_of_bounds_item_dropped_after_split() {
    let bounds = rect(-10, -10, 10, 10);
    let mut tree = QuadTree::<u32, 1>::new(bounds);
    tree.push_with_tag(&rect(1, 1, 2, 2), 7);
    tree.push_with_tag(&rect(-2, -2, -1, -1), 8);
    assert!(tree.is_split());
    let far = rect(20, 20, 21, 21);
    tree.push_with_tag(&far, 9);
    assert!(!tree.nearby(&bounds).contains(&9));
    assert_eq!(tree.nearby(&far), Vec::<u32>::new());
}

// Splitting at the largest admitted coordinates stays exact: midpoints of
// the extreme bounds are computed without overflow.
#[test]
fn extreme_coordinates_split() {
    let bounds = rect(-COORD_LIMIT, -COORD_LIMIT, COORD_LIMIT, COORD_LIMIT);
    let mut tree = QuadTree::<u32, 1>::new(bounds);
    tree.push_with_tag(&rect(-COORD_LIMIT, -COORD_LIMIT, -COORD_LIMIT + 1, -COORD_LIMIT + 1), 1);
    tree.push_with_tag(&rect(5, 5, 6, 6), 2);
    assert!(tree.is_split());
    let mut all = tree.nearby(&bounds);
    all.sort();
    assert_eq!(all, vec![1, 2]);
}
