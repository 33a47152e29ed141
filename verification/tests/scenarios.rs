use rstar::primitives::Rectangle;
use rstar::{PointExt, RTree, RTreeObject, AABB};

// Coordinates are in steps of one hundredth.

#[test]
fn insert_one_point_and_ask_for_it() {
    let mut tree = RTree::new();
    tree.insert([2i64, 40]);
    assert_eq!(tree.size(), 1);
    assert!(tree.contains(&[2, 40]));
    assert!(!tree.contains(&[30, 20]));
}

#[test]
fn envelopes_locate_the_points_they_hold() {
    let tree = RTree::bulk_load(vec![[0i64, 0], [0, 100], [100, 100]]);
    let half = AABB::from_corners([0, 0], [50, 100]);
    assert_eq!(tree.locate_in_envelope(&half).len(), 2);
    let unit = AABB::from_corners([0, 0], [100, 100]);
    assert_eq!(tree.locate_in_envelope(&unit).len(), 3);
}

#[test]
fn envelopes_locate_the_rectangles_they_meet() {
    let left = Rectangle::from_corners([0i64, 0], [40, 100]);
    let right = Rectangle::from_corners([60i64, 0], [100, 100]);
    let middle = Rectangle::from_corners([25i64, 0], [75, 100]);
    let mut tree = RTree::new();
    tree.insert(left);
    tree.insert(right);
    tree.insert(middle);
    let met = tree.locate_in_envelope_intersecting(&left.envelope());
    assert_eq!(met.len(), 2);
    assert!(met.contains(&&left));
    assert!(met.contains(&&middle));
    assert_eq!(tree.locate_in_envelope_intersecting(&middle.envelope()).len(), 3);
    let large = AABB::from_corners([-10000, -10000], [10000, 10000]);
    assert_eq!(tree.locate_in_envelope_intersecting(&large).len(), 3);
}

#[test]
fn fold_passes_through_the_coordinates_in_order() {
    let p = [3i32, -4, 5];
    assert_eq!(PointExt::fold(&p, 0i64, |sum, x| sum + x as i64), 4);
    assert_eq!(PointExt::fold(&p, 0i64, |acc, x| acc * 10 + x.abs() as i64), 345);
    assert_eq!(PointExt::fold(&p, String::new(), |text, x| format!("{}{};", text, x)), "3;-4;5;");
}
