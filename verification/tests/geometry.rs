use rstar::{Envelope, Params, Point, PointDistance, PointExt, RTreeNum, RTreeObject, AABB};

#[test]
fn empty_envelope_is_the_identity_of_merge() {
    let empty: AABB<[i32; 2]> = AABB::new_empty();
    assert_eq!(empty.lower(), [i32::MAX, i32::MAX]);
    assert_eq!(empty.upper(), [i32::MIN, i32::MIN]);
    let e = AABB::from_corners([1, 2], [3, 4]);
    assert_eq!(empty.merged(&e), e);
    assert_eq!(e.merged(&empty), e);
    assert!(!empty.contains_point(&[0, 0]));
    assert!(!empty.intersects(&e));
    assert_eq!(empty.area(), 0);
    assert_eq!(empty.perimeter_value(), 0);
    assert_eq!(empty.intersection_area(&e), 0);
}

#[test]
fn corners_are_ordered_per_axis() {
    let e = AABB::from_corners([5i64, -2], [1, 7]);
    assert_eq!(e.lower(), [1, -2]);
    assert_eq!(e.upper(), [5, 7]);
    assert_eq!(e, AABB::from_corners([1, 7], [5, -2]));
}

#[test]
fn envelope_of_points() {
    let points = vec![[3i32, 9], [-4, 2], [0, 11]];
    let e = AABB::from_points(&points);
    assert_eq!(e, AABB::from_corners([-4, 2], [3, 11]));
    let none: Vec<[i32; 2]> = Vec::new();
    assert_eq!(AABB::from_points(&none), AABB::new_empty());
    assert_eq!(AABB::from_point([7, 8]), AABB::from_corners([7, 8], [7, 8]));
}

#[test]
fn containment_includes_the_border() {
    let e = AABB::from_corners([0i32, 0], [10, 10]);
    assert!(e.contains_point(&[0, 0]));
    assert!(e.contains_point(&[10, 10]));
    assert!(e.contains_point(&[5, 10]));
    assert!(!e.contains_point(&[11, 5]));
    assert!(!e.contains_point(&[5, -1]));
    assert!(e.contains_envelope(&e));
    assert!(e.contains_envelope(&AABB::from_corners([2, 2], [10, 3])));
    assert!(!e.contains_envelope(&AABB::from_corners([2, 2], [11, 3])));
}

#[test]
fn touching_envelopes_intersect() {
    let a = AABB::from_corners([0i32, 0], [10, 10]);
    let b = AABB::from_corners([10, 10], [20, 20]);
    let c = AABB::from_corners([11, 0], [20, 9]);
    assert!(a.intersects(&b));
    assert!(b.intersects(&a));
    assert!(!a.intersects(&c));
    assert!(!c.intersects(&a));
    assert_eq!(a.intersection_area(&b), 0);
    assert_eq!(a.intersection_area(&c), 0);
}

#[test]
fn area_and_intersection_area() {
    let a = AABB::from_corners([0i64, 0], [4, 5]);
    let b = AABB::from_corners([2i64, 3], [10, 10]);
    assert_eq!(a.area(), 20);
    assert_eq!(b.area(), 56);
    assert_eq!(a.intersection_area(&b), 4);
    assert_eq!(b.intersection_area(&a), 4);
    assert_eq!(a.intersection_area(&a), 20);
    let cube = AABB::from_corners([0i32, 0, 0], [2, 3, 4]);
    assert_eq!(cube.area(), 24);
    assert_eq!(cube.perimeter_value(), 9);
    assert_eq!(a.perimeter_value(), 9);
}

#[test]
fn merge_is_the_smallest_cover() {
    let mut a = AABB::from_corners([0i32, 0], [4, 5]);
    let b = AABB::from_corners([2, -3], [3, 10]);
    let merged = a.merged(&b);
    assert_eq!(merged, AABB::from_corners([0, -3], [4, 10]));
    assert_eq!(b.merged(&a), merged);
    a.merge(&b);
    assert_eq!(a, merged);
    assert!(merged.contains_envelope(&b));
}

#[test]
fn distance_to_an_envelope() {
    let e = AABB::from_corners([0i64, 0], [10, 10]);
    assert_eq!(Envelope::distance_2(&e, &[5, 5]), 0);
    assert_eq!(Envelope::distance_2(&e, &[10, 10]), 0);
    assert_eq!(Envelope::distance_2(&e, &[13, 5]), 9);
    assert_eq!(Envelope::distance_2(&e, &[13, 14]), 25);
    assert_eq!(Envelope::distance_2(&e, &[-3, -4]), 25);
    assert_eq!(e.min_point(&[13, 14]), [10, 10]);
    assert_eq!(e.min_point(&[-3, 4]), [0, 4]);
    assert_eq!(e.min_point(&[3, 4]), [3, 4]);
}

#[test]
fn min_max_distance_is_the_nearest_far_corner() {
    let e = AABB::from_corners([0i64, 0], [10, 4]);
    // From (-2, 1): the near edge on the first axis is 0 and the far edge on
    // the second is 4, so 4 + 9; the other way, 1 + 144.
    assert_eq!(e.min_max_dist_2(&[-2, 1]), 13);
    // From the middle of the envelope: 25 + 4 on either side of the first
    // axis, 4 + 25 on the second.
    assert_eq!(e.min_max_dist_2(&[5, 2]), 29);
    let point = AABB::from_point([3i64, 4]);
    assert_eq!(point.min_max_dist_2(&[0, 0]), 25);
}

#[test]
fn center_is_the_midpoint() {
    let e = AABB::from_corners([0i32, 0], [10, 4]);
    assert_eq!(e.center(), [5, 2]);
    let odd = AABB::from_corners([1i32, -3], [4, 0]);
    let c = odd.center();
    assert!(c[0] == 2 || c[0] == 3);
    assert!(c[1] == -2 || c[1] == -1);
    let wide = AABB::from_corners([i32::MIN, 0], [i32::MAX, 0]);
    let c = wide.center();
    assert!(c[0] == 0 || c[0] == -1);
}

#[test]
fn arithmetic_stops_at_the_limits() {
    assert_eq!(RTreeNum::add(i32::MAX, 1), i32::MAX);
    assert_eq!(RTreeNum::sub(i32::MIN, 1), i32::MIN);
    assert_eq!(RTreeNum::mul(i32::MAX, 2), i32::MAX);
    assert_eq!(RTreeNum::mul(i32::MIN, 2), i32::MIN);
    assert_eq!(RTreeNum::mul(i32::MIN, -1), i32::MAX);
    assert_eq!(RTreeNum::add(3i64, 4), 7);
    assert_eq!(RTreeNum::sub(3i64, 4), -1);
    assert_eq!(RTreeNum::mul(-3i64, 4), -12);
    assert_eq!(RTreeNum::div(7i64, 2), 3);
    assert_eq!(RTreeNum::div(-7i64, 2), -3);
    assert_eq!(RTreeNum::div(i64::MIN, -1), i64::MAX);
    assert_eq!(<i64 as RTreeNum>::zero(), 0);
    assert_eq!(<i64 as RTreeNum>::one(), 1);
    assert_eq!(<i32 as RTreeNum>::min_value(), i32::MIN);
    assert_eq!(<i32 as RTreeNum>::max_value(), i32::MAX);
    assert!(RTreeNum::less(1i32, 2));
    assert!(!RTreeNum::less(2i32, 2));
    assert!(RTreeNum::less_eq(2i32, 2));
    let area = AABB::from_corners([i64::MIN, i64::MIN], [i64::MAX, i64::MAX]).area();
    assert_eq!(area, i64::MAX);
}

#[test]
fn point_operations() {
    let p = [1i32, -2, 3];
    let q = [4i32, 5, -6];
    assert_eq!(PointExt::add(&p, &q), [5, 3, -3]);
    assert_eq!(PointExt::sub(&p, &q), [-3, -7, 9]);
    assert_eq!(PointExt::mul(&p, 3), [3, -6, 9]);
    assert_eq!(p.dot(&q), 4 - 10 - 18);
    assert_eq!(p.length_2(), 14);
    assert_eq!(PointExt::distance_2(&p, &q), 9 + 49 + 81);
    assert_eq!(p.min_point(&q), [1, -2, -6]);
    assert_eq!(p.max_point(&q), [4, 5, 3]);
    assert_eq!(p.component_wise(&q, |a, b| a * b), [4, -10, -18]);
    assert!(p.all_component_wise(&[1, 0, 5], |a, b| a <= b + 2));
    assert!(!p.all_component_wise(&q, |a, b| a <= b));
    assert_eq!(p.map(|a| a + 1), [2, -1, 4]);
    assert_eq!(<[i32; 3] as PointExt>::new(), [0, 0, 0]);
    assert_eq!(<[i32; 3] as PointExt>::from_value(7), [7, 7, 7]);
    assert_eq!(<[i32; 4] as Point>::generate(|i| i as i32 * 2), [0, 2, 4, 6]);
    assert_eq!(<[i32; 2] as Point>::DIMENSIONS, 2);
    assert_eq!(<[i32; 3] as Point>::DIMENSIONS, 3);
    assert_eq!(<[i32; 4] as Point>::DIMENSIONS, 4);
    let mut r = [1i32, 2];
    *r.nth_mut(1) = 9;
    assert_eq!(r.nth(0), 1);
    assert_eq!(r.nth(1), 9);
}

#[test]
fn a_point_is_its_own_object() {
    let p = [3i64, 4];
    assert_eq!(p.envelope(), AABB::from_point(p));
    assert_eq!(PointDistance::distance_2(&p, &[0, 0]), 25);
    assert!(PointDistance::contains_point(&p, &[3, 4]));
    assert!(!PointDistance::contains_point(&p, &[3, 5]));
    assert_eq!(p.distance_2_if_less_or_equal(&[0, 0], 25), Some(25));
    assert_eq!(p.distance_2_if_less_or_equal(&[0, 0], 24), None);
}

#[test]
fn parameters_are_kept() {
    let params = Params::new(4, 16, 5);
    assert_eq!(params.min_size(), 4);
    assert_eq!(params.max_size(), 16);
    assert_eq!(params.reinsertion_count(), 5);
    let default = Params::default();
    assert_eq!(default.min_size(), 3);
    assert_eq!(default.max_size(), 6);
    assert_eq!(default.reinsertion_count(), 2);
}

#[test]
fn parameters_are_checked() {
    assert!(Params::is_valid(3, 6, 2));
    assert!(Params::is_valid(2, 4, 0));
    assert!(Params::is_valid(1, 4, 1));
    // The largest node is below four, or holds less than two of the smallest.
    assert!(!Params::is_valid(1, 3, 0));
    assert!(!Params::is_valid(5, 8, 1));
    // The smallest node is empty.
    assert!(!Params::is_valid(0, 6, 2));
    // Reinsertion would leave a node below the smallest size.
    assert!(!Params::is_valid(3, 6, 3));
    assert!(!Params::is_valid(3, 6, 4));
}

#[test]
fn points_of_up_to_nine_dimensions() {
    let five = [0i32, 1, 2, 3, 4];
    let nine = [0i64, 1, 2, 3, 4, 5, 6, 7, 8];
    assert_eq!(<[i32; 5] as Point>::DIMENSIONS, 5);
    assert_eq!(<[i64; 9] as Point>::DIMENSIONS, 9);
    for i in 0..5 {
        assert_eq!(five.nth(i), i as i32);
    }
    for i in 0..9 {
        assert_eq!(nine.nth(i), i as i64);
    }
    assert_eq!(<[i64; 9] as Point>::generate(|i| i as i64), nine);
    assert_eq!(<[i32; 6] as Point>::generate(|i| 2 * i as i32), [0, 2, 4, 6, 8, 10]);
    assert_eq!(<[i32; 7] as PointExt>::from_value(3), [3; 7]);
    assert_eq!(<[i32; 8] as PointExt>::new(), [0; 8]);
    assert_eq!(five.length_2(), 30);
    assert_eq!(PointExt::distance_2(&nine, &[1; 9]), 1 + 0 + 1 + 4 + 9 + 16 + 25 + 36 + 49);
    let e = AABB::from_corners(nine, [8i64, 7, 6, 5, 4, 3, 2, 1, 0]);
    assert_eq!(e.lower(), [0, 1, 2, 3, 4, 3, 2, 1, 0]);
    assert_eq!(e.upper(), [8, 7, 6, 5, 4, 5, 6, 7, 8]);
}

#[test]
fn a_tree_in_five_dimensions() {
    use_five_dimensions();
}

fn use_five_dimensions() {
    let points: Vec<[i32; 5]> = (0..200)
        .map(|i| [i, (i * 7) % 31, (i * 11) % 17, 200 - i, (i * 3) % 5])
        .collect();
    let mut tree = rstar::RTree::bulk_load(points.clone());
    assert_eq!(tree.size(), 200);
    for p in &points {
        assert!(tree.contains(p));
    }
    assert_eq!(tree.nearest_neighbor(&[50, 9, 6, 150, 0]), Some(&points[50]));
    tree.insert([1000, 0, 0, 0, 0]);
    assert_eq!(tree.nearest_neighbor(&[900, 0, 0, 0, 0]), Some(&[1000, 0, 0, 0, 0]));
    assert_eq!(tree.remove(&[1000, 0, 0, 0, 0]), Some([1000, 0, 0, 0, 0]));
    assert_eq!(tree.size(), 200);
}

#[test]
fn intersection_is_the_clipped_box() {
    let a = AABB::from_corners([0i32, 0], [4, 5]);
    let b = AABB::from_corners([2i32, 3], [10, 10]);
    let shared = a.intersection(&b);
    assert_eq!(shared.lower(), [2, 3]);
    assert_eq!(shared.upper(), [4, 5]);
    assert!(shared.holds_points());
    assert_eq!(shared.area(), a.intersection_area(&b));
    // Boxes that share no point: the result is crossed and holds nothing.
    let low = AABB::from_corners([0i32, 0], [2, 0]);
    let high = AABB::from_corners([0i32, 3], [2, 3]);
    let crossed = low.intersection(&high);
    assert_eq!(crossed.lower(), [0, 3]);
    assert_eq!(crossed.upper(), [2, 0]);
    assert!(!crossed.holds_points());
    assert_eq!(crossed.area(), 0);
    assert_eq!(AABB::from_corners([0i32, 0], [2, 3]).area(), 6);
    assert_eq!(AABB::from_corners([0i32, 0], [3, 4]).perimeter_value(), 7);
    assert_eq!(AABB::from_point([5i32, 5]).perimeter_value(), 0);
    assert!(AABB::<[i32; 2]>::new_empty().holds_points() == false);
}
