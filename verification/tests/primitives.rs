use rstar::primitives::{
    CachedEnvelope, GeomWithCachedEnvelope, GeomWithData, Line, ObjectRef, PointWithData,
    Rectangle, RectangleWithData, SimpleEdge,
};
use rstar::{Envelope, PointDistance, RTree, RTreeObject, AABB};

#[test]
fn length_2() {
    let line = Line::new([1i32, -1], [5, 5]);
    assert_eq!(line.length_2(), 16 + 36);
}

#[test]
fn line_length_of_a_classic_triangle() {
    let line = Line::new([3i32, 3], [7, 6]);
    assert_eq!(line.length_2(), 25);
}

#[test]
fn line_envelope_spans_both_ends() {
    let line = Line::new([4i64, -3], [-2, 9]);
    assert_eq!(line.envelope(), AABB::from_corners([-2, -3], [4, 9]));
}

#[test]
fn geom_with_data_container_in_rtree() {
    let line_1 = GeomWithData::new(Line::new([0i64, 0], [1, 1]), ());
    let line_2 = GeomWithData::new(Line::new([0i64, 0], [-1, 1]), ());
    let tree = RTree::bulk_load(vec![line_1, line_2]);

    assert!(tree.contains(&line_1));
}

#[test]
fn geom_with_data_container_length_2() {
    let line = GeomWithData::new(Line::new([1i32, -1], [5, 5]), 1usize);

    assert_eq!(line.geom().length_2(), 16 + 36);
}

#[test]
fn cached_envelope_container_in_rtree() {
    let line_1 = CachedEnvelope::new(Line::new([0i64, 0], [1, 1]));
    let line_2 = CachedEnvelope::new(Line::new([0i64, 0], [-1, 1]));
    let tree = RTree::bulk_load(vec![line_1, line_2]);

    assert!(tree.contains(&line_1));
}

#[test]
fn cached_envelope_container_length_2() {
    let line = CachedEnvelope::new(Line::new([1i32, -1], [5, 5]));

    assert_eq!(line.inner().length_2(), 16 + 36);
}

#[test]
fn geom_with_cached_envelope_container_in_rtree() {
    let line_1 = GeomWithCachedEnvelope::new(Line::new([0i64, 0], [1, 1]));
    let line_2 = GeomWithCachedEnvelope::new(Line::new([0i64, 0], [-1, 1]));
    let tree = RTree::bulk_load(vec![line_1, line_2]);

    assert!(tree.contains(&line_1));
}

#[test]
fn geom_with_cached_envelope_container_length_2() {
    let line = GeomWithCachedEnvelope::new(Line::new([1i32, -1], [5, 5]));

    assert_eq!(line.geom().length_2(), 16 + 36);
}

// The rectangle with the corners (0.5, 0.5) and (1, 2), in steps of one half:
// squared distances are four times those of the unit grid.
#[test]
fn rectangle_rectangle_distance() {
    let rectangle = Rectangle::from_corners([1i64, 1], [2, 4]);

    assert_eq!(rectangle.distance_2(&[1, 1]), 0);
    assert_eq!(rectangle.distance_2(&[0, 1]), 1);
    assert_eq!(rectangle.distance_2(&[1, 2]), 0);
    assert_eq!(rectangle.distance_2(&[0, 0]), 2);
    assert_eq!(rectangle.distance_2(&[0, 2]), 1);
    assert_eq!(rectangle.distance_2(&[2, 6]), 4);
    assert_eq!(rectangle.distance_2(&[2, 2]), 0);
}

#[test]
fn rectangle_with_data_rectangle_distance() {
    let rectangle = RectangleWithData::from_corners(1usize, [1i64, 1], [2, 4]);

    assert_eq!(rectangle.distance_2(&[1, 1]), 0);
    assert_eq!(rectangle.distance_2(&[0, 1]), 1);
    assert_eq!(rectangle.distance_2(&[1, 2]), 0);
    assert_eq!(rectangle.distance_2(&[0, 0]), 2);
    assert_eq!(rectangle.distance_2(&[0, 2]), 1);
    assert_eq!(rectangle.distance_2(&[2, 6]), 4);
    assert_eq!(rectangle.distance_2(&[2, 2]), 0);
}

#[test]
fn rectangle_orders_its_corners() {
    let rectangle = Rectangle::from_corners([5i32, -1], [2, 7]);
    assert_eq!(rectangle.lower(), [2, -1]);
    assert_eq!(rectangle.upper(), [5, 7]);
    assert_eq!(rectangle.envelope(), AABB::from_corners([2, -1], [5, 7]));
    assert_eq!(rectangle.nearest_point(&[0, 3]), [2, 3]);
    assert_eq!(rectangle.nearest_point(&[9, 9]), [5, 7]);
    assert_eq!(rectangle.nearest_point(&[3, 3]), [3, 3]);
    assert!(rectangle.contains_point(&[3, 3]));
    assert!(!rectangle.contains_point(&[6, 3]));
}

#[test]
fn rectangle_from_aabb_keeps_the_corners() {
    let aabb = AABB::from_corners([1i64, 2], [3, 4]);
    let rectangle = Rectangle::from_aabb(aabb);
    assert_eq!(rectangle.envelope(), aabb);
    let with_data = RectangleWithData::from_aabb("tag", aabb);
    assert_eq!(with_data.envelope(), aabb);
    assert_eq!(with_data.lower(), [1, 2]);
    assert_eq!(with_data.upper(), [3, 4]);
    assert_eq!(with_data.data, "tag");
}

#[test]
fn point_with_data_is_found_by_position() {
    let mut tree = RTree::new();
    tree.insert(PointWithData::new("home", [3i64, 4]));
    tree.insert(PointWithData::new("work", [30i64, 40]));
    let nearest = tree.nearest_neighbor(&[5, 5]).unwrap();
    assert_eq!(nearest.data, "home");
    assert_eq!(*nearest.position(), [3, 4]);
    assert_eq!(nearest.distance_2(&[0, 0]), 25);
    assert_eq!(nearest.envelope(), AABB::from_point([3, 4]));
}

#[test]
fn geom_with_data_follows_its_geometry() {
    let mut places = RTree::new();
    places.insert(GeomWithData::new(Rectangle::from_corners([0i64, 0], [2, 2]), "near"));
    places.insert(GeomWithData::new(Rectangle::from_corners([10i64, 10], [12, 12]), "far"));
    let place = places.nearest_neighbor(&[3, 3]).unwrap();
    assert_eq!(place.data, "near");
    assert_eq!(place.distance_2(&[3, 3]), 2);
}

#[test]
fn cached_envelope_answers_as_its_object() {
    let rectangle = Rectangle::from_corners([0i64, 0], [2, 2]);
    let cached = CachedEnvelope::new(rectangle);
    assert_eq!(cached.envelope(), rectangle.envelope());
    assert_eq!(cached.distance_2(&[5, 2]), 9);
    assert!(cached.contains_point(&[1, 1]));
    assert_eq!(*cached.inner(), rectangle);
    let other = GeomWithCachedEnvelope::new(rectangle);
    assert_eq!(other.envelope(), rectangle.envelope());
    assert_eq!(other.distance_2(&[5, 2]), 9);
}

#[test]
fn object_ref_borrows_its_object() {
    let rectangles = vec![
        Rectangle::from_corners([0i64, 0], [1, 1]),
        Rectangle::from_corners([5i64, 5], [6, 6]),
    ];
    let references: Vec<ObjectRef<Rectangle<[i64; 2]>>> =
        rectangles.iter().map(ObjectRef::new).collect();
    let tree = RTree::bulk_load(references);
    let nearest = tree.nearest_neighbor(&[7, 7]).unwrap();
    assert_eq!(*nearest.inner(), rectangles[1]);
    assert_eq!(nearest.envelope(), rectangles[1].envelope());
    assert_eq!(nearest.distance_2(&[7, 7]), 2);
}

// The corners and the query point on a grid of 2^20 steps a unit.
#[test]
fn test_min_max_dist_2_issue_40_regression() {
    let a = [735964i64, 222467, 851503];
    let b = [765224i64, 241391, 859274];
    let aabb = AABB::from_corners(a, b);
    let p = [728852i64, 231473, 858368];
    let corner = [a[0], b[1], a[2]];
    assert_eq!(aabb.min_max_dist_2(&p), corner.distance_2(&p));
}

// The edge from (0.5, 0.5) to (0.5, 2), in steps of one half: squared
// distances are four times those of the unit grid.
fn check_edge_distance<E: PointDistance<Envelope = AABB<[i64; 2]>>>(edge: E) {
    assert_eq!(edge.distance_2(&[1, 1]), 0);
    assert_eq!(edge.distance_2(&[0, 1]), 1);
    assert_eq!(edge.distance_2(&[1, 2]), 0);
    assert_eq!(edge.distance_2(&[0, 0]), 2);
    assert_eq!(edge.distance_2(&[0, 2]), 1);
    assert_eq!(edge.distance_2(&[2, 2]), 1);
    assert_eq!(edge.distance_2(&[2, 6]), 5);
}

#[test]
fn edge_edge_distance() {
    check_edge_distance(SimpleEdge::new([1i64, 1], [1, 4]));
}

#[test]
fn line_edge_distance() {
    check_edge_distance(Line::new([1i64, 1], [1, 4]));
}

#[test]
fn geom_with_data_container_edge_distance() {
    check_edge_distance(GeomWithData::new(Line::new([1i64, 1], [1, 4]), 1usize));
}

#[test]
fn cached_envelope_container_edge_distance() {
    check_edge_distance(CachedEnvelope::new(Line::new([1i64, 1], [1, 4])));
}

#[test]
fn geom_with_cached_envelope_container_edge_distance() {
    check_edge_distance(GeomWithCachedEnvelope::new(Line::new([1i64, 1], [1, 4])));
}

#[test]
fn geom_with_data_container_nearest_neighbour() {
    let mut lines = RTree::new();
    lines.insert(GeomWithData::new(Line::new([0i64, 0], [1, 1]), "Line A"));
    lines.insert(GeomWithData::new(Line::new([0i64, 0], [-1, 1]), "Line B"));
    let my_location = [0, 0];
    // Now find the closest line
    let place = lines.nearest_neighbor(&my_location).unwrap();

    assert_eq!(place.data, "Line A");
}

#[test]
fn cached_envelope_container_nearest_neighbour() {
    let mut lines = RTree::new();
    lines.insert(CachedEnvelope::new(GeomWithData::new(
        Line::new([0i64, 0], [1, 1]),
        "Line A",
    )));
    lines.insert(CachedEnvelope::new(GeomWithData::new(
        Line::new([0i64, 0], [-1, 1]),
        "Line B",
    )));
    let my_location = [0, 0];
    // Now find the closest line
    let place = lines.nearest_neighbor(&my_location).unwrap();

    assert_eq!(place.inner().data, "Line A");
}

#[test]
fn geom_with_cached_envelope_container_nearest_neighbour() {
    let mut lines = RTree::new();
    lines.insert(GeomWithCachedEnvelope::new(GeomWithData::new(
        Line::new([0i64, 0], [1, 1]),
        "Line A",
    )));
    lines.insert(GeomWithCachedEnvelope::new(GeomWithData::new(
        Line::new([0i64, 0], [-1, 1]),
        "Line B",
    )));
    let my_location = [0, 0];
    // Now find the closest line
    let place = lines.nearest_neighbor(&my_location).unwrap();

    assert_eq!(place.geom().data, "Line A");
}

#[test]
fn line_distance_is_rounded_down() {
    // From (1, 0) the line from (0, 0) to (3, 3) is at the squared distance
    // one half.
    let line = Line::new([0i64, 0], [3, 3]);
    assert_eq!(line.distance_2(&[1, 0]), 0);
    assert!(line.contains_point(&[1, 0]));
    assert_eq!(line.distance_2(&[3, 0]), 4);
    assert!(!line.contains_point(&[3, 0]));
    assert_eq!(line.distance_2(&[2, 2]), 0);
    assert_eq!(line.distance_2(&[5, 5]), 8);
    assert_eq!(line.distance_2(&[-1, -2]), 5);
    // A line without length is a point.
    let point = Line::new([2i64, 2], [2, 2]);
    assert_eq!(point.distance_2(&[5, 6]), 25);
    // Where the arithmetic saturates, the distance stays between that to
    // the envelope, here 9, and that to the nearer end, which is beyond the
    // largest number.
    let far = Line::new([i64::MIN, 0], [i64::MAX, 0]);
    assert_eq!(far.envelope().distance_2(&[0, 3]), 9);
    assert_eq!(far.distance_2(&[0, 3]), i64::MAX);
}

#[test]
fn lines_are_found_by_distance() {
    let lines: Vec<Line<[i64; 2]>> = (0..50)
        .map(|i| Line::new([10 * i, 0], [10 * i + 5, 100]))
        .collect();
    let tree = RTree::bulk_load(lines.clone());
    let nearest = tree.nearest_neighbor(&[203, 50]).unwrap();
    assert_eq!(*nearest, lines[20]);
    let within = tree.locate_within_distance([203, 50], 100);
    let expected = lines
        .iter()
        .filter(|line| line.distance_2(&[203, 50]) <= 100)
        .count();
    assert_eq!(within.len(), expected);
    assert!(expected >= 2);
}

#[test]
fn rectangle_of_a_box_keeps_the_box() {
    let aabb = AABB::from_corners([1i64, 2], [3, 4]);
    assert!(aabb.holds_points());
    let rectangle = Rectangle::from_aabb(aabb);
    assert_eq!(rectangle, Rectangle::from_corners([1, 2], [3, 4]));
    assert_eq!(rectangle.envelope(), aabb);
    assert_eq!(rectangle.lower(), aabb.lower());
    assert_eq!(rectangle.upper(), aabb.upper());
    let point = AABB::from_point([5i64, 5]);
    assert_eq!(Rectangle::from_aabb(point).envelope(), point);
    // A crossed box and the empty envelope hold no point: no rectangle is
    // made of them.
    let low = AABB::from_corners([0i64, 0], [2, 0]);
    let high = AABB::from_corners([0i64, 3], [2, 3]);
    assert!(!low.intersection(&high).holds_points());
    assert!(!AABB::<[i64; 2]>::new_empty().holds_points());
}
