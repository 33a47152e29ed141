use rand::{Rng, SeedableRng};
use rand_hc::Hc128Rng;
use rstar::algorithm::iterators::SelectionIterator;
use rstar::algorithm::selection_functions::{SelectAllFunc, SelectInEnvelopeFunction};
use rstar::primitives::{Line, Rectangle};
use rstar::{Envelope, RTree, RTreeObject, SelectionFunction, AABB};

type Seed = [u8; 32];

const SEED_1: &Seed = b"wPYxAkIiHcEmSBAxQFoXFrpYToCe1B71";

const SCALE: f64 = 1073741824.0;

/// Random points of the unit square, on a grid of 2^30 steps a side.
fn create_random_points(num_points: usize, seed: &Seed) -> Vec<[i64; 2]> {
    let mut result = Vec::with_capacity(num_points);
    let mut rng = Hc128Rng::from_seed(*seed);
    for _ in 0..num_points {
        let point: [f64; 2] = rng.gen();
        result.push([(point[0] * SCALE) as i64, (point[1] * SCALE) as i64]);
    }
    result
}

fn create_random_rectangles(num_rectangles: usize, seed: &Seed) -> Vec<Rectangle<[i64; 2]>> {
    let mut result = Vec::with_capacity(num_rectangles);
    let mut rng = Hc128Rng::from_seed(*seed);
    let factor = 10. / num_rectangles as f64;
    for _ in 0..num_rectangles {
        let point: [f64; 2] = rng.gen();
        let offset: [f64; 2] = rng.gen();
        let from = [(point[0] * SCALE) as i64, (point[1] * SCALE) as i64];
        let to = [
            ((point[0] + offset[1] * factor) * SCALE) as i64,
            ((point[1] + offset[1] * factor) * SCALE) as i64,
        ];
        result.push(Rectangle::from_corners(from, to));
    }
    result
}

struct SelectNoneFunc {}

impl SelectionFunction<[i32; 2]> for SelectNoneFunc {
    fn unpacks_parent(&self, _: AABB<[i32; 2]>) -> bool {
        false
    }

    fn unpacks_leaf(&self, _: [i32; 2]) -> bool {
        true
    }

    fn wf(&self) -> bool {
        true
    }

    fn should_unpack_parent(&self, _: &AABB<[i32; 2]>) -> bool {
        false
    }

    fn should_unpack_leaf(&self, _: &[i32; 2]) -> bool {
        true
    }
}

#[test]
fn test_root_node_is_not_always_unpacked() {
    let tree = RTree::bulk_load(vec![[0i32, 0]]);

    let elements = tree.locate_with_selection_function(SelectNoneFunc {});
    assert!(elements.into_iter().next().is_none());
}

#[test]
fn iterators_test_locate_all() {
    const NUM_RECTANGLES: usize = 400;
    let rectangles = create_random_rectangles(NUM_RECTANGLES, SEED_1);
    let tree = RTree::bulk_load(rectangles.clone());

    let query_points = create_random_points(20, SEED_1);

    for p in &query_points {
        let contained_sequential: Vec<_> = rectangles
            .iter()
            .filter(|rectangle| rectangle.envelope().contains_point(p))
            .cloned()
            .collect();

        let contained_rtree: Vec<_> = tree.locate_all_at_point(p).into_iter().cloned().collect();

        assert!(contained_sequential
            .iter()
            .all(|r| contained_rtree.contains(r)));
        assert!(contained_rtree
            .iter()
            .all(|r| contained_sequential.contains(r)));
        assert_eq!(contained_sequential.len(), contained_rtree.len());
    }
}

#[test]
fn test_locate_in_envelope() {
    let points = create_random_points(100, SEED_1);
    let tree = RTree::bulk_load(points.clone());
    let envelope = AABB::from_corners([536870912, 536870912], [1073741824, 1073741824]);
    let contained_in_envelope: Vec<_> = points
        .iter()
        .filter(|point| envelope.contains_point(point))
        .cloned()
        .collect();
    let len = contained_in_envelope.len();
    assert!(10 < len && len < 90, "unexpected point distribution");
    let located: Vec<_> = tree
        .locate_in_envelope(&envelope)
        .into_iter()
        .cloned()
        .collect();
    assert_eq!(len, located.len());
    for point in &contained_in_envelope {
        assert!(located.contains(point));
    }
}

struct SelectLeftOfZeroPointFiveFunc;

impl SelectionFunction<[i64; 2]> for SelectLeftOfZeroPointFiveFunc {
    fn unpacks_parent(&self, parent_envelope: AABB<[i64; 2]>) -> bool {
        self.should_unpack_parent(&parent_envelope)
    }

    fn unpacks_leaf(&self, child: [i64; 2]) -> bool {
        self.should_unpack_leaf(&child)
    }

    fn wf(&self) -> bool {
        true
    }

    fn should_unpack_parent(&self, parent_envelope: &AABB<[i64; 2]>) -> bool {
        parent_envelope.lower()[0] < 536870912 || parent_envelope.upper()[0] < 536870912
    }

    fn should_unpack_leaf(&self, child: &[i64; 2]) -> bool {
        child[0] < 536870912
    }
}

#[test]
fn test_locate_with_selection_func() {
    let func = SelectLeftOfZeroPointFiveFunc;

    let points = create_random_points(100, SEED_1);
    let tree = RTree::bulk_load(points.clone());
    let iterative_count = points
        .iter()
        .filter(|leaf| func.should_unpack_leaf(leaf))
        .count();
    let selected = tree.locate_with_selection_function(func);

    assert_eq!(iterative_count, selected.len());
    assert!(iterative_count > 20); // Make sure that we do test something interesting
    for point in &selected {
        assert!(point[0] < 536870912);
    }
}

#[test]
fn iterators_test_iteration() {
    const NUM_POINTS: usize = 1000;
    let points = create_random_points(NUM_POINTS, SEED_1);
    let mut tree = RTree::new();
    for p in &points {
        tree.insert(*p);
    }
    let mut count = 0usize;
    for p in tree.iter() {
        assert!(points.iter().any(|q| q == p));
        count += 1;
    }
    assert_eq!(count, NUM_POINTS);
    for p in &points {
        assert!(tree.iter().into_iter().any(|q| q == p));
    }
}

#[test]
fn test_locate_within_distance() {
    let points = create_random_points(100, SEED_1);
    let tree = RTree::bulk_load(points.clone());
    // A radius of the square root of 0.3, squared, around the point (0.2, 0.6).
    let circle_radius_2 = 345876451382054092;
    let circle_origin = [214748364, 644245094];
    let contained_in_circle: Vec<_> = points
        .iter()
        .filter(|point| Line::new(circle_origin, **point).length_2() <= circle_radius_2)
        .cloned()
        .collect();
    let located: Vec<_> = tree
        .locate_within_distance(circle_origin, circle_radius_2)
        .into_iter()
        .cloned()
        .collect();

    assert_eq!(located.len(), contained_in_circle.len());
    for point in &contained_in_circle {
        assert!(located.contains(point));
    }
}

#[test]
fn test_locate_within_distance_on_empty_tree() {
    let tree: RTree<[i64; 3]> = RTree::new();

    tree.locate_within_distance([0, 0, 0], 10);
}

#[test]
fn selection_iterator_yields_what_a_search_finds() {
    let points = create_random_points(2000, SEED_1);
    let tree = RTree::bulk_load(points.clone());
    let envelope = AABB::from_corners([0, 0], [700000000, 400000000]);
    let mut iterator = SelectionIterator::new(
        tree.root(),
        SelectInEnvelopeFunction::<[i64; 2]>::new(envelope),
    );
    let mut yielded = Vec::new();
    while let Some(p) = iterator.next() {
        yielded.push(*p);
    }
    assert!(iterator.next().is_none());
    let mut expected: Vec<[i64; 2]> = points
        .iter()
        .filter(|p| p[0] <= 700000000 && p[1] <= 400000000)
        .cloned()
        .collect();
    assert!(expected.len() > 100);
    // The iterator yields what a search finds, in the same order.
    let found: Vec<[i64; 2]> = tree
        .locate_in_envelope(&envelope)
        .into_iter()
        .cloned()
        .collect();
    assert_eq!(yielded, found);
    yielded.sort();
    expected.sort();
    assert_eq!(yielded, expected);
}

#[test]
fn selection_iterator_over_everything() {
    let mut tree = RTree::new();
    for i in 0..500i64 {
        tree.insert([i, 500 - i]);
    }
    let mut iterator = SelectionIterator::new(tree.root(), SelectAllFunc);
    let mut count = 0;
    while let Some(p) = iterator.next() {
        assert_eq!(p[0] + p[1], 500);
        count += 1;
    }
    assert_eq!(count, 500);
}
