use rand::{Rng, SeedableRng};
use rand_hc::Hc128Rng;
use rstar::primitives::Rectangle;
use rstar::{RTree, AABB};

type Seed = [u8; 32];

const SEED_1: &Seed = b"wPYxAkIiHcEmSBAxQFoXFrpYToCe1B71";
const SEED_2: &Seed = b"4KbTVjPT4DXSwWAsQM5dkWWywPKZRfCX";

const SCALE: f64 = 1048576.0;

/// Random points of the unit square, on a grid of 2^20 steps a side.
fn create_random_points(num_points: usize, seed: &Seed) -> Vec<[i64; 2]> {
    let mut result = Vec::with_capacity(num_points);
    let mut rng = Hc128Rng::from_seed(*seed);
    for _ in 0..num_points {
        let point: [f64; 2] = rng.gen();
        result.push([(point[0] * SCALE) as i64, (point[1] * SCALE) as i64]);
    }
    result
}

fn create_random_rectangles(num_rectangles: usize, seed: &Seed) -> Vec<Rectangle<[i64; 2]>> {
    let mut result = Vec::with_capacity(num_rectangles);
    let mut rng = Hc128Rng::from_seed(*seed);
    let factor = 10. / num_rectangles as f64;
    for _ in 0..num_rectangles {
        let point: [f64; 2] = rng.gen();
        let offset: [f64; 2] = rng.gen();
        let from = [(point[0] * SCALE) as i64, (point[1] * SCALE) as i64];
        let to = [
            ((point[0] + offset[1] * factor) * SCALE) as i64,
            ((point[1] + offset[1] * factor) * SCALE) as i64,
        ];
        result.push(Rectangle::from_corners(from, to));
    }
    result
}

#[test]
fn removal_test_remove_and_insert() {
    const SIZE: usize = 1000;
    let points = create_random_points(SIZE, SEED_1);
    let later_insertions = create_random_points(SIZE, SEED_2);
    let mut tree = RTree::bulk_load(points.clone());
    for (point_to_remove, point_to_add) in points.iter().zip(later_insertions.iter()) {
        assert!(tree.remove_at_point(point_to_remove).is_some());
        tree.insert(*point_to_add);
    }
    assert_eq!(tree.size(), SIZE);
    assert!(points.iter().all(|p| !tree.contains(p)));
    assert!(later_insertions.iter().all(|p| tree.contains(p)));
    for point in &later_insertions {
        assert!(tree.remove_at_point(point).is_some());
    }
    assert_eq!(tree.size(), 0);
}

#[test]
fn removal_test_remove_at_point() {
    let points = create_random_points(1000, SEED_1);
    let mut tree = RTree::bulk_load(points.clone());
    for point in &points {
        let size_before_removal = tree.size();
        assert!(tree.remove_at_point(point).is_some());
        assert!(tree.remove_at_point(&[1000 * 1048576, 1000 * 1048576]).is_none());
        assert_eq!(size_before_removal - 1, tree.size());
    }
}

#[test]
fn rectangles_are_found_where_they_intersect() {
    let rectangles = create_random_rectangles(100, SEED_1);
    let tree = RTree::bulk_load(rectangles.clone());
    let query = AABB::from_corners([0, 0], [524288, 524288]);
    let found = tree.locate_in_envelope_intersecting(&query);
    let expected = rectangles
        .iter()
        .filter(|r| {
            r.lower()[0] <= 524288 && r.lower()[1] <= 524288 && r.upper()[0] >= 0 && r.upper()[1] >= 0
        })
        .count();
    assert_eq!(found.len(), expected);
}

#[test]
fn test_trivial_intersections() {
    let points1 = create_random_points(1000, SEED_1);
    let points2 = create_random_points(2000, SEED_2);
    let tree1 = RTree::bulk_load(points1);
    let tree2 = RTree::bulk_load(points2);

    assert_eq!(
        tree1
            .intersection_candidates_with_other_tree(&tree2)
            .len(),
        0
    );
    assert_eq!(
        tree1
            .intersection_candidates_with_other_tree(&tree1)
            .len(),
        tree1.size()
    );
}
