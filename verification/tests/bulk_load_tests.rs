use rand::distributions::Uniform;
use rand::{Rng, SeedableRng};
use rand_hc::Hc128Rng;
use rstar::algorithm::bulk_load::level_partitioning::{div_up, LevelPartitioning};
use rstar::{Point, RTree, RTreeObject};
use std::collections::HashSet;
use std::fmt::Debug;
use std::hash::Hash;

type Seed = [u8; 32];

const SEED_1: &Seed = b"wPYxAkIiHcEmSBAxQFoXFrpYToCe1B71";

fn create_random_integers<P: Point<Scalar = i32>>(num_points: usize, seed: &Seed) -> Vec<P> {
    let mut result = Vec::with_capacity(num_points);
    let mut rng = Hc128Rng::from_seed(*seed);
    let range = Uniform::from(-100_000..100_000);
    for _ in 0..num_points {
        let coordinates: Vec<i32> = (0..P::DIMENSIONS).map(|_| rng.sample(range)).collect();
        result.push(P::generate(|i| coordinates[i]));
    }
    result
}

fn create_and_check_bulk_loading_with_points<P>(points: &[P])
where
    P: RTreeObject + Eq + Clone + Debug + Hash,
{
    let tree = RTree::bulk_load(points.to_vec());
    let set1: HashSet<_> = tree.iter().into_iter().collect();
    let set2: HashSet<_> = points.iter().collect();
    assert_eq!(set1, set2);
    assert_eq!(tree.size(), points.len());
}

fn test_bulk_load_with_size_and_dimension<P>(size: usize)
where
    P: Point<Scalar = i32> + RTreeObject + Eq + Clone + Debug + Hash,
{
    let random_points = create_random_integers::<P>(size, SEED_1);
    create_and_check_bulk_loading_with_points(&random_points);
}

#[test]
fn bulk_load_tests_test_bulk_load_small() {
    let random_points = create_random_integers::<[i32; 2]>(50, SEED_1);
    create_and_check_bulk_loading_with_points(&random_points);
}

#[test]
fn bulk_load_tests_test_bulk_load_large() {
    let random_points = create_random_integers::<[i32; 2]>(3000, SEED_1);
    create_and_check_bulk_loading_with_points(&random_points);
}

#[test]
fn bulk_load_tests_test_bulk_load_with_different_sizes() {
    for size in (0..100).map(|i| i * 7) {
        test_bulk_load_with_size_and_dimension::<[i32; 2]>(size);
        test_bulk_load_with_size_and_dimension::<[i32; 3]>(size);
        test_bulk_load_with_size_and_dimension::<[i32; 4]>(size);
    }
}

#[test]
fn test_level_partitioning() {
    for m in 3..100 {
        let partitioning = LevelPartitioning::new(m, m, 2);
        assert_eq!(partitioning.dimension_sizes.len(), 2);
        let d1 = partitioning.dimension_sizes[0];
        let d2 = partitioning.dimension_sizes[1];
        assert!((d1 as i32 - d2 as i32).abs() <= 1);
        assert!(partitioning.num_overflow_elements < m);
        assert_eq!(d1 * d2 + partitioning.num_overflow_elements, m);
    }
}

#[test]
fn test_calculate_root_size() {
    let m = 6;
    let sqr = 36usize;
    let cube = sqr * m;
    for num_elements in 0..=m {
        assert_eq!(
            LevelPartitioning::calculate_root_size(num_elements, m),
            num_elements
        );
    }
    for num_elements in m + 1..=sqr {
        assert_eq!(
            LevelPartitioning::calculate_root_size(num_elements, m),
            div_up(num_elements, m)
        );
    }
    for num_elements in sqr + 1..=cube {
        assert_eq!(
            LevelPartitioning::calculate_root_size(num_elements, m),
            div_up(num_elements, sqr)
        );
    }
}

#[test]
fn test_calculate_tree_height() {
    let m = 6;
    let sqr = 36usize;
    let cube = sqr * m;
    assert_eq!(LevelPartitioning::calculate_tree_height(0, m), 0);
    for num_elements in 1..=m {
        assert_eq!(LevelPartitioning::calculate_tree_height(num_elements, m), 1);
    }
    for num_elements in m + 1..=sqr {
        assert_eq!(LevelPartitioning::calculate_tree_height(num_elements, m), 2);
    }
    for num_elements in sqr + 1..=cube {
        assert_eq!(LevelPartitioning::calculate_tree_height(num_elements, m), 3);
    }
}
