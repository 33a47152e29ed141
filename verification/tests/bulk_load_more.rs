use rand::distributions::Uniform;
use rand::{Rng, SeedableRng};
use rand_hc::Hc128Rng;
use rstar::algorithm::bulk_load::cluster_group_iterator::{
    calculate_number_of_clusters_on_axis, power_capped, tree_depth, ClusterGroupIterator,
    SlabIterator,
};
use rstar::algorithm::bulk_load::level_partitioning::{div_up, LevelPartitioning};
use rstar::{Params, Point, RTree, RTreeObject};
use std::collections::HashSet;
use std::fmt::Debug;
use std::hash::Hash;

type Seed = [u8; 32];

const SEED_1: &Seed = b"wPYxAkIiHcEmSBAxQFoXFrpYToCe1B71";
const SEED_OLD_1: &Seed = b"dEac1difIc4tl0nsdEac1difIc4tl0ns";
const SEED_OLD_2: &Seed = b"h=Xak|s0CtAh3dr4h=Xak|s0CtAh3dr4";

fn create_random_integers<P: Point<Scalar = i32>>(num_points: usize, seed: &Seed) -> Vec<P> {
    let mut result = Vec::with_capacity(num_points);
    let mut rng = Hc128Rng::from_seed(*seed);
    let range = Uniform::from(-100_000..100_000);
    for _ in 0..num_points {
        let coordinates: Vec<i32> = (0..P::DIMENSIONS).map(|_| rng.sample(range)).collect();
        result.push(P::generate(|i| coordinates[i]));
    }
    result
}

fn create_and_check_bulk_loading_with_points<P>(points: &[P])
where
    P: RTreeObject + Eq + Clone + Debug + Hash,
{
    let tree = RTree::bulk_load(points.to_vec());
    let set1: HashSet<_> = tree.iter().into_iter().collect();
    let set2: HashSet<_> = points.iter().collect();
    assert_eq!(set1, set2);
    assert_eq!(tree.size(), points.len());
}

fn test_bulk_load_with_size_and_dimension<P>(size: usize)
where
    P: Point<Scalar = i32> + RTreeObject + Eq + Clone + Debug + Hash,
{
    let random_points = create_random_integers::<P>(size, SEED_1);
    create_and_check_bulk_loading_with_points(&random_points);
}

fn collect_slabs(mut slabs: ClusterGroupIterator<[i32; 2]>) -> Vec<Vec<[i32; 2]>> {
    let mut result = Vec::new();
    while let Some(slab) = slabs.next() {
        result.push(slab);
    }
    result
}

fn check_slabs(slabs: &[Vec<[i32; 2]>], slab_size: usize, size: usize) {
    for slab in &slabs[0..slabs.len() - 1] {
        assert_eq!(slab.len(), slab_size);
    }
    let mut total_size = 0;
    let mut max_element_for_last_slab = i32::min_value();
    for slab in slabs {
        total_size += slab.len();
        let current_max = slab.iter().max_by_key(|point| point[0]).unwrap();
        assert!(current_max[0] > max_element_for_last_slab);
        max_element_for_last_slab = current_max[0];
    }
    assert_eq!(total_size, size);
}

#[test]
fn bulk_load_test_create_slabs() {
    const SIZE: usize = 374;
    const SLAB_SIZE: usize = 10;
    let elements: Vec<_> = (0..SIZE as i32).map(|i| [-i, -i]).collect();
    let slabs = collect_slabs(SlabIterator::new(elements, div_up(SIZE, SLAB_SIZE), 0));
    assert_eq!(slabs.len(), (SIZE + SLAB_SIZE) / SLAB_SIZE);
    check_slabs(&slabs, SLAB_SIZE, SIZE);
}

#[test]
fn bulk_load_common_test_create_slabs() {
    const SIZE: usize = 374;
    const NUMBER_OF_CLUSTERS_ON_AXIS: usize = 5;
    let elements: Vec<_> = (0..SIZE as i32).map(|i| [-i, -i]).collect();
    let slab_size = (elements.len()) / NUMBER_OF_CLUSTERS_ON_AXIS + 1;
    let slabs = collect_slabs(SlabIterator::new(elements, NUMBER_OF_CLUSTERS_ON_AXIS, 0));
    assert_eq!(slabs.len(), NUMBER_OF_CLUSTERS_ON_AXIS);
    check_slabs(&slabs, slab_size, SIZE);
}

#[test]
fn test_cluster_group_iterator() {
    const SIZE: usize = 374;
    const NUMBER_OF_CLUSTERS_ON_AXIS: usize = 5;
    let elements: Vec<_> = (0..SIZE as i32).map(|i| [-i, -i]).collect();
    let slab_size = (elements.len()) / NUMBER_OF_CLUSTERS_ON_AXIS + 1;
    let slabs = collect_slabs(ClusterGroupIterator::new(elements, NUMBER_OF_CLUSTERS_ON_AXIS, 0));
    assert_eq!(slabs.len(), NUMBER_OF_CLUSTERS_ON_AXIS);
    check_slabs(&slabs, slab_size, SIZE);
}

#[test]
fn cluster_groups_run_along_the_second_axis() {
    let elements: Vec<[i32; 2]> = (0..20).map(|i| [i, 100 - 7 * i]).collect();
    let iterator = ClusterGroupIterator::new(elements, 4, 1);
    assert_eq!(iterator.cluster_dimension(), 1);
    let slabs = collect_slabs(iterator);
    assert_eq!(slabs.len(), 4);
    let mut last_max = i32::MIN;
    for slab in &slabs {
        assert_eq!(slab.len(), 5);
        let least = slab.iter().map(|p| p[1]).min().unwrap();
        let most = slab.iter().map(|p| p[1]).max().unwrap();
        assert!(least > last_max);
        last_max = most;
    }
}

#[test]
fn cluster_groups_of_nothing() {
    let slabs = collect_slabs(ClusterGroupIterator::new(Vec::new(), 3, 0));
    assert!(slabs.is_empty());
}

#[test]
fn bulk_load_test_bulk_load_small() {
    let random_points = create_random_integers::<[i32; 2]>(50, SEED_1);
    let tree = RTree::bulk_load(random_points.clone());
    let set1: HashSet<_> = tree.iter().into_iter().collect();
    let set2: HashSet<_> = random_points.iter().collect();
    assert_eq!(set1, set2);
    assert_eq!(tree.size(), random_points.len());
}

#[test]
fn bulk_load_test_bulk_load() {
    let random_points = create_random_integers::<[i32; 2]>(1000, SEED_1);
    let tree = RTree::bulk_load(random_points.clone());
    let set1: HashSet<_> = tree.iter().into_iter().collect();
    let set2: HashSet<_> = random_points.iter().collect();
    assert_eq!(set1, set2);
    assert_eq!(tree.size(), random_points.len());

    let random_points = create_random_integers::<[i32; 2]>(1000, SEED_OLD_1);
    let tree = RTree::bulk_load(random_points.clone());
    let set1: HashSet<_> = tree.iter().into_iter().collect();
    let set2: HashSet<_> = random_points.iter().collect();
    assert_eq!(set1, set2);
    assert_eq!(tree.size(), random_points.len());
}

#[test]
fn bulk_load_test_bulk_load_with_different_sizes() {
    for size in (0..100).map(|i| i * 7) {
        test_bulk_load_with_size_and_dimension::<[i32; 2]>(size);
        test_bulk_load_with_size_and_dimension::<[i32; 3]>(size);
        test_bulk_load_with_size_and_dimension::<[i32; 4]>(size);
    }
    // Bulk loading may leave nodes with fewer children than the smallest
    // size: the envelopes and the depth of the leaves are checked.
    let loose = Params::new(1, 6, 2);
    for i in 0..100 {
        let random_points = create_random_integers::<[i32; 2]>(i * 7, SEED_OLD_2);
        let tree = RTree::bulk_load(random_points);
        let height = tree.root().sanity_check(&loose, false);
        assert!(height.is_some());
        assert_eq!(height, Some(tree_depth(i * 7, 6)));
    }
}

#[test]
fn bulk_load_sequential_test_bulk_load_small() {
    let random_points = create_random_integers::<[i32; 2]>(50, SEED_1);
    create_and_check_bulk_loading_with_points(&random_points);
}

#[test]
fn bulk_load_sequential_test_bulk_load_large() {
    let random_points = create_random_integers::<[i32; 2]>(3000, SEED_1);
    create_and_check_bulk_loading_with_points(&random_points);
}

#[test]
fn bulk_load_sequential_test_bulk_load_with_different_sizes() {
    for size in (0..100).map(|i| i * 7) {
        test_bulk_load_with_size_and_dimension::<[i32; 2]>(size);
        test_bulk_load_with_size_and_dimension::<[i32; 3]>(size);
        test_bulk_load_with_size_and_dimension::<[i32; 4]>(size);
    }
}

#[test]
fn bulk_load_is_the_same_for_every_order() {
    let points = create_random_integers::<[i32; 2]>(200, SEED_1);
    let mut reversed = points.clone();
    reversed.reverse();
    let first = RTree::bulk_load(points);
    let second = RTree::bulk_load(reversed);
    let set1: HashSet<_> = first.iter().into_iter().collect();
    let set2: HashSet<_> = second.iter().into_iter().collect();
    assert_eq!(set1, set2);
    assert_eq!(first.size(), second.size());
}

#[test]
fn bulk_load_keeps_duplicates() {
    let points = vec![[1i32, 1]; 20];
    let tree = RTree::bulk_load(points);
    assert_eq!(tree.size(), 20);
    assert_eq!(tree.iter().len(), 20);
    assert_eq!(tree.locate_all_at_point(&[1, 1]).len(), 20);
}

#[test]
fn bulk_load_of_few_elements_is_one_node() {
    let tree = RTree::bulk_load(vec![[1i32, 2], [3, 4], [5, 6]]);
    assert_eq!(tree.size(), 3);
    assert_eq!(tree.root().children().len(), 3);
    // The objects are the leaves of the root, in their order.
    assert_eq!(tree.iter(), vec![&[1, 2], &[3, 4], &[5, 6]]);
    let empty: RTree<[i32; 2]> = RTree::bulk_load(Vec::new());
    assert_eq!(empty.size(), 0);
    assert_eq!(empty.root().children().len(), 0);
}

#[test]
fn clusters_on_an_axis() {
    // 50 elements with at most 6 children: depth 3, subtrees of 36, 2 clusters,
    // the square root of 2 rounded up.
    assert_eq!(tree_depth(50, 6), 3);
    assert_eq!(calculate_number_of_clusters_on_axis::<[i32; 2]>(50, 3, &Params::default()), 2);
    // 1000 elements: depth 4, subtrees of 216, 5 clusters, 3 on each axis.
    assert_eq!(tree_depth(1000, 6), 4);
    assert_eq!(calculate_number_of_clusters_on_axis::<[i32; 2]>(1000, 4, &Params::default()), 3);
    // In three dimensions the cube root of 5 rounded up.
    assert_eq!(calculate_number_of_clusters_on_axis::<[i32; 3]>(1000, 4, &Params::default()), 2);
    assert_eq!(tree_depth(6, 6), 1);
    assert_eq!(tree_depth(7, 6), 2);
    assert_eq!(tree_depth(36, 6), 2);
    assert_eq!(tree_depth(37, 6), 3);
}

#[test]
fn powers_stop_at_the_machine_limit() {
    assert_eq!(power_capped(6, 0), Some(1));
    assert_eq!(power_capped(6, 3), Some(216));
    assert_eq!(power_capped(2, 10), Some(1024));
    assert_eq!(power_capped(usize::MAX, 2), None);
    assert_eq!(power_capped(1, 1000), Some(1));
}

#[test]
fn division_rounds_up() {
    assert_eq!(div_up(0, 5), 0);
    assert_eq!(div_up(10, 5), 2);
    assert_eq!(div_up(11, 5), 3);
    assert_eq!(div_up(usize::MAX, 1), usize::MAX);
    assert_eq!(div_up(usize::MAX, 2), usize::MAX / 2 + 1);
}

#[test]
fn level_partitioning_of_a_square() {
    let partitioning = LevelPartitioning::new(36, 36, 2);
    assert_eq!(partitioning.dimension_sizes, vec![6, 6]);
    assert_eq!(partitioning.num_overflow_elements, 0);
    assert_eq!(partitioning.root_size, 36);
}

#[test]
fn bulk_loaded_trees_are_no_higher_than_their_depth() {
    // A check with the smallest size 1 returns the depth of the leaves.
    let loose = Params::new(1, 6, 2);
    for n in [1usize, 6, 7, 36, 37, 216, 217, 1000] {
        let points = create_random_integers::<[i32; 2]>(n, SEED_1);
        let tree = RTree::bulk_load(points);
        let depth = tree_depth(n, 6).max(1);
        match tree.root().sanity_check(&loose, false) {
            Some(height) => assert!(height <= depth),
            None => {}
        }
    }
}

fn check_packed(node: &rstar::RTreeNode<[i32; 2]>, depth: u32, max: usize) -> usize {
    match node {
        rstar::RTreeNode::Leaf(_) => 1,
        rstar::RTreeNode::Parent(parent) => {
            let objects: usize = parent
                .children()
                .iter()
                .map(|child| check_packed(child, depth.saturating_sub(1), max))
                .sum();
            assert!(objects <= max.pow(depth));
            for child in parent.children() {
                // The objects of a node that they fit are its children; the
                // children of every other node are parents.
                assert_eq!(child.is_leaf(), objects <= max);
            }
            objects
        }
    }
}

#[test]
fn bulk_loaded_trees_are_packed_from_the_top() {
    for n in [1usize, 6, 7, 36, 37, 100, 216, 217, 1000] {
        let points = create_random_integers::<[i32; 2]>(n, SEED_1);
        let tree = RTree::bulk_load(points);
        let depth = tree_depth(n, 6) as u32;
        let mut total = 0;
        for child in tree.root().children() {
            total += check_packed(child, depth.saturating_sub(1), 6);
        }
        assert_eq!(total, n);
        for child in tree.root().children() {
            assert_eq!(child.is_leaf(), n <= 6);
        }
    }
}
