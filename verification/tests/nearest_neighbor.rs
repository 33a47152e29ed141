use rand::{Rng, SeedableRng};
use rand_hc::Hc128Rng;
use rstar::algorithm::small_heap::SmallHeap;
use rstar::{PointExt, RTree};

type Seed = [u8; 32];

const SEED_1: &Seed = b"wPYxAkIiHcEmSBAxQFoXFrpYToCe1B71";
const SEED_2: &Seed = b"4KbTVjPT4DXSwWAsQM5dkWWywPKZRfCX";

/// Random points of the unit square, on a grid of 2^30 steps a side.
fn create_random_points(num_points: usize, seed: &Seed) -> Vec<[i64; 2]> {
    let mut result = Vec::with_capacity(num_points);
    let mut rng = Hc128Rng::from_seed(*seed);
    for _ in 0..num_points {
        let point: [f64; 2] = rng.gen();
        result.push([(point[0] * 1073741824.0) as i64, (point[1] * 1073741824.0) as i64]);
    }
    result
}

#[test]
fn nearest_neighbor_test_nearest_neighbor_empty() {
    let tree: RTree<[i64; 2]> = RTree::new();
    assert!(tree.nearest_neighbor(&[0, 213]).is_none());
}

#[test]
fn nearest_neighbor_test_nearest_neighbor() {
    let points = create_random_points(1000, SEED_1);
    let tree = RTree::bulk_load(points.clone());

    let sample_points = create_random_points(100, SEED_2);
    for sample_point in &sample_points {
        let mut nearest = None;
        let mut closest_dist = i64::MAX;
        for point in &points {
            let delta = [point[0] - sample_point[0], point[1] - sample_point[1]];
            let new_dist = delta[0] * delta[0] + delta[1] * delta[1];
            if new_dist < closest_dist {
                closest_dist = new_dist;
                nearest = Some(point);
            }
        }
        assert_eq!(nearest, tree.nearest_neighbor(sample_point));
    }
}

#[test]
fn test_nearest_neighbors_empty() {
    let tree: RTree<[i64; 2]> = RTree::new();
    assert!(tree.nearest_neighbors(&[0, 213]).is_empty());
}

#[test]
fn test_nearest_neighbors() {
    let points = create_random_points(1000, SEED_1);
    let tree = RTree::bulk_load(points);

    let sample_points = create_random_points(50, SEED_2);
    for sample_point in &sample_points {
        let nearest_neighbors = tree.nearest_neighbors(sample_point);
        let mut distance = -1;
        for nn in &nearest_neighbors {
            if distance < 0 {
                distance = sample_point.distance_2(nn);
            } else {
                let new_distance = sample_point.distance_2(nn);
                assert_eq!(new_distance, distance);
            }
        }
    }
}

#[test]
fn test_nearest_neighbor_iterator() {
    let mut points = create_random_points(1000, SEED_1);
    let tree = RTree::bulk_load(points.clone());

    let sample_points = create_random_points(50, SEED_2);
    for sample_point in &sample_points {
        points.sort_by(|r, l| r.distance_2(sample_point).cmp(&l.distance_2(sample_point)));
        let collected: Vec<_> = tree
            .nearest_neighbor_iter(sample_point)
            .into_iter()
            .cloned()
            .collect();
        assert_eq!(points, collected);
    }
}

#[test]
fn test_nearest_neighbor_iterator_with_distance_2() {
    let points = create_random_points(1000, SEED_2);
    let tree = RTree::bulk_load(points);

    let sample_points = create_random_points(50, SEED_1);
    for sample_point in &sample_points {
        let mut last_distance = 0;
        for (point, distance) in tree.nearest_neighbor_iter_with_distance_2(sample_point) {
            assert_eq!(point.distance_2(sample_point), distance);
            assert!(last_distance < distance);
            last_distance = distance;
        }
    }
}

#[test]
fn nearest_neighbors_of_three_points() {
    let tree = RTree::bulk_load(vec![[0i64, 0], [0, 100], [100, 0]]);
    let nearest = tree.nearest_neighbor(&[100, 100]).unwrap();
    assert!(*nearest == [0, 100] || *nearest == [100, 0]);
    let mut both: Vec<[i64; 2]> = tree
        .nearest_neighbors(&[100, 100])
        .into_iter()
        .cloned()
        .collect();
    both.sort();
    assert_eq!(both, vec![[0, 100], [100, 0]]);
    let one: Vec<[i64; 2]> = tree.nearest_neighbors(&[1, 1]).into_iter().cloned().collect();
    assert_eq!(one, vec![[0, 0]]);
}

#[test]
fn pop_nearest_neighbor_empties_the_tree_in_order() {
    let points = create_random_points(200, SEED_1);
    let mut tree = RTree::bulk_load(points.clone());
    let query = [524288, 524288];
    let mut last = 0;
    for remaining in (0..200).rev() {
        let popped = tree.pop_nearest_neighbor(&query).unwrap();
        let distance = popped.distance_2(&query);
        assert!(last <= distance);
        last = distance;
        assert_eq!(tree.size(), remaining);
    }
    assert!(tree.pop_nearest_neighbor(&query).is_none());
}

#[test]
fn queue_hands_out_its_entries_in_order() {
    let mut queue = SmallHeap::new();
    let mut expected = Vec::new();
    for i in 0..200usize {
        let entry = (((i * 7919) % 211) as i64 - 100, i % 13);
        queue.push(entry);
        expected.push(entry);
    }
    expected.sort();
    let mut popped = Vec::new();
    while let Some(entry) = queue.pop() {
        popped.push(entry);
    }
    assert_eq!(popped, expected);
    assert_eq!(queue.pop(), None);
}

#[test]
fn queue_of_few_entries_and_of_many() {
    let mut queue = SmallHeap::new();
    for i in (0..32i64).rev() {
        queue.push((i, 0));
    }
    assert_eq!(queue.pop(), Some((0, 0)));
    // The queue has room again: the next entries stay where they are.
    queue.push((-1, 5));
    assert_eq!(queue.pop(), Some((-1, 5)));
    queue.push((100, 1));
    queue.push((50, 2));
    queue.push((50, 1));
    let mut last = (i64::MIN, 0);
    let mut count = 0;
    while let Some(entry) = queue.pop() {
        assert!(last <= entry);
        last = entry;
        count += 1;
    }
    assert_eq!(count, 34);
    assert_eq!(last, (100, 1));
    // Pushing and popping in turn, past the room of the small heap.
    for round in 0..10i64 {
        for i in 0..20i64 {
            queue.push((round * 20 - i, i as usize));
        }
        let least = queue.pop().unwrap();
        assert!(least.0 <= round * 20 - 19);
    }
}
