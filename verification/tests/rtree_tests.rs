use rand::{Rng, SeedableRng};
use rand_hc::Hc128Rng;
use rstar::algorithm::rstar::choose_subtree;
use rstar::primitives::Rectangle;
use rstar::{Envelope, Params, ParentNode, RTree, RTreeNode, RTreeObject, AABB};

type Seed = [u8; 32];

const SEED_1: &Seed = b"wPYxAkIiHcEmSBAxQFoXFrpYToCe1B71";
const SEED_2: &Seed = b"4KbTVjPT4DXSwWAsQM5dkWWywPKZRfCX";

const SCALE: f64 = 1048576.0;

/// Random points of the unit square, on a grid of 2^20 steps a side.
fn create_random_points(num_points: usize, seed: &Seed) -> Vec<[i64; 2]> {
    let mut result = Vec::with_capacity(num_points);
    let mut rng = Hc128Rng::from_seed(*seed);
    for _ in 0..num_points {
        let point: [f64; 2] = rng.gen();
        result.push([(point[0] * SCALE) as i64, (point[1] * SCALE) as i64]);
    }
    result
}

fn create_random_rectangles(num_rectangles: usize, seed: &Seed) -> Vec<Rectangle<[i64; 2]>> {
    let mut result = Vec::with_capacity(num_rectangles);
    let mut rng = Hc128Rng::from_seed(*seed);
    let factor = 10. / num_rectangles as f64;
    for _ in 0..num_rectangles {
        let point: [f64; 2] = rng.gen();
        let offset: [f64; 2] = rng.gen();
        let from = [(point[0] * SCALE) as i64, (point[1] * SCALE) as i64];
        let to = [
            ((point[0] + offset[1] * factor) * SCALE) as i64,
            ((point[1] + offset[1] * factor) * SCALE) as i64,
        ];
        result.push(Rectangle::from_corners(from, to));
    }
    result
}

#[test]
fn rtree_test_create_rtree_with_parameters() {
    let tree: RTree<[i32; 2]> = RTree::new_with_params(Params::new(10, 20, 1));
    assert_eq!(tree.size(), 0);
}

#[test]
fn rtree_test_insert_single() {
    let mut tree: RTree<_> = RTree::new();
    tree.insert([2i32, 40]);
    assert_eq!(tree.size(), 1);
    assert!(tree.contains(&[2, 40]));
    assert!(!tree.contains(&[30, 20]));
}

#[test]
fn rtree_test_insert_many() {
    const NUM_POINTS: usize = 1000;
    let points = create_random_points(NUM_POINTS, SEED_1);
    let mut tree = RTree::new();
    for p in &points {
        tree.insert(*p);
        assert!(tree.root().sanity_check(&Params::default(), true).is_some());
    }
    assert_eq!(tree.size(), NUM_POINTS);
    for p in &points {
        assert!(tree.contains(p));
    }
}

#[test]
fn test_default() {
    let tree: RTree<[i32; 2]> = Default::default();
    assert_eq!(tree.size(), 0);
}

#[test]
fn test_bulk_load_crash() {
    let bulk_nodes: Vec<[i64; 3]> = vec![
        [570, 1080, 89],
        [30, 1080, 627],
        [1916, 1080, 68],
        [274, 1080, 790],
        [476, 1080, 895],
        [1557, 1080, 250],
        [1546, 1080, 883],
        [1512, 1080, 610],
        [1729, 1080, 358],
        [1841, 1080, 434],
        [1752, 1080, 696],
        [1674, 1080, 705],
        [136, 1080, 22],
        [1593, 1080, 71],
        [586, 1080, 272],
        [348, 1080, 373],
        [502, 1080, 2],
        [1488, 1080, 1072],
        [31, 1080, 526],
        [1695, 1080, 559],
        [1663, 1080, 298],
        [316, 1080, 417],
        [1348, 1080, 731],
        [784, 1080, 126],
        [225, 1080, 847],
        [79, 1080, 819],
        [320, 1080, 504],
        [1714, 1080, 1026],
        [264, 1080, 229],
        [108, 1080, 158],
        [1665, 1080, 604],
        [496, 1080, 231],
        [1813, 1080, 865],
        [1200, 1080, 326],
        [1661, 1080, 818],
        [135, 1080, 229],
        [424, 1080, 1016],
        [1708, 1080, 791],
        [1626, 1080, 682],
        [442, 1080, 895],
    ]
    .into_iter()
    .map(|p: [i64; 3]| [p[0] * 100000, p[1] * 100000, p[2] * 100000])
    .collect();
    // The coordinates of the points to insert, in steps of 1/100000.
    let nodes: Vec<[i64; 3]> = vec![
        [191600000, 106000000, 6800000],
        [166400000, 106000000, 29800000],
        [159400000, 106000000, 7100000],
        [22500000, 106000000, 84600000],
        [184100000, 106000000, 43400000],
        [50200000, 106000000, 200000],
        [162558520, 106001220, 68200000],
        [134852730, 106000290, 73108124],
        [31636127, 106002980, 41824515],
        [172932530, 106000230, 35850134],
    ];
    let mut tree = RTree::bulk_load(bulk_nodes);
    for node in nodes {
        // Bulk loading will create nodes larger than the maximum size,
        // which is intentional and not harmful.
        tree.insert(node);
        assert!(tree.root().sanity_check(&Params::default(), false).is_some());
    }
}

#[test]
fn test_remove_and_insert_rectangles() {
    const SIZE: usize = 1000;
    let initial_rectangles = create_random_rectangles(SIZE, SEED_1);
    let new_rectangles = create_random_rectangles(SIZE, SEED_2);
    let mut tree = RTree::bulk_load(initial_rectangles.clone());

    for (rectangle_to_remove, rectangle_to_add) in
        initial_rectangles.iter().zip(new_rectangles.iter())
    {
        assert!(tree.remove(rectangle_to_remove).is_some());
        tree.insert(*rectangle_to_add);
    }
    assert_eq!(tree.size(), SIZE);
    assert!(initial_rectangles.iter().all(|p| !tree.contains(p)));
    assert!(new_rectangles.iter().all(|p| tree.contains(p)));
    for rectangle in &new_rectangles {
        assert!(tree.contains(rectangle));
    }
    for rectangle in &initial_rectangles {
        assert!(!tree.contains(rectangle));
    }
    for rectangle in &new_rectangles {
        assert!(tree.remove(rectangle).is_some());
    }
    assert_eq!(tree.size(), 0);
}

#[test]
fn test_intersection_between_trees() {
    let rectangles1 = create_random_rectangles(100, SEED_1);
    let rectangles2 = create_random_rectangles(42, SEED_2);

    let mut intersections_brute_force = Vec::new();
    for rectangle1 in &rectangles1 {
        for rectangle2 in &rectangles2 {
            if rectangle1.envelope().intersects(&rectangle2.envelope()) {
                intersections_brute_force.push((rectangle1, rectangle2));
            }
        }
    }

    let tree1 = RTree::bulk_load(rectangles1.clone());
    let tree2 = RTree::bulk_load(rectangles2.clone());
    let mut intersections_from_trees = tree1.intersection_candidates_with_other_tree(&tree2);

    let key = |pair: &(&Rectangle<[i64; 2]>, &Rectangle<[i64; 2]>)| {
        (pair.0.lower(), pair.0.upper(), pair.1.lower(), pair.1.upper())
    };
    intersections_brute_force.sort_by_key(key);
    intersections_from_trees.sort_by_key(key);
    assert_eq!(intersections_brute_force, intersections_from_trees);
}

#[test]
fn test_drain_iterator() {
    const SIZE: usize = 1000;
    let points = create_random_points(SIZE, SEED_1);
    let mut tree = RTree::bulk_load(points.clone());

    let mut drain = tree.drain_with_selection_function(rstar::algorithm::selection_functions::SelectAllFunc);
    let mut drain_count = 0;
    while drain_count < 250 && drain.next().is_some() {
        drain_count += 1;
    }
    drain.finish();
    assert_eq!(drain_count, 250);
    assert_eq!(tree.size(), 750);

    let mut drain = tree.drain_with_selection_function(rstar::algorithm::selection_functions::SelectAllFunc);
    let mut drain_count = 0;
    while drain_count < 250 && drain.next().is_some() {
        drain_count += 1;
    }
    drain.finish();
    assert_eq!(drain_count, 250);
    assert_eq!(tree.size(), 500);

    // An iterator that is not finished takes the objects with it.
    drop(tree.drain_with_selection_function(rstar::algorithm::selection_functions::SelectAllFunc));
    // The tree has no nodes. It can be used again.
    assert_eq!(tree.size(), 0);

    let points = create_random_points(1000, SEED_1);
    points.clone().into_iter().for_each(|pt| tree.insert(pt));

    // The corners (-2, -0.6) and (0.5, 0.85).
    let env = AABB::from_corners([-2097152, -629146], [524288, 891289]);
    let expected = points
        .iter()
        .filter(|p| env.contains_point(p))
        .count();

    let mut drain = tree.drain_in_envelope_intersecting(env);
    let mut drain_count = 0;
    while drain_count < 80 && drain.next().is_some() {
        drain_count += 1;
    }
    drain.finish();
    assert_eq!(drain_count, 80);

    let mut drain = tree.drain_in_envelope_intersecting(env);
    let mut drain_count = 0;
    while drain.next().is_some() {
        drain_count += 1;
    }
    drain.finish();
    assert_eq!(drain_count, expected - 80);
    assert_eq!(drain_count, 326);

    let sel_count = tree.locate_in_envelope_intersecting(&env).len();
    assert_eq!(sel_count, 0);
    assert_eq!(tree.size(), 1000 - 80 - 326);
}

#[test]
fn split_sorts_the_children_along_an_axis() {
    let mut tree = RTree::new_with_params(Params::new(2, 4, 0));
    for p in [[5i64, 5], [1, 1], [4, 4], [2, 2], [3, 3]] {
        tree.insert(p);
    }
    let children = tree.root().children();
    assert_eq!(children.len(), 2);
    let first = children[0].envelope();
    let second = children[1].envelope();
    assert!(!first.intersects(&second));
    assert_eq!(first, AABB::from_corners([1, 1], [2, 2]));
    assert_eq!(second, AABB::from_corners([3, 3], [5, 5]));
}

#[test]
fn reinsertion_takes_the_child_farthest_from_the_center() {
    let params = Params::new(2, 4, 1);
    let points: Vec<[i64; 2]> = vec![
        [0, 0],
        [190, 1],
        [200, 2],
        [300, 3],
        [0, 1000],
        [100, 1001],
        [200, 1002],
        [300, 1003],
    ];
    let mut tree = RTree::bulk_load_with_params(params, points);
    assert_eq!(tree.root().children().len(), 4);
    for p in [[10i64, 0], [20, 1], [30, 0]] {
        tree.insert(p);
    }
    assert_eq!(tree.size(), 11);
    assert_eq!(tree.root().children().len(), 4);
    let mut found = false;
    for child in tree.root().children() {
        if let RTreeNode::Parent(parent) = child {
            if parent.envelope() == AABB::from_corners([190, 1], [300, 3]) {
                assert_eq!(parent.children().len(), 3);
                found = true;
            }
        }
    }
    assert!(found);
    assert!(tree.root().sanity_check(&params, true).is_some());
}

#[test]
fn insert_and_remove_leave_the_tree_as_it_was() {
    let points = create_random_points(100, SEED_1);
    let mut tree = RTree::bulk_load(points.clone());
    let extra = [12345i64, 67890];
    tree.insert(extra);
    assert_eq!(tree.size(), 101);
    assert_eq!(tree.remove(&extra), Some(extra));
    assert_eq!(tree.size(), 100);
    let mut left: Vec<[i64; 2]> = tree.iter().into_iter().cloned().collect();
    left.sort();
    let mut all = points.clone();
    all.sort();
    assert_eq!(left, all);
}

fn leaves_of(node: &RTreeNode<[i64; 2]>) -> Vec<[i64; 2]> {
    match node {
        RTreeNode::Leaf(t) => vec![*t],
        RTreeNode::Parent(parent) => parent.children().iter().flat_map(leaves_of).collect(),
    }
}

#[test]
fn insertion_goes_into_the_chosen_child() {
    // Two nodes of two points each; the point [5, 1] lies in neither. The
    // first would grow by 6 to the area 10 and come to overlap the second by
    // 2; the second would grow by 10 to the area 20 and overlap nothing: the
    // second is chosen.
    let first = ParentNode::new_parent(vec![RTreeNode::Leaf([0i64, 0]), RTreeNode::Leaf([2, 2])]);
    let second = ParentNode::new_parent(vec![RTreeNode::Leaf([3i64, 0]), RTreeNode::Leaf([4, 10])]);
    let root = ParentNode::new_parent(vec![RTreeNode::Parent(first), RTreeNode::Parent(second)]);
    assert_eq!(choose_subtree(&root, &RTreeNode::Leaf([5, 1])), 1);
    let mut tree = RTree::from_root(Params::default(), root).unwrap();
    tree.insert([5, 1]);
    let children = tree.root().children();
    assert_eq!(children.len(), 2);
    assert_eq!(leaves_of(&children[0]), vec![[0, 0], [2, 2]]);
    assert_eq!(leaves_of(&children[1]), vec![[3, 0], [4, 10], [5, 1]]);
    assert_eq!(children[1].envelope(), AABB::from_corners([3, 0], [5, 10]));
    // A point that a node contains goes into that node.
    tree.insert([1, 1]);
    let children = tree.root().children();
    assert_eq!(leaves_of(&children[0]), vec![[0, 0], [2, 2], [1, 1]]);
    assert_eq!(leaves_of(&children[1]), vec![[3, 0], [4, 10], [5, 1]]);
}

#[test]
fn the_smallest_container_is_chosen_whatever_its_area() {
    // Both nodes contain the point; their areas are beyond the largest
    // number of the coordinate type. The second does not contain the point.
    let huge = ParentNode::new_parent(vec![
        RTreeNode::Leaf([0i32, 0]),
        RTreeNode::Leaf([100000, 100000]),
    ]);
    let other = ParentNode::new_parent(vec![
        RTreeNode::Leaf([2000000i32, 2000000]),
        RTreeNode::Leaf([2000001, 2000001]),
    ]);
    let root = ParentNode::new_parent(vec![RTreeNode::Parent(other), RTreeNode::Parent(huge)]);
    assert_eq!(choose_subtree(&root, &RTreeNode::Leaf([50000, 50000])), 1);
}
