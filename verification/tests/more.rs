use rand::{Rng, SeedableRng};
use rand_hc::Hc128Rng;
use rstar::algorithm::selection_functions::{
    SelectAllFunc, SelectAtPointFunction, SelectEqualsFunction, SelectInEnvelopeFuncIntersecting,
    SelectInEnvelopeFunction, SelectWithinDistanceFunction,
};
use rstar::algorithm::bulk_load::bulk_load_sequential::root_clusters;
use rstar::metrics::RTreeMetrics;
use rstar::primitives::{Line, Rectangle, SimpleEdge};
use rstar::{
    Envelope, Params, ParentNode, PointExt, RTree, RTreeNode, RTreeObject, SelectionFunction, AABB,
};

type Seed = [u8; 32];

const SEED_1: &Seed = b"wPYxAkIiHcEmSBAxQFoXFrpYToCe1B71";
const SEED_2: &Seed = b"4KbTVjPT4DXSwWAsQM5dkWWywPKZRfCX";
const SEED_OLD_1: &Seed = b"rem0T3Cont)o|:ngrem0T3Cont)o|:ng";
const SEED_OLD_2: &Seed = b"h?eMot-7hom3te)5h?eMot-7hom3te)5";

const SCALE: f64 = 1048576.0;

/// Random points of the unit square, on a grid of 2^20 steps a side.
fn create_random_points(num_points: usize, seed: &Seed) -> Vec<[i64; 2]> {
    let mut result = Vec::with_capacity(num_points);
    let mut rng = Hc128Rng::from_seed(*seed);
    for _ in 0..num_points {
        let point: [f64; 2] = rng.gen();
        result.push([(point[0] * SCALE) as i64, (point[1] * SCALE) as i64]);
    }
    result
}

fn seed_of(words: [u32; 4]) -> Seed {
    let mut seed = [0u8; 32];
    for (i, word) in words.iter().enumerate() {
        seed[4 * i..4 * i + 4].copy_from_slice(&word.to_le_bytes());
    }
    seed
}

fn check_remove_edges(points: Vec<[i64; 2]>, offsets: Vec<[i64; 2]>) {
    // A twentieth of each offset.
    let scaled = offsets.iter().map(|p| [p[0] / 20, p[1] / 20]);
    let edges: Vec<_> = points
        .iter()
        .zip(scaled)
        .map(|(from, offset)| Line::new(*from, PointExt::add(from, &offset)))
        .collect();
    let mut tree = RTree::bulk_load(edges.clone());
    for edge in &edges {
        let size_before_removal = tree.size();
        assert!(tree.remove(edge).is_some());
        assert!(tree.remove(edge).is_none());
        assert_eq!(size_before_removal - 1, tree.size());
    }
}

#[test]
fn removal_test_remove() {
    check_remove_edges(
        create_random_points(1000, SEED_1),
        create_random_points(1000, SEED_2),
    );
    check_remove_edges(
        create_random_points(1000, SEED_OLD_1),
        create_random_points(1000, SEED_OLD_2),
    );
}

#[test]
fn simple_edge_is_a_line() {
    let edge: SimpleEdge<[i32; 2]> = SimpleEdge::new([0, 0], [3, 4]);
    assert_eq!(edge, Line::new([0, 0], [3, 4]));
    assert_eq!(edge.length_2(), 25);
}

#[test]
fn iterator_test_iteration() {
    const NUM_POINTS: usize = 1000;
    let points = create_random_points(NUM_POINTS, &seed_of([921545, 22305, 2004822, 142567]));
    let mut tree = RTree::new();
    for p in &points {
        tree.insert(*p);
    }
    let mut count = 0usize;
    for p in tree.iter() {
        assert!(points.iter().any(|q| q == p));
        count += 1;
    }
    assert_eq!(count, NUM_POINTS);
    for p in &points {
        assert!(tree.iter().into_iter().any(|q| q == p));
    }
}

#[derive(Clone, Copy, PartialEq, Debug)]
struct TestRectangle {
    aabb: AABB<[i64; 2]>,
}

impl RTreeObject for TestRectangle {
    type Envelope = AABB<[i64; 2]>;

    fn envelope_spec(&self) -> AABB<[i64; 2]> {
        self.aabb
    }

    fn lemma_envelope_valid(&self) {}

    fn envelope(&self) -> Self::Envelope {
        self.aabb
    }
}

#[test]
fn locate_test_locate_all() {
    const NUM_POINTS: usize = 400;
    let points = create_random_points(NUM_POINTS, &seed_of([231, 22912, 399939, 922931]));
    let mut tree = RTree::new();
    let mut aabb_list = Vec::new();
    for ps in points.as_slice().windows(2) {
        let rectangle = TestRectangle {
            aabb: AABB::from_points(&ps.to_vec()),
        };
        tree.insert(rectangle);
        aabb_list.push(rectangle)
    }

    let query_points = create_random_points(10, &seed_of([59123, 312331, 23235, 123678]));
    for p in &query_points {
        let contained_sequential: Vec<_> = aabb_list
            .iter()
            .filter(|aabb| aabb.aabb.contains_point(p))
            .cloned()
            .collect();
        let contained_rtree: Vec<_> = tree
            .locate_in_envelope_intersecting(&AABB::from_point(*p))
            .into_iter()
            .cloned()
            .collect();
        for rect in &contained_rtree {
            assert!(&contained_sequential.contains(rect));
        }
        assert_eq!(contained_sequential.len(), contained_rtree.len());
        for rect in &contained_sequential {
            assert!(&contained_rtree.contains(rect));
        }
    }
}

#[test]
fn counters_count() {
    let mut metrics = RTreeMetrics::new();
    assert_eq!(metrics.insertions, 0);
    metrics.increment_insertions();
    metrics.increment_insertions();
    metrics.increment_reinsertions();
    metrics.increment_choose_subtree();
    metrics.increment_choose_subtree_outsiders();
    metrics.increment_choose_subtree_leaves();
    metrics.increment_splits();
    metrics.increment_splits();
    metrics.increment_splits();
    metrics.increment_recursive_insertions();
    metrics.increment_resolve_overflow();
    metrics.increment_resolve_overflow_overflows();
    assert_eq!(metrics.insertions, 2);
    assert_eq!(metrics.reinsertions, 1);
    assert_eq!(metrics.choose_subtree, 1);
    assert_eq!(metrics.choose_subtree_outsiders, 1);
    assert_eq!(metrics.choose_subtree_leaves, 1);
    assert_eq!(metrics.splits, 3);
    assert_eq!(metrics.recursive_insertions, 1);
    assert_eq!(metrics.resolve_overflow, 1);
    assert_eq!(metrics.resolve_overflow_overflows, 1);
}

#[test]
fn sanity_check_gives_the_height() {
    let params = Params::default();
    let mut tree = RTree::new();
    assert_eq!(tree.root().sanity_check(&params, true), Some(0));
    for i in 0..6i64 {
        tree.insert([i, i]);
    }
    assert_eq!(tree.root().sanity_check(&params, true), Some(1));
    tree.insert([6, 6]);
    assert_eq!(tree.root().sanity_check(&params, true), Some(2));
    for i in 7..200i64 {
        tree.insert([i, 200 - i]);
        assert!(tree.root().sanity_check(&params, true).is_some());
    }
}

#[test]
fn sanity_check_refuses_a_wrong_envelope() {
    let params = Params::default();
    let good = ParentNode::new_parent(vec![RTreeNode::Leaf([0i64, 0]), RTreeNode::Leaf([4i64, 4])]);
    let children = vec![RTreeNode::Leaf([0i64, 0]), RTreeNode::Leaf([4i64, 4])];
    assert_eq!(good.envelope(), AABB::from_corners([0, 0], [4, 4]));
    assert_eq!(good.sanity_check(&params, true), Some(1));
    let bad = ParentNode {
        children,
        envelope: AABB::from_corners([0, 0], [5, 5]),
    };
    assert_eq!(bad.sanity_check(&params, true), None);
}

#[test]
fn sanity_check_refuses_leaves_at_different_depths() {
    let params = Params::default();
    let inner = ParentNode::new_parent(vec![
        RTreeNode::Leaf([0i64, 0]),
        RTreeNode::Leaf([1i64, 1]),
        RTreeNode::Leaf([2i64, 2]),
    ]);
    let uneven = ParentNode::new_parent(vec![RTreeNode::Parent(inner), RTreeNode::Leaf([9i64, 9])]);
    assert_eq!(uneven.sanity_check(&params, true), None);
}

#[test]
fn sanity_check_counts_the_children() {
    let params = Params::default();
    let seven: Vec<RTreeNode<[i64; 2]>> = (0..7).map(|i| RTreeNode::Leaf([i, i])).collect();
    let node = ParentNode::new_parent(seven);
    assert_eq!(node.sanity_check(&params, true), None);
    assert_eq!(node.sanity_check(&params, false), Some(1));
    let small = ParentNode::new_parent(vec![
        RTreeNode::Leaf([0i64, 0]),
        RTreeNode::Leaf([1i64, 1]),
    ]);
    let others: Vec<RTreeNode<[i64; 2]>> = (3..6).map(|i| RTreeNode::Leaf([i, i])).collect();
    let root = ParentNode::new_parent(vec![
        RTreeNode::Parent(small),
        RTreeNode::Parent(ParentNode::new_parent(others)),
    ]);
    // A node below the root with fewer children than the smallest size.
    assert_eq!(root.sanity_check(&params, true), None);
}

#[test]
fn selection_functions_decide_as_they_say() {
    let envelope = AABB::from_corners([0i64, 0], [10, 10]);
    let inside = Rectangle::from_corners([2i64, 2], [3, 3]);
    let across = Rectangle::from_corners([8i64, 8], [12, 12]);
    let outside = Rectangle::from_corners([20i64, 20], [21, 21]);

    let within = SelectInEnvelopeFunction::<Rectangle<[i64; 2]>>::new(envelope);
    assert!(within.should_unpack_leaf(&inside));
    assert!(!within.should_unpack_leaf(&across));
    assert!(!within.should_unpack_leaf(&outside));
    assert!(within.should_unpack_parent(&across.envelope()));
    assert!(!within.should_unpack_parent(&outside.envelope()));

    let touching = SelectInEnvelopeFuncIntersecting::<Rectangle<[i64; 2]>>::new(envelope);
    assert!(touching.should_unpack_leaf(&inside));
    assert!(touching.should_unpack_leaf(&across));
    assert!(!touching.should_unpack_leaf(&outside));
    assert!(touching.should_unpack_parent(&across.envelope()));
    assert!(!touching.should_unpack_parent(&outside.envelope()));

    let all = SelectAllFunc;
    assert!(SelectionFunction::<Rectangle<[i64; 2]>>::should_unpack_leaf(&all, &outside));
    assert!(SelectionFunction::<Rectangle<[i64; 2]>>::should_unpack_parent(&all, &envelope));

    let at_point = SelectAtPointFunction::<Rectangle<[i64; 2]>>::new([9, 9]);
    assert!(!at_point.should_unpack_leaf(&inside));
    assert!(at_point.should_unpack_leaf(&across));
    assert!(at_point.should_unpack_parent(&envelope));
    assert!(!at_point.should_unpack_parent(&outside.envelope()));

    let equals = SelectEqualsFunction::new(&across);
    assert!(equals.should_unpack_leaf(&across));
    assert!(!equals.should_unpack_leaf(&inside));
    assert!(equals.should_unpack_parent(&AABB::from_corners([0, 0], [12, 12])));
    assert!(!equals.should_unpack_parent(&envelope));

    let near = SelectWithinDistanceFunction::<Rectangle<[i64; 2]>>::new([0, 0], 8);
    assert!(near.should_unpack_leaf(&inside));
    assert!(!near.should_unpack_leaf(&across));
    assert!(near.should_unpack_parent(&envelope));
    assert!(!near.should_unpack_parent(&outside.envelope()));
}

#[test]
fn removal_takes_one_of_equal_objects() {
    let mut tree = RTree::new();
    for _ in 0..10 {
        tree.insert([1i32, 1]);
    }
    tree.insert([2, 2]);
    assert_eq!(tree.remove(&[1, 1]), Some([1, 1]));
    assert_eq!(tree.size(), 10);
    assert_eq!(tree.locate_all_at_point(&[1, 1]).len(), 9);
    assert_eq!(tree.remove(&[3, 3]), None);
    assert_eq!(tree.size(), 10);
    assert_eq!(tree.remove_at_point(&[2, 2]), Some([2, 2]));
    assert_eq!(tree.remove_at_point(&[2, 2]), None);
    assert_eq!(tree.size(), 9);
}

#[test]
fn removal_from_an_empty_tree() {
    let mut tree: RTree<[i32; 2]> = RTree::new();
    assert_eq!(tree.remove(&[1, 1]), None);
    assert_eq!(tree.remove_at_point(&[1, 1]), None);
    assert_eq!(tree.pop_nearest_neighbor(&[1, 1]), None);
    assert_eq!(tree.remove_with_selection_function(SelectAllFunc), None);
    assert_eq!(tree.size(), 0);
    assert!(tree.iter().is_empty());
    assert!(tree.nearest_neighbor(&[0, 0]).is_none());
    assert!(tree.locate_at_point(&[0, 0]).is_none());
}

#[test]
fn drain_takes_what_is_selected() {
    let points: Vec<[i64; 2]> = (0..100).map(|i| [i, 2 * i]).collect();
    let mut tree = RTree::bulk_load(points);
    let mut drain = tree.drain_in_envelope(AABB::from_corners([10, 0], [19, 1000]));
    let mut taken = Vec::new();
    while let Some(p) = drain.next() {
        taken.push(p);
    }
    drain.finish();
    taken.sort();
    let expected: Vec<[i64; 2]> = (10..20).map(|i| [i, 2 * i]).collect();
    assert_eq!(taken, expected);
    assert_eq!(tree.size(), 90);
    assert!(tree.locate_in_envelope(&AABB::from_corners([10, 0], [19, 1000])).is_empty());
    assert!(tree.contains(&[9, 18]));
    assert!(tree.contains(&[20, 40]));

    let mut drain = tree.drain_within_distance([0, 0], 5 * 5 + 10 * 10);
    let mut count = 0;
    while drain.next().is_some() {
        count += 1;
    }
    drain.finish();
    assert_eq!(count, 6);
    assert_eq!(tree.size(), 84);
}

#[test]
fn located_point_holds_the_query() {
    let rectangles = vec![
        Rectangle::from_corners([0i32, 0], [4, 4]),
        Rectangle::from_corners([3i32, 3], [8, 8]),
        Rectangle::from_corners([10i32, 10], [12, 12]),
    ];
    let tree = RTree::bulk_load(rectangles.clone());
    assert!(tree.locate_at_point(&[9, 9]).is_none());
    assert_eq!(tree.locate_at_point(&[11, 11]), Some(&rectangles[2]));
    let both = tree.locate_all_at_point(&[3, 4]);
    assert_eq!(both.len(), 2);
    let one = tree.locate_at_point(&[3, 4]).unwrap();
    assert!(*one == rectangles[0] || *one == rectangles[1]);
    let near = tree.locate_within_distance([9, 9], 2);
    assert_eq!(near.len(), 2);
}

#[test]
fn drain_of_everything_empties_the_tree() {
    let points: Vec<[i64; 2]> = (0..500).map(|i| [i % 23, i / 23]).collect();
    let mut tree = RTree::bulk_load(points.clone());
    let drain = tree.drain_with_selection_function(SelectAllFunc);
    let mut yielded = drain.collect();
    assert_eq!(tree.size(), 0);
    assert_eq!(tree.root().children().len(), 0);
    yielded.sort();
    let mut expected = points;
    expected.sort();
    assert_eq!(yielded, expected);
    tree.insert([1, 1]);
    assert_eq!(tree.size(), 1);
}

#[test]
fn drain_keeps_what_is_not_selected() {
    let mut tree = RTree::new();
    for i in 0..300i64 {
        tree.insert([i, -i]);
    }
    let envelope = AABB::from_corners([100, -199], [199, -100]);
    let drain = tree.drain_in_envelope(envelope);
    let mut yielded = drain.collect();
    yielded.sort();
    let expected: Vec<[i64; 2]> = (100..200).map(|i| [i, -i]).collect();
    assert_eq!(yielded, expected);
    assert_eq!(tree.size(), 200);
    // Parents that lost all their children are gone, the leaves are at one
    // depth, and the envelopes are those of what is left.
    let loose = Params::new(1, 6, 2);
    assert!(tree.root().sanity_check(&loose, true).is_some());
    for i in 0..300i64 {
        assert_eq!(tree.contains(&[i, -i]), i < 100 || i >= 200);
    }
    assert_eq!(tree.nearest_neighbor(&[150, -150]), Some(&[200, -200]));
    assert_eq!(tree.nearest_neighbor(&[149, -149]), Some(&[99, -99]));
}

#[test]
fn drain_stopped_early_keeps_the_rest() {
    let points: Vec<[i64; 2]> = (0..200).map(|i| [i, i]).collect();
    let mut tree = RTree::bulk_load(points.clone());
    let mut drain = tree.drain_with_selection_function(SelectAllFunc);
    let mut yielded = Vec::new();
    for _ in 0..77 {
        yielded.push(drain.next().unwrap());
    }
    drain.finish();
    assert_eq!(tree.size(), 200 - 77);
    let loose = Params::new(1, 6, 2);
    assert!(tree.root().sanity_check(&loose, false).is_some());
    for p in &points {
        assert_eq!(tree.contains(p), !yielded.contains(p));
    }
    let mut all: Vec<[i64; 2]> = tree.iter().into_iter().cloned().collect();
    all.extend(yielded);
    all.sort();
    assert_eq!(all, points);
}

#[test]
fn tree_from_nodes_checks_the_envelopes() {
    let params = Params::default();
    let good = ParentNode::new_parent(vec![RTreeNode::Leaf([0i64, 0]), RTreeNode::Leaf([4i64, 4])]);
    assert_eq!(good.coherent_size(), Some(2));
    let tree = RTree::from_root(params, good).unwrap();
    assert_eq!(tree.size(), 2);
    assert_eq!(tree.params(), params);
    assert!(tree.contains(&[4, 4]));
    let bad = ParentNode {
        children: vec![RTreeNode::Leaf([0i64, 0]), RTreeNode::Leaf([4i64, 4])],
        envelope: AABB::from_corners([0, 0], [5, 5]),
    };
    assert_eq!(bad.coherent_size(), None);
    assert!(RTree::from_root(params, bad).is_none());
}

#[test]
fn root_clusters_hold_all_objects() {
    let points: Vec<[i64; 2]> = (0..100).map(|i| [(i * 37) % 101, (i * 53) % 103]).collect();
    let clusters = root_clusters(points.clone(), &Params::default());
    // 100 objects in nodes of six: three levels, three subtrees of 36, two
    // clusters on each axis.
    assert_eq!(clusters.len(), 4);
    let mut all: Vec<[i64; 2]> = clusters.iter().flatten().cloned().collect();
    all.sort();
    let mut expected = points;
    expected.sort();
    assert_eq!(all, expected);
    for cluster in &clusters {
        assert_eq!(cluster.len(), 25);
    }
    let few = root_clusters(vec![[1i64, 1]], &Params::default());
    assert_eq!(few.len(), 1);
}

#[test]
fn an_object_is_changed_in_place() {
    use_located_object();
}

fn use_located_object() {
    let mut tree = RTree::new();
    for i in 0..50i64 {
        tree.insert(rstar::primitives::PointWithData::new(i, [i, 2 * i]));
    }
    assert!(tree.locate_at_point_mut(&[7, 15]).is_none());
    {
        let found = tree.locate_at_point_mut(&[7, 14]).unwrap();
        assert_eq!(found.data, 7);
        found.data = 700;
    }
    assert_eq!(tree.locate_at_point(&[7, 14]).unwrap().data, 700);
    assert_eq!(tree.size(), 50);
    let mut empty: RTree<rstar::primitives::PointWithData<i64, [i64; 2]>> = RTree::new();
    assert!(empty.locate_at_point_mut(&[0, 0]).is_none());
}

#[test]
fn a_drain_owes_what_a_search_finds() {
    // The selection function accepts the envelope of every parent but only
    // the objects left of a line: the drain yields as many objects as a
    // search finds, whatever the function prunes.
    let points: Vec<[i64; 2]> = (0..300).map(|i| [(i * 37) % 211, (i * 91) % 223]).collect();
    let mut tree = RTree::bulk_load(points.clone());
    let envelope = AABB::from_corners([0, 0], [100, 100]);
    let found = tree.locate_in_envelope(&envelope).len();
    let mut drain = tree.drain_in_envelope(envelope);
    let mut yielded = 0;
    while drain.next().is_some() {
        yielded += 1;
    }
    assert!(drain.next().is_none());
    drain.finish();
    assert_eq!(yielded, found);
    assert_eq!(tree.size(), 300 - found);
    // No parent is left without children.
    let loose = Params::new(1, 6, 2);
    assert!(tree.root().sanity_check(&loose, false).is_some() || tree.size() == 0);
}
