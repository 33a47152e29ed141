use rstar::{Envelope, RTree, AABB};

#[test]
fn insert_and_iterate() {
    let mut tree: RTree<[i64; 2]> = RTree::new();
    for i in 0..100i64 {
        tree.insert([i * 37 % 101, i * 53 % 97]);
    }
    assert_eq!(tree.size(), 100);
    assert_eq!(tree.iter().len(), 100);
    let found = tree.locate_in_envelope(&AABB::from_corners([0, 0], [50, 50]));
    let expected = (0..100i64)
        .filter(|i| i * 37 % 101 <= 50 && i * 53 % 97 <= 50)
        .count();
    assert_eq!(found.len(), expected);
    for p in found {
        assert!(AABB::from_corners([0, 0], [50, 50]).contains_point(p));
    }
}
