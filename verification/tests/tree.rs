use bevy::utils::HashSet;
use quadtree::{Circle, ConfigError, Point, QuadTree, Region};

fn found(tree: &QuadTree<u64>, circle: &Circle) -> Vec<u64> {
    let mut set: HashSet<u64> = HashSet::default();
    tree.query(circle, &mut set);
    let mut ids: Vec<u64> = set.into_iter().collect();
    ids.sort();
    ids
}

#[test]
fn new_tree_is_an_empty_leaf() {
    let tree: QuadTree<u64> = QuadTree::new(0, 0, 100, 100, 4).unwrap();
    assert_eq!(tree.leaf_sizes(), vec![(Region::new(0, 0, 100, 100), 0)]);
    assert_eq!(found(&tree, &Circle::new(50, 50, 1000)), Vec::<u64>::new());
}

#[test]
fn new_rejects_a_zero_capacity() {
    assert_eq!(QuadTree::<u64>::new(0, 0, 100, 100, 0).err(), Some(ConfigError::ZeroCapacity));
    // Reported before anything about the region.
    assert_eq!(QuadTree::<u64>::new(0, 0, 0, 0, 0).err(), Some(ConfigError::ZeroCapacity));
}

#[test]
fn new_rejects_a_region_without_width_or_height() {
    assert_eq!(QuadTree::<u64>::new(0, 0, 0, 100, 4).err(), Some(ConfigError::EmptyRegion));
    assert_eq!(QuadTree::<u64>::new(0, 0, 100, 0, 4).err(), Some(ConfigError::EmptyRegion));
    assert_eq!(QuadTree::<u64>::new(i32::MAX, 0, 0, 1, 4).err(), Some(ConfigError::EmptyRegion));
}

#[test]
fn new_rejects_a_region_beyond_the_coordinate_range() {
    assert_eq!(
        QuadTree::<u64>::new(i32::MAX, 0, 1, 1, 4).err(),
        Some(ConfigError::RegionOutOfRange)
    );
    assert_eq!(
        QuadTree::<u64>::new(0, 1, 10, i32::MAX as u32, 4).err(),
        Some(ConfigError::RegionOutOfRange)
    );
    assert!(QuadTree::<u64>::new(0, 0, i32::MAX as u32, i32::MAX as u32, 1).is_ok());
}

#[test]
fn insert_returns_false_outside_the_region_for_every_capacity() {
    for capacity in 1..=6usize {
        let mut tree: QuadTree<u64> = QuadTree::new(0, 0, 100, 100, capacity).unwrap();
        assert!(!tree.insert(Point::new(-1, 50), 1));
        assert!(!tree.insert(Point::new(101, 50), 2));
        assert!(!tree.insert(Point::new(50, -1), 3));
        assert!(!tree.insert(Point::new(50, 101), 4));
        assert!(!tree.insert(Point::new(i32::MIN, i32::MAX), 5));
        assert_eq!(tree.leaf_sizes(), vec![(Region::new(0, 0, 100, 100), 0)]);
        assert_eq!(found(&tree, &Circle::new(50, 50, u32::MAX)), Vec::<u64>::new());
    }
}

#[test]
fn insert_outside_a_subdivided_tree_changes_nothing() {
    let mut tree: QuadTree<u64> = QuadTree::new(0, 0, 100, 100, 1).unwrap();
    assert!(tree.insert(Point::new(10, 10), 1));
    assert!(tree.insert(Point::new(90, 90), 2));
    let before = tree.leaf_sizes();
    assert!(!tree.insert(Point::new(101, 101), 3));
    assert_eq!(tree.leaf_sizes(), before);
    assert_eq!(found(&tree, &Circle::new(50, 50, 1000)), vec![1, 2]);
}

#[test]
fn insert_accepts_the_edges_of_the_region() {
    let mut tree: QuadTree<u64> = QuadTree::new(0, 0, 100, 100, 8).unwrap();
    assert!(tree.insert(Point::new(0, 0), 1));
    assert!(tree.insert(Point::new(100, 0), 2));
    assert!(tree.insert(Point::new(0, 100), 3));
    assert!(tree.insert(Point::new(100, 100), 4));
    assert_eq!(found(&tree, &Circle::new(50, 50, 1000)), vec![1, 2, 3, 4]);
}

#[test]
fn leaf_fills_up_to_its_capacity_before_it_is_subdivided() {
    let mut tree: QuadTree<u64> = QuadTree::new(0, 0, 100, 100, 3).unwrap();
    assert!(tree.insert(Point::new(10, 10), 1));
    assert!(tree.insert(Point::new(90, 10), 2));
    assert!(tree.insert(Point::new(10, 90), 3));
    assert_eq!(tree.leaf_sizes(), vec![(Region::new(0, 0, 100, 100), 3)]);
    assert!(tree.insert(Point::new(90, 90), 4));
    assert_eq!(
        tree.leaf_sizes(),
        vec![
            (Region::new(50, 0, 50, 50), 1),
            (Region::new(0, 0, 50, 50), 1),
            (Region::new(50, 50, 50, 50), 1),
            (Region::new(0, 50, 50, 50), 1),
        ]
    );
}

#[test]
fn entry_on_a_shared_edge_goes_to_the_first_quarter_that_covers_it() {
    let mut tree: QuadTree<u64> = QuadTree::new(0, 0, 100, 100, 1).unwrap();
    // The centre lies in all four quarters, (50, 80) in both southern ones,
    // (20, 50) in both western ones.
    assert!(tree.insert(Point::new(50, 50), 1));
    assert!(tree.insert(Point::new(50, 80), 2));
    assert!(tree.insert(Point::new(20, 50), 3));
    assert_eq!(
        tree.leaf_sizes(),
        vec![
            (Region::new(50, 0, 50, 50), 1),
            (Region::new(0, 0, 50, 50), 1),
            (Region::new(50, 50, 50, 50), 1),
            (Region::new(0, 50, 50, 50), 0),
        ]
    );
    assert_eq!(found(&tree, &Circle::new(50, 50, 0)), vec![1]);
}

#[test]
fn five_clustered_points_subdivide_the_tree_and_are_all_found() {
    let mut tree: QuadTree<u64> = QuadTree::new(0, 0, 100, 100, 4).unwrap();
    for i in 1..=4 {
        assert!(tree.insert(Point::new(i, 1), i as u64));
    }
    assert_eq!(tree.leaf_sizes().len(), 1);
    assert!(tree.insert(Point::new(5, 1), 5));
    let leaves = tree.leaf_sizes();
    assert!(leaves.len() > 1);
    assert!(leaves.iter().all(|(_, size)| *size <= 4));
    assert_eq!(leaves.iter().map(|(_, size)| *size).sum::<usize>(), 5);
    assert_eq!(found(&tree, &Circle::new(3, 1, 10)), vec![1, 2, 3, 4, 5]);
}

#[test]
fn five_clustered_points_end_in_the_leaves_that_cover_them() {
    let mut tree: QuadTree<u64> = QuadTree::new(0, 0, 100, 100, 4).unwrap();
    for i in 1..=5 {
        assert!(tree.insert(Point::new(i, 1), i as u64));
    }
    let leaves = tree.leaf_sizes();
    // 100 -> 50 -> 25 -> 12 -> 6 -> 3: the points part at x = 3.
    let holding: Vec<(Region, usize)> =
        leaves.iter().copied().filter(|(_, size)| *size > 0).collect();
    assert_eq!(holding, vec![(Region::new(3, 0, 3, 3), 3), (Region::new(0, 0, 3, 3), 2)]);
}

#[test]
fn every_inserted_identifier_is_retrievable() {
    let mut tree: QuadTree<u64> = QuadTree::new(-50, -50, 100, 100, 2).unwrap();
    let mut id = 0u64;
    for x in (-50..=50).step_by(10) {
        for y in (-50..=50).step_by(25) {
            assert!(tree.insert(Point::new(x, y), id));
            id += 1;
        }
    }
    let mut id = 0u64;
    for x in (-50..=50).step_by(10) {
        for y in (-50..=50).step_by(25) {
            assert_eq!(found(&tree, &Circle::new(x, y, 0)), vec![id]);
            assert!(found(&tree, &Circle::new(x + 3, y - 4, 5)).contains(&id));
            id += 1;
        }
    }
    assert_eq!(found(&tree, &Circle::new(0, 0, 1000)).len(), 55);
}

#[test]
fn no_leaf_exceeds_the_capacity() {
    for capacity in 1..=5usize {
        let mut tree: QuadTree<u64> = QuadTree::new(0, 0, 64, 64, capacity).unwrap();
        let mut id = 0u64;
        for x in 0..=64 {
            for y in (0..=64).step_by(7) {
                assert!(tree.insert(Point::new(x, (x * 3 + y) % 65), id));
                id += 1;
                assert!(tree.leaf_sizes().iter().all(|(_, size)| *size <= capacity));
            }
        }
        let total: usize = tree.leaf_sizes().iter().map(|(_, size)| *size).sum();
        assert_eq!(total as u64, id);
    }
}

#[test]
fn points_at_one_position_beyond_the_capacity_stay_in_one_leaf() {
    let mut tree: QuadTree<u64> = QuadTree::new(0, 0, 8, 8, 2).unwrap();
    for id in 0..5u64 {
        assert!(tree.insert(Point::new(3, 3), id));
    }
    let leaves = tree.leaf_sizes();
    let holding: Vec<(Region, usize)> =
        leaves.iter().copied().filter(|(_, size)| *size > 0).collect();
    assert_eq!(holding, vec![(Region::new(3, 3, 0, 0), 5)]);
    assert!(leaves.iter().all(|(region, size)| {
        *size <= 2 || (region.width == 0 && region.height == 0)
    }));
    assert_eq!(found(&tree, &Circle::new(3, 3, 0)), vec![0, 1, 2, 3, 4]);
}

#[test]
fn query_adds_to_what_the_set_holds() {
    let mut tree: QuadTree<u64> = QuadTree::new(0, 0, 100, 100, 2).unwrap();
    assert!(tree.insert(Point::new(10, 10), 1));
    assert!(tree.insert(Point::new(12, 10), 2));
    assert!(tree.insert(Point::new(80, 80), 3));
    let mut set: HashSet<u64> = HashSet::default();
    set.insert(99);
    tree.query(&Circle::new(11, 10, 2), &mut set);
    let mut ids: Vec<u64> = set.into_iter().collect();
    ids.sort();
    assert_eq!(ids, vec![1, 2, 99]);
}

#[test]
fn query_keeps_an_identifier_once() {
    let mut tree: QuadTree<u64> = QuadTree::new(0, 0, 100, 100, 1).unwrap();
    assert!(tree.insert(Point::new(10, 10), 7));
    assert!(tree.insert(Point::new(90, 90), 7));
    assert!(tree.insert(Point::new(10, 10), 7));
    assert_eq!(found(&tree, &Circle::new(50, 50, 1000)), vec![7]);
}

#[test]
fn query_leaves_out_what_lies_outside_the_shape() {
    let mut tree: QuadTree<u64> = QuadTree::new(0, 0, 100, 100, 2).unwrap();
    assert!(tree.insert(Point::new(3, 4), 1));
    assert!(tree.insert(Point::new(4, 4), 2));
    assert!(tree.insert(Point::new(0, 5), 3));
    assert!(tree.insert(Point::new(0, 6), 4));
    assert!(tree.insert(Point::new(60, 60), 5));
    assert_eq!(found(&tree, &Circle::new(0, 0, 5)), vec![1, 3]);
    assert_eq!(found(&tree, &Circle::new(60, 60, 0)), vec![5]);
    assert_eq!(found(&tree, &Circle::new(30, 30, 3)), Vec::<u64>::new());
}

#[test]
fn query_run_twice_gives_the_same_set() {
    let mut tree: QuadTree<u64> = QuadTree::new(0, 0, 100, 100, 2).unwrap();
    for i in 0..30 {
        assert!(tree.insert(Point::new((i * 7) % 101, (i * 13) % 101), i as u64));
    }
    let circle = Circle::new(40, 40, 35);
    let first = found(&tree, &circle);
    let second = found(&tree, &circle);
    assert_eq!(first, second);
    assert!(!first.is_empty());
    let mut set: HashSet<u64> = HashSet::default();
    tree.query(&circle, &mut set);
    let once = set.len();
    tree.query(&circle, &mut set);
    assert_eq!(set.len(), once);
}

#[test]
fn query_does_not_change_the_tree() {
    let mut tree: QuadTree<u64> = QuadTree::new(0, 0, 100, 100, 2).unwrap();
    for i in 0..10 {
        assert!(tree.insert(Point::new(i * 10, i * 5), i as u64));
    }
    let before = tree.leaf_sizes();
    found(&tree, &Circle::new(0, 0, 50));
    assert_eq!(tree.leaf_sizes(), before);
}

#[test]
fn insert_all_leaves_out_what_lies_outside() {
    let mut tree: QuadTree<u64> = QuadTree::new(0, 0, 10, 10, 2).unwrap();
    let points = vec![
        (Point::new(1, 1), 1u64),
        (Point::new(11, 1), 2),
        (Point::new(10, 10), 3),
        (Point::new(5, -1), 4),
        (Point::new(5, 5), 5),
    ];
    tree.insert_all(&points);
    assert_eq!(found(&tree, &Circle::new(5, 5, 100)), vec![1, 3, 5]);
}

#[test]
fn build_makes_the_tree_and_inserts() {
    let points = vec![(Point::new(1, 1), 1u64), (Point::new(2, 2), 2), (Point::new(200, 2), 3)];
    let tree = QuadTree::build(0, 0, 100, 100, 1, &points).unwrap();
    assert_eq!(found(&tree, &Circle::new(0, 0, 500)), vec![1, 2]);
    assert!(tree.leaf_sizes().len() >= 4);
    assert_eq!(
        QuadTree::build(0, 0, 100, 100, 0, &points).err(),
        Some(ConfigError::ZeroCapacity)
    );
    assert_eq!(QuadTree::build(0, 0, 0, 100, 1, &points).err(), Some(ConfigError::EmptyRegion));
}

#[test]
fn tree_takes_other_identifier_types() {
    let mut tree: QuadTree<(u8, bool)> = QuadTree::new(0, 0, 10, 10, 1).unwrap();
    assert!(tree.insert(Point::new(1, 1), (1, true)));
    assert!(tree.insert(Point::new(9, 9), (2, false)));
    let mut set: HashSet<(u8, bool)> = HashSet::default();
    tree.query(&Circle::new(0, 0, 2), &mut set);
    assert_eq!(set.len(), 1);
    assert!(set.contains(&(1, true)));
}
