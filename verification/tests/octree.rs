use sparse_octree::{Octree, OctreeError, OctreeResult};

#[test]
fn depth_one_insert_and_lookup() {
    let mut tree: Octree<&str> = Octree::new(1);
    assert_eq!(tree.insert(-1, -1, -1, "A"), Ok(()));
    assert_eq!(tree.get(-1, -1, -1), Some(&"A"));
    assert_eq!(tree.get(0, 0, 0), None);
}

#[test]
fn depth_two_siblings_are_independent() {
    let mut tree: Octree<u32> = Octree::new(2);
    // The eight cells of the octant that holds the lowest corner.
    let siblings: [(i32, i32, i32); 8] = [
        (-2, -2, -2),
        (-1, -2, -2),
        (-2, -1, -2),
        (-1, -1, -2),
        (-2, -2, -1),
        (-1, -2, -1),
        (-2, -1, -1),
        (-1, -1, -1),
    ];
    for (i, &(x, y, z)) in siblings.iter().enumerate() {
        assert_eq!(tree.insert(x, y, z, 100 + i as u32), Ok(()));
    }
    for (i, &(x, y, z)) in siblings.iter().enumerate() {
        assert_eq!(tree.get(x, y, z), Some(&(100 + i as u32)));
    }
    assert_eq!(tree.insert(-1, -2, -1, 999), Ok(()));
    for (i, &(x, y, z)) in siblings.iter().enumerate() {
        if (x, y, z) == (-1, -2, -1) {
            assert_eq!(tree.get(x, y, z), Some(&999));
        } else {
            assert_eq!(tree.get(x, y, z), Some(&(100 + i as u32)));
        }
    }
    // The other seven octants of the root were never touched.
    assert_eq!(tree.get(0, 0, 0), None);
    assert_eq!(tree.get(1, -2, -2), None);
    assert_eq!(tree.get(-2, 1, -1), None);
}

#[test]
fn depth_zero_makes_a_leaf_at_the_root() {
    let mut tree: Octree<u8> = Octree::new(0);
    assert_eq!(tree.get(0, 0, 0), None);
    assert_eq!(tree.insert(0, 0, 0, 1), Ok(()));
    assert_eq!(tree.get(0, 0, 0), Some(&1));
    // A tree without levels is one cell: every coordinate falls on it.
    assert_eq!(tree.get(5, -7, 123), Some(&1));
    assert_eq!(tree.insert(9, 9, 9, 2), Ok(()));
    assert_eq!(tree.get(0, 0, 0), Some(&2));
}

#[test]
fn new_tree_holds_nothing() {
    let tree: Octree<u64> = Octree::new(3);
    for x in -4..4 {
        for y in -4..4 {
            for z in -4..4 {
                assert_eq!(tree.get(x, y, z), None);
            }
        }
    }
}

#[test]
fn round_trip_over_a_dense_cube() {
    let depth: u32 = 3;
    let mut tree: Octree<(i32, i32, i32)> = Octree::new(depth);
    for y in -4..4 {
        for z in -4..4 {
            for x in -4..4 {
                assert_eq!(tree.insert(x, y, z, (x, y, z)), Ok(()));
                assert_eq!(tree.get(x, y, z), Some(&(x, y, z)));
            }
        }
    }
    for y in -4..4 {
        for z in -4..4 {
            for x in -4..4 {
                assert_eq!(tree.get(x, y, z), Some(&(x, y, z)));
            }
        }
    }
}

#[test]
fn insert_at_one_cell_never_changes_another() {
    let mut tree: Octree<u32> = Octree::new(2);
    assert_eq!(tree.insert(1, 0, -2, 7), Ok(()));
    for x in -2..2 {
        for y in -2..2 {
            for z in -2..2 {
                if (x, y, z) == (1, 0, -2) {
                    assert_eq!(tree.get(x, y, z), Some(&7));
                } else {
                    assert_eq!(tree.get(x, y, z), None);
                }
            }
        }
    }
    assert_eq!(tree.insert(1, 0, -1, 8), Ok(()));
    assert_eq!(tree.get(1, 0, -2), Some(&7));
    assert_eq!(tree.get(1, 0, -1), Some(&8));
    assert_eq!(tree.get(0, 0, -1), None);
}

#[test]
fn second_insert_at_a_coordinate_overwrites() {
    let mut tree: Octree<String> = Octree::new(4);
    assert_eq!(tree.insert(3, -8, 7, String::from("first")), Ok(()));
    assert_eq!(tree.insert(-5, 2, 0, String::from("other")), Ok(()));
    assert_eq!(tree.insert(3, -8, 7, String::from("second")), Ok(()));
    assert_eq!(tree.get(3, -8, 7), Some(&String::from("second")));
    assert_eq!(tree.get(-5, 2, 0), Some(&String::from("other")));
}

#[test]
fn untouched_coordinates_of_a_populated_tree_are_absent() {
    let mut tree: Octree<i64> = Octree::new(5);
    assert_eq!(tree.insert(-16, -16, -16, 1), Ok(()));
    assert_eq!(tree.insert(15, 15, 15, 2), Ok(()));
    assert_eq!(tree.insert(0, -1, 7, 3), Ok(()));
    assert_eq!(tree.get(-16, -16, -15), None);
    assert_eq!(tree.get(15, 15, 14), None);
    assert_eq!(tree.get(0, 0, 0), None);
    assert_eq!(tree.get(-1, 0, 7), None);
    assert_eq!(tree.get(0, -1, 7), Some(&3));
}

#[test]
fn coordinates_out_of_range_alias_into_the_range() {
    let mut tree: Octree<u32> = Octree::new(2);
    // The range of an axis is -2..2: 2 falls on -2, and -3 on 1.
    assert_eq!(tree.insert(2, 0, 0, 5), Ok(()));
    assert_eq!(tree.get(-2, 0, 0), Some(&5));
    assert_eq!(tree.get(2, 0, 0), Some(&5));
    assert_eq!(tree.get(6, 4, -4), Some(&5));
    assert_eq!(tree.get(1, 0, 0), None);
    assert_eq!(tree.insert(1, 0, 0, 6), Ok(()));
    assert_eq!(tree.get(-3, 0, 0), Some(&6));
    assert_eq!(tree.get(-2, 0, 0), Some(&5));
}

#[test]
fn tree_of_full_depth_holds_the_corners_of_the_coordinate_space() {
    let mut tree: Octree<u8> = Octree::new(32);
    assert_eq!(tree.insert(i32::MIN, i32::MIN, i32::MIN, 1), Ok(()));
    assert_eq!(tree.insert(i32::MAX, i32::MAX, i32::MAX, 2), Ok(()));
    assert_eq!(tree.insert(i32::MAX, i32::MIN, 0, 3), Ok(()));
    assert_eq!(tree.insert(0, 0, 0, 4), Ok(()));
    assert_eq!(tree.insert(-1, -1, -1, 5), Ok(()));
    assert_eq!(tree.get(i32::MIN, i32::MIN, i32::MIN), Some(&1));
    assert_eq!(tree.get(i32::MAX, i32::MAX, i32::MAX), Some(&2));
    assert_eq!(tree.get(i32::MAX, i32::MIN, 0), Some(&3));
    assert_eq!(tree.get(0, 0, 0), Some(&4));
    assert_eq!(tree.get(-1, -1, -1), Some(&5));
    assert_eq!(tree.get(i32::MAX, i32::MIN, 1), None);
    assert_eq!(tree.get(0, 0, -1), None);
}

#[test]
fn insert_result_is_an_octree_result() {
    let mut tree: Octree<u8> = Octree::new(1);
    let done: OctreeResult<()> = tree.insert(0, -1, 0, 1);
    assert!(done.is_ok());
    assert_ne!(done, Err(OctreeError::DepthExceeded));
    assert_ne!(done, Err(OctreeError::MalformedTree { level: 0 }));
}
