use std::collections::HashMap;

use rand::Rng;

use octree::sign::Sign;
use octree::util::{Abs, Half, NonNegative};
use octree::{Id, Octree};

const CENTER: [i64; 3] = [0, 0, 0];

/// Points have to be within +/- 5 of the center
const HALF_RANGE: i64 = 5;
const RANGES: [i64; 3] = [2 * HALF_RANGE, 2 * HALF_RANGE, 2 * HALF_RANGE];

const NEGATIVE_RANGES: [i64; 3] = [-10, -10, -10];

const THRESHOLD: usize = 10;

const MAX_DEPTH: usize = 3;

#[test]
fn can_hash_octant_id() {
    let mut map = HashMap::new();
    map.insert(Id::<1>::from([0b0000_0001]), 1);
}

#[test]
fn create_octree_with_positive_range_returns_ok() {
    let result = Octree::<(), MAX_DEPTH>::new(CENTER, RANGES, THRESHOLD);
    assert!(result.is_ok());
}

#[test]
fn create_octree_with_negative_range_returns_error() {
    let result = Octree::<(), MAX_DEPTH>::new(CENTER, NEGATIVE_RANGES, THRESHOLD);
    assert!(result.is_err());
}

#[test]
fn octree_can_push_points_within_range() {
    let mut tree = Octree::<(), MAX_DEPTH>::new(CENTER, RANGES, THRESHOLD).unwrap();
    let result = tree.push([1, 1, 1], ());
    assert!(result.is_ok());

    let result = tree.push([5, 5, 5], ());
    assert!(result.is_ok());

    let result = tree.push([-5, -5, -5], ());
    assert!(result.is_ok());
}

#[test]
fn octree_cannot_push_points_outside_range() {
    let mut tree = Octree::<(), MAX_DEPTH>::new(CENTER, RANGES, THRESHOLD).unwrap();
    let result = tree.push([10, 1, 1], ());
    assert!(result.is_err());

    let result = tree.push([-10, 1, 1], ());
    assert!(result.is_err());

    let result = tree.push([1, 10, 1], ());
    assert!(result.is_err());

    let result = tree.push([1, -10, 1], ());
    assert!(result.is_err());

    let result = tree.push([1, 1, 10], ());
    assert!(result.is_err());

    let result = tree.push([1, 1, -10], ());
    assert!(result.is_err());
}

#[test]
fn octree_split_to_finer_levels() {
    let mut tree = Octree::<(), MAX_DEPTH>::new(CENTER, RANGES, THRESHOLD).unwrap();

    let mut rng = rand::thread_rng();
    for _ in 0..100 {
        let x = rng.gen_range(-HALF_RANGE..HALF_RANGE);
        let y = rng.gen_range(-HALF_RANGE..HALF_RANGE);
        let z = rng.gen_range(-HALF_RANGE..HALF_RANGE);
        let point = [x, y, z];
        tree.push(point, ()).unwrap();
    }

    let leaves = tree.leaves();
    assert!(leaves.len() > 0);
}

#[test]
fn new_rejects_each_negative_axis_independently() {
    assert!(Octree::<(), MAX_DEPTH>::new(CENTER, [-1, 10, 10], THRESHOLD).is_err());
    assert!(Octree::<(), MAX_DEPTH>::new(CENTER, [10, -1, 10], THRESHOLD).is_err());
    assert!(Octree::<(), MAX_DEPTH>::new(CENTER, [10, 10, -1], THRESHOLD).is_err());
}

#[test]
fn new_accepts_all_zero_ranges() {
    let mut tree = Octree::<(), MAX_DEPTH>::new(CENTER, [0, 0, 0], THRESHOLD).unwrap();
    // such a tree can only hold points exactly on its center
    assert!(tree.push([0, 0, 0], ()).is_ok());
    assert!(tree.push([1, 0, 0], ()).is_err());
}

#[test]
fn bounds_are_boundary_inclusive() {
    let mut tree = Octree::<(), MAX_DEPTH>::new(CENTER, RANGES, THRESHOLD).unwrap();
    assert!(tree.push([5, 5, 5], ()).is_ok());
    assert!(tree.push([6, 0, 0], ()).is_err());
    assert!(tree.push([-6, 0, 0], ()).is_err());
    assert!(tree.push([0, 6, 0], ()).is_err());
    assert!(tree.push([0, -6, 0], ()).is_err());
    assert!(tree.push([0, 0, 6], ()).is_err());
    assert!(tree.push([0, 0, -6], ()).is_err());
}

#[test]
fn threshold_points_in_one_leaf_do_not_split() {
    let mut tree = Octree::<u32, MAX_DEPTH>::new(CENTER, RANGES, 2).unwrap();
    let id1 = tree.push([1, 1, 1], 10).unwrap();
    let id2 = tree.push([2, 2, 2], 20).unwrap();
    // both points resolve to the positive root octant and fit its capacity
    assert_eq!(id1, id2);
    let leaves = tree.leaves();
    assert_eq!(leaves.len(), 1);
    assert_eq!(leaves[0].points.len(), 2);
    // insertion order is preserved
    assert_eq!(leaves[0].points[0], ([1, 1, 1], 10));
    assert_eq!(leaves[0].points[1], ([2, 2, 2], 20));
}

#[test]
fn threshold_plus_one_points_trigger_one_split() {
    let mut tree = Octree::<u32, MAX_DEPTH>::new(CENTER, RANGES, 2).unwrap();
    tree.push([1, 1, 1], 1).unwrap();
    tree.push([4, 4, 4], 2).unwrap();
    let id3 = tree.push([1, 1, 1], 3).unwrap();
    // the full positive root leaf became a node; its points moved down one
    // level, and the total count equals the number of successful pushes
    let leaves = tree.leaves();
    let total: usize = leaves.iter().map(|leaf| leaf.points.len()).sum();
    assert_eq!(total, 3);
    assert!(leaves.iter().all(|leaf| leaf.points.len() <= 2));
    // the third point went into a deeper leaf than the first returned id
    let id1_again = tree.push([1, 1, 1], 4).unwrap();
    assert_eq!(id3, id1_again);
}

#[test]
fn split_distributes_points_among_children() {
    let mut tree = Octree::<u32, MAX_DEPTH>::new(CENTER, RANGES, 2).unwrap();
    // both points land in the all-positive root octant, whose center is [5,5,5]
    tree.push([1, 1, 1], 1).unwrap();
    tree.push([5, 5, 5], 2).unwrap();
    assert_eq!(tree.leaves().len(), 1);
    // the third point overflows the leaf: one split, and the two old points
    // part ways around the leaf's center while the new one descends after them
    tree.push([1, 1, 1], 3).unwrap();
    let leaves = tree.leaves();
    assert_eq!(leaves.len(), 2);
    let total: usize = leaves.iter().map(|leaf| leaf.points.len()).sum();
    assert_eq!(total, 3);
    assert!(leaves.iter().all(|leaf| leaf.points.len() <= 2));
}

#[test]
fn max_depth_leaf_accepts_points_beyond_threshold() {
    // a tree one level deep: its leaves sit at the maximum depth and never
    // split, whatever their count
    let mut tree = Octree::<u32, 1>::new(CENTER, RANGES, 1).unwrap();
    let mut ids = Vec::new();
    for i in 0..5 {
        ids.push(tree.push([1, 1, 1], i).unwrap());
    }
    assert!(ids.iter().all(|id| *id == ids[0]));
    let leaves = tree.leaves();
    assert_eq!(leaves.len(), 1);
    assert_eq!(leaves[0].points.len(), 5);
}

#[test]
fn identical_points_in_sequence_get_the_same_id() {
    let mut tree = Octree::<(), MAX_DEPTH>::new(CENTER, RANGES, THRESHOLD).unwrap();
    let id1 = tree.push([3, -2, 4], ()).unwrap();
    let id2 = tree.push([3, -2, 4], ()).unwrap();
    assert_eq!(id1, id2);
}

#[test]
fn first_leaf_geometry_halves_the_root_volume() {
    let mut tree = Octree::<(), MAX_DEPTH>::new(CENTER, RANGES, THRESHOLD).unwrap();
    tree.push([1, 1, 1], ()).unwrap();
    let leaves = tree.leaves();
    assert_eq!(leaves.len(), 1);
    // the all-positive child of ([0,0,0], [10,10,10]): center shifted by the
    // child's own range, range halved — children tile the parent exactly
    assert_eq!(leaves[0].center, [5, 5, 5]);
    assert_eq!(leaves[0].ranges, [5, 5, 5]);
}

#[test]
fn negative_octant_geometry_mirrors_the_positive_one() {
    let mut tree = Octree::<(), MAX_DEPTH>::new(CENTER, RANGES, THRESHOLD).unwrap();
    tree.push([-1, -1, 1], ()).unwrap();
    let leaves = tree.leaves();
    assert_eq!(leaves.len(), 1);
    assert_eq!(leaves[0].center, [-5, -5, 5]);
    assert_eq!(leaves[0].ranges, [5, 5, 5]);
}

#[test]
fn id_root_encodes_signs_and_active_flag() {
    // active flag is bit 3; x, y, z signs are bits 2, 1, 0, set for negative
    let id = Id::<3>::root(Sign::Positive, Sign::Negative, Sign::Positive);
    assert_eq!(id, Id::from([0b1010, 0, 0]));
    let id = Id::<3>::root(Sign::Negative, Sign::Negative, Sign::Negative);
    assert_eq!(id, Id::from([0b1111, 0, 0]));
}

#[test]
fn id_child_appends_one_level_per_call() {
    let id0 = Id::<3>::root(Sign::Positive, Sign::Positive, Sign::Positive);
    let id1 = Id::child(id0, Sign::Negative, Sign::Positive, Sign::Negative);
    let id2 = Id::child(id1, Sign::Positive, Sign::Negative, Sign::Positive);
    assert_eq!(id0, Id::from([0b1000, 0, 0]));
    assert_eq!(id1, Id::from([0b1000, 0b1101, 0]));
    assert_eq!(id2, Id::from([0b1000, 0b1101, 0b1010]));
}

#[test]
fn id_child_at_full_depth_overwrites_the_last_level() {
    let id0 = Id::<1>::root(Sign::Positive, Sign::Positive, Sign::Positive);
    let id1 = Id::child(id0, Sign::Negative, Sign::Negative, Sign::Negative);
    assert_eq!(id1, Id::from([0b1111]));
}

#[test]
fn uninitialized_ids_are_all_zero() {
    let id = Id::<4>::uninitialized();
    assert!(id.is_uninitialized());
    assert_eq!(id, Id::from([0, 0, 0, 0]));
    let root = Id::<4>::root(Sign::Positive, Sign::Positive, Sign::Positive);
    assert!(!root.is_uninitialized());
}

#[test]
fn id_equality_covers_trailing_bytes() {
    assert_ne!(Id::<2>::from([0b1000, 0]), Id::<2>::from([0b1000, 0b1000]));
    assert_eq!(Id::<2>::from([0b1000, 0]), Id::<2>::from([0b1000, 0]));
}

#[test]
fn sign_converts_to_its_bit() {
    assert_eq!(u8::from(Sign::Positive), 0);
    assert_eq!(u8::from(Sign::Negative), 1);
}

#[test]
fn half_truncates_toward_zero() {
    assert_eq!(Half::half(&5i64), 2);
    assert_eq!(Half::half(&-5i64), -2);
    assert_eq!(Half::half(&10i32), 5);
    assert_eq!(Half::half(&7u8), 3);
    assert_eq!(Half::half(&1u128), 0);
}

#[test]
fn abs_and_non_negative_follow_the_sign() {
    assert_eq!(Abs::abs(&-7i64), 7);
    assert_eq!(Abs::abs(&7i64), 7);
    assert_eq!(Abs::abs(&9u32), 9);
    assert!(NonNegative::is_non_negative(&0i64));
    assert!(!NonNegative::is_non_negative(&-1i64));
    assert!(NonNegative::is_non_negative(&5u16));
}
