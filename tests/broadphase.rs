use rigid_core::aabb::{aabb_aabb_intersect, Aabb, MAX_ORDINAL, MIN_ORDINAL};
use rigid_core::broadphase::{broadphase_system_array, select_sweep_axis, BroadphaseAabb};
use rigid_core::ordinal::ordinal;
use rigid_core::pair::CollisionPair;

fn key(x: f32) -> i64 {
    ordinal(x.to_bits())
}

fn boxed(entity: u64, min: [f32; 3], max: [f32; 3]) -> BroadphaseAabb {
    BroadphaseAabb {
        entity,
        aabb: Aabb {
            mins: [key(min[0]), key(min[1]), key(min[2])],
            maxs: [key(max[0]), key(max[1]), key(max[2])],
        },
    }
}

fn interval_x(entity: u64, lo: f32, hi: f32) -> BroadphaseAabb {
    boxed(entity, [lo, 0.0, 0.0], [hi, 1.0, 1.0])
}

#[test]
fn sweep_finds_only_the_overlapping_intervals() {
    let entries = vec![interval_x(1, 0.0, 1.0), interval_x(2, 0.5, 1.5), interval_x(3, 10.0, 11.0)];
    let pairs = broadphase_system_array(&entries, 0);
    assert_eq!(pairs.len(), 1);
    assert_eq!(pairs[0].a, 1);
    assert_eq!(pairs[0].b, 2);
    assert!(pairs.iter().all(|p| !p.contains(3)));
}

#[test]
fn sweep_does_not_depend_on_input_order() {
    let entries = vec![interval_x(3, 10.0, 11.0), interval_x(2, 0.5, 1.5), interval_x(1, 0.0, 1.0)];
    let pairs = broadphase_system_array(&entries, 0);
    assert_eq!(pairs.len(), 1);
    assert_eq!(pairs[0], CollisionPair::new(1, 2));
    assert_eq!((pairs[0].a, pairs[0].b), (1, 2));
}

#[test]
fn sweep_on_another_axis_finds_the_same_pairs() {
    let entries = vec![
        boxed(1, [0.0, 0.0, 0.0], [1.0, 1.0, 1.0]),
        boxed(2, [0.5, 0.5, 0.5], [1.5, 1.5, 1.5]),
        boxed(3, [0.0, 5.0, 0.0], [1.0, 6.0, 1.0]),
    ];
    for axis in 0..3 {
        let pairs = broadphase_system_array(&entries, axis);
        assert_eq!(pairs.len(), 1);
        assert_eq!(pairs[0], CollisionPair::new(2, 1));
    }
}

#[test]
fn touching_faces_are_not_a_candidate() {
    let entries = vec![interval_x(1, 0.0, 1.0), interval_x(2, 1.0, 2.0)];
    assert!(broadphase_system_array(&entries, 0).is_empty());
}

#[test]
fn sweep_handles_negative_coordinates() {
    let entries = vec![interval_x(7, -2.0, -1.0), interval_x(8, -1.5, 0.0), interval_x(9, -0.5, 0.5)];
    let pairs = broadphase_system_array(&entries, 0);
    assert_eq!(pairs, vec![CollisionPair::new(7, 8), CollisionPair::new(8, 9)]);
}

#[test]
fn nested_boxes_and_separated_in_y() {
    let entries = vec![
        boxed(1, [0.0, 0.0, 0.0], [10.0, 10.0, 10.0]),
        boxed(2, [2.0, 2.0, 2.0], [3.0, 3.0, 3.0]),
        boxed(3, [4.0, 20.0, 4.0], [5.0, 21.0, 5.0]),
    ];
    let pairs = broadphase_system_array(&entries, 0);
    assert_eq!(pairs, vec![CollisionPair::new(1, 2)]);
}

#[test]
fn empty_and_single_inputs_give_no_pairs() {
    assert!(broadphase_system_array(&vec![], 1).is_empty());
    assert!(broadphase_system_array(&vec![interval_x(1, 0.0, 1.0)], 2).is_empty());
}

#[test]
fn sweep_axis_is_the_widest_spread() {
    assert_eq!(select_sweep_axis([1, 5, 3]), 1);
    assert_eq!(select_sweep_axis([1, 5, 9]), 2);
    assert_eq!(select_sweep_axis([4, 4, 1]), 0);
    assert_eq!(select_sweep_axis([-3, -1, -2]), 1);
}

#[test]
fn aabb_overlap_test() {
    let a = boxed(0, [0.0, 0.0, 0.0], [1.0, 1.0, 1.0]).aabb;
    let b = boxed(0, [0.5, 0.5, 0.5], [2.0, 2.0, 2.0]).aabb;
    let c = boxed(0, [0.5, 1.0, 0.5], [2.0, 2.0, 2.0]).aabb;
    assert!(aabb_aabb_intersect(&a, &b));
    assert!(aabb_aabb_intersect(&b, &a));
    assert!(!aabb_aabb_intersect(&a, &c));
}

#[test]
fn expand_by_point_grows_only_where_needed() {
    let mut a = Aabb::from_point([0, 0, 0]);
    a.expand_by_point([5, -2, 0]);
    assert_eq!(a.mins, [0, -2, 0]);
    assert_eq!(a.maxs, [5, 0, 0]);
    a.expand_by_point([1, 1, 1]);
    assert_eq!(a.mins, [0, -2, 0]);
    assert_eq!(a.maxs, [5, 1, 1]);
}

#[test]
fn from_points_covers_them_all() {
    let a = Aabb::from_points(&vec![[3, 4, 5], [-1, 7, 2], [0, 0, 9]]);
    assert_eq!(a.mins, [-1, 0, 2]);
    assert_eq!(a.maxs, [3, 7, 9]);
    let empty = Aabb::from_points(&vec![]);
    assert_eq!(empty.mins, [MAX_ORDINAL; 3]);
    assert_eq!(empty.maxs, [MIN_ORDINAL; 3]);
    assert_eq!(MAX_ORDINAL, key(f32::MAX));
    assert_eq!(MIN_ORDINAL, key(-f32::MAX));
}
