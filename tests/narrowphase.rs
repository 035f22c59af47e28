use rigid_core::advance::{AdvanceStep, Advancement, MAX_ADVANCE_ITERS};
use rigid_core::narrowphase::{
    has_infinite_mass, narrow_test, narrowphase_pairs, route_contacts, NarrowError, NarrowTest, ShapeKind,
};
use rigid_core::pair::CollisionPair;

fn f(x: f32) -> u32 {
    x.to_bits()
}

#[test]
fn static_pairs_and_self_pairs_are_skipped() {
    let pairs = vec![
        CollisionPair::new(1, 2),
        CollisionPair::new(3, 4),
        CollisionPair::new(5, 5),
        CollisionPair::new(6, 7),
    ];
    let inv_a = vec![f(0.0), f(1.0), f(1.0), f(-0.0)];
    let inv_b = vec![f(-0.0), f(0.0), f(1.0), f(0.5)];
    let r = narrowphase_pairs(&pairs, &inv_a, &inv_b);
    assert_eq!(r, vec![CollisionPair::new(3, 4), CollisionPair::new(6, 7)]);
}

#[test]
fn infinite_mass_is_a_zero_inverse_mass() {
    assert!(has_infinite_mass(f(0.0)));
    assert!(has_infinite_mass(f(-0.0)));
    assert!(!has_infinite_mass(f(1.0e-6)));
}

#[test]
fn shape_pairs_choose_their_test() {
    assert_eq!(narrow_test(ShapeKind::Sphere, ShapeKind::Sphere), Ok(NarrowTest::SphereSphere));
    assert_eq!(narrow_test(ShapeKind::Sphere, ShapeKind::Box), Ok(NarrowTest::Advancement));
    assert_eq!(narrow_test(ShapeKind::Box, ShapeKind::Sphere), Ok(NarrowTest::Advancement));
    assert_eq!(narrow_test(ShapeKind::Box, ShapeKind::Box), Ok(NarrowTest::Advancement));
    assert_eq!(narrow_test(ShapeKind::Convex, ShapeKind::Box), Err(NarrowError::UnsupportedPair));
    assert_eq!(narrow_test(ShapeKind::Sphere, ShapeKind::Convex), Err(NarrowError::UnsupportedPair));
}

#[test]
fn contacts_are_routed_by_time_of_impact() {
    let tois = vec![f(0.004), f(0.0), f(0.001), f(-0.0), f(0.004), f(0.002)];
    let (resting, ballistic) = route_contacts(&tois);
    assert_eq!(resting, vec![1, 3]);
    assert_eq!(ballistic, vec![2, 5, 0, 4]);
}

#[test]
fn routing_with_no_contacts() {
    let (resting, ballistic) = route_contacts(&vec![]);
    assert!(resting.is_empty());
    assert!(ballistic.is_empty());
}

#[test]
fn advancement_hits_when_touching() {
    let mut s = Advancement::new();
    assert_eq!(s.step(f(0.016), false, f(2.0), f(0.005), ), AdvanceStep::Advance);
    assert_eq!(s.iterations, 1);
    assert_eq!(s.step(f(0.011), true, f(0.0), f(0.0)), AdvanceStep::Hit);
    assert_eq!(s.iterations, 1);
}

#[test]
fn advancement_misses_when_separating_or_too_slow() {
    let mut s = Advancement::new();
    assert_eq!(s.step(f(0.016), false, f(0.0), f(0.0)), AdvanceStep::Miss);
    assert_eq!(s.step(f(0.016), false, f(-1.0), f(0.0)), AdvanceStep::Miss);
    assert_eq!(s.step(f(0.016), false, f(1.0), f(0.02)), AdvanceStep::Miss);
    assert_eq!(s.step(f(0.0), true, f(1.0), f(0.001)), AdvanceStep::Miss);
    assert_eq!(s.iterations, 0);
}

#[test]
fn advancement_is_bounded() {
    let mut s = Advancement::new();
    for _ in 0..MAX_ADVANCE_ITERS {
        assert_eq!(s.step(f(0.016), false, f(1.0), f(0.0001)), AdvanceStep::Advance);
    }
    assert_eq!(s.iterations, 10);
    assert_eq!(s.step(f(0.016), false, f(1.0), f(0.0001)), AdvanceStep::Miss);
    assert_eq!(s.step(f(0.016), true, f(1.0), f(0.0001)), AdvanceStep::Hit);
}
