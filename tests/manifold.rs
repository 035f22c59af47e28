use rigid_core::collector::ManifoldCollector;
use rigid_core::manifold::{Manifold, SlotChoice, DISTANCE_THRESHOLD_SQ, MAX_CONTACTS};
use rigid_core::pair::CollisionPair;

fn f(x: f32) -> u32 {
    x.to_bits()
}

fn far(n: usize) -> Vec<u32> {
    vec![f(1.0); n]
}

fn full_manifold() -> Manifold<&'static str> {
    let mut m = Manifold::new(1, 2);
    for (i, name) in ["w", "x", "y", "z"].iter().enumerate() {
        let r = m.add_contact(*name, &far(i), &far(i), &far(i), f(0.0));
        assert_eq!(r, SlotChoice::Append);
    }
    m
}

#[test]
fn threshold_is_two_hundredths_squared() {
    assert_eq!(DISTANCE_THRESHOLD_SQ, (0.02f32 * 0.02f32).to_bits());
    assert_eq!(MAX_CONTACTS, 4);
}

#[test]
fn points_are_appended_until_full() {
    let m = full_manifold();
    assert_eq!(m.num_contacts(), 4);
    assert_eq!(*m.contact(0), "w");
    assert_eq!(*m.contact(3), "z");
    assert_eq!(m.pair(), CollisionPair { a: 1, b: 2 });
}

#[test]
fn near_duplicate_is_rejected() {
    let mut m = Manifold::new(1, 2);
    m.add_contact("old", &vec![], &vec![], &vec![], f(0.0));
    let r = m.add_contact("new", &vec![f(0.01 * 0.01)], &vec![f(1.0)], &vec![f(0.0)], f(0.0));
    assert_eq!(r, SlotChoice::Reject);
    assert_eq!(m.num_contacts(), 1);
    assert_eq!(*m.contact(0), "old");
    let r = m.add_contact("new", &vec![f(1.0)], &vec![f(0.0001)], &vec![f(0.0)], f(0.0));
    assert_eq!(r, SlotChoice::Reject);
    let r = m.add_contact("new", &vec![f(0.03 * 0.03)], &vec![f(0.03 * 0.03)], &vec![f(0.0)], f(0.0));
    assert_eq!(r, SlotChoice::Append);
    assert_eq!(m.num_contacts(), 2);
}

#[test]
fn full_manifold_replaces_the_point_nearest_the_centroid() {
    let mut m = full_manifold();
    let dists = vec![f(0.5), f(0.1), f(0.3), f(0.2)];
    let r = m.add_contact("new", &far(4), &far(4), &dists, f(0.4));
    assert_eq!(r, SlotChoice::Replace(1));
    assert_eq!(m.num_contacts(), 4);
    assert_eq!(*m.contact(1), "new");
    assert_eq!(*m.contact(0), "w");
}

#[test]
fn full_manifold_drops_a_central_candidate() {
    let mut m = full_manifold();
    let dists = vec![f(0.5), f(0.1), f(0.3), f(0.2)];
    let r = m.add_contact("new", &far(4), &far(4), &dists, f(0.05));
    assert_eq!(r, SlotChoice::Reject);
    assert_eq!(*m.contact(1), "x");
}

#[test]
fn equal_centroid_distances_replace_the_first() {
    let m = full_manifold();
    let dists = vec![f(0.3), f(0.2), f(0.2), f(0.9)];
    assert_eq!(m.choose_slot(&far(4), &far(4), &dists, f(1.0)), SlotChoice::Replace(1));
}

#[test]
fn rerun_on_unchanged_configuration_keeps_the_manifold() {
    let mut m = full_manifold();
    for i in 0..4 {
        let mut drift = far(4);
        drift[i] = f(0.0);
        let r = m.add_contact("again", &drift, &drift, &far(4), f(0.0));
        assert_eq!(r, SlotChoice::Reject);
        assert_eq!(m.num_contacts(), 4);
    }
    assert_eq!(*m.contact(2), "y");
}

#[test]
fn expired_points_are_removed_in_order() {
    let mut m = full_manifold();
    let tangent = vec![f(0.0), f(0.001), f(0.0), f(0.0)];
    let depth = vec![f(-0.01), f(-0.01), f(0.02), f(0.0)];
    m.remove_expired(&tangent, &depth);
    assert_eq!(m.num_contacts(), 2);
    assert_eq!(*m.contact(0), "w");
    assert_eq!(*m.contact(1), "z");
}

#[test]
fn nan_measures_expire_a_point() {
    let mut m = full_manifold();
    let tangent = vec![f(f32::NAN), f(0.0), f(0.0), f(0.0)];
    let depth = vec![f(0.0), f(-f32::NAN), f(0.0), f(0.0)];
    m.remove_expired(&tangent, &depth);
    assert_eq!(m.num_contacts(), 2);
    assert_eq!(*m.contact(0), "y");
}

#[test]
fn set_contact_replaces_in_place() {
    let mut m = full_manifold();
    m.set_contact(2, "solved");
    assert_eq!(*m.contact(2), "solved");
    assert_eq!(m.num_contacts(), 4);
}

#[test]
fn orientation_of_a_contact() {
    let m: Manifold<u8> = Manifold::new(1, 2);
    assert_eq!(m.orientation(1, 2), Some(false));
    assert_eq!(m.orientation(2, 1), Some(true));
    assert_eq!(m.orientation(1, 3), None);
}

#[test]
fn collector_creates_one_manifold_per_pair() {
    let mut c: ManifoldCollector<u32> = ManifoldCollector::new();
    assert_eq!(c.find(1, 2), None);
    assert_eq!(c.add_contact(1, 2, 10, &vec![], &vec![], &vec![], f(0.0)), SlotChoice::Append);
    assert_eq!(c.len(), 1);
    assert_eq!(c.find(2, 1), Some(0));
    // the same pair the other way round goes to the same manifold
    assert_eq!(c.add_contact(2, 1, 11, &far(1), &far(1), &far(1), f(0.0)), SlotChoice::Append);
    assert_eq!(c.len(), 1);
    assert_eq!(c.manifold(0).num_contacts(), 2);
    assert_eq!(c.manifold(0).pair(), CollisionPair { a: 1, b: 2 });
    c.add_contact(3, 1, 12, &vec![], &vec![], &vec![], f(0.0));
    assert_eq!(c.len(), 2);
    assert_eq!(c.num_contacts(), 3);
    assert_eq!(c.find(1, 3), Some(1));
    assert_eq!(*c.manifold(1).contact(0), 12);
}

#[test]
fn collector_removes_empty_and_orphaned_manifolds() {
    let mut c: ManifoldCollector<u32> = ManifoldCollector::new();
    c.add_contact(1, 2, 10, &vec![], &vec![], &vec![], f(0.0));
    c.add_contact(2, 3, 20, &vec![], &vec![], &vec![], f(0.0));
    c.add_contact(4, 5, 30, &vec![], &vec![], &vec![], f(0.0));
    c.remove_expired(0, &vec![f(1.0)], &vec![f(-0.1)]);
    assert_eq!(c.manifold(0).num_contacts(), 0);
    c.remove_empty();
    assert_eq!(c.len(), 2);
    assert_eq!(c.find(1, 2), None);
    assert_eq!(c.find(3, 2), Some(0));
    c.remove_involving(5);
    assert_eq!(c.len(), 1);
    assert_eq!(c.find(4, 5), None);
    c.set_contact(0, 0, 21);
    assert_eq!(*c.manifold(0).contact(0), 21);
    c.clear();
    assert_eq!(c.len(), 0);
    assert_eq!(c.num_contacts(), 0);
}
