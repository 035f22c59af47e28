use rigid_core::hull::{expand_hull, find_horizon_edges, is_edge_unique, Edge, Tri};
use rigid_core::arena::pair_mut;
use rigid_core::pair::CollisionPair;

#[test]
fn pair_equals_its_reverse() {
    assert_eq!(CollisionPair { a: 3, b: 7 }, CollisionPair { a: 7, b: 3 });
    assert_eq!(CollisionPair::new(3, 7), CollisionPair::new(7, 3));
    let p = CollisionPair::new(9, 2);
    assert_eq!((p.a, p.b), (2, 9));
    assert_ne!(CollisionPair::new(3, 7), CollisionPair::new(3, 8));
}

#[test]
fn pair_lookup_helpers() {
    let p = CollisionPair::new(4, 5);
    assert!(p.contains(4));
    assert!(p.contains(5));
    assert!(!p.contains(6));
    assert!(p.matches(&CollisionPair { a: 5, b: 4 }));
    assert!(!p.matches(&CollisionPair { a: 5, b: 5 }));
}

#[test]
fn edge_equality_ignores_direction() {
    assert_eq!(Edge { a: 1, b: 2 }, Edge { a: 2, b: 1 });
    assert_ne!(Edge { a: 1, b: 2 }, Edge { a: 1, b: 3 });
}

#[test]
fn edge_of_tri_walks_the_corners() {
    let t = Tri { a: 4, b: 5, c: 6 };
    assert_eq!((Edge::of_tri(&t, 0).a, Edge::of_tri(&t, 0).b), (4, 5));
    assert_eq!((Edge::of_tri(&t, 1).a, Edge::of_tri(&t, 1).b), (5, 6));
    assert_eq!((Edge::of_tri(&t, 2).a, Edge::of_tri(&t, 2).b), (6, 4));
}

#[test]
fn shared_edge_is_not_unique() {
    let tris = vec![Tri { a: 0, b: 1, c: 2 }, Tri { a: 2, b: 1, c: 3 }, Tri { a: 0, b: 3, c: 4 }];
    let facing = vec![0, 1, 2];
    // 1-2 belongs to triangles 0 and 1
    assert!(!is_edge_unique(&tris, &facing, 0, &Edge { a: 1, b: 2 }));
    // with triangle 1 ignored, triangle 0 still holds it
    assert!(!is_edge_unique(&tris, &facing, 1, &Edge { a: 2, b: 1 }));
    // 0-1 is only on triangle 0, which is ignored
    assert!(is_edge_unique(&tris, &facing, 0, &Edge { a: 0, b: 1 }));
    // an edge of no triangle
    assert!(is_edge_unique(&tris, &facing, 5, &Edge { a: 1, b: 4 }));
    // only the listed triangles are searched
    assert!(is_edge_unique(&tris, &[2], 0, &Edge { a: 1, b: 2 }));
    assert!(is_edge_unique(&tris, &[], 0, &Edge { a: 0, b: 1 }));
}

fn tetrahedron() -> Vec<Tri> {
    vec![
        Tri { a: 0, b: 1, c: 2 },
        Tri { a: 0, b: 2, c: 3 },
        Tri { a: 0, b: 3, c: 1 },
        Tri { a: 1, b: 3, c: 2 },
    ]
}

fn edges(es: &[Edge]) -> Vec<(u32, u32)> {
    es.iter().map(|e| (e.a, e.b)).collect()
}

fn corners(ts: &[Tri]) -> Vec<(u32, u32, u32)> {
    ts.iter().map(|t| (t.a, t.b, t.c)).collect()
}

#[test]
fn horizon_of_one_facing_triangle_is_its_border() {
    let h = find_horizon_edges(&tetrahedron(), &vec![0]);
    assert_eq!(edges(&h), vec![(0, 1), (1, 2), (2, 0)]);
}

#[test]
fn horizon_drops_shared_edges() {
    let h = find_horizon_edges(&tetrahedron(), &vec![0, 1]);
    assert_eq!(edges(&h), vec![(0, 1), (1, 2), (2, 3), (3, 0)]);
    assert!(find_horizon_edges(&tetrahedron(), &vec![]).is_empty());
}

#[test]
fn expanding_the_hull_fans_the_horizon_to_the_new_point() {
    let t = expand_hull(&tetrahedron(), &vec![0], 4);
    assert_eq!(
        corners(&t),
        vec![(0, 2, 3), (0, 3, 1), (1, 3, 2), (0, 1, 4), (1, 2, 4), (2, 0, 4)]
    );
    let t = expand_hull(&tetrahedron(), &vec![1, 0], 4);
    assert_eq!(
        corners(&t),
        vec![(0, 3, 1), (1, 3, 2), (2, 3, 4), (3, 0, 4), (0, 1, 4), (1, 2, 4)]
    );
    let t = expand_hull(&tetrahedron(), &vec![], 4);
    assert_eq!(corners(&t), corners(&tetrahedron()));
}

#[test]
fn two_distinct_elements_borrowed_at_once() {
    let mut v = vec![10, 20, 30, 40];
    {
        let (a, b) = pair_mut(&mut v, 3, 1).unwrap();
        assert_eq!((*a, *b), (40, 20));
        *a += 1;
        *b += 2;
    }
    assert_eq!(v, vec![10, 22, 30, 41]);
    {
        let (a, b) = pair_mut(&mut v, 0, 2).unwrap();
        std::mem::swap(a, b);
    }
    assert_eq!(v, vec![30, 22, 10, 41]);
    assert!(pair_mut(&mut v, 2, 2).is_none());
    assert_eq!(v, vec![30, 22, 10, 41]);
}
