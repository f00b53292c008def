use octree_isosurface::space::{child_origin, half_edge_of, Origin, MAX_LEVEL};

#[test]
fn half_edges_halve_per_level() {
    assert_eq!(half_edge_of(0), 1 << 30);
    assert_eq!(half_edge_of(1), 1 << 29);
    assert_eq!(half_edge_of(MAX_LEVEL), 1);
}

#[test]
fn child_origins_follow_the_octant_order() {
    let o = Origin { x: 100, y: -100, z: 0 };
    let d = 1i64 << 25;
    assert_eq!(child_origin(o, 4, 0), Origin { x: 100 + d, y: -100 + d, z: d });
    assert_eq!(child_origin(o, 4, 5), Origin { x: 100 - d, y: -100 + d, z: -d });
    assert_eq!(child_origin(o, 4, 6), Origin { x: 100 - d, y: -100 - d, z: d });
    assert_eq!(child_origin(Origin::zero(), MAX_LEVEL - 1, 7), Origin { x: -1, y: -1, z: -1 });
}
