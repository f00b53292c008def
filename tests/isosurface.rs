use octree_isosurface::isosurface::{boundary_faces, Face, Side, COUNT, SIDE};

const STEP: f64 = 1.0 / COUNT as f64;

fn idx(n: usize, x: usize, y: usize, z: usize) -> usize {
    (x * n + y) * n + z
}

/// Centre of the sample `k` along one axis.
fn centre(k: usize) -> f64 {
    (k as f64 - (SIDE as f64 - 1.0) / 2.0) * STEP
}

fn sample(field: &dyn Fn(f64, f64, f64) -> f64) -> Vec<bool> {
    let mut g = Vec::with_capacity(SIDE * SIDE * SIDE);
    for x in 0..SIDE {
        for y in 0..SIDE {
            for z in 0..SIDE {
                g.push(field(centre(x), centre(y), centre(z)) < 0.0);
            }
        }
    }
    g
}

/// Quarter turn about the z axis: (x, y) -> (-y, x).
fn rotate_z(g: &[bool]) -> Vec<bool> {
    let n = SIDE;
    let mut r = vec![false; n * n * n];
    for x in 0..n {
        for y in 0..n {
            for z in 0..n {
                r[idx(n, n - 1 - y, x, z)] = g[idx(n, x, y, z)];
            }
        }
    }
    r
}

/// Quarter turn about the x axis: (y, z) -> (-z, y).
fn rotate_x(g: &[bool]) -> Vec<bool> {
    let n = SIDE;
    let mut r = vec![false; n * n * n];
    for x in 0..n {
        for y in 0..n {
            for z in 0..n {
                r[idx(n, x, n - 1 - z, y)] = g[idx(n, x, y, z)];
            }
        }
    }
    r
}

/// Quarter turn about the y axis: (z, x) -> (-x, z).
fn rotate_y(g: &[bool]) -> Vec<bool> {
    let n = SIDE;
    let mut r = vec![false; n * n * n];
    for x in 0..n {
        for y in 0..n {
            for z in 0..n {
                r[idx(n, x, y, z)] = g[idx(n, z, y, n - 1 - x)];
            }
        }
    }
    r
}

fn corner_points(faces: &[Face]) -> Vec<(f64, f64, f64)> {
    let low = |k: usize| (k as f64 - SIDE as f64 / 2.0) * STEP;
    let mut pts = Vec::new();
    for f in faces {
        for (a, b, c) in f.side.corners().iter() {
            pts.push((
                low(f.x) + *a as f64 * STEP,
                low(f.y) + *b as f64 * STEP,
                low(f.z) + *c as f64 * STEP,
            ));
        }
    }
    pts
}

fn extent(pts: &[(f64, f64, f64)]) -> [f64; 6] {
    let mut e = [f64::MAX, f64::MIN, f64::MAX, f64::MIN, f64::MAX, f64::MIN];
    for p in pts {
        e[0] = e[0].min(p.0);
        e[1] = e[1].max(p.0);
        e[2] = e[2].min(p.1);
        e[3] = e[3].max(p.1);
        e[4] = e[4].min(p.2);
        e[5] = e[5].max(p.2);
    }
    e
}

fn sphere(x: f64, y: f64, z: f64) -> f64 {
    x * x + y * y + z * z - 0.25
}

#[test]
fn uniform_outside_field_yields_nothing() {
    let g = sample(&|_, _, _| 1.0);
    assert!(boundary_faces(&g, SIDE).is_empty());
}

#[test]
fn uniform_inside_field_yields_nothing() {
    let g = sample(&|_, _, _| -1.0);
    assert!(boundary_faces(&g, SIDE).is_empty());
}

#[test]
fn single_inside_cell_yields_six_faces_in_order() {
    let n = 3;
    let mut g = vec![false; 27];
    g[idx(n, 1, 1, 1)] = true;
    let faces = boundary_faces(&g, n);
    let sides: Vec<Side> = faces.iter().map(|f| f.side).collect();
    assert_eq!(
        sides,
        vec![Side::Back, Side::Front, Side::Left, Side::Right, Side::Bottom, Side::Top]
    );
    assert!(faces.iter().all(|f| (f.x, f.y, f.z) == (1, 1, 1)));
}

#[test]
fn face_towards_inside_neighbour_is_culled() {
    let n = 4;
    let mut g = vec![false; 64];
    g[idx(n, 1, 1, 1)] = true;
    g[idx(n, 1, 1, 2)] = true;
    let faces = boundary_faces(&g, n);
    assert_eq!(faces.len(), 10);
    assert!(!faces.contains(&Face { x: 1, y: 1, z: 1, side: Side::Front }));
    assert!(!faces.contains(&Face { x: 1, y: 1, z: 2, side: Side::Back }));
    assert_eq!(faces[0], Face { x: 1, y: 1, z: 1, side: Side::Back });
    assert_eq!(faces[5], Face { x: 1, y: 1, z: 2, side: Side::Front });
}

#[test]
fn outermost_samples_emit_no_faces() {
    let n = 3;
    let mut g = vec![false; 27];
    g[idx(n, 0, 0, 0)] = true;
    g[idx(n, 2, 1, 1)] = true;
    assert!(boundary_faces(&g, n).is_empty());
}

#[test]
fn tiny_grids_have_no_cells() {
    assert!(boundary_faces(&vec![true], 1).is_empty());
    assert!(boundary_faces(&vec![true; 8], 2).is_empty());
    assert!(boundary_faces(&Vec::new(), 0).is_empty());
}

#[test]
fn corners_lie_on_their_face() {
    assert_eq!(
        Side::Front.corners(),
        [(0, 0, 1), (1, 0, 1), (1, 1, 1), (0, 0, 1), (1, 1, 1), (0, 1, 1)]
    );
    assert_eq!(
        Side::Back.corners(),
        [(0, 0, 0), (1, 1, 0), (1, 0, 0), (1, 1, 0), (0, 0, 0), (0, 1, 0)]
    );
    assert!(Side::Right.corners().iter().all(|c| c.0 == 1));
    assert!(Side::Left.corners().iter().all(|c| c.0 == 0));
    assert!(Side::Top.corners().iter().all(|c| c.1 == 1));
    assert!(Side::Bottom.corners().iter().all(|c| c.1 == 0));
}

#[test]
fn sphere_at_root_gives_surface_near_radius() {
    let g = sample(&sphere);
    let faces = boundary_faces(&g, SIDE);
    assert!(!faces.is_empty());
    assert_eq!(faces.len() % 6, 0);
    for (x, y, z) in corner_points(&faces) {
        let r = (x * x + y * y + z * z).sqrt();
        assert!((r - 0.5).abs() <= STEP, "corner at distance {}", r);
    }
}

#[test]
fn sphere_is_invariant_under_quarter_turns() {
    let g = sample(&sphere);
    let base = boundary_faces(&g, SIDE);
    let e0 = extent(&corner_points(&base));
    for rotated in [rotate_z(&g), rotate_x(&g), rotate_y(&g)] {
        let faces = boundary_faces(&rotated, SIDE);
        assert_eq!(faces.len(), base.len());
        let e = extent(&corner_points(&faces));
        for k in 0..6 {
            assert!((e[k] - e0[k]).abs() < 1e-9);
        }
    }
}

#[test]
fn off_centre_body_keeps_face_count_under_quarter_turns() {
    let g = sample(&|x, y, z| (x - 0.2).powi(2) / 0.1 + (y + 0.1).powi(2) / 0.05 + z * z / 0.02 - 1.0);
    let n0 = boundary_faces(&g, SIDE).len();
    assert!(n0 > 0);
    assert_eq!(boundary_faces(&rotate_z(&g), SIDE).len(), n0);
    assert_eq!(boundary_faces(&rotate_x(&g), SIDE).len(), n0);
    assert_eq!(boundary_faces(&rotate_y(&g), SIDE).len(), n0);
}
