//! Quarter turns of the sample grid. The samples of a region sit
//! symmetrically about its centre, so turning the field by a quarter about an
//! axis permutes the samples; the number of boundary faces does not change.
use crate::isosurface::{
    boundary_faces_of, cell_faces, cube, grid_faces, inside_at, plane_faces, row_faces,
};
use vstd::prelude::*;

verus! {

/// f(lo) + ... + f(hi - 1).
pub open spec fn sum(f: spec_fn(int) -> int, lo: int, hi: int) -> int
    decreases hi - lo,
{
    if hi <= lo {
        0
    } else {
        sum(f, lo, hi - 1) + f(hi - 1)
    }
}

proof fn lemma_sum_ext(f: spec_fn(int) -> int, g: spec_fn(int) -> int, lo: int, hi: int)
    requires
        forall|i: int| lo <= i < hi ==> #[trigger] f(i) == g(i),
    ensures
        sum(f, lo, hi) == sum(g, lo, hi),
    decreases hi - lo,
{
    if hi > lo {
        lemma_sum_ext(f, g, lo, hi - 1);
    }
}

proof fn lemma_sum_front(f: spec_fn(int) -> int, lo: int, hi: int)
    requires
        lo < hi,
    ensures
        sum(f, lo, hi) == f(lo) + sum(f, lo + 1, hi),
    decreases hi - lo,
{
    if hi - 1 > lo {
        lemma_sum_front(f, lo, hi - 1);
        assert(sum(f, lo + 1, hi) == sum(f, lo + 1, hi - 1) + f(hi - 1));
    } else {
        assert(sum(f, lo, lo) == 0);
        assert(sum(f, lo + 1, hi) == 0);
    }
}

proof fn lemma_sum_add(
    f: spec_fn(int) -> int,
    g: spec_fn(int) -> int,
    h: spec_fn(int) -> int,
    lo: int,
    hi: int,
)
    requires
        forall|i: int| lo <= i < hi ==> #[trigger] h(i) == f(i) + g(i),
    ensures
        sum(h, lo, hi) == sum(f, lo, hi) + sum(g, lo, hi),
    decreases hi - lo,
{
    if hi > lo {
        lemma_sum_add(f, g, h, lo, hi - 1);
    }
}

proof fn lemma_sum_zero(f: spec_fn(int) -> int, lo: int, hi: int)
    requires
        forall|i: int| lo <= i < hi ==> #[trigger] f(i) == 0,
    ensures
        sum(f, lo, hi) == 0,
    decreases hi - lo,
{
    if hi > lo {
        lemma_sum_zero(f, lo, hi - 1);
    }
}

/// Summing f(c - i) for i in [lo, hi) sums f over [c - hi + 1, c - lo + 1).
proof fn lemma_sum_reverse(f: spec_fn(int) -> int, c: int, lo: int, hi: int)
    ensures
        sum(|i: int| f(c - i), lo, hi) == sum(f, c - hi + 1, c - lo + 1),
    decreases hi - lo,
{
    if hi > lo {
        lemma_sum_reverse(f, c, lo, hi - 1);
        lemma_sum_front(f, c - hi + 1, c - lo + 1);
    }
}

/// Sum over x in [lo, hi) of the sum over y in [lo, k) of f(x, y).
pub open spec fn sum_rows(f: spec_fn(int, int) -> int, lo: int, hi: int, k: int) -> int {
    sum(|x: int| sum(|y: int| f(x, y), lo, k), lo, hi)
}

/// Sum over y in [lo, k) of the sum over x in [lo, hi) of f(x, y).
pub open spec fn sum_cols(f: spec_fn(int, int) -> int, lo: int, hi: int, k: int) -> int {
    sum(|y: int| sum(|x: int| f(x, y), lo, hi), lo, k)
}

proof fn lemma_sum_swap(f: spec_fn(int, int) -> int, lo: int, hi: int, k: int)
    ensures
        sum_rows(f, lo, hi, k) == sum_cols(f, lo, hi, k),
    decreases hi - lo,
{
    if hi > lo {
        lemma_sum_swap(f, lo, hi - 1, k);
        let a = |y: int| sum(|x: int| f(x, y), lo, hi - 1);
        let b = |y: int| f(hi - 1, y);
        let c = |y: int| sum(|x: int| f(x, y), lo, hi);
        assert forall|y: int| lo <= y < k implies #[trigger] c(y) == a(y) + b(y) by {}
        lemma_sum_add(a, b, c, lo, k);
        let r = |x: int| sum(|y: int| f(x, y), lo, k);
        assert(sum(r, lo, hi) == sum(r, lo, hi - 1) + r(hi - 1));
        assert(r(hi - 1) == sum(b, lo, k)) by {
            lemma_sum_ext(|y: int| f(hi - 1, y), b, lo, k);
        }
        assert(sum_rows(f, lo, hi, k) == sum(r, lo, hi));
        assert(sum_rows(f, lo, hi - 1, k) == sum(r, lo, hi - 1));
        assert(sum_cols(f, lo, hi, k) == sum(c, lo, k));
        assert(sum_cols(f, lo, hi - 1, k) == sum(a, lo, k));
    } else {
        let c = |y: int| sum(|x: int| f(x, y), lo, hi);
        assert forall|y: int| lo <= y < k implies #[trigger] c(y) == 0 by {}
        lemma_sum_zero(c, lo, k);
        assert(sum_cols(f, lo, hi, k) == sum(c, lo, k));
    }
}

/// Summing f(y, m - x) over the square [1, m) x [1, m), x outer, gives the
/// sum of f over the same square: a quarter turn of the square.
pub proof fn lemma_turn_sum(f: spec_fn(int, int) -> int, m: int)
    ensures
        sum(|x: int| sum(|y: int| f(y, m - x), 1, m), 1, m) == sum(
            |x: int| sum(|y: int| f(x, y), 1, m),
            1,
            m,
        ),
{
    let g = |b: int| sum(|a: int| f(a, b), 1, m);
    lemma_sum_ext(
        |x: int| sum(|y: int| f(y, m - x), 1, m),
        |x: int| g(m - x),
        1,
        m,
    );
    lemma_sum_reverse(g, m, 1, m);
    lemma_sum_swap(f, 1, m, m);
}

/// Faces that the cell (`x`, `y`, `z`) emits.
pub open spec fn cell_count(g: Seq<bool>, n: int, x: int, y: int, z: int) -> int {
    cell_faces(g, n, x, y, z).len() as int
}

/// Faces of the column of cells (`x`, `y`, 1..n-1).
pub open spec fn column_count(g: Seq<bool>, n: int, x: int, y: int) -> int {
    row_faces(g, n, x, y, n - 1).len() as int
}

/// Faces of the layer of cells (`x`, 1..n-1, 1..n-1).
pub open spec fn layer_count(g: Seq<bool>, n: int, x: int) -> int {
    plane_faces(g, n, x, n - 1).len() as int
}

proof fn lemma_row_count(g: Seq<bool>, n: int, x: int, y: int, z: int)
    ensures
        row_faces(g, n, x, y, z).len() == sum(|k: int| cell_count(g, n, x, y, k), 1, z),
    decreases z,
{
    if z > 1 {
        lemma_row_count(g, n, x, y, z - 1);
    }
}

proof fn lemma_plane_count(g: Seq<bool>, n: int, x: int, y: int)
    ensures
        plane_faces(g, n, x, y).len() == sum(|j: int| column_count(g, n, x, j), 1, y),
    decreases y,
{
    if y > 1 {
        lemma_plane_count(g, n, x, y - 1);
    }
}

proof fn lemma_grid_count(g: Seq<bool>, n: int, x: int)
    ensures
        grid_faces(g, n, x).len() == sum(|i: int| layer_count(g, n, i), 1, x),
    decreases x,
{
    if x > 1 {
        lemma_grid_count(g, n, x - 1);
    }
}

/// `h` is `g` turned a quarter about the z axis: (x, y) goes to (-y, x).
pub open spec fn turned_about_z(g: Seq<bool>, h: Seq<bool>, n: int) -> bool {
    forall|x: int, y: int, z: int|
        0 <= x < n && 0 <= y < n && 0 <= z < n ==> #[trigger] inside_at(h, n, x, y, z)
            == inside_at(g, n, y, n - 1 - x, z)
}

/// `h` is `g` turned a quarter about the y axis: (z, x) goes to (-x, z).
pub open spec fn turned_about_y(g: Seq<bool>, h: Seq<bool>, n: int) -> bool {
    forall|x: int, y: int, z: int|
        0 <= x < n && 0 <= y < n && 0 <= z < n ==> #[trigger] inside_at(h, n, x, y, z)
            == inside_at(g, n, z, y, n - 1 - x)
}

/// `h` is `g` turned a quarter about the x axis: (y, z) goes to (-z, y).
pub open spec fn turned_about_x(g: Seq<bool>, h: Seq<bool>, n: int) -> bool {
    forall|x: int, y: int, z: int|
        0 <= x < n && 0 <= y < n && 0 <= z < n ==> #[trigger] inside_at(h, n, x, y, z)
            == inside_at(g, n, x, z, n - 1 - y)
}

proof fn lemma_cell_turned_about_z(g: Seq<bool>, h: Seq<bool>, n: int, x: int, y: int, z: int)
    requires
        turned_about_z(g, h, n),
        1 <= x < n - 1,
        1 <= y < n - 1,
        1 <= z < n - 1,
    ensures
        cell_count(h, n, x, y, z) == cell_count(g, n, y, n - 1 - x, z),
{
    assert(inside_at(h, n, x, y, z) == inside_at(g, n, y, n - 1 - x, z));
    assert(inside_at(h, n, x, y, z - 1) == inside_at(g, n, y, n - 1 - x, z - 1));
    assert(inside_at(h, n, x, y, z + 1) == inside_at(g, n, y, n - 1 - x, z + 1));
    assert(inside_at(h, n, x - 1, y, z) == inside_at(g, n, y, n - 1 - x + 1, z));
    assert(inside_at(h, n, x + 1, y, z) == inside_at(g, n, y, n - 1 - x - 1, z));
    assert(inside_at(h, n, x, y - 1, z) == inside_at(g, n, y - 1, n - 1 - x, z));
    assert(inside_at(h, n, x, y + 1, z) == inside_at(g, n, y + 1, n - 1 - x, z));
}

proof fn lemma_cell_turned_about_x(g: Seq<bool>, h: Seq<bool>, n: int, x: int, y: int, z: int)
    requires
        turned_about_x(g, h, n),
        1 <= x < n - 1,
        1 <= y < n - 1,
        1 <= z < n - 1,
    ensures
        cell_count(h, n, x, y, z) == cell_count(g, n, x, z, n - 1 - y),
{
    assert(inside_at(h, n, x, y, z) == inside_at(g, n, x, z, n - 1 - y));
    assert(inside_at(h, n, x, y, z - 1) == inside_at(g, n, x, z - 1, n - 1 - y));
    assert(inside_at(h, n, x, y, z + 1) == inside_at(g, n, x, z + 1, n - 1 - y));
    assert(inside_at(h, n, x - 1, y, z) == inside_at(g, n, x - 1, z, n - 1 - y));
    assert(inside_at(h, n, x + 1, y, z) == inside_at(g, n, x + 1, z, n - 1 - y));
    assert(inside_at(h, n, x, y - 1, z) == inside_at(g, n, x, z, n - 1 - y + 1));
    assert(inside_at(h, n, x, y + 1, z) == inside_at(g, n, x, z, n - 1 - y - 1));
}

proof fn lemma_cell_turned_about_y(g: Seq<bool>, h: Seq<bool>, n: int, x: int, y: int, z: int)
    requires
        turned_about_y(g, h, n),
        1 <= x < n - 1,
        1 <= y < n - 1,
        1 <= z < n - 1,
    ensures
        cell_count(h, n, x, y, z) == cell_count(g, n, z, y, n - 1 - x),
{
    assert(inside_at(h, n, x, y, z) == inside_at(g, n, z, y, n - 1 - x));
    assert(inside_at(h, n, x, y, z - 1) == inside_at(g, n, z - 1, y, n - 1 - x));
    assert(inside_at(h, n, x, y, z + 1) == inside_at(g, n, z + 1, y, n - 1 - x));
    assert(inside_at(h, n, x - 1, y, z) == inside_at(g, n, z, y, n - 1 - x + 1));
    assert(inside_at(h, n, x + 1, y, z) == inside_at(g, n, z, y, n - 1 - x - 1));
    assert(inside_at(h, n, x, y - 1, z) == inside_at(g, n, z, y - 1, n - 1 - x));
    assert(inside_at(h, n, x, y + 1, z) == inside_at(g, n, z, y + 1, n - 1 - x));
}

/// Turning the field a quarter about the z axis leaves the number of faces
/// as it is.
pub proof fn lemma_turn_about_z_keeps_face_count(g: Seq<bool>, h: Seq<bool>, n: int)
    requires
        g.len() == cube(n),
        h.len() == cube(n),
        turned_about_z(g, h, n),
    ensures
        boundary_faces_of(h, n).len() == boundary_faces_of(g, n).len(),
{
    let m = n - 1;
    let f = |a: int, b: int| column_count(g, n, a, b);
    assert forall|x: int, y: int| 1 <= x < m && 1 <= y < m implies #[trigger] column_count(
        h,
        n,
        x,
        y,
    ) == column_count(g, n, y, m - x) by {
        lemma_row_count(h, n, x, y, m);
        lemma_row_count(g, n, y, m - x, m);
        assert forall|k: int| 1 <= k < m implies #[trigger] cell_count(h, n, x, y, k)
            == cell_count(g, n, y, m - x, k) by {
            lemma_cell_turned_about_z(g, h, n, x, y, k);
        }
        lemma_sum_ext(
            |k: int| cell_count(h, n, x, y, k),
            |k: int| cell_count(g, n, y, m - x, k),
            1,
            m,
        );
    }
    assert forall|x: int| 1 <= x < m implies #[trigger] layer_count(h, n, x) == sum(
        |y: int| f(y, m - x),
        1,
        m,
    ) by {
        lemma_plane_count(h, n, x, m);
        lemma_sum_ext(|j: int| column_count(h, n, x, j), |y: int| f(y, m - x), 1, m);
    }
    assert forall|x: int| 1 <= x < m implies #[trigger] layer_count(g, n, x) == sum(
        |y: int| f(x, y),
        1,
        m,
    ) by {
        lemma_plane_count(g, n, x, m);
        lemma_sum_ext(|j: int| column_count(g, n, x, j), |y: int| f(x, y), 1, m);
    }
    lemma_grid_count(h, n, m);
    lemma_grid_count(g, n, m);
    lemma_sum_ext(
        |i: int| layer_count(h, n, i),
        |x: int| sum(|y: int| f(y, m - x), 1, m),
        1,
        m,
    );
    lemma_sum_ext(|i: int| layer_count(g, n, i), |x: int| sum(|y: int| f(x, y), 1, m), 1, m);
    lemma_turn_sum(f, m);
}

/// Turning the field a quarter about the x axis leaves the number of faces
/// as it is.
pub proof fn lemma_turn_about_x_keeps_face_count(g: Seq<bool>, h: Seq<bool>, n: int)
    requires
        g.len() == cube(n),
        h.len() == cube(n),
        turned_about_x(g, h, n),
    ensures
        boundary_faces_of(h, n).len() == boundary_faces_of(g, n).len(),
{
    let m = n - 1;
    assert forall|x: int| 1 <= x < m implies #[trigger] layer_count(h, n, x) == layer_count(
        g,
        n,
        x,
    ) by {
        let f = |a: int, b: int| cell_count(g, n, x, a, b);
        assert forall|y: int| 1 <= y < m implies #[trigger] column_count(h, n, x, y) == sum(
            |z: int| f(z, m - y),
            1,
            m,
        ) by {
            lemma_row_count(h, n, x, y, m);
            assert forall|k: int| 1 <= k < m implies #[trigger] cell_count(h, n, x, y, k) == f(
                k,
                m - y,
            ) by {
                lemma_cell_turned_about_x(g, h, n, x, y, k);
            }
            lemma_sum_ext(|k: int| cell_count(h, n, x, y, k), |z: int| f(z, m - y), 1, m);
        }
        assert forall|y: int| 1 <= y < m implies #[trigger] column_count(g, n, x, y) == sum(
            |z: int| f(y, z),
            1,
            m,
        ) by {
            lemma_row_count(g, n, x, y, m);
            lemma_sum_ext(|k: int| cell_count(g, n, x, y, k), |z: int| f(y, z), 1, m);
        }
        lemma_plane_count(h, n, x, m);
        lemma_plane_count(g, n, x, m);
        lemma_sum_ext(
            |j: int| column_count(h, n, x, j),
            |y: int| sum(|z: int| f(z, m - y), 1, m),
            1,
            m,
        );
        lemma_sum_ext(|j: int| column_count(g, n, x, j), |y: int| sum(|z: int| f(y, z), 1, m), 1, m);
        lemma_turn_sum(f, m);
    }
    lemma_grid_count(h, n, m);
    lemma_grid_count(g, n, m);
    lemma_sum_ext(|i: int| layer_count(h, n, i), |i: int| layer_count(g, n, i), 1, m);
}

/// Turning the field a quarter about the y axis leaves the number of faces
/// as it is.
pub proof fn lemma_turn_about_y_keeps_face_count(g: Seq<bool>, h: Seq<bool>, n: int)
    requires
        g.len() == cube(n),
        h.len() == cube(n),
        turned_about_y(g, h, n),
    ensures
        boundary_faces_of(h, n).len() == boundary_faces_of(g, n).len(),
{
    let m = n - 1;
    let f = |a: int, b: int| sum(|y: int| cell_count(g, n, a, y, b), 1, m);
    assert forall|x: int| 1 <= x < m implies #[trigger] layer_count(h, n, x) == sum(
        |z: int| f(z, m - x),
        1,
        m,
    ) by {
        let phi = |a: int, b: int| cell_count(g, n, b, a, m - x);
        assert forall|y: int| 1 <= y < m implies #[trigger] column_count(h, n, x, y) == sum(
            |b: int| phi(y, b),
            1,
            m,
        ) by {
            lemma_row_count(h, n, x, y, m);
            assert forall|k: int| 1 <= k < m implies #[trigger] cell_count(h, n, x, y, k) == phi(
                y,
                k,
            ) by {
                lemma_cell_turned_about_y(g, h, n, x, y, k);
            }
            lemma_sum_ext(|k: int| cell_count(h, n, x, y, k), |b: int| phi(y, b), 1, m);
        }
        lemma_plane_count(h, n, x, m);
        lemma_sum_ext(
            |j: int| column_count(h, n, x, j),
            |a: int| sum(|b: int| phi(a, b), 1, m),
            1,
            m,
        );
        lemma_sum_swap(phi, 1, m, m);
        assert forall|z: int| 1 <= z < m implies sum(|a: int| phi(a, z), 1, m) == #[trigger] f(
            z,
            m - x,
        ) by {
            lemma_sum_ext(|a: int| phi(a, z), |y: int| cell_count(g, n, z, y, m - x), 1, m);
        }
        lemma_sum_ext(|b: int| sum(|a: int| phi(a, b), 1, m), |z: int| f(z, m - x), 1, m);
    }
    assert forall|x: int| 1 <= x < m implies #[trigger] layer_count(g, n, x) == sum(
        |z: int| f(x, z),
        1,
        m,
    ) by {
        let psi = |a: int, b: int| cell_count(g, n, x, a, b);
        assert forall|y: int| 1 <= y < m implies #[trigger] column_count(g, n, x, y) == sum(
            |b: int| psi(y, b),
            1,
            m,
        ) by {
            lemma_row_count(g, n, x, y, m);
            lemma_sum_ext(|k: int| cell_count(g, n, x, y, k), |b: int| psi(y, b), 1, m);
        }
        lemma_plane_count(g, n, x, m);
        lemma_sum_ext(
            |j: int| column_count(g, n, x, j),
            |a: int| sum(|b: int| psi(a, b), 1, m),
            1,
            m,
        );
        lemma_sum_swap(psi, 1, m, m);
        assert forall|z: int| 1 <= z < m implies sum(|a: int| psi(a, z), 1, m) == #[trigger] f(
            x,
            z,
        ) by {
            lemma_sum_ext(|a: int| psi(a, z), |y: int| cell_count(g, n, x, y, z), 1, m);
        }
        lemma_sum_ext(|b: int| sum(|a: int| psi(a, b), 1, m), |z: int| f(x, z), 1, m);
    }
    lemma_grid_count(h, n, m);
    lemma_grid_count(g, n, m);
    lemma_sum_ext(
        |i: int| layer_count(h, n, i),
        |x: int| sum(|z: int| f(z, m - x), 1, m),
        1,
        m,
    );
    lemma_sum_ext(|i: int| layer_count(g, n, i), |x: int| sum(|z: int| f(x, z), 1, m), 1, m);
    lemma_turn_sum(f, m);
}

} // verus!
