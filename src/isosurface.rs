//! The combinatorial core of the isosurface extractor. The region is sampled
//! on a cubic grid of cells; a cell is inside when the field is negative at
//! its centre. Each inside cell contributes one quad for each of its six
//! faces whose neighbouring cell is outside, so only faces on the boundary
//! of the inside volume are produced.
use vstd::prelude::*;
use vstd::seq_lib::lemma_concat_associative;

verus! {

/// Cells along each axis of the region.
pub const COUNT: usize = 16;

/// Cells of margin added on each side of the region, so that surface
/// features straddling its boundary are still captured.
pub const OVER: usize = 2;

/// Samples along each axis: the cells with their margin, and one more on
/// each side that is only ever looked at as a neighbour.
pub const SIDE: usize = COUNT + 2 * OVER + 2;

/// The six faces of a cell, in the order a cell emits them.
#[derive(Clone, Copy, Debug, PartialEq, Eq, Structural)]
pub enum Side {
    Back,
    Front,
    Left,
    Right,
    Bottom,
    Top,
}

/// The face `side` of the cell at sample indices (`x`, `y`, `z`).
#[derive(Clone, Copy, Debug, PartialEq, Eq, Structural)]
pub struct Face {
    pub x: usize,
    pub y: usize,
    pub z: usize,
    pub side: Side,
}

/// Samples in a grid of `n` per axis.
#[verifier::opaque]
pub open spec fn cube(n: int) -> int {
    n * n * n
}

/// Position of the sample (`x`, `y`, `z`) in a flat grid of `n` samples per
/// axis, x slowest and z fastest.
#[verifier::opaque]
pub open spec fn index_of(n: int, x: int, y: int, z: int) -> int {
    (x * n + y) * n + z
}

pub open spec fn inside_at(g: Seq<bool>, n: int, x: int, y: int, z: int) -> bool {
    g[index_of(n, x, y, z)]
}

/// The face `s` of the cell (`x`, `y`, `z`).
pub open spec fn face_at(x: int, y: int, z: int, s: Side) -> Face {
    Face { x: x as usize, y: y as usize, z: z as usize, side: s }
}

/// `f` where `keep` holds, nothing otherwise.
pub open spec fn face_if(keep: bool, f: Face) -> Seq<Face> {
    if keep {
        seq![f]
    } else {
        Seq::empty()
    }
}

/// The faces that the cell (`x`, `y`, `z`) emits: none if it is outside,
/// else one for each side whose neighbour is outside, in `Side` order.
pub open spec fn cell_faces(g: Seq<bool>, n: int, x: int, y: int, z: int) -> Seq<Face> {
    if !inside_at(g, n, x, y, z) {
        Seq::empty()
    } else {
        let f = |s: Side| face_at(x, y, z, s);
        face_if(!inside_at(g, n, x, y, z - 1), f(Side::Back)) + face_if(
            !inside_at(g, n, x, y, z + 1),
            f(Side::Front),
        ) + face_if(!inside_at(g, n, x - 1, y, z), f(Side::Left)) + face_if(
            !inside_at(g, n, x + 1, y, z),
            f(Side::Right),
        ) + face_if(!inside_at(g, n, x, y - 1, z), f(Side::Bottom)) + face_if(
            !inside_at(g, n, x, y + 1, z),
            f(Side::Top),
        )
    }
}

/// Faces of the cells (`x`, `y`, 1) to (`x`, `y`, `z` - 1), in order.
pub open spec fn row_faces(g: Seq<bool>, n: int, x: int, y: int, z: int) -> Seq<Face>
    decreases z,
{
    if z <= 1 {
        Seq::empty()
    } else {
        row_faces(g, n, x, y, z - 1) + cell_faces(g, n, x, y, z - 1)
    }
}

/// Faces of the rows (`x`, 1) to (`x`, `y` - 1), in order.
pub open spec fn plane_faces(g: Seq<bool>, n: int, x: int, y: int) -> Seq<Face>
    decreases y,
{
    if y <= 1 {
        Seq::empty()
    } else {
        plane_faces(g, n, x, y - 1) + row_faces(g, n, x, y - 1, n - 1)
    }
}

/// Faces of the planes 1 to `x` - 1, in order.
pub open spec fn grid_faces(g: Seq<bool>, n: int, x: int) -> Seq<Face>
    decreases x,
{
    if x <= 1 {
        Seq::empty()
    } else {
        grid_faces(g, n, x - 1) + plane_faces(g, n, x - 1, n - 1)
    }
}

/// All the faces that a grid of `n` samples per axis yields: every cell but
/// the outermost layer of samples, x slowest and z fastest.
pub open spec fn boundary_faces_of(g: Seq<bool>, n: int) -> Seq<Face> {
    grid_faces(g, n, n - 1)
}

proof fn lemma_index_bound(n: int, x: int, y: int, z: int)
    requires
        0 <= x < n,
        0 <= y < n,
        0 <= z < n,
    ensures
        0 <= index_of(n, x, y, z) < n * n * n,
{
    reveal(index_of);
    assert(0 <= x * n + y < n * n) by (nonlinear_arith)
        requires
            0 <= x < n,
            0 <= y < n,
    ;
    assert(0 <= (x * n + y) * n + z < n * n * n) by (nonlinear_arith)
        requires
            0 <= x * n + y < n * n,
            0 <= z < n,
    ;
}

/// Whether the sample (`x`, `y`, `z`) is inside.
fn is_inside(inside: &Vec<bool>, n: usize, x: usize, y: usize, z: usize) -> (r: bool)
    requires
        inside@.len() == cube(n as int),
        x < n,
        y < n,
        z < n,
    ensures
        r == inside_at(inside@, n as int, x as int, y as int, z as int),
{
    proof {
        reveal(cube);
        reveal(index_of);
        assert(inside.len() <= usize::MAX);
        lemma_index_bound(n as int, x as int, y as int, z as int);
        assert(x * n + y < n * n) by (nonlinear_arith)
            requires
                x < n,
                y < n,
        ;
        assert((x * n + y) * n + z < n * n * n) by (nonlinear_arith)
            requires
                x * n + y < n * n,
                z < n,
        ;
        assert(x * n <= x * n + y);
        assert(n * n <= n * n * n) by (nonlinear_arith)
            requires
                x < n,
        ;
        assert((x * n + y) * n <= (x * n + y) * n + z);
    }
    inside[(x * n + y) * n + z]
}

/// Appends `f` where `keep` holds.
fn push_face_if(keep: bool, f: Face, out: &mut Vec<Face>)
    ensures
        final(out)@ == old(out)@ + face_if(keep, f),
{
    if keep {
        out.push(f);
        assert(final(out)@ =~= old(out)@ + face_if(keep, f));
    } else {
        assert(old(out)@ =~= old(out)@ + face_if(keep, f));
    }
}

/// Appends the faces that the cell (`x`, `y`, `z`) emits.
fn push_cell_faces(
    inside: &Vec<bool>,
    n: usize,
    x: usize,
    y: usize,
    z: usize,
    out: &mut Vec<Face>,
)
    requires
        inside@.len() == cube(n as int),
        1 <= x < n - 1,
        1 <= y < n - 1,
        1 <= z < n - 1,
    ensures
        final(out)@ == old(out)@ + cell_faces(inside@, n as int, x as int, y as int, z as int),
{
    let ghost o0 = out@;
    let ghost (xi, yi, zi) = (x as int, y as int, z as int);
    if is_inside(inside, n, x, y, z) {
        let back = !is_inside(inside, n, x, y, z - 1);
        let front = !is_inside(inside, n, x, y, z + 1);
        let left = !is_inside(inside, n, x - 1, y, z);
        let right = !is_inside(inside, n, x + 1, y, z);
        let bottom = !is_inside(inside, n, x, y - 1, z);
        let top = !is_inside(inside, n, x, y + 1, z);
        let ghost a = face_if(back, face_at(xi, yi, zi, Side::Back));
        let ghost b = face_if(front, face_at(xi, yi, zi, Side::Front));
        let ghost c = face_if(left, face_at(xi, yi, zi, Side::Left));
        let ghost d = face_if(right, face_at(xi, yi, zi, Side::Right));
        let ghost e = face_if(bottom, face_at(xi, yi, zi, Side::Bottom));
        let ghost h = face_if(top, face_at(xi, yi, zi, Side::Top));
        push_face_if(back, Face { x, y, z, side: Side::Back }, out);
        push_face_if(front, Face { x, y, z, side: Side::Front }, out);
        proof {
            lemma_concat_associative(o0, a, b);
        }
        push_face_if(left, Face { x, y, z, side: Side::Left }, out);
        proof {
            lemma_concat_associative(o0, a + b, c);
        }
        push_face_if(right, Face { x, y, z, side: Side::Right }, out);
        proof {
            lemma_concat_associative(o0, a + b + c, d);
        }
        push_face_if(bottom, Face { x, y, z, side: Side::Bottom }, out);
        proof {
            lemma_concat_associative(o0, a + b + c + d, e);
        }
        push_face_if(top, Face { x, y, z, side: Side::Top }, out);
        proof {
            lemma_concat_associative(o0, a + b + c + d + e, h);
        }
    } else {
        assert(out@ =~= o0 + cell_faces(inside@, n as int, xi, yi, zi));
    }
}


/// The faces, in order, of the boundary between the inside and the outside
/// cells of a grid of `n` samples per axis (flat, x slowest, z fastest): for
/// each cell but the outermost layer, x slowest and z fastest, the faces it
/// emits. A grid with no cells gives none.
pub fn boundary_faces(inside: &Vec<bool>, n: usize) -> (r: Vec<Face>)
    requires
        inside@.len() == cube(n as int),
    ensures
        r@ == boundary_faces_of(inside@, n as int),
{
    let ghost g = inside@;
    let ghost ni = n as int;
    let mut out: Vec<Face> = Vec::new();
    if n < 2 {
        return out;
    }
    let mut x: usize = 1;
    while x < n - 1
        invariant
            inside@ == g,
            g.len() == cube(ni),
            n == ni,
            n >= 2,
            1 <= x <= n - 1,
            out@ == grid_faces(g, ni, x as int),
        decreases n - x,
    {
        let mut y: usize = 1;
        assert(out@ =~= grid_faces(g, ni, x as int) + plane_faces(g, ni, x as int, 1));
        while y < n - 1
            invariant
                inside@ == g,
                g.len() == cube(ni),
                n == ni,
                n >= 2,
                1 <= x < n - 1,
                1 <= y <= n - 1,
                out@ == grid_faces(g, ni, x as int) + plane_faces(g, ni, x as int, y as int),
            decreases n - y,
        {
            let ghost gp = grid_faces(g, ni, x as int) + plane_faces(g, ni, x as int, y as int);
            let mut z: usize = 1;
            assert(out@ =~= gp + row_faces(g, ni, x as int, y as int, 1));
            while z < n - 1
                invariant
                    inside@ == g,
                    g.len() == cube(ni),
                    n == ni,
                    n >= 2,
                    1 <= x < n - 1,
                    1 <= y < n - 1,
                    1 <= z <= n - 1,
                    gp == grid_faces(g, ni, x as int) + plane_faces(g, ni, x as int, y as int),
                    out@ == gp + row_faces(g, ni, x as int, y as int, z as int),
                decreases n - z,
            {
                push_cell_faces(inside, n, x, y, z, &mut out);
                proof {
                    lemma_concat_associative(
                        gp,
                        row_faces(g, ni, x as int, y as int, z as int),
                        cell_faces(g, ni, x as int, y as int, z as int),
                    );
                }
                z = z + 1;
            }
            proof {
                lemma_concat_associative(
                    grid_faces(g, ni, x as int),
                    plane_faces(g, ni, x as int, y as int),
                    row_faces(g, ni, x as int, y as int, ni - 1),
                );
            }
            y = y + 1;
        }
        x = x + 1;
    }
    out
}

/// The corners of the two triangles that make up the face `side` of a cell,
/// in drawing order, as offsets in cells from the cell's lowest corner.
pub open spec fn quad_corners(side: Side) -> Seq<(u8, u8, u8)> {
    match side {
        Side::Back => seq![(0, 0, 0), (1, 1, 0), (1, 0, 0), (1, 1, 0), (0, 0, 0), (0, 1, 0)],
        Side::Front => seq![(0, 0, 1), (1, 0, 1), (1, 1, 1), (0, 0, 1), (1, 1, 1), (0, 1, 1)],
        Side::Left => seq![(0, 0, 0), (0, 0, 1), (0, 1, 1), (0, 0, 0), (0, 1, 1), (0, 1, 0)],
        Side::Right => seq![(1, 0, 0), (1, 1, 1), (1, 0, 1), (1, 0, 0), (1, 1, 0), (1, 1, 1)],
        Side::Bottom => seq![(0, 0, 0), (1, 0, 1), (0, 0, 1), (1, 0, 1), (0, 0, 0), (1, 0, 0)],
        Side::Top => seq![(0, 1, 0), (1, 1, 1), (1, 1, 0), (0, 1, 0), (0, 1, 1), (1, 1, 1)],
    }
}

/// The corner `c` of a cell lies on its face `side`.
pub open spec fn on_face(side: Side, c: (u8, u8, u8)) -> bool {
    &&& c.0 <= 1 && c.1 <= 1 && c.2 <= 1
    &&& match side {
        Side::Back => c.2 == 0,
        Side::Front => c.2 == 1,
        Side::Left => c.0 == 0,
        Side::Right => c.0 == 1,
        Side::Bottom => c.1 == 0,
        Side::Top => c.1 == 1,
    }
}

impl Side {
    /// The six corners of the face's two triangles, in drawing order; each
    /// lies on the face.
    pub fn corners(self) -> (r: [(u8, u8, u8); 6])
        ensures
            r@ == quad_corners(self),
            forall|k: int| 0 <= k < 6 ==> on_face(self, #[trigger] r@[k]),
    {
        let r = match self {
            Side::Back => [(0, 0, 0), (1, 1, 0), (1, 0, 0), (1, 1, 0), (0, 0, 0), (0, 1, 0)],
            Side::Front => [(0, 0, 1), (1, 0, 1), (1, 1, 1), (0, 0, 1), (1, 1, 1), (0, 1, 1)],
            Side::Left => [(0, 0, 0), (0, 0, 1), (0, 1, 1), (0, 0, 0), (0, 1, 1), (0, 1, 0)],
            Side::Right => [(1, 0, 0), (1, 1, 1), (1, 0, 1), (1, 0, 0), (1, 1, 0), (1, 1, 1)],
            Side::Bottom => [(0, 0, 0), (1, 0, 1), (0, 0, 1), (1, 0, 1), (0, 0, 0), (1, 0, 0)],
            Side::Top => [(0, 1, 0), (1, 1, 1), (1, 1, 0), (0, 1, 0), (0, 1, 1), (1, 1, 1)],
        };
        assert(r@ =~= quad_corners(self));
        r
    }
}

/// In a grid whose samples all agree, every sample that a cell or its
/// neighbours look at has the value of the first.
proof fn lemma_uniform_sample(g: Seq<bool>, n: int, x: int, y: int, z: int)
    requires
        g.len() == cube(n),
        forall|i: int| 0 <= i < g.len() ==> #[trigger] g[i] == g[0],
        0 <= x < n,
        0 <= y < n,
        0 <= z < n,
    ensures
        inside_at(g, n, x, y, z) == g[0],
{
    lemma_index_bound(n, x, y, z);
    reveal(cube);
}

proof fn lemma_uniform_row(g: Seq<bool>, n: int, x: int, y: int, z: int)
    requires
        g.len() == cube(n),
        forall|i: int| 0 <= i < g.len() ==> #[trigger] g[i] == g[0],
        1 <= x < n - 1,
        1 <= y < n - 1,
        z <= n - 1,
    ensures
        row_faces(g, n, x, y, z).len() == 0,
    decreases z,
{
    if z > 1 {
        lemma_uniform_row(g, n, x, y, z - 1);
        let c = z - 1;
        lemma_uniform_sample(g, n, x, y, c);
        lemma_uniform_sample(g, n, x, y, c - 1);
        lemma_uniform_sample(g, n, x, y, c + 1);
        lemma_uniform_sample(g, n, x - 1, y, c);
        lemma_uniform_sample(g, n, x + 1, y, c);
        lemma_uniform_sample(g, n, x, y - 1, c);
        lemma_uniform_sample(g, n, x, y + 1, c);
        assert(cell_faces(g, n, x, y, c).len() == 0);
    }
}

proof fn lemma_uniform_plane(g: Seq<bool>, n: int, x: int, y: int)
    requires
        g.len() == cube(n),
        forall|i: int| 0 <= i < g.len() ==> #[trigger] g[i] == g[0],
        1 <= x < n - 1,
        y <= n - 1,
    ensures
        plane_faces(g, n, x, y).len() == 0,
    decreases y,
{
    if y > 1 {
        lemma_uniform_plane(g, n, x, y - 1);
        lemma_uniform_row(g, n, x, y - 1, n - 1);
    }
}

proof fn lemma_uniform_grid(g: Seq<bool>, n: int, x: int)
    requires
        g.len() == cube(n),
        forall|i: int| 0 <= i < g.len() ==> #[trigger] g[i] == g[0],
        x <= n - 1,
    ensures
        grid_faces(g, n, x).len() == 0,
    decreases x,
{
    if x > 1 {
        lemma_uniform_grid(g, n, x - 1);
        lemma_uniform_plane(g, n, x - 1, n - 1);
    }
}

/// A region where the field has the same sign at every sample, margin
/// included, yields no faces at all.
pub proof fn lemma_no_sign_change_no_faces(g: Seq<bool>, n: int)
    requires
        g.len() == cube(n),
        forall|i: int| 0 <= i < g.len() ==> #[trigger] g[i] == g[0],
    ensures
        boundary_faces_of(g, n).len() == 0,
{
    lemma_uniform_grid(g, n, n - 1);
}

} // verus!
