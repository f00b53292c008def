//! Node coordinates. A node's centre is kept as integers in units of
//! 2^-(MAX_LEVEL + 1) of the root cube's edge, so that every centre at every
//! level is exact and two centres compare equal exactly when they are the
//! same point.
use vstd::arithmetic::power2::{
    lemma2_to64, lemma_pow2_pos, lemma_pow2_strictly_increases, lemma_pow2_unfold, pow2,
};
use vstd::prelude::*;

verus! {

/// Deepest level a node can have.
pub const MAX_LEVEL: u32 = 30;

/// Centre of a node, in units of 2^-(MAX_LEVEL + 1) of the root edge; the
/// root cube spans [-0.5, 0.5] on each axis and is centred on (0, 0, 0).
#[derive(Clone, Copy, Debug, PartialEq, Eq, Structural)]
pub struct Origin {
    pub x: i64,
    pub y: i64,
    pub z: i64,
}

impl Origin {
    pub open spec fn coords(self) -> (int, int, int) {
        (self.x as int, self.y as int, self.z as int)
    }

    /// The centre of the root cube.
    pub fn zero() -> (r: Origin)
        ensures
            r.coords() == (0int, 0int, 0int),
    {
        Origin { x: 0, y: 0, z: 0 }
    }
}

/// Half the edge of a node at `level`, in origin units.
pub open spec fn half_edge(level: nat) -> int {
    pow2((MAX_LEVEL - level) as nat) as int
}

/// Direction of child `index` from its parent along x: children 0..3 lie on
/// the positive side.
pub open spec fn x_sign(index: u8) -> int {
    if index >= 4 { -1 } else { 1 }
}

/// Direction of child `index` from its parent along y.
pub open spec fn y_sign(index: u8) -> int {
    if (index / 2) % 2 == 1 { -1 } else { 1 }
}

/// Direction of child `index` from its parent along z.
pub open spec fn z_sign(index: u8) -> int {
    if index % 2 == 1 { -1 } else { 1 }
}

/// A path names a node: each step is a child index below eight, and no path
/// is deeper than `MAX_LEVEL`.
pub open spec fn valid_path(path: Seq<u8>) -> bool {
    &&& path.len() <= MAX_LEVEL
    &&& forall|i: int| 0 <= i < path.len() ==> path[i] < 8
}

/// Centre of the node that `path` leads to.
pub open spec fn origin_of(path: Seq<u8>) -> (int, int, int)
    decreases path.len(),
{
    if path.len() == 0 {
        (0, 0, 0)
    } else {
        let p = origin_of(path.drop_last());
        let d = half_edge(path.len());
        let i = path.last();
        (p.0 + x_sign(i) * d, p.1 + y_sign(i) * d, p.2 + z_sign(i) * d)
    }
}

/// Every centre on a valid path lies strictly inside the root cube.
pub proof fn lemma_origin_bounds(path: Seq<u8>)
    requires
        valid_path(path),
    ensures
        -(pow2(MAX_LEVEL as nat) - half_edge(path.len())) <= origin_of(path).0 <= pow2(
            MAX_LEVEL as nat,
        ) - half_edge(path.len()),
        -(pow2(MAX_LEVEL as nat) - half_edge(path.len())) <= origin_of(path).1 <= pow2(
            MAX_LEVEL as nat,
        ) - half_edge(path.len()),
        -(pow2(MAX_LEVEL as nat) - half_edge(path.len())) <= origin_of(path).2 <= pow2(
            MAX_LEVEL as nat,
        ) - half_edge(path.len()),
    decreases path.len(),
{
    if path.len() > 0 {
        let q = path.drop_last();
        assert(valid_path(q));
        lemma_origin_bounds(q);
        let e = (MAX_LEVEL - path.len()) as nat;
        lemma_pow2_unfold(e + 1);
        assert(half_edge(q.len()) == pow2(e + 1));
        lemma_pow2_pos(e);
        let d = half_edge(path.len());
        assert(d == pow2(e));
        let i = path.last();
        assert(x_sign(i) * d == d || x_sign(i) * d == -d);
        assert(y_sign(i) * d == d || y_sign(i) * d == -d);
        assert(z_sign(i) * d == d || z_sign(i) * d == -d);
    }
}

/// Bound on every centre coordinate, in origin units.
pub open spec fn in_cube(c: int) -> bool {
    -0x4000_0000 <= c <= 0x4000_0000
}

pub proof fn lemma_origin_in_cube(path: Seq<u8>)
    requires
        valid_path(path),
    ensures
        in_cube(origin_of(path).0),
        in_cube(origin_of(path).1),
        in_cube(origin_of(path).2),
{
    lemma_origin_bounds(path);
    lemma_pow2_pos((MAX_LEVEL - path.len()) as nat);
    lemma2_to64();
}

/// Half the edge of a node at `level`, in origin units.
pub fn half_edge_of(level: u32) -> (r: i64)
    requires
        level <= MAX_LEVEL,
    ensures
        r == half_edge(level as nat),
        0 < r <= 0x4000_0000,
{
    let mut r: i64 = 1;
    let mut k: u32 = 0;
    proof { lemma2_to64(); }
    while k < MAX_LEVEL - level
        invariant
            level <= MAX_LEVEL,
            k <= MAX_LEVEL - level,
            r == pow2(k as nat),
        decreases MAX_LEVEL - level - k,
    {
        proof {
            lemma_pow2_unfold((k + 1) as nat);
            lemma_pow2_strictly_increases(k as nat, MAX_LEVEL as nat);
            lemma2_to64();
        }
        r = r * 2;
        k = k + 1;
    }
    proof {
        lemma_pow2_pos(k as nat);
        if k < MAX_LEVEL {
            lemma_pow2_strictly_increases(k as nat, MAX_LEVEL as nat);
        }
        lemma2_to64();
    }
    r
}

/// Centre of child `index` of the node at `level` whose centre is `origin`.
pub fn child_origin(origin: Origin, level: u32, index: u8) -> (r: Origin)
    requires
        level < MAX_LEVEL,
        index < 8,
        in_cube(origin.x as int),
        in_cube(origin.y as int),
        in_cube(origin.z as int),
    ensures
        r.x == origin.x + x_sign(index) * half_edge((level + 1) as nat),
        r.y == origin.y + y_sign(index) * half_edge((level + 1) as nat),
        r.z == origin.z + z_sign(index) * half_edge((level + 1) as nat),
{
    let d = half_edge_of(level + 1);
    let x = if index >= 4 { origin.x - d } else { origin.x + d };
    let y = if (index / 2) % 2 == 1 { origin.y - d } else { origin.y + d };
    let z = if index % 2 == 1 { origin.z - d } else { origin.z + d };
    Origin { x, y, z }
}

} // verus!
