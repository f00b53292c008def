//! The octree: which regions exist, the requests that creating and removing
//! them issue to the worker, the installation of finished meshes by path, and
//! the traversals that drive subdivision and drawing.
use crate::space::{
    child_origin, in_cube, lemma_origin_in_cube, origin_of, valid_path, Origin, MAX_LEVEL,
};
use crate::worker::{Result, Task, TaskAction};
use vstd::prelude::*;

verus! {

/// A cubic region. `geometry` is its mesh once the worker has delivered it;
/// `children` holds all eight octants or none.
pub struct OctreeNode<G> {
    pub geometry: Option<G>,
    pub children: Option<Vec<OctreeNode<G>>>,
}

/// The scheduling context threaded through every traversal: the requests
/// issued and not yet handed to the worker, oldest first.
pub struct OctreeInfo {
    pub tasks: Vec<Task>,
}

/// `t` asks for `action` on the node that `path` names, with that node's
/// level and centre.
pub open spec fn is_task_for(t: Task, action: TaskAction, path: Seq<u8>) -> bool {
    &&& t.action == action
    &&& t.path@ == path
    &&& t.level == path.len()
    &&& t.origin().coords() == origin_of(path)
}

/// Every request in `s` carries the level and centre of the node its path
/// names.
pub open spec fn tasks_wf(s: Seq<Task>) -> bool {
    forall|j: int| 0 <= j < s.len() ==> (#[trigger] s[j]).wf()
}

/// A request for a child of a node at a valid path, as `is_task_for` describes
/// it, is well formed.
proof fn lemma_child_task_wf(t: Task, action: TaskAction, path: Seq<u8>, i: u8)
    requires
        valid_path(path),
        path.len() < MAX_LEVEL,
        i < 8,
        is_task_for(t, action, path.push(i)),
    ensures
        t.wf(),
{
    assert forall|k: int| 0 <= k < path.push(i).len() implies path.push(i)[k] < 8 by {
        if k < path.len() {
            assert(path.push(i)[k] == path[k]);
        }
    }
}

/// Appending a batch for children listed in `idx`, all below eight, keeps
/// every request in agreement with its path.
proof fn lemma_batch_wf(t0: Seq<Task>, t1: Seq<Task>, action: TaskAction, path: Seq<u8>, idx: Seq<u8>)
    requires
        valid_path(path),
        path.len() < MAX_LEVEL,
        forall|m: int| 0 <= m < idx.len() ==> #[trigger] idx[m] < 8,
        appends_batch(t0, t1, action, path, idx),
        tasks_wf(t0),
    ensures
        tasks_wf(t1),
{
    assert forall|j: int| 0 <= j < t1.len() implies (#[trigger] t1[j]).wf() by {
        if j < t0.len() {
            assert(t1[j] == t1.subrange(0, t0.len() as int)[j]);
        } else {
            let m = j - t0.len();
            assert(t1[t0.len() + m] == t1[j]);
            lemma_child_task_wf(t1[j], action, path, idx[m]);
        }
    }
}

/// The indices that `unmeshed` lists are child indices.
proof fn lemma_unmeshed_below<G>(c: Seq<OctreeNode<G>>, k: int)
    requires
        k <= 8,
    ensures
        forall|m: int| 0 <= m < unmeshed(c, k).len() ==> #[trigger] unmeshed(c, k)[m] < 8,
    decreases k,
{
    if k > 0 {
        lemma_unmeshed_below(c, k - 1);
        let r = unmeshed(c, k - 1);
        assert forall|m: int| 0 <= m < unmeshed(c, k).len() implies #[trigger] unmeshed(c, k)[m]
            < 8 by {
            if m < r.len() {
                assert(unmeshed(c, k)[m] == r[m]);
            }
        }
    }
}

/// Indices, in increasing order, of the first `k` children that have no mesh.
pub open spec fn unmeshed<G>(c: Seq<OctreeNode<G>>, k: int) -> Seq<u8>
    decreases k,
{
    if k <= 0 {
        Seq::empty()
    } else if c[k - 1].geometry is None {
        unmeshed(c, k - 1).push((k - 1) as u8)
    } else {
        unmeshed(c, k - 1)
    }
}

/// `t1` is `t0` followed by a request for `action` on each child of `path`
/// listed in `idx`, in that order.
pub open spec fn appends_batch(
    t0: Seq<Task>,
    t1: Seq<Task>,
    action: TaskAction,
    path: Seq<u8>,
    idx: Seq<u8>,
) -> bool {
    &&& t1.len() == t0.len() + idx.len()
    &&& t1.subrange(0, t0.len() as int) == t0
    &&& forall|m: int|
        0 <= m < idx.len() ==> is_task_for(#[trigger] t1[t0.len() + m], action, path.push(idx[m]))
}

/// The child indices 0 to 7, in order.
pub open spec fn all_children() -> Seq<u8> {
    seq![0u8, 1u8, 2u8, 3u8, 4u8, 5u8, 6u8, 7u8]
}

/// The tree `m` after a mesh `g` is installed at `path`: the node's mesh is
/// replaced, and a path that names no node changes nothing.
pub open spec fn installed<G>(m: Map<Seq<u8>, Option<G>>, path: Seq<u8>, g: G) -> Map<
    Seq<u8>,
    Option<G>,
> {
    if m.contains_key(path) {
        m.insert(path, Some(g))
    } else {
        m
    }
}

/// Where the draw pass puts a node: its path, level and centre.
pub struct Placement {
    pub path: Vec<u8>,
    pub level: u32,
    pub origin: Origin,
}

impl Placement {
    /// The level and the centre are those of the node that the path names.
    pub open spec fn wf(self) -> bool {
        &&& valid_path(self.path@)
        &&& self.path@.len() == self.level
        &&& self.origin.coords() == origin_of(self.path@)
    }
}

/// The paths of `s`, each with the child index `i` put in front.
pub open spec fn prefixed(i: u8, s: Seq<Seq<u8>>) -> Seq<Seq<u8>> {
    s.map_values(|q: Seq<u8>| seq![i] + q)
}

/// The paths of a list of placements.
pub open spec fn paths_of(s: Seq<Placement>) -> Seq<Seq<u8>> {
    s.map_values(|p: Placement| p.path@)
}

impl<G> View for OctreeNode<G> {
    type V = Map<Seq<u8>, Option<G>>;

    /// The tree as a map from the path of each node to that node's mesh.
    open spec fn view(&self) -> Map<Seq<u8>, Option<G>> {
        Map::new(|p: Seq<u8>| self.has(p), |p: Seq<u8>| self.geometry_at(p))
    }
}

impl<G> OctreeNode<G> {
    /// Children are all-or-nothing, at every depth.
    pub open spec fn wf(self) -> bool
        decreases self,
    {
        match self.children {
            None => true,
            Some(c) => c.len() == 8 && forall|i: int| 0 <= i < 8 ==> (#[trigger] c@[i]).wf(),
        }
    }

    /// `p` leads from this node to a node below it (or to itself, if empty).
    pub open spec fn has(self, p: Seq<u8>) -> bool
        decreases p.len(),
    {
        if p.len() == 0 {
            true
        } else {
            match self.children {
                Some(c) => p[0] < c.len() && c@[p[0] as int].has(p.drop_first()),
                None => false,
            }
        }
    }

    /// The node that `p` leads to from this one.
    pub open spec fn subtree(self, p: Seq<u8>) -> Option<OctreeNode<G>>
        decreases p.len(),
    {
        if p.len() == 0 {
            Some(self)
        } else {
            match self.children {
                Some(c) => if p[0] < c.len() {
                    c@[p[0] as int].subtree(p.drop_first())
                } else {
                    None
                },
                None => None,
            }
        }
    }

    /// The mesh of the node that `p` leads to.
    pub open spec fn geometry_at(self, p: Seq<u8>) -> Option<G>
        decreases p.len(),
    {
        if p.len() == 0 {
            self.geometry
        } else {
            match self.children {
                Some(c) => if p[0] < c.len() {
                    c@[p[0] as int].geometry_at(p.drop_first())
                } else {
                    None
                },
                None => None,
            }
        }
    }

    /// The node still has to be drawn: it is a leaf, or one of its children
    /// has no mesh yet and this node's mesh stands in for it.
    pub open spec fn needs_draw(self) -> bool {
        match self.children {
            None => true,
            Some(c) => exists|i: int| 0 <= i < c.len() && (#[trigger] c@[i]).geometry is None,
        }
    }

    /// The paths of the nodes to draw, in the order the draw pass visits them:
    /// the subtrees of children `k` to 7 in child order, then this node, which
    /// `path` names. Nothing deeper than `MAX_LEVEL` is visited.
    pub open spec fn draw_from(self, path: Seq<u8>, k: int) -> Seq<Seq<u8>>
        decreases self, 8 - k,
    {
        match self.children {
            Some(c) => if c.len() == 8 && 0 <= k < 8 && path.len() < MAX_LEVEL {
                c@[k].draw_from(path.push(k as u8), 0) + self.draw_from(path, k + 1)
            } else if self.needs_draw() {
                seq![path]
            } else {
                Seq::empty()
            },
            None => seq![path],
        }
    }

    /// The paths, relative to this node, of the nodes that a walk visits, in
    /// visiting order: the subtrees of children `k` to 7 in child order, then
    /// this node. `room` is how many levels the walk may still descend.
    pub open spec fn visit_order(self, room: int, k: int) -> Seq<Seq<u8>>
        decreases self, 8 - k,
    {
        match self.children {
            Some(c) => if c.len() == 8 && 0 <= k < 8 && room > 0 {
                prefixed(k as u8, c@[k].visit_order(room - 1, 0)) + self.visit_order(room, k + 1)
            } else {
                seq![Seq::empty()]
            },
            None => seq![Seq::empty()],
        }
    }

    /// `n` is the node `m` as a walk hands it over: it exists, with the same
    /// mesh, and with children exactly where `m` has them.
    pub open spec fn stands_for(n: OctreeNode<G>, m: Option<OctreeNode<G>>) -> bool {
        match m {
            Some(m) => n.geometry == m.geometry && (n.children is Some <==> m.children is Some),
            None => false,
        }
    }

    /// The arguments handed to a visitor for the node that `q` leads to from
    /// the node at `base`: the full path, its length as level, and the
    /// centre that path names.
    pub open spec fn visit_args(p: Seq<u8>, l: u32, o: Origin, base: Seq<u8>, q: Seq<u8>) -> bool {
        &&& p == base + q
        &&& l == (base + q).len()
        &&& o.coords() == origin_of(base + q)
    }

    /// A visit below child `k`, seen from the child, is a visit seen from this
    /// node with `k` put in front of the path.
    proof fn lemma_visited_child<F: Fn(&mut OctreeNode<G>, &mut OctreeInfo, &Vec<u8>, u32, Origin)>(
        visitor: &F,
        root: OctreeNode<G>,
        base: Seq<u8>,
        k: u8,
        q: Seq<u8>,
        a: OctreeInfo,
        b: OctreeInfo,
    )
        requires
            root.children matches Some(c) && k < c.len(),
            exists|n: &mut OctreeNode<G>, i: &mut OctreeInfo, p: &Vec<u8>, l: u32, o: Origin|
                #[trigger] visitor.ensures((n, i, p, l, o), ()) && *i == a && *final(i) == b
                    && Self::visit_args(p@, l, o, base.push(k), q) && Self::stands_for(
                    *n,
                    root.children.unwrap()@[k as int].subtree(q),
                ),
        ensures
            exists|n: &mut OctreeNode<G>, i: &mut OctreeInfo, p: &Vec<u8>, l: u32, o: Origin|
                #[trigger] visitor.ensures((n, i, p, l, o), ()) && *i == a && *final(i) == b
                    && Self::visit_args(p@, l, o, base, seq![k] + q) && Self::stands_for(
                    *n,
                    root.subtree(seq![k] + q),
                ),
    {
        let c = root.children.unwrap();
        let q2 = seq![k] + q;
        assert(q2.drop_first() =~= q);
        assert(q2[0] == k);
        assert(base.push(k) + q =~= base + q2);
        assert(root.subtree(q2) == c@[k as int].subtree(q));
        let (n, i, p, l, o) = choose|
            n: &mut OctreeNode<G>,
            i: &mut OctreeInfo,
            p: &Vec<u8>,
            l: u32,
            o: Origin,
        |
            #[trigger] visitor.ensures((n, i, p, l, o), ()) && *i == a && *final(i) == b
                && Self::visit_args(p@, l, o, base.push(k), q) && Self::stands_for(
                *n,
                c@[k as int].subtree(q),
            );
        assert(visitor.ensures((n, i, p, l, o), ()));
    }

    /// A node with neither mesh nor children, as a child is created.
    pub open spec fn is_fresh(self) -> bool {
        self.geometry is None && self.children is None
    }

    /// What `create_children` does to the node at `path` and to the queue of
    /// issued requests.
    pub open spec fn creates(
        n0: OctreeNode<G>,
        t0: Seq<Task>,
        n1: OctreeNode<G>,
        t1: Seq<Task>,
        path: Seq<u8>,
    ) -> bool {
        if n0.children is Some {
            n1 == n0 && t1 == t0
        } else {
            &&& n1.geometry == n0.geometry
            &&& n1.children matches Some(c) && c.len() == 8 && forall|i: int|
                0 <= i < 8 ==> (#[trigger] c@[i]).is_fresh()
            &&& appends_batch(t0, t1, TaskAction::Generate, path, all_children())
        }
    }

    /// What `destroy_children` does to the node at `path` and to the queue of
    /// issued requests.
    pub open spec fn destroys(
        n0: OctreeNode<G>,
        t0: Seq<Task>,
        n1: OctreeNode<G>,
        t1: Seq<Task>,
        path: Seq<u8>,
    ) -> bool {
        &&& n1.geometry == n0.geometry
        &&& n1.children is None
        &&& match n0.children {
            None => t1 == t0,
            Some(c) => appends_batch(t0, t1, TaskAction::Cancel, path, unmeshed(c@, c@.len() as int)),
        }
    }

    /// A node with neither mesh nor children, to stand at `path`, whose
    /// level and centre are `level` and `origin`. Its generation is issued:
    /// exactly one request, appended after those already issued.
    pub fn new(info: &mut OctreeInfo, path: &Vec<u8>, level: u32, origin: Origin) -> (r: OctreeNode<
        G,
    >)
        requires
            valid_path(path@),
            path@.len() == level,
            origin.coords() == origin_of(path@),
        ensures
            r.is_fresh(),
            r.wf(),
            final(info).tasks@.len() == old(info).tasks@.len() + 1,
            final(info).tasks@.subrange(0, old(info).tasks@.len() as int) == old(info).tasks@,
            is_task_for(final(info).tasks@.last(), TaskAction::Generate, path@),
            tasks_wf(old(info).tasks@) ==> tasks_wf(final(info).tasks@),
    {
        let p = path.clone();
        assert(p@ =~= path@);
        let ghost before = info.tasks@;
        info.tasks.push(
            Task {
                action: TaskAction::Generate,
                x: origin.x,
                y: origin.y,
                z: origin.z,
                level,
                path: p,
            },
        );
        proof {
            assert(info.tasks@.subrange(0, before.len() as int) =~= before);
            if tasks_wf(before) {
                assert forall|j: int| 0 <= j < info.tasks@.len() implies (
                #[trigger] info.tasks@[j]).wf() by {
                    if j < before.len() {
                        assert(info.tasks@[j] == before[j]);
                    }
                }
            }
        }
        OctreeNode { geometry: None, children: None }
    }

    /// Gives the node its eight children, one level deeper, each centred on
    /// its octant, and issues a generation for each, in child order. A node
    /// that has children already is left as it is.
    pub fn create_children(
        &mut self,
        info: &mut OctreeInfo,
        path: &Vec<u8>,
        level: u32,
        origin: Origin,
    )
        requires
            valid_path(path@),
            path@.len() == level,
            level < MAX_LEVEL,
            origin.coords() == origin_of(path@),
        ensures
            Self::creates(*old(self), old(info).tasks@, *final(self), final(info).tasks@, path@),
            old(self).wf() ==> final(self).wf(),
            tasks_wf(old(info).tasks@) ==> tasks_wf(final(info).tasks@),
    {
        if self.children.is_none() {
            proof {
                lemma_origin_in_cube(path@);
            }
            let ghost t0 = info.tasks@;
            let mut c: Vec<OctreeNode<G>> = Vec::new();
            let mut i: u8 = 0;
            while i < 8
                invariant
                    valid_path(path@),
                    path@.len() == level,
                    level < MAX_LEVEL,
                    origin.coords() == origin_of(path@),
                    in_cube(origin.x as int),
                    in_cube(origin.y as int),
                    in_cube(origin.z as int),
                    i <= 8,
                    c.len() == i,
                    forall|j: int| 0 <= j < i ==> (#[trigger] c@[j]).is_fresh(),
                    info.tasks@.len() == t0.len() + i,
                    info.tasks@.subrange(0, t0.len() as int) == t0,
                    forall|m: int|
                        0 <= m < i ==> is_task_for(
                            #[trigger] info.tasks@[t0.len() + m],
                            TaskAction::Generate,
                            path@.push(all_children()[m]),
                        ),
                decreases 8 - i,
            {
                let mut p = path.clone();
                assert(p@ =~= path@);
                p.push(i);
                let o = child_origin(origin, level, i);
                proof {
                    assert(p@.drop_last() =~= path@);
                    assert(all_children()[i as int] == i);
                }
                proof {
                    assert forall|k: int| 0 <= k < p@.len() implies p@[k] < 8 by {
                        if k < path@.len() {
                            assert(p@[k] == path@[k]);
                        }
                    }
                }
                let ghost before = info.tasks@;
                let node = OctreeNode::new(info, &p, level + 1, o);
                proof {
                    assert(info.tasks@[t0.len() + i] == info.tasks@.last());
                    assert(info.tasks@.subrange(0, t0.len() as int) =~= info.tasks@.subrange(
                        0,
                        before.len() as int,
                    ).subrange(0, t0.len() as int));
                    assert forall|m: int| 0 <= m < i + 1 implies is_task_for(
                        #[trigger] info.tasks@[t0.len() + m],
                        TaskAction::Generate,
                        path@.push(all_children()[m]),
                    ) by {
                        if m < i {
                            assert(info.tasks@[t0.len() + m] == info.tasks@.subrange(
                                0,
                                before.len() as int,
                            )[t0.len() + m]);
                        }
                    }
                }
                c.push(node);
                i = i + 1;
            }
            self.children = Some(c);
            proof {
                if tasks_wf(t0) {
                    lemma_batch_wf(t0, info.tasks@, TaskAction::Generate, path@, all_children());
                }
                assert forall|j: int| 0 <= j < 8 implies (#[trigger] c@[j]).wf() by {
                    assert(c@[j].is_fresh());
                }
            }
        }
    }

    /// Installs `geometry` as the mesh of the node that `path[level..]` leads
    /// to from this one. A path that no longer leads to a node (its subtree
    /// was removed after the request was issued) changes nothing.
    pub fn update(&mut self, path: &Vec<u8>, level: usize, geometry: G)
        requires
            level <= path.len(),
        ensures
            final(self)@ == installed(
                old(self)@,
                path@.subrange(level as int, path@.len() as int),
                geometry,
            ),
            final(self).children is Some <==> old(self).children is Some,
            old(self).wf() ==> final(self).wf(),
        decreases path.len() - level,
    {
        let ghost n0 = *self;
        let ghost rest = path@.subrange(level as int, path@.len() as int);
        if level == path.len() {
            self.geometry = Some(geometry);
            proof {
                assert(rest =~= Seq::<u8>::empty());
                assert forall|p: Seq<u8>| #[trigger] self.has(p) == n0.has(p) by {}
                assert forall|p: Seq<u8>| self.has(p) implies #[trigger] self.geometry_at(p)
                    == installed(n0@, rest, geometry)[p] by {
                    if p.len() > 0 {
                        assert(p != rest);
                    } else {
                        assert(p =~= rest);
                    }
                }
                assert(self@ =~= installed(n0@, rest, geometry));
            }
        } else {
            let i = path[level] as usize;
            let ghost rest1 = path@.subrange(level + 1, path@.len() as int);
            match &mut self.children {
                Some(c) => {
                    if i < c.len() {
                        c[i].update(path, level + 1, geometry);
                    }
                },
                None => {},
            }
            proof {
                assert(rest.drop_first() =~= rest1);
                assert(rest[0] == i);
                if n0.children is Some && i < n0.children.unwrap().len() {
                    let c0 = n0.children.unwrap();
                    let c1 = self.children.unwrap();
                    assert forall|p: Seq<u8>| #[trigger] self.has(p) == n0.has(p) by {
                        if p.len() > 0 && p[0] == i {
                            assert(c1@[i as int]@.contains_key(p.drop_first())
                                == c0@[i as int]@.contains_key(p.drop_first()));
                        }
                    }
                    assert forall|p: Seq<u8>| self.has(p) implies #[trigger] self.geometry_at(p)
                        == installed(n0@, rest, geometry)[p] by {
                        if p.len() > 0 && p[0] == i {
                            let q = p.drop_first();
                            assert(c1@[i as int]@.contains_key(q));
                            assert(c1@[i as int]@[q] == installed(c0@[i as int]@, rest1, geometry)[q]);
                            if q == rest1 {
                                assert forall|k: int| 0 <= k < p.len() implies p[k] == rest[k] by {
                                    if k > 0 {
                                        assert(p[k] == q[k - 1]);
                                        assert(rest[k] == rest1[k - 1]);
                                    }
                                }
                                assert(p =~= rest);
                            } else {
                                assert(p != rest);
                            }
                        } else if p.len() > 0 {
                            assert(p[0] != rest[0]);
                        } else {
                            assert(p.len() != rest.len());
                        }
                    }
                    assert(self@ =~= installed(n0@, rest, geometry));
                    if n0.wf() {
                        assert forall|j: int| 0 <= j < 8 implies (#[trigger] c1@[j]).wf() by {
                            if j != i {
                                assert(c1@[j] == c0@[j]);
                            }
                        }
                    }
                } else {
                    assert(!n0.has(rest));
                    assert(self@ =~= n0@);
                }
            }
        }
    }

    /// Depth-first traversal of the subtree of this node, which `path` names:
    /// the children's subtrees in child order, then `visitor` on the node
    /// itself. The path grows by a child index before each descent and
    /// shrinks after it; the visitor is only ever handed a path, level and
    /// centre that agree, and may create or remove the node's children.
    ///
    /// The nodes are visited in `visit_order`. What comes back is the
    /// scheduling context before each visit and after the last, and the
    /// visits are chained: the visitor's call on the `j`-th node of
    /// `visit_order` takes the context from the `j`-th state to the next, so
    /// the visitor runs once per node, in that order, and nothing else
    /// touches the context.
    pub fn walk<F>(
        &mut self,
        info: &mut OctreeInfo,
        visitor: &F,
        path: &mut Vec<u8>,
        level: u32,
        origin: Origin,
    ) -> (states: Ghost<Seq<OctreeInfo>>) where
        F: Fn(&mut OctreeNode<G>, &mut OctreeInfo, &Vec<u8>, u32, Origin),
        requires
            valid_path(old(path)@),
            old(path)@.len() == level,
            origin.coords() == origin_of(old(path)@),
            forall|n: &mut OctreeNode<G>, i: &mut OctreeInfo, p: &Vec<u8>, l: u32, o: Origin|
                valid_path(p@) && p@.len() == l && o.coords() == origin_of(p@)
                    ==> #[trigger] visitor.requires((n, i, p, l, o)),
        ensures
            final(path)@ == old(path)@,
            states@.len() == old(self).visit_order(MAX_LEVEL - level, 0).len() + 1,
            states@[0] == *old(info),
            states@.last() == *final(info),
            forall|j: int|
                #![trigger states@[j]]
                0 <= j < states@.len() - 1 ==> exists|
                    n: &mut OctreeNode<G>,
                    i: &mut OctreeInfo,
                    p: &Vec<u8>,
                    l: u32,
                    o: Origin,
                |
                    #[trigger] visitor.ensures((n, i, p, l, o), ()) && *i == states@[j]
                        && *final(i) == states@[j + 1] && Self::visit_args(
                        p@,
                        l,
                        o,
                        old(path)@,
                        old(self).visit_order(MAX_LEVEL - level, 0)[j],
                    ) && Self::stands_for(
                        *n,
                        old(self).subtree(old(self).visit_order(MAX_LEVEL - level, 0)[j]),
                    ),
        decreases MAX_LEVEL - level,
    {
        let ghost n0 = *self;
        let ghost path0 = path@;
        let ghost room = MAX_LEVEL - level;
        let ghost mut log: Seq<Seq<u8>> = Seq::empty();
        let ghost mut states: Seq<OctreeInfo> = seq![*info];
        if level < MAX_LEVEL {
            proof {
                lemma_origin_in_cube(path@);
            }
            match &mut self.children {
                Some(c) => {
                    if c.len() == 8 {
                        let ghost c0 = *c;
                        let mut k: u8 = 0;
                        while k < 8
                            invariant
                                path@ == path0,
                                valid_path(path0),
                                path0.len() == level,
                                level < MAX_LEVEL,
                                room == MAX_LEVEL - level,
                                origin.coords() == origin_of(path0),
                                in_cube(origin.x as int),
                                in_cube(origin.y as int),
                                in_cube(origin.z as int),
                                c.len() == 8,
                                n0.children == Some(c0),
                                c0.len() == 8,
                                k <= 8,
                                forall|j: int| k <= j < 8 ==> #[trigger] c@[j] == c0@[j],
                                log + n0.visit_order(room, k as int) == n0.visit_order(room, 0),
                                states.len() == log.len() + 1,
                                states[0] == *old(info),
                                states.last() == *info,
                                forall|j: int|
                                    #![trigger states[j]] 0 <= j < log.len() ==> exists|
                                        n: &mut OctreeNode<G>,
                                        i: &mut OctreeInfo,
                                        p: &Vec<u8>,
                                        l: u32,
                                        o: Origin,
                                    |
                                        #[trigger] visitor.ensures((n, i, p, l, o), ()) && *i
                                            == states[j] && *final(i) == states[j + 1]
                                            && Self::visit_args(p@, l, o, path0, log[j])
                                            && Self::stands_for(*n, n0.subtree(log[j])),
                                forall|n: &mut OctreeNode<G>, i: &mut OctreeInfo, p: &Vec<u8>, l: u32, o: Origin|
                                    valid_path(p@) && p@.len() == l && o.coords() == origin_of(p@)
                                        ==> #[trigger] visitor.requires((n, i, p, l, o)),
                            decreases 8 - k,
                        {
                            let o = child_origin(origin, level, k);
                            path.push(k);
                            proof {
                                assert(path@.drop_last() =~= path0);
                            }
                            let ghost ck = c@[k as int];
                            let sub = c[k as usize].walk(info, visitor, path, level + 1, o);
                            path.pop();
                            proof {
                                assert(path@ =~= path0);
                                let sv = ck.visit_order(MAX_LEVEL - (level + 1), 0);
                                let ss = sub@;
                                assert(ck == c0@[k as int]);
                                let pre = prefixed(k, sv);
                                let old_log = log;
                                let old_states = states;
                                assert(n0.visit_order(room, k as int) == pre + n0.visit_order(
                                    room,
                                    k + 1,
                                ));
                                log = log + pre;
                                states = states + ss.drop_first();
                                assert(log + n0.visit_order(room, k + 1) =~= old_log + n0.visit_order(
                                    room,
                                    k as int,
                                ));
                                assert(states.last() == ss.last());
                                assert forall|j: int| #![trigger states[j]] 0 <= j < log.len() implies exists|
                                    n: &mut OctreeNode<G>,
                                    i: &mut OctreeInfo,
                                    p: &Vec<u8>,
                                    l: u32,
                                    o: Origin,
                                |
                                    #[trigger] visitor.ensures((n, i, p, l, o), ()) && *i
                                        == states[j] && *final(i) == states[j + 1]
                                        && Self::visit_args(p@, l, o, path0, log[j])
                                        && Self::stands_for(*n, n0.subtree(log[j])) by {
                                    if j < old_log.len() {
                                        assert(log[j] == old_log[j]);
                                        assert(states[j] == old_states[j]);
                                        assert(states[j + 1] == old_states[j + 1]);
                                        let (n, i, p, l, o) = choose|
                                            n: &mut OctreeNode<G>,
                                            i: &mut OctreeInfo,
                                            p: &Vec<u8>,
                                            l: u32,
                                            o: Origin,
                                        |
                                            #[trigger] visitor.ensures((n, i, p, l, o), ()) && *i
                                                == old_states[j] && *final(i) == old_states[j + 1]
                                                && Self::visit_args(p@, l, o, path0, old_log[j])
                                                && Self::stands_for(*n, n0.subtree(old_log[j]));
                                        assert(visitor.ensures((n, i, p, l, o), ()));
                                    } else {
                                        let t = j - old_log.len();
                                        assert(log[j] == pre[t]);
                                        assert(pre[t] == seq![k] + sv[t]);
                                        assert(states[j] == ss[t]);
                                        assert(states[j + 1] == ss[t + 1]);
                                        let (n, i, p, l, o) = choose|
                                            n: &mut OctreeNode<G>,
                                            i: &mut OctreeInfo,
                                            p: &Vec<u8>,
                                            l: u32,
                                            o: Origin,
                                        |
                                            #[trigger] visitor.ensures((n, i, p, l, o), ()) && *i
                                                == ss[t] && *final(i) == ss[t + 1]
                                                && Self::visit_args(p@, l, o, path0.push(k), sv[t])
                                                && Self::stands_for(*n, c0@[k as int].subtree(sv[t]));
                                        assert(visitor.ensures((n, i, p, l, o), ()));
                                        Self::lemma_visited_child(
                                            visitor,
                                            n0,
                                            path0,
                                            k,
                                            sv[t],
                                            ss[t],
                                            ss[t + 1],
                                        );
                                    }
                                }
                            }
                            k = k + 1;
                        }
                        proof {
                            assert(n0.visit_order(room, 8) == seq![Seq::<u8>::empty()]);
                            assert(log + seq![Seq::<u8>::empty()] =~= n0.visit_order(room, 0));
                        }
                    } else {
                        proof {
                            assert(n0.children == Some(*c));
                            assert(log + seq![Seq::<u8>::empty()] =~= n0.visit_order(room, 0));
                        }
                    }
                },
                None => {
                    proof {
                        assert(log + seq![Seq::<u8>::empty()] =~= n0.visit_order(room, 0));
                    }
                },
            }
        } else {
            proof {
                assert(log + seq![Seq::<u8>::empty()] =~= n0.visit_order(room, 0));
            }
        }
        proof {
            assert(self.geometry == n0.geometry);
            assert(self.children is Some <==> n0.children is Some);
            assert(n0.subtree(Seq::empty()) == Some(n0));
            assert(path0 + Seq::<u8>::empty() =~= path0);
        }
        visitor(self, info, path, level, origin);
        proof {
            let old_log = log;
            let old_states = states;
            log = log.push(Seq::empty());
            states = states.push(*info);
            assert(log =~= old_log + seq![Seq::<u8>::empty()]);
            assert forall|j: int| #![trigger states[j]] 0 <= j < log.len() implies exists|
                n: &mut OctreeNode<G>,
                i: &mut OctreeInfo,
                p: &Vec<u8>,
                l: u32,
                o: Origin,
            |
                #[trigger] visitor.ensures((n, i, p, l, o), ()) && *i == states[j] && *final(i)
                    == states[j + 1] && Self::visit_args(p@, l, o, path0, log[j])
                    && Self::stands_for(*n, n0.subtree(log[j])) by {
                if j < old_log.len() {
                    assert(log[j] == old_log[j]);
                    assert(states[j] == old_states[j]);
                    assert(states[j + 1] == old_states[j + 1]);
                    let (n, i, p, l, o) = choose|
                        n: &mut OctreeNode<G>,
                        i: &mut OctreeInfo,
                        p: &Vec<u8>,
                        l: u32,
                        o: Origin,
                    |
                        #[trigger] visitor.ensures((n, i, p, l, o), ()) && *i == old_states[j]
                            && *final(i) == old_states[j + 1] && Self::visit_args(
                            p@,
                            l,
                            o,
                            path0,
                            old_log[j],
                        ) && Self::stands_for(*n, n0.subtree(old_log[j]));
                    assert(visitor.ensures((n, i, p, l, o), ()));
                }
            }
        }
        proof {
            assert(log == n0.visit_order(room, 0));
        }
        Ghost(states)
    }

    /// Whether the node still has to be drawn.
    pub fn should_draw(&self) -> (r: bool)
        ensures
            r == self.needs_draw(),
    {
        match &self.children {
            None => true,
            Some(c) => {
                let mut i: usize = 0;
                while i < c.len()
                    invariant
                        self.children == Some(*c),
                        i <= c.len(),
                        forall|j: int| 0 <= j < i ==> (#[trigger] c@[j]).geometry is Some,
                    decreases c.len() - i,
                {
                    if c[i].geometry.is_none() {
                        proof {
                            assert(c@[i as int].geometry is None);
                        }
                        return true;
                    }
                    i = i + 1;
                }
                false
            },
        }
    }

    /// Appends to `out` where to draw each node of this subtree that still
    /// has to be drawn, in traversal order.
    fn draw_into(&self, path: &mut Vec<u8>, level: u32, origin: Origin, out: &mut Vec<Placement>)
        requires
            valid_path(old(path)@),
            old(path)@.len() == level,
            origin.coords() == origin_of(old(path)@),
        ensures
            final(path)@ == old(path)@,
            paths_of(final(out)@) == paths_of(old(out)@) + self.draw_from(old(path)@, 0),
            final(out)@.subrange(0, old(out)@.len() as int) == old(out)@,
            forall|j: int|
                old(out)@.len() <= j < final(out)@.len() ==> (#[trigger] final(out)@[j]).wf(),
        decreases MAX_LEVEL - level,
    {
        let ghost path0 = path@;
        let ghost out0 = out@;
        if level < MAX_LEVEL {
            proof {
                lemma_origin_in_cube(path@);
            }
            match &self.children {
                Some(c) => {
                    if c.len() == 8 {
                        let mut k: u8 = 0;
                        while k < 8
                            invariant
                                path@ == path0,
                                valid_path(path0),
                                path0.len() == level,
                                level < MAX_LEVEL,
                                origin.coords() == origin_of(path0),
                                in_cube(origin.x as int),
                                in_cube(origin.y as int),
                                in_cube(origin.z as int),
                                self.children == Some(*c),
                                c.len() == 8,
                                k <= 8,
                                paths_of(out@) + self.draw_from(path0, k as int) == paths_of(out0)
                                    + self.draw_from(path0, 0),
                                out0.len() <= out@.len(),
                                out@.subrange(0, out0.len() as int) == out0,
                                forall|j: int|
                                    out0.len() <= j < out@.len() ==> (#[trigger] out@[j]).wf(),
                            decreases 8 - k,
                        {
                            let o = child_origin(origin, level, k);
                            path.push(k);
                            proof {
                                assert(path@.drop_last() =~= path0);
                            }
                            let ghost out1 = out@;
                            c[k as usize].draw_into(path, level + 1, o, out);
                            path.pop();
                            proof {
                                assert(path@ =~= path0);
                                let a = c@[k as int].draw_from(path0.push(k), 0);
                                assert(self.draw_from(path0, k as int) == a + self.draw_from(
                                    path0,
                                    k + 1,
                                ));
                                assert(paths_of(out@) + self.draw_from(path0, k + 1) =~= paths_of(
                                    out1,
                                ) + self.draw_from(path0, k as int));
                                assert(out@.subrange(0, out0.len() as int) =~= out@.subrange(
                                    0,
                                    out1.len() as int,
                                ).subrange(0, out0.len() as int));
                                assert forall|j: int|
                                    out0.len() <= j < out@.len() implies (#[trigger] out@[j]).wf() by {
                                    if j < out1.len() {
                                        assert(out@[j] == out@.subrange(0, out1.len() as int)[j]);
                                    }
                                }
                            }
                            k = k + 1;
                        }
                    }
                },
                None => {},
            }
        }
        let ghost out2 = out@;
        if self.should_draw() {
            let p = path.clone();
            assert(p@ =~= path@);
            out.push(Placement { path: p, level, origin });
        }
        proof {
            assert(self.draw_from(path0, 8) =~= if self.needs_draw() {
                seq![path0]
            } else {
                Seq::empty()
            }) by {
                if self.children is None {
                }
            }
            assert(out@.subrange(0, out0.len() as int) =~= out2.subrange(0, out0.len() as int));
            assert(paths_of(out@) + Seq::empty() =~= paths_of(out2) + self.draw_from(
                path0,
                8,
            ));
        }
    }

    /// The node that `path[level..]` leads to from this one, if any.
    pub fn find(&self, path: &Vec<u8>, level: usize) -> (r: Option<&OctreeNode<G>>)
        requires
            level <= path.len(),
        ensures
            r is Some <==> self.has(path@.subrange(level as int, path@.len() as int)),
            r matches Some(n) ==> n.geometry == self.geometry_at(
                path@.subrange(level as int, path@.len() as int),
            ),
        decreases path.len() - level,
    {
        let ghost rest = path@.subrange(level as int, path@.len() as int);
        if level == path.len() {
            assert(rest.len() == 0);
            Some(self)
        } else {
            assert(rest.drop_first() =~= path@.subrange(level + 1, path@.len() as int));
            let i = path[level] as usize;
            match &self.children {
                Some(c) => {
                    if i < c.len() {
                        c[i].find(path, level + 1)
                    } else {
                        None
                    }
                },
                None => None,
            }
        }
    }

    /// Removes the node's children and everything below them. Each child that
    /// has no mesh yet has a generation queued or running, so a cancellation
    /// for it is issued first, in child order. Deeper requests are left to
    /// find no node when their results arrive.
    pub fn destroy_children(
        &mut self,
        info: &mut OctreeInfo,
        path: &Vec<u8>,
        level: u32,
        origin: Origin,
    )
        requires
            valid_path(path@),
            path@.len() == level,
            old(self).children is Some ==> level < MAX_LEVEL,
            origin.coords() == origin_of(path@),
            old(self).wf(),
        ensures
            Self::destroys(*old(self), old(info).tasks@, *final(self), final(info).tasks@, path@),
            old(self).wf() ==> final(self).wf(),
            tasks_wf(old(info).tasks@) ==> tasks_wf(final(info).tasks@),
    {
        let mut taken: Option<Vec<OctreeNode<G>>> = None;
        std::mem::swap(&mut taken, &mut self.children);
        if let Some(c) = taken {
            proof {
                lemma_origin_in_cube(path@);
            }
            let ghost t0 = info.tasks@;
            assert(info.tasks@.subrange(0, t0.len() as int) =~= t0);
            let mut i: usize = 0;
            while i < c.len()
                invariant
                    valid_path(path@),
                    path@.len() == level,
                    level < MAX_LEVEL,
                    origin.coords() == origin_of(path@),
                    in_cube(origin.x as int),
                    in_cube(origin.y as int),
                    in_cube(origin.z as int),
                    i <= c.len(),
                    c.len() == 8,
                    appends_batch(
                        t0,
                        info.tasks@,
                        TaskAction::Cancel,
                        path@,
                        unmeshed(c@, i as int),
                    ),
                decreases c.len() - i,
            {
                if c[i].geometry.is_none() {
                    let mut p = path.clone();
                    assert(p@ =~= path@);
                    p.push(i as u8);
                    let o = child_origin(origin, level, i as u8);
                    proof {
                        assert(p@.drop_last() =~= path@);
                    }
                    let ghost before = info.tasks@;
                    info.tasks.push(
                        Task {
                            action: TaskAction::Cancel,
                            x: o.x,
                            y: o.y,
                            z: o.z,
                            level: level + 1,
                            path: p,
                        },
                    );
                    proof {
                        let idx = unmeshed(c@, i as int);
                        assert(unmeshed(c@, i + 1) == idx.push(i as u8));
                        assert(info.tasks@.subrange(0, t0.len() as int) =~= before.subrange(
                            0,
                            t0.len() as int,
                        ));
                        assert forall|m: int| 0 <= m < idx.len() + 1 implies is_task_for(
                            #[trigger] info.tasks@[t0.len() + m],
                            TaskAction::Cancel,
                            path@.push(idx.push(i as u8)[m]),
                        ) by {
                            if m < idx.len() {
                                assert(info.tasks@[t0.len() + m] == before[t0.len() + m]);
                            }
                        }
                    }
                }
                i = i + 1;
            }
            proof {
                if tasks_wf(t0) {
                    lemma_unmeshed_below(c@, 8);
                    lemma_batch_wf(t0, info.tasks@, TaskAction::Cancel, path@, unmeshed(c@, 8));
                }
            }
        }
    }
}

impl OctreeInfo {
    pub fn new() -> (r: OctreeInfo)
        ensures
            r.tasks@.len() == 0,
    {
        OctreeInfo { tasks: Vec::new() }
    }

    /// Hands over the requests issued so far, oldest first, and forgets them.
    pub fn take_tasks(&mut self) -> (r: Vec<Task>)
        ensures
            r@ == old(self).tasks@,
            final(self).tasks@.len() == 0,
    {
        let mut r: Vec<Task> = Vec::new();
        std::mem::swap(&mut r, &mut self.tasks);
        r
    }
}

/// The tree `m` after each result of `rs` is installed, in order.
pub open spec fn installed_all<G>(m: Map<Seq<u8>, Option<G>>, rs: Seq<Result<G>>) -> Map<
    Seq<u8>,
    Option<G>,
>
    decreases rs.len(),
{
    if rs.len() == 0 {
        m
    } else {
        installed(installed_all(m, rs.drop_last()), rs.last().path@, rs.last().data)
    }
}

/// The tree over the root cube, with the requests its changes have issued.
pub struct Octree<G> {
    pub root: OctreeNode<G>,
    pub info: OctreeInfo,
}

impl<G> Octree<G> {
    /// Children are all-or-nothing throughout, and every issued request
    /// carries the level and centre of the node its path names.
    pub open spec fn wf(self) -> bool {
        self.root.wf() && tasks_wf(self.info.tasks@)
    }

    /// A tree of one node, the root, whose generation is issued.
    pub fn new() -> (r: Octree<G>)
        ensures
            r.wf(),
            r.root.is_fresh(),
            r.info.tasks@.len() == 1,
            is_task_for(r.info.tasks@[0], TaskAction::Generate, Seq::empty()),
    {
        let mut info = OctreeInfo::new();
        let path: Vec<u8> = Vec::new();
        let origin = Origin::zero();
        assert(valid_path(path@));
        let root = OctreeNode::new(&mut info, &path, 0, origin);
        Octree { root, info }
    }

    /// Depth-first traversal of the whole tree from the root, children before
    /// their parent; see `OctreeNode::walk`, whose chain of context states
    /// comes back here for the root, the empty path, level 0 and the centre
    /// of the root cube.
    pub fn walk<F>(&mut self, visitor: &F) -> (states: Ghost<Seq<OctreeInfo>>) where
        F: Fn(&mut OctreeNode<G>, &mut OctreeInfo, &Vec<u8>, u32, Origin),
        requires
            forall|n: &mut OctreeNode<G>, i: &mut OctreeInfo, p: &Vec<u8>, l: u32, o: Origin|
                valid_path(p@) && p@.len() == l && o.coords() == origin_of(p@)
                    ==> #[trigger] visitor.requires((n, i, p, l, o)),
        ensures
            states@.len() == old(self).root.visit_order(MAX_LEVEL as int, 0).len() + 1,
            states@[0] == old(self).info,
            states@.last() == final(self).info,
            forall|j: int|
                #![trigger states@[j]]
                0 <= j < states@.len() - 1 ==> exists|
                    n: &mut OctreeNode<G>,
                    i: &mut OctreeInfo,
                    p: &Vec<u8>,
                    l: u32,
                    o: Origin,
                |
                    #[trigger] visitor.ensures((n, i, p, l, o), ()) && *i == states@[j]
                        && *final(i) == states@[j + 1] && OctreeNode::<G>::visit_args(
                        p@,
                        l,
                        o,
                        Seq::empty(),
                        old(self).root.visit_order(MAX_LEVEL as int, 0)[j],
                    ) && OctreeNode::<G>::stands_for(
                        *n,
                        old(self).root.subtree(old(self).root.visit_order(MAX_LEVEL as int, 0)[j]),
                    ),
    {
        let mut path: Vec<u8> = Vec::new();
        let origin = Origin::zero();
        assert(valid_path(path@));
        let ghost p0 = path@;
        let r = self.root.walk(&mut self.info, visitor, &mut path, 0, origin);
        proof {
            assert(p0 =~= Seq::<u8>::empty());
        }
        r
    }

    /// Where to draw each node that still has to be drawn, in traversal
    /// order: the leaves, and each node with a child that awaits its mesh.
    pub fn draw(&self) -> (r: Vec<Placement>)
        ensures
            paths_of(r@) == self.root.draw_from(Seq::empty(), 0),
            forall|j: int| 0 <= j < r@.len() ==> (#[trigger] r@[j]).wf(),
    {
        let mut out: Vec<Placement> = Vec::new();
        let mut path: Vec<u8> = Vec::new();
        let origin = Origin::zero();
        self.root.draw_into(&mut path, 0, origin, &mut out);
        assert(paths_of(Seq::<Placement>::empty()) =~= Seq::<Seq<u8>>::empty());
        assert(Seq::<Seq<u8>>::empty() + self.root.draw_from(Seq::empty(), 0) =~= self.root.draw_from(Seq::empty(), 0));
        out
    }

    /// Installs the meshes that the worker delivered, in the order given; a
    /// result whose path no longer names a node is dropped.
    pub fn update(&mut self, results: Vec<Result<G>>)
        ensures
            final(self).root@ == installed_all(old(self).root@, results@),
            final(self).info == old(self).info,
            old(self).wf() ==> final(self).wf(),
    {
        let ghost m0 = self.root@;
        let ghost all = results@;
        let n = results.len();
        let mut rs = results;
        let mut k: usize = 0;
        assert(all.subrange(0, 0) =~= Seq::<Result<G>>::empty());
        assert(rs@ =~= all.subrange(0, all.len() as int));
        while rs.len() > 0
            invariant
                k + rs@.len() == all.len(),
                all.len() == n,
                rs@ == all.subrange(k as int, all.len() as int),
                self.root@ == installed_all(m0, all.subrange(0, k as int)),
                self.info == old(self).info,
                old(self).root.wf() ==> self.root.wf(),
            decreases rs@.len(),
        {
            let Result { path, data } = rs.remove(0);
            proof {
                assert(all[k as int].path == path);
                assert(all.subrange(0, k + 1).drop_last() =~= all.subrange(0, k as int));
                assert(rs@ =~= all.subrange(k + 1, all.len() as int));
            }
            assert(path@.subrange(0, path@.len() as int) =~= path@);
            self.root.update(&path, 0, data);
            k = k + 1;
        }
        assert(all.subrange(0, k as int) =~= all);
    }

    /// The node that `path` names, if it exists.
    pub fn find(&self, path: &Vec<u8>) -> (r: Option<&OctreeNode<G>>)
        ensures
            r is Some <==> self.root.has(path@),
            r matches Some(n) ==> n.geometry == self.root.geometry_at(path@),
    {
        assert(path@.subrange(0, path@.len() as int) =~= path@);
        self.root.find(path, 0)
    }
}

/// Below a node without children no path leads anywhere.
proof fn lemma_nothing_below_leaf<G>(n: OctreeNode<G>, path: Seq<u8>, q: Seq<u8>)
    requires
        n.subtree(path) matches Some(m) && m.children is None,
        path.len() < q.len(),
        q.subrange(0, path.len() as int) == path,
    ensures
        !n.has(q),
    decreases path.len(),
{
    if path.len() > 0 {
        assert(q[0] == path[0]) by {
            assert(q.subrange(0, path.len() as int)[0] == q[0]);
        }
        assert(q.drop_first().subrange(0, path.len() - 1) =~= path.drop_first()) by {
            assert forall|k: int| 0 <= k < path.len() - 1 implies q.drop_first()[k] == path.drop_first()[k] by {
                assert(q.subrange(0, path.len() as int)[k + 1] == q[k + 1]);
            }
        }
        let c = n.children.unwrap();
        lemma_nothing_below_leaf(c@[path[0] as int], path.drop_first(), q.drop_first());
    }
}

/// Once the children of the node at `path` have been removed, a result that
/// arrives for any path below it finds no node and leaves the tree as it is.
pub proof fn lemma_stale_result_is_dropped<G>(
    root: OctreeNode<G>,
    path: Seq<u8>,
    q: Seq<u8>,
    g: G,
)
    requires
        root.subtree(path) matches Some(m) && m.children is None,
        path.len() < q.len(),
        q.subrange(0, path.len() as int) == path,
    ensures
        installed(root@, q, g) == root@,
{
    lemma_nothing_below_leaf(root, path, q);
}

/// Once the children of the node at `path` have been removed, a batch of
/// results that all arrive for paths below it leaves the tree as it is.
pub proof fn lemma_stale_results_are_dropped<G>(
    root: OctreeNode<G>,
    path: Seq<u8>,
    rs: Seq<Result<G>>,
)
    requires
        root.subtree(path) matches Some(m) && m.children is None,
        forall|j: int|
            0 <= j < rs.len() ==> path.len() < (#[trigger] rs[j]).path@.len()
                && rs[j].path@.subrange(0, path.len() as int) == path,
    ensures
        installed_all(root@, rs) == root@,
    decreases rs.len(),
{
    if rs.len() > 0 {
        let rest = rs.drop_last();
        assert forall|j: int| 0 <= j < rest.len() implies path.len() < (#[trigger] rest[j]).path@.len()
            && rest[j].path@.subrange(0, path.len() as int) == path by {
            assert(rest[j] == rs[j]);
        }
        lemma_stale_results_are_dropped(root, path, rest);
        assert(rs.last() == rs[rs.len() - 1]);
        lemma_nothing_below_leaf(root, path, rs.last().path@);
    }
}

/// Where none of the first `k` children has a mesh, every one of them is
/// listed.
proof fn lemma_unmeshed_all<G>(c: Seq<OctreeNode<G>>, k: int)
    requires
        0 <= k <= c.len(),
        k <= 8,
        forall|i: int| 0 <= i < k ==> (#[trigger] c[i]).geometry is None,
    ensures
        unmeshed(c, k) == all_children().subrange(0, k),
    decreases k,
{
    if k > 0 {
        lemma_unmeshed_all(c, k - 1);
        assert(all_children().subrange(0, k) =~= all_children().subrange(0, k - 1).push(
            (k - 1) as u8,
        ));
    }
}

/// Creating children twice in a row is creating them once: the second call
/// changes nothing and issues nothing, so a leaf ends with exactly one batch
/// of eight generations.
pub proof fn lemma_create_children_idempotent<G>(
    n0: OctreeNode<G>,
    t0: Seq<Task>,
    n1: OctreeNode<G>,
    t1: Seq<Task>,
    n2: OctreeNode<G>,
    t2: Seq<Task>,
    path: Seq<u8>,
)
    requires
        OctreeNode::creates(n0, t0, n1, t1, path),
        OctreeNode::creates(n1, t1, n2, t2, path),
    ensures
        n2 == n1,
        t2 == t1,
        n0.children is None ==> t2.len() == t0.len() + 8,
{
}

/// Creating a leaf's children and removing them before any result arrives
/// leaves the node a leaf again and issues, after the eight generations,
/// exactly eight cancellations, one for each child in child order.
pub proof fn lemma_create_then_destroy<G>(
    n0: OctreeNode<G>,
    t0: Seq<Task>,
    n1: OctreeNode<G>,
    t1: Seq<Task>,
    n2: OctreeNode<G>,
    t2: Seq<Task>,
    path: Seq<u8>,
)
    requires
        n0.children is None,
        OctreeNode::creates(n0, t0, n1, t1, path),
        OctreeNode::destroys(n1, t1, n2, t2, path),
    ensures
        n2.children is None,
        n2.geometry == n0.geometry,
        t2.len() == t0.len() + 16,
        t2.subrange(0, t0.len() as int) == t0,
        forall|i: int|
            0 <= i < 8 ==> is_task_for(
                #[trigger] t2[t0.len() + i],
                TaskAction::Generate,
                path.push(i as u8),
            ),
        forall|i: int|
            0 <= i < 8 ==> is_task_for(
                #[trigger] t2[t0.len() + 8 + i],
                TaskAction::Cancel,
                path.push(i as u8),
            ),
{
    let c = n1.children.unwrap();
    assert forall|i: int| 0 <= i < 8 implies (#[trigger] c@[i]).geometry is None by {
        assert(c@[i].is_fresh());
    }
    lemma_unmeshed_all(c@, 8);
    assert(all_children().subrange(0, 8) =~= all_children());
    assert forall|i: int| 0 <= i < 8 implies is_task_for(
        #[trigger] t2[t0.len() + i],
        TaskAction::Generate,
        path.push(i as u8),
    ) by {
        assert(t2[t0.len() + i] == t2.subrange(0, t1.len() as int)[t0.len() + i]);
        assert(all_children()[i] == i as u8);
    }
    assert forall|i: int| 0 <= i < 8 implies is_task_for(
        #[trigger] t2[t0.len() + 8 + i],
        TaskAction::Cancel,
        path.push(i as u8),
    ) by {
        assert(t2[t1.len() + i] == t2[t0.len() + 8 + i]);
        assert(all_children()[i] == i as u8);
    }
    assert(t2.subrange(0, t0.len() as int) =~= t2.subrange(0, t1.len() as int).subrange(
        0,
        t0.len() as int,
    ));
}

} // verus!
