//! Requests to the background worker, what it sends back, and the policy by
//! which it picks the next request from those pending: deepest level first,
//! and a cancellation withdraws the pending generation for its centre.
use crate::space::{origin_of, valid_path, Origin};
use vstd::prelude::*;

verus! {

#[derive(Clone, Copy, Debug, PartialEq, Eq, Structural)]
pub enum TaskAction {
    Generate,
    Cancel,
}

/// A request for the worker about the node at `path`, whose centre is
/// (`x`, `y`, `z`) in origin units.
pub struct Task {
    pub action: TaskAction,
    pub x: i64,
    pub y: i64,
    pub z: i64,
    pub level: u32,
    pub path: Vec<u8>,
}

/// What the worker sends back for a served generation: the path of the node
/// it was asked for, and the mesh data.
pub struct Result<D> {
    pub path: Vec<u8>,
    pub data: D,
}

impl Task {
    pub open spec fn origin(self) -> Origin {
        Origin { x: self.x, y: self.y, z: self.z }
    }

    /// The level and the centre are those of the node that the path names.
    pub open spec fn wf(self) -> bool {
        &&& valid_path(self.path@)
        &&& self.path@.len() == self.level
        &&& self.origin().coords() == origin_of(self.path@)
    }

    /// A pending generation for the node centred on `o`.
    pub open spec fn generates_at(self, o: Origin) -> bool {
        self.action == TaskAction::Generate && self.origin() == o
    }

    /// A cancellation for the node centred on `o`.
    pub open spec fn cancels_at(self, o: Origin) -> bool {
        self.action == TaskAction::Cancel && self.origin() == o
    }
}

/// Index of the request served next: the deepest, and of equally deep ones
/// the one that arrived last.
pub open spec fn deepest(s: Seq<Task>) -> int
    decreases s.len(),
{
    if s.len() <= 1 {
        0
    } else {
        let k = deepest(s.drop_last());
        if s.last().level >= s[k].level {
            s.len() - 1
        } else {
            k
        }
    }
}

/// `k` is the index that `deepest` picks.
pub open spec fn is_deepest(s: Seq<Task>, k: int) -> bool {
    &&& 0 <= k < s.len()
    &&& forall|j: int| 0 <= j < s.len() ==> #[trigger] s[j].level <= s[k].level
    &&& forall|j: int| k < j < s.len() ==> #[trigger] s[j].level < s[k].level
}

/// Index of the first pending generation for the centre `o`; the length of
/// `s` where there is none.
pub open spec fn first_generate(s: Seq<Task>, o: Origin) -> int
    decreases s.len(),
{
    if s.len() == 0 {
        0
    } else if s[0].generates_at(o) {
        0
    } else {
        1 + first_generate(s.drop_first(), o)
    }
}

/// `k` is the index that `first_generate` gives.
pub open spec fn is_first_generate(s: Seq<Task>, o: Origin, k: int) -> bool {
    &&& 0 <= k <= s.len()
    &&& k < s.len() ==> s[k].generates_at(o)
    &&& forall|j: int| 0 <= j < k ==> !(#[trigger] s[j]).generates_at(o)
}

/// The pending requests after one request is served.
pub open spec fn step_pending(s: Seq<Task>) -> Seq<Task> {
    let k = deepest(s);
    let t = s[k];
    let rest = s.remove(k);
    if t.action == TaskAction::Generate {
        rest
    } else {
        let g = first_generate(rest, t.origin());
        if g < rest.len() {
            rest.remove(g)
        } else {
            rest
        }
    }
}

/// The generation that one step hands over to be run, if the request served
/// is one.
pub open spec fn step_served(s: Seq<Task>) -> Option<Task> {
    let t = s[deepest(s)];
    if t.action == TaskAction::Generate {
        Some(t)
    } else {
        None
    }
}

pub proof fn lemma_deepest(s: Seq<Task>)
    requires
        s.len() > 0,
    ensures
        is_deepest(s, deepest(s)),
    decreases s.len(),
{
    if s.len() > 1 {
        let t = s.drop_last();
        lemma_deepest(t);
        let k = deepest(t);
        assert forall|j: int| 0 <= j < t.len() implies #[trigger] s[j] == t[j] by {}
        assert(s[k].level == t[k].level);
        if s.last().level >= s[k].level {
            assert forall|j: int| 0 <= j < s.len() implies #[trigger] s[j].level <= s[s.len()
                - 1].level by {
                if j < t.len() {
                    assert(t[j].level <= t[k].level);
                }
            }
        } else {
            assert forall|j: int| 0 <= j < s.len() implies #[trigger] s[j].level <= s[k].level by {
                if j < t.len() {
                    assert(t[j].level <= t[k].level);
                }
            }
            assert forall|j: int| k < j < s.len() implies #[trigger] s[j].level < s[k].level by {
                if j < t.len() {
                    assert(t[j].level < t[k].level);
                }
            }
        }
    }
}

pub proof fn lemma_deepest_unique(s: Seq<Task>, k: int)
    requires
        is_deepest(s, k),
    ensures
        k == deepest(s),
{
    lemma_deepest(s);
    let d = deepest(s);
    assert(s[d].level <= s[k].level);
    assert(s[k].level <= s[d].level);
}

pub proof fn lemma_first_generate(s: Seq<Task>, o: Origin)
    ensures
        is_first_generate(s, o, first_generate(s, o)),
    decreases s.len(),
{
    if s.len() > 0 && !s[0].generates_at(o) {
        let t = s.drop_first();
        lemma_first_generate(t, o);
        assert forall|j: int| 0 <= j < first_generate(s, o) implies !(#[trigger] s[j]).generates_at(
            o,
        ) by {
            if j > 0 {
                assert(s[j] == t[j - 1]);
            }
        }
    }
}

pub proof fn lemma_first_generate_unique(s: Seq<Task>, o: Origin, k: int)
    requires
        is_first_generate(s, o, k),
    ensures
        k == first_generate(s, o),
{
    lemma_first_generate(s, o);
    let f = first_generate(s, o);
    if f < k {
        assert(!s[f].generates_at(o));
    }
    if k < f {
        assert(!s[k].generates_at(o));
    }
}

/// Index of the request to serve next.
fn deepest_index(pending: &Vec<Task>) -> (k: usize)
    requires
        pending.len() > 0,
    ensures
        k == deepest(pending@),
        k < pending.len(),
{
    let mut k: usize = 0;
    let mut i: usize = 1;
    while i < pending.len()
        invariant
            1 <= i <= pending.len(),
            is_deepest(pending@.subrange(0, i as int), k as int),
        decreases pending.len() - i,
    {
        if pending[i].level >= pending[k].level {
            k = i;
        }
        i = i + 1;
    }
    assert(pending@.subrange(0, i as int) =~= pending@);
    proof {
        lemma_deepest_unique(pending@, k as int);
    }
    k
}

/// Index of the first pending generation for the centre of `t`, or the
/// length of `pending` where there is none.
fn first_generate_index(pending: &Vec<Task>, t: &Task) -> (k: usize)
    ensures
        k == first_generate(pending@, t.origin()),
{
    let mut i: usize = 0;
    while i < pending.len()
        invariant
            i <= pending.len(),
            forall|j: int| 0 <= j < i ==> !(#[trigger] pending@[j]).generates_at(t.origin()),
        decreases pending.len() - i,
    {
        let p = &pending[i];
        if p.action == TaskAction::Generate && p.x == t.x && p.y == t.y && p.z == t.z {
            proof {
                lemma_first_generate_unique(pending@, t.origin(), i as int);
            }
            return i;
        }
        i = i + 1;
    }
    proof {
        lemma_first_generate_unique(pending@, t.origin(), i as int);
    }
    i
}

/// For the centre `o`: at most one generation is pending, and where there is
/// one, a cancellation for the same centre and level arrived after it.
pub open spec fn cancel_follows(s: Seq<Task>, o: Origin) -> bool {
    forall|i: int|
        0 <= i < s.len() && #[trigger] s[i].generates_at(o) ==> {
            &&& forall|j: int| 0 <= j < s.len() && j != i ==> !#[trigger] s[j].generates_at(o)
            &&& exists|j: int|
                i < j < s.len() && #[trigger] s[j].cancels_at(o) && s[j].level == s[i].level
        }
}

/// Taking out a request that neither generates nor cancels at `o` keeps a
/// cancellation behind the generation for `o`.
proof fn lemma_remove_unrelated(s: Seq<Task>, r: int, o: Origin)
    requires
        cancel_follows(s, o),
        0 <= r < s.len(),
        !s[r].generates_at(o),
        !s[r].cancels_at(o),
    ensures
        cancel_follows(s.remove(r), o),
{
    let t = s.remove(r);
    assert forall|i: int| 0 <= i < t.len() && #[trigger] t[i].generates_at(o) implies {
        &&& forall|j: int| 0 <= j < t.len() && j != i ==> !#[trigger] t[j].generates_at(o)
        &&& exists|j: int|
            i < j < t.len() && #[trigger] t[j].cancels_at(o) && t[j].level == t[i].level
    } by {
        let si = if i < r {
            i
        } else {
            i + 1
        };
        assert(t[i] == s[si]);
        assert forall|j: int| 0 <= j < t.len() && j != i implies !#[trigger] t[j].generates_at(o) by {
            let sj = if j < r {
                j
            } else {
                j + 1
            };
            assert(t[j] == s[sj]);
        }
        let c = choose|c: int|
            si < c < s.len() && #[trigger] s[c].cancels_at(o) && s[c].level == s[si].level;
        let tc = if c < r {
            c
        } else {
            c - 1
        };
        assert(t[tc] == s[c]);
        assert(i < tc < t.len() && t[tc].cancels_at(o) && t[tc].level == t[i].level);
    }
}

/// Where no generation for `o` is pending, none is after a request is taken
/// out.
proof fn lemma_remove_none(s: Seq<Task>, r: int, o: Origin)
    requires
        forall|i: int| 0 <= i < s.len() ==> !#[trigger] s[i].generates_at(o),
        0 <= r < s.len(),
    ensures
        forall|i: int| 0 <= i < s.len() - 1 ==> !#[trigger] s.remove(r)[i].generates_at(o),
{
    assert forall|i: int| 0 <= i < s.len() - 1 implies !#[trigger] s.remove(r)[i].generates_at(o) by {
        if i >= r {
            assert(s.remove(r)[i] == s[i + 1]);
        }
    }
}

/// A cancellation that arrives after the generation for the same centre, while
/// both are pending, keeps that generation from ever being served: whatever
/// one step serves, it is not that generation, and the step leaves the
/// cancellation still behind it (or the generation gone).
pub proof fn lemma_cancel_suppresses_generate(s: Seq<Task>, o: Origin)
    requires
        s.len() > 0,
        cancel_follows(s, o),
    ensures
        step_served(s) matches Some(t) ==> !t.generates_at(o),
        cancel_follows(step_pending(s), o),
{
    lemma_deepest(s);
    let k = deepest(s);
    let t = s[k];
    let rest = s.remove(k);
    if exists|g: int| 0 <= g < s.len() && #[trigger] s[g].generates_at(o) {
        let g = choose|g: int| 0 <= g < s.len() && #[trigger] s[g].generates_at(o);
        let c = choose|c: int|
            g < c < s.len() && #[trigger] s[c].cancels_at(o) && s[c].level == s[g].level;
        assert(k != g);
        if t.action == TaskAction::Generate {
            lemma_remove_unrelated(s, k, o);
        } else if t.origin() == o {
            let g2 = if g < k {
                g
            } else {
                g - 1
            };
            assert(rest[g2] == s[g]);
            assert forall|j: int| 0 <= j < rest.len() && j != g2 implies !#[trigger] rest[j].generates_at(o) by {
                let sj = if j < k {
                    j
                } else {
                    j + 1
                };
                assert(rest[j] == s[sj]);
            }
            lemma_first_generate(rest, o);
            let f = first_generate(rest, o);
            assert(f == g2);
            lemma_remove_none_but(rest, g2, o);
        } else {
            lemma_remove_unrelated(s, k, o);
            lemma_first_generate(rest, t.origin());
            let f = first_generate(rest, t.origin());
            if f < rest.len() {
                lemma_remove_unrelated(rest, f, o);
            }
        }
    } else {
        lemma_remove_none(s, k, o);
        lemma_first_generate(rest, t.origin());
        let f = first_generate(rest, t.origin());
        if f < rest.len() {
            lemma_remove_none(rest, f, o);
        }
    }
}

/// Taking out the only pending generation for `o` leaves none.
proof fn lemma_remove_none_but(s: Seq<Task>, g: int, o: Origin)
    requires
        0 <= g < s.len(),
        forall|j: int| 0 <= j < s.len() && j != g ==> !#[trigger] s[j].generates_at(o),
    ensures
        cancel_follows(s.remove(g), o),
{
    let t = s.remove(g);
    assert forall|i: int| 0 <= i < t.len() implies !#[trigger] t[i].generates_at(o) by {
        let si = if i < g {
            i
        } else {
            i + 1
        };
        assert(t[i] == s[si]);
    }
}

/// Requests that arrive later, none of them a generation for `o`, keep a
/// cancellation behind the pending generation for `o`.
pub proof fn lemma_arrivals_keep_cancel(s: Seq<Task>, a: Seq<Task>, o: Origin)
    requires
        cancel_follows(s, o),
        forall|i: int| 0 <= i < a.len() ==> !#[trigger] a[i].generates_at(o),
    ensures
        cancel_follows(s + a, o),
{
    let t = s + a;
    assert forall|i: int| 0 <= i < t.len() && #[trigger] t[i].generates_at(o) implies {
        &&& forall|j: int| 0 <= j < t.len() && j != i ==> !#[trigger] t[j].generates_at(o)
        &&& exists|j: int|
            i < j < t.len() && #[trigger] t[j].cancels_at(o) && t[j].level == t[i].level
    } by {
        if i >= s.len() {
            assert(t[i] == a[i - s.len()]);
            assert(false);
        }
        assert(t[i] == s[i]);
        assert forall|j: int| 0 <= j < t.len() && j != i implies !#[trigger] t[j].generates_at(o) by {
            if j < s.len() {
                assert(t[j] == s[j]);
            } else {
                assert(t[j] == a[j - s.len()]);
            }
        }
        let c = choose|c: int|
            i < c < s.len() && #[trigger] s[c].cancels_at(o) && s[c].level == s[i].level;
        assert(t[c] == s[c]);
    }
}

/// The requests that the worker has received and not yet served.
pub struct TaskQueue {
    pending: Vec<Task>,
}

impl View for TaskQueue {
    type V = Seq<Task>;

    closed spec fn view(&self) -> Seq<Task> {
        self.pending@
    }
}

impl TaskQueue {
    pub fn new() -> (r: TaskQueue)
        ensures
            r@ == Seq::<Task>::empty(),
    {
        TaskQueue { pending: Vec::new() }
    }

    pub fn len(&self) -> (r: usize)
        ensures
            r == self@.len(),
    {
        self.pending.len()
    }

    pub fn is_empty(&self) -> (r: bool)
        ensures
            r == (self@.len() == 0),
    {
        self.pending.len() == 0
    }

    /// Takes in a request that has just arrived.
    pub fn push(&mut self, task: Task)
        ensures
            final(self)@ == old(self)@.push(task),
    {
        self.pending.push(task);
    }

    /// Serves one request: the deepest pending one, the latest among equally
    /// deep ones. A generation is handed back to be run; a cancellation
    /// removes the first pending generation for its centre, if any, and
    /// `None` comes back. Work already handed out is not affected.
    pub fn step(&mut self) -> (r: Option<Task>)
        requires
            old(self)@.len() > 0,
        ensures
            final(self)@ == step_pending(old(self)@),
            r == step_served(old(self)@),
    {
        let k = deepest_index(&self.pending);
        let t = self.pending.remove(k);
        match t.action {
            TaskAction::Generate => Some(t),
            TaskAction::Cancel => {
                let g = first_generate_index(&self.pending, &t);
                let n = self.pending.len();
                if g < n {
                    self.pending.remove(g);
                }
                None
            },
        }
    }
}

} // verus!
