//! The dependency graph between targets. Its edges are known only after
//! specialisation: `deps = [dep("zlib") when feature.zlib]` has the edge
//! come and go with the feature, so no graph exists without a configuration.

use vstd::prelude::*;
use crate::model::TargetId;
use crate::schema::Block;
use crate::diag::{diag_m, DiagM, Diagnostic};
use crate::document::strings_view;
use crate::text::{copy_string, owned};
use crate::value::Site;
use crate::deps::{edges_m, Deps, EdgeM};
use crate::diag::diags_m;
use crate::text::str_eq;

verus! {

/// One dependency of a target.
#[derive(Clone, Copy, Debug)]
pub struct Edge {
    pub to: TargetId,
    /// The block it was declared in: a `public` dependency propagates.
    pub block: Block,
    pub site: Site,
}

/// The dependency graph of a session's targets.
#[derive(Debug)]
pub struct Graph {
    /// The edges of each target, by its number: `edges[i]` are the
    /// dependencies of `TargetId(i)`, in the order they were declared.
    pub edges: Vec<Vec<Edge>>,
    /// Dependencies first, dependents after: interfaces are merged in this
    /// order.
    pub order: Vec<TargetId>,
}

/// The dependencies of a target; none for a number outside the graph.
pub open spec fn deps_m(edges: Seq<Vec<Edge>>, t: TargetId) -> Seq<Edge> {
    if t.0 < edges.len() {
        edges[t.0 as int]@
    } else {
        Seq::empty()
    }
}

/// The targets a target depends on, in order.
pub open spec fn dep_ids(edges: Seq<Vec<Edge>>, t: TargetId) -> Seq<TargetId> {
    deps_m(edges, t).map_values(|e: Edge| e.to)
}

/// Whether the `i`-th target of `s` is a dependency of one before it.
pub open spec fn has_parent(edges: Seq<Vec<Edge>>, s: Seq<TargetId>, i: int) -> bool {
    exists|j: int| 0 <= j < i && #[trigger] dep_ids(edges, s[j]).contains(s[i])
}

/// Whether `x` is a dependency of one of `s`.
pub open spec fn depended_on(edges: Seq<Vec<Edge>>, s: Seq<TargetId>, x: TargetId) -> bool {
    exists|j: int| 0 <= j < s.len() && #[trigger] dep_ids(edges, s[j]).contains(x)
}

/// How many dependencies the targets below `n` not in `seen` still have.
pub open spec fn unexpanded(edges: Seq<Vec<Edge>>, seen: Set<TargetId>, n: int) -> int
    decreases n,
{
    if n <= 0 {
        0
    } else {
        unexpanded(edges, seen, n - 1) + if seen.contains(TargetId((n - 1) as usize)) {
            0
        } else {
            edges[n - 1]@.len() as int
        }
    }
}

proof fn lemma_unexpanded_nonneg(edges: Seq<Vec<Edge>>, seen: Set<TargetId>, n: int)
    ensures
        unexpanded(edges, seen, n) >= 0,
    decreases n,
{
    if n > 0 {
        lemma_unexpanded_nonneg(edges, seen, n - 1);
    }
}

/// Expanding one more target takes its dependencies off the count.
proof fn lemma_unexpanded_insert(edges: Seq<Vec<Edge>>, seen: Set<TargetId>, t: TargetId, n: int)
    requires
        !seen.contains(t),
        0 <= n <= edges.len(),
        edges.len() <= usize::MAX,
    ensures
        unexpanded(edges, seen.insert(t), n) == unexpanded(edges, seen, n) - if t.0 < n {
            edges[t.0 as int]@.len() as int
        } else {
            0
        },
    decreases n,
{
    if n > 0 {
        lemma_unexpanded_insert(edges, seen, t, n - 1);
        if t.0 == n - 1 {
            assert(TargetId((n - 1) as usize) == t);
        } else {
            assert(TargetId((n - 1) as usize) != t);
        }
    }
}

impl Graph {
    /// The dependencies of a target.
    pub fn deps_of(&self, t: TargetId) -> (r: &[Edge])
        ensures
            r@ == deps_m(self.edges@, t),
    {
        if t.0 < self.edges.len() {
            self.edges[t.0].as_slice()
        } else {
            &[]
        }
    }

    /// The dependencies that propagate: those declared in `public`.
    pub fn public_deps_of(&self, t: TargetId) -> (r: Vec<Edge>)
        ensures
            r@ == deps_m(self.edges@, t).filter(|e: Edge| e.block == Block::Public),
    {
        let deps = self.deps_of(t);
        let mut r: Vec<Edge> = Vec::new();
        let mut i: usize = 0;
        while i < deps.len()
            invariant
                i <= deps@.len(),
                deps@ == deps_m(self.edges@, t),
                r@ == deps@.take(i as int).filter(|e: Edge| e.block == Block::Public),
            decreases deps.len() - i,
        {
            assert(deps@.take(i + 1).drop_last() =~= deps@.take(i as int));
            proof {
                reveal(Seq::filter);
            }
            if deps[i].block == Block::Public {
                r.push(deps[i]);
            }
            i += 1;
        }
        assert(deps@.take(i as int) =~= deps@);
        r
    }

    /// What linking `root` needs: the targets it reaches, each once,
    /// dependents before their dependencies and the declared order kept.
    pub fn link_closure(&self, root: TargetId) -> (r: Vec<TargetId>)
        ensures
            r@.len() > 0 && r@[0] == root,
            r@.no_duplicates(),
            forall|i: int, k: int|
                0 <= i < r@.len() && 0 <= k < dep_ids(self.edges@, r@[i]).len() ==> r@.contains(
                    #[trigger] dep_ids(self.edges@, r@[i])[k],
                ),
            forall|i: int| 0 < i < r@.len() ==> #[trigger] has_parent(self.edges@, r@, i),
    {
        let ghost ev = self.edges@;
        let _n = self.edges.len();
        assert(ev.len() <= usize::MAX);
        let mut out: Vec<TargetId> = Vec::new();
        let mut stack: Vec<TargetId> = Vec::new();
        stack.push(root);
        proof {
            lemma_unexpanded_nonneg(ev, out@.to_set(), ev.len() as int);
        }
        while stack.len() > 0
            invariant
                ev == self.edges@,
                ev.len() <= usize::MAX,
                out@.no_duplicates(),
                out@.len() == 0 ==> stack@ == seq![root],
                out@.len() > 0 ==> out@[0] == root,
                out@.len() > 0 ==> forall|s: int| 0 <= s < stack@.len() ==> #[trigger] depended_on(ev, out@, stack@[s]),
                forall|i: int| 0 < i < out@.len() ==> #[trigger] has_parent(ev, out@, i),
                forall|i: int, k: int|
                    0 <= i < out@.len() && 0 <= k < dep_ids(ev, out@[i]).len() ==> out@.contains(
                        #[trigger] dep_ids(ev, out@[i])[k],
                    ) || stack@.contains(dep_ids(ev, out@[i])[k]),
                unexpanded(ev, out@.to_set(), ev.len() as int) >= 0,
            decreases unexpanded(ev, out@.to_set(), ev.len() as int) + stack@.len(),
        {
            let ghost st0 = stack@;
            let ghost out0 = out@;
            let t = stack.pop().unwrap();
            proof {
                assert(st0 =~= stack@.push(t));
                assert forall|x: TargetId| st0.contains(x) implies x == t || stack@.contains(x) by {
                    let s = choose|s: int| 0 <= s < st0.len() && st0[s] == x;
                    if s < stack@.len() {
                        assert(stack@[s] == x);
                    }
                }
                assert forall|x: TargetId| stack@.contains(x) implies st0.contains(x) by {
                    let s = choose|s: int| 0 <= s < stack@.len() && stack@[s] == x;
                    assert(st0[s] == x);
                }
            }
            let mut seen = false;
            let mut j: usize = 0;
            while j < out.len()
                invariant
                    j <= out@.len(),
                    seen == exists|m: int| 0 <= m < j && out@[m] == t,
                decreases out.len() - j,
            {
                if out[j] == t {
                    seen = true;
                }
                j += 1;
            }
            if seen {
                proof {
                    assert(out@.contains(t));
                    if out@.len() > 0 {
                        assert forall|s: int| 0 <= s < stack@.len() implies #[trigger] depended_on(ev, out@, stack@[s]) by {
                            assert(st0[s] == stack@[s]);
                            assert(depended_on(ev, out@, st0[s]));
                        }
                    }
                }
                continue;
            }
            proof {
                assert(!out@.contains(t));
                assert(!out@.to_set().contains(t));
                lemma_unexpanded_insert(ev, out@.to_set(), t, ev.len() as int);
                out@.lemma_push_to_set_commute(t);
            }
            out.push(t);
            let deps = self.deps_of(t);
            let ghost base = stack@;
            let mut k: usize = deps.len();
            while k > 0
                invariant
                    k <= deps@.len(),
                    deps@ == deps_m(ev, t),
                    stack@ == base + deps@.skip(k as int).reverse().map_values(|e: Edge| e.to),
                decreases k,
            {
                k -= 1;
                stack.push(deps[k].to);
                assert(deps@.skip(k as int).reverse() =~= deps@.skip(k + 1).reverse().push(deps@[k as int]));
                assert(stack@ =~= base + deps@.skip(k as int).reverse().map_values(|e: Edge| e.to));
            }
            proof {
                let added = deps@.reverse().map_values(|e: Edge| e.to);
                assert(deps@.skip(0) =~= deps@);
                assert(stack@ == base + added);
                let n = out@.len() - 1;
                assert(out@[n] == t);
                assert forall|x: TargetId| added.contains(x) implies dep_ids(ev, t).contains(x) by {
                    let s = choose|s: int| 0 <= s < added.len() && added[s] == x;
                    assert(dep_ids(ev, t)[deps@.len() - 1 - s] == x);
                }
                assert forall|x: TargetId| dep_ids(ev, t).contains(x) implies stack@.contains(x) by {
                    let s = choose|s: int| 0 <= s < dep_ids(ev, t).len() && dep_ids(ev, t)[s] == x;
                    assert(added[deps@.len() - 1 - s] == x);
                    assert(stack@[base.len() + deps@.len() - 1 - s] == x);
                }
                assert forall|x: TargetId| base.contains(x) implies stack@.contains(x) by {
                    let s = choose|s: int| 0 <= s < base.len() && base[s] == x;
                    assert(stack@[s] == x);
                }
                // Every item on the stack has a parent already out.
                assert forall|s: int| 0 <= s < stack@.len() implies #[trigger] depended_on(ev, out@, stack@[s]) by {
                    if s < base.len() {
                        assert(st0[s] == stack@[s]);
                        assert(depended_on(ev, out0, st0[s]));
                        let j0 = choose|j: int| 0 <= j < out0.len() && #[trigger] dep_ids(ev, out0[j]).contains(st0[s]);
                        assert(out@[j0] == out0[j0]);
                    } else {
                        assert(added.contains(stack@[s])) by {
                            assert(added[s - base.len()] == stack@[s]);
                        }
                        assert(dep_ids(ev, out@[n]).contains(stack@[s]));
                    }
                }
                // The new item has a parent before it.
                assert forall|i: int| 0 < i < out@.len() implies #[trigger] has_parent(ev, out@, i) by {
                    if i < n {
                        assert(has_parent(ev, out0, i));
                        let j0 = choose|j: int| 0 <= j < i && #[trigger] dep_ids(ev, out0[j]).contains(out0[i]);
                        assert(out@[j0] == out0[j0]);
                        assert(out@[i] == out0[i]);
                    } else {
                        let s0 = st0.len() - 1;
                        assert(st0[s0] == t);
                        assert(depended_on(ev, out0, st0[s0]));
                        let j0 = choose|j: int| 0 <= j < out0.len() && #[trigger] dep_ids(ev, out0[j]).contains(st0[s0]);
                        assert(out@[j0] == out0[j0]);
                        assert(dep_ids(ev, out@[j0]).contains(out@[i]));
                    }
                }
                // Closed up to the stack.
                assert forall|i: int, k: int|
                    0 <= i < out@.len() && 0 <= k < dep_ids(ev, out@[i]).len() implies out@.contains(
                        #[trigger] dep_ids(ev, out@[i])[k],
                    ) || stack@.contains(dep_ids(ev, out@[i])[k]) by {
                    let d = dep_ids(ev, out@[i])[k];
                    if i < n {
                        assert(out@[i] == out0[i]);
                        if out0.contains(d) {
                            let m = choose|m: int| 0 <= m < out0.len() && out0[m] == d;
                            assert(out@[m] == d);
                        } else {
                            assert(st0.contains(d));
                            if d == t {
                                assert(out@[n] == d);
                            } else {
                                assert(stack@.contains(d) || base.contains(d));
                            }
                        }
                    } else {
                        assert(dep_ids(ev, t).contains(d)) by {
                            assert(dep_ids(ev, t)[k] == d);
                        }
                    }
                }
                assert(out@.no_duplicates()) by {
                    assert forall|a: int, b: int| 0 <= a < b < out@.len() implies out@[a] != out@[b] by {
                        if b == n {
                            assert(out0.contains(out@[a])) by {
                                assert(out0[a] == out@[a]);
                            }
                        } else {
                            assert(out0[a] == out@[a] && out0[b] == out@[b]);
                        }
                    }
                }
                lemma_unexpanded_nonneg(ev, out@.to_set(), ev.len() as int);
            }
        }
        out
    }
}

// --- ordering ------------------------------------------------------------------------

/// Whether every edge points at a target of the graph.
pub open spec fn edges_wf(edges: Seq<Vec<Edge>>) -> bool {
    forall|i: int, k: int| 0 <= i < edges.len() && 0 <= k < edges[i]@.len() ==> (#[trigger] edges[i]@[k]).to.0 < edges.len()
}

/// Where depth-first ordering stands with a target.
#[derive(Clone, Copy, PartialEq, Eq, Structural, Debug)]
pub enum Mark {
    NotSeen,
    InProgress,
    Done,
}

/// What is left to do for the targets below `n` not yet seen: each is
/// entered, has each dependency looked at, and is left.
pub open spec fn unseen_work(edges: Seq<Vec<Edge>>, marks: Seq<Mark>, n: int) -> int
    decreases n,
{
    if n <= 0 {
        0
    } else {
        unseen_work(edges, marks, n - 1) + if marks[n - 1] == Mark::NotSeen {
            edges[n - 1]@.len() + 2
        } else {
            0
        }
    }
}

/// What is left to do for the targets on the stack.
pub open spec fn frame_work(edges: Seq<Vec<Edge>>, stack: Seq<(TargetId, usize)>) -> int
    decreases stack.len(),
{
    if stack.len() == 0 {
        0
    } else {
        frame_work(edges, stack.drop_last()) + (deps_m(edges, stack.last().0).len() - stack.last().1 + 1)
    }
}

proof fn lemma_unseen_work_nonneg(edges: Seq<Vec<Edge>>, marks: Seq<Mark>, n: int)
    ensures
        unseen_work(edges, marks, n) >= 0,
    decreases n,
{
    if n > 0 {
        lemma_unseen_work_nonneg(edges, marks, n - 1);
    }
}

proof fn lemma_unseen_work_update(edges: Seq<Vec<Edge>>, marks: Seq<Mark>, v: int, m: Mark, n: int)
    requires
        0 <= v < marks.len(),
        0 <= n <= marks.len(),
        n <= edges.len(),
        marks[v] == Mark::NotSeen,
        m != Mark::NotSeen,
    ensures
        unseen_work(edges, marks.update(v, m), n) == unseen_work(edges, marks, n) - if v < n {
            edges[v]@.len() + 2
        } else {
            0
        },
    decreases n,
{
    if n > 0 {
        lemma_unseen_work_update(edges, marks, v, m, n - 1);
    }
}

proof fn lemma_unseen_work_same(edges: Seq<Vec<Edge>>, marks: Seq<Mark>, v: int, m: Mark, n: int)
    requires
        0 <= v < marks.len(),
        0 <= n <= marks.len(),
        marks[v] != Mark::NotSeen,
        m != Mark::NotSeen,
    ensures
        unseen_work(edges, marks.update(v, m), n) == unseen_work(edges, marks, n),
    decreases n,
{
    if n > 0 {
        lemma_unseen_work_same(edges, marks, v, m, n - 1);
    }
}

proof fn lemma_frame_work_nonneg(edges: Seq<Vec<Edge>>, stack: Seq<(TargetId, usize)>)
    requires
        forall|p: int| 0 <= p < stack.len() ==> (#[trigger] stack[p]).1 <= deps_m(edges, stack[p].0).len(),
    ensures
        frame_work(edges, stack) >= 0,
    decreases stack.len(),
{
    if stack.len() > 0 {
        lemma_frame_work_nonneg(edges, stack.drop_last());
    }
}

/// Where a depth-first walk over the targets stands: the mark of each
/// target, the frames of the targets being walked with the next dependency
/// each looks at, the targets finished so far, and the next root.
pub struct Walk {
    pub marks: Seq<Mark>,
    pub stack: Seq<(TargetId, usize)>,
    pub order: Seq<TargetId>,
    pub root: int,
}

/// One step of the walk. The innermost frame looks at its next dependency,
/// entering it when it was not seen; a frame with none left finishes its
/// target. With no frame, the next root is entered if it was not seen, or
/// passed.
pub open spec fn dfs_step(edges: Seq<Vec<Edge>>, w: Walk) -> Walk {
    if w.stack.len() > 0 {
        let node = w.stack.last().0;
        let idx = w.stack.last().1;
        let below = w.stack.drop_last();
        if idx < deps_m(edges, node).len() {
            let next = dep_at(edges, node, idx as int);
            let kept = below.push((node, (idx + 1) as usize));
            if w.marks[next.0 as int] == Mark::NotSeen {
                Walk { marks: w.marks.update(next.0 as int, Mark::InProgress), stack: kept.push((next, 0usize)), ..w }
            } else {
                Walk { stack: kept, ..w }
            }
        } else {
            Walk { marks: w.marks.update(node.0 as int, Mark::Done), stack: below, order: w.order.push(node), ..w }
        }
    } else if w.root < edges.len() {
        if w.marks[w.root] == Mark::NotSeen {
            Walk {
                marks: w.marks.update(w.root, Mark::InProgress),
                stack: seq![(TargetId(w.root as usize), 0usize)],
                ..w
            }
        } else {
            Walk { root: w.root + 1, ..w }
        }
    } else {
        w
    }
}

/// The walk after `fuel` steps.
pub open spec fn dfs_run(edges: Seq<Vec<Edge>>, w: Walk, fuel: nat) -> Walk
    decreases fuel,
{
    if fuel == 0 {
        w
    } else {
        dfs_run(edges, dfs_step(edges, w), (fuel - 1) as nat)
    }
}

/// The walk before any step: nothing seen, the first root next.
pub open spec fn dfs_start(edges: Seq<Vec<Edge>>) -> Walk {
    Walk {
        marks: Seq::new(edges.len(), |i: int| Mark::NotSeen),
        stack: Seq::empty(),
        order: Seq::empty(),
        root: 0,
    }
}

/// What is left of the walk: every step lessens it.
pub open spec fn dfs_left(edges: Seq<Vec<Edge>>, w: Walk) -> int {
    unseen_work(edges, w.marks, edges.len() as int) + frame_work(edges, w.stack) + (edges.len() - w.root)
}

/// The targets in the order a depth-first walk finishes them, roots taken
/// in increasing number and dependencies in the order they are declared.
pub open spec fn dfs_order(edges: Seq<Vec<Edge>>) -> Seq<TargetId> {
    dfs_run(edges, dfs_start(edges), dfs_left(edges, dfs_start(edges)) as nat).order
}

proof fn lemma_dfs_run_still(edges: Seq<Vec<Edge>>, w: Walk, fuel: nat)
    requires
        dfs_step(edges, w) == w,
    ensures
        dfs_run(edges, w, fuel) == w,
    decreases fuel,
{
    if fuel > 0 {
        lemma_dfs_run_still(edges, w, (fuel - 1) as nat);
    }
}

/// Whether a target is the target of one of the frames.
spec fn on_stack(stack: Seq<(TargetId, usize)>, t: TargetId) -> bool {
    exists|p: int| 0 <= p < stack.len() && (#[trigger] stack[p]).0 == t
}

/// A cycle: each target depends on the next, and the last on the first.
pub open spec fn is_cycle(edges: Seq<Vec<Edge>>, c: Seq<TargetId>) -> bool {
    &&& c.len() > 0
    &&& forall|i: int| 0 <= i < c.len() - 1 ==> #[trigger] dep_ids(edges, c[i]).contains(c[i + 1])
    &&& dep_ids(edges, c.last()).contains(c[0])
}

/// Whether some targets depend on each other in a cycle.
pub open spec fn has_cycle(edges: Seq<Vec<Edge>>) -> bool {
    exists|c: Seq<TargetId>| is_cycle(edges, c)
}

/// Each frame below the top has moved past the dependency that the frame
/// above it is working on.
spec fn chained(edges: Seq<Vec<Edge>>, stack: Seq<(TargetId, usize)>) -> bool {
    forall|p: int|
        0 <= p < stack.len() - 1 ==> (#[trigger] stack[p]).1 >= 1 && stack[p].1 <= deps_m(edges, stack[p].0).len()
            && stack[p + 1].0 == dep_at(edges, stack[p].0, stack[p].1 - 1)
}

proof fn lemma_dep_at_in(edges: Seq<Vec<Edge>>, t: TargetId, k: int)
    requires
        0 <= k < deps_m(edges, t).len(),
    ensures
        dep_ids(edges, t).contains(dep_at(edges, t, k)),
{
    assert(dep_ids(edges, t)[k] == dep_at(edges, t, k));
}

proof fn lemma_chained_pop(edges: Seq<Vec<Edge>>, stk: Seq<(TargetId, usize)>)
    requires
        chained(edges, stk),
        stk.len() > 0,
    ensures
        chained(edges, stk.drop_last()),
{
    let s1 = stk.drop_last();
    assert forall|p: int| 0 <= p < s1.len() - 1 implies (#[trigger] s1[p]).1 >= 1 && s1[p].1 <= deps_m(edges, s1[p].0).len()
        && s1[p + 1].0 == dep_at(edges, s1[p].0, s1[p].1 - 1) by {
        assert(s1[p] == stk[p] && s1[p + 1] == stk[p + 1]);
    }
}

proof fn lemma_chained_advance(edges: Seq<Vec<Edge>>, stk: Seq<(TargetId, usize)>)
    requires
        chained(edges, stk),
        stk.len() > 0,
        stk.last().1 < deps_m(edges, stk.last().0).len(),
    ensures
        chained(edges, stk.drop_last().push((stk.last().0, (stk.last().1 + 1) as usize))),
{
    let s1 = stk.drop_last().push((stk.last().0, (stk.last().1 + 1) as usize));
    assert forall|p: int| 0 <= p < s1.len() - 1 implies (#[trigger] s1[p]).1 >= 1 && s1[p].1 <= deps_m(edges, s1[p].0).len()
        && s1[p + 1].0 == dep_at(edges, s1[p].0, s1[p].1 - 1) by {
        assert(s1[p] == stk[p]);
        assert(s1[p + 1].0 == stk[p + 1].0);
    }
}

proof fn lemma_chained_push(edges: Seq<Vec<Edge>>, stk: Seq<(TargetId, usize)>, next: TargetId)
    requires
        chained(edges, stk),
        stk.len() > 0,
        1 <= stk.last().1 <= deps_m(edges, stk.last().0).len(),
        next == dep_at(edges, stk.last().0, stk.last().1 - 1),
    ensures
        chained(edges, stk.push((next, 0usize))),
{
    let s1 = stk.push((next, 0usize));
    assert forall|p: int| 0 <= p < s1.len() - 1 implies (#[trigger] s1[p]).1 >= 1 && s1[p].1 <= deps_m(edges, s1[p].0).len()
        && s1[p + 1].0 == dep_at(edges, s1[p].0, s1[p].1 - 1) by {
        assert(s1[p] == stk[p]);
        if p + 1 < stk.len() {
            assert(s1[p + 1] == stk[p + 1]);
        }
    }
}

/// An edge from the top of the stack back to a target on it closes a cycle.
proof fn lemma_stack_cycle(edges: Seq<Vec<Edge>>, stk: Seq<(TargetId, usize)>, q: int, idx: int)
    requires
        chained(edges, stk),
        0 <= q < stk.len(),
        0 <= idx < deps_m(edges, stk.last().0).len(),
        stk[q].0 == dep_at(edges, stk.last().0, idx),
    ensures
        has_cycle(edges),
{
    let c = stk.subrange(q, stk.len() as int).map_values(|f: (TargetId, usize)| f.0);
    assert forall|i: int| 0 <= i < c.len() - 1 implies #[trigger] dep_ids(edges, c[i]).contains(c[i + 1]) by {
        assert(stk[q + i].1 >= 1);
        lemma_dep_at_in(edges, stk[q + i].0, stk[q + i].1 - 1);
    }
    assert(c.last() == stk.last().0);
    lemma_dep_at_in(edges, stk.last().0, idx);
    assert(is_cycle(edges, c));
}

/// Walking a cycle from its last target, each next one stands earlier in an
/// order that puts dependencies first.
proof fn lemma_walk_back(edges: Seq<Vec<Edge>>, o: Seq<TargetId>, c: Seq<TargetId>, i: int, kl: int)
    requires
        is_cycle(edges, c),
        0 <= i < c.len(),
        0 <= kl < o.len(),
        o[kl] == c.last(),
        forall|m: int| 0 <= m < o.len() ==> #[trigger] deps_before(edges, o, m),
    ensures
        exists|j: int| 0 <= j <= kl - 1 - i && o[j] == c[i],
    decreases i,
{
    let (from, at) = if i == 0 {
        (kl, c[0])
    } else {
        lemma_walk_back(edges, o, c, i - 1, kl);
        let j = choose|j: int| 0 <= j <= kl - 1 - (i - 1) && o[j] == c[i - 1];
        (j, c[i])
    };
    let ds = dep_ids(edges, o[from]);
    assert(deps_before(edges, o, from));
    if i > 0 {
        let h = i - 1;
        assert(0 <= h < c.len() - 1);
        assert(dep_ids(edges, c[h]).contains(c[h + 1]));
        assert(h + 1 == i);
    }
    assert(ds.contains(at));
    let k = choose|k: int| 0 <= k < ds.len() && ds[k] == at;
    assert(o.take(from).contains(ds[k]));
    let m = choose|m: int| 0 <= m < o.take(from).len() && o.take(from)[m] == at;
    assert(o[m] == c[i]);
}

/// No order of distinct targets that puts every dependency before its
/// dependent holds all of a cycle: such an order rules out any cycle.
pub proof fn law_order_rules_out_cycles(edges: Seq<Vec<Edge>>, o: Seq<TargetId>, c: Seq<TargetId>)
    requires
        o.no_duplicates(),
        forall|i: int| 0 <= i < o.len() ==> #[trigger] deps_before(edges, o, i),
        forall|i: int| 0 <= i < c.len() ==> o.contains(#[trigger] c[i]),
    ensures
        !is_cycle(edges, c),
{
    if is_cycle(edges, c) {
        let n = c.len();
        assert(o.contains(c[n - 1]));
        let kl = choose|k: int| 0 <= k < o.len() && o[k] == c[n - 1];
        lemma_walk_back(edges, o, c, n - 1, kl);
        let j = choose|j: int| 0 <= j <= kl - 1 - (n - 1) && o[j] == c[n - 1];
        assert(o[j] == o[kl]);
    }
}

/// The dependencies a frame has looked at are done, but for the last,
/// which may be the target of the frame above.
spec fn frame_ok(edges: Seq<Vec<Edge>>, marks: Seq<Mark>, stack: Seq<(TargetId, usize)>, p: int) -> bool {
    forall|k: int|
        0 <= k < stack[p].1 ==> marks[#[trigger] dep_at(edges, stack[p].0, k).0 as int] == Mark::Done || (k
            == stack[p].1 - 1 && p + 1 < stack.len() && stack[p + 1].0 == dep_at(edges, stack[p].0, k))
}

/// The `k`-th dependency of a target.
pub open spec fn dep_at(edges: Seq<Vec<Edge>>, t: TargetId, k: int) -> TargetId {
    deps_m(edges, t)[k].to
}

/// The dependencies of the `i`-th target of the order come before it.
pub open spec fn deps_before(edges: Seq<Vec<Edge>>, order: Seq<TargetId>, i: int) -> bool {
    forall|k: int| 0 <= k < dep_ids(edges, order[i]).len() ==> order.take(i).contains(#[trigger] dep_ids(edges, order[i])[k])
}

/// Whether a target is `t`.
pub open spec fn same_target(t: TargetId) -> spec_fn(TargetId) -> bool {
    |x: TargetId| x == t
}

/// Where `t` first stands in `path`.
fn position_of(path: &[TargetId], t: TargetId) -> (r: Option<usize>)
    ensures
        match r {
            Some(i) => crate::specialize::first_index(path@, same_target(t)) == Some(i as int),
            None => crate::specialize::first_index(path@, same_target(t)) is None,
        },
{
    let mut i: usize = 0;
    while i < path.len()
        invariant
            i <= path@.len(),
            crate::specialize::first_index(path@.take(i as int), same_target(t)) is None,
        decreases path.len() - i,
    {
        proof {
            crate::specialize::lemma_first_index_step(path@, same_target(t), i as int);
        }
        if path[i] == t {
            proof {
                assert(same_target(t)(path@[i as int]));
                crate::specialize::lemma_first_index_prefix(path@, same_target(t), i + 1);
            }
            return Some(i);
        }
        assert(!same_target(t)(path@[i as int]));
        i += 1;
    }
    assert(path@.take(i as int) =~= path@);
    None
}

/// The chain a cycle diagnostic shows: from where the cycle starts on the
/// path down to the target that closes it.
pub open spec fn cycle_chain(labels: Seq<Seq<char>>, path: Seq<TargetId>, back_to: TargetId) -> Seq<char> {
    let start = match crate::specialize::first_index(path, same_target(back_to)) {
        Some(i) => i,
        None => 0,
    };
    crate::manifest::joined(
        path.skip(start).map_values(|t: TargetId| labels[t.0 as int]).push(labels[back_to.0 as int]),
        " → "@,
    )
}

pub open spec fn cycle_diag_m(labels: Seq<Seq<char>>, path: Seq<TargetId>, back_to: TargetId, site: Site) -> DiagM {
    crate::manifest::noted(
        crate::manifest::noted(
            crate::manifest::error_m("dependency-cycle"@, "dependency cycle"@, site, "this edge closes the cycle"@),
            cycle_chain(labels, path, back_to),
        ),
        "like templates, cycles in the dependency graph are detected statically and fail"@,
    )
}

/// The diagnostic of an edge that closes a cycle.
fn cycle_diagnostic(labels: &[String], path: &[TargetId], back_to: TargetId, site: Site) -> (d: Diagnostic)
    requires
        back_to.0 < labels@.len(),
        forall|i: int| 0 <= i < path@.len() ==> (#[trigger] path@[i]).0 < labels@.len(),
    ensures
        diag_m(d) == cycle_diag_m(strings_view(labels@), path@, back_to, site),
{
    let ghost lv = strings_view(labels@);
    let start: usize = match position_of(path, back_to) {
        Some(i) => i,
        None => 0,
    };
    proof {
        crate::specialize::lemma_first_index(path@, same_target(back_to));
    }
    let mut chain: Vec<String> = Vec::new();
    let mut i: usize = start;
    assert(strings_view(chain@) =~= path@.subrange(start as int, i as int).map_values(|t: TargetId| lv[t.0 as int]));
    while i < path.len()
        invariant
            start <= i <= path@.len(),
            lv == strings_view(labels@),
            forall|m: int| 0 <= m < path@.len() ==> (#[trigger] path@[m]).0 < labels@.len(),
            strings_view(chain@) == path@.subrange(start as int, i as int).map_values(|t: TargetId| lv[t.0 as int]),
        decreases path.len() - i,
    {
        let ghost prev = chain@;
        chain.push(copy_string(&labels[path[i].0]));
        assert(strings_view(chain@) =~= strings_view(prev).push(lv[path@[i as int].0 as int]));
        assert(path@.subrange(start as int, i + 1).map_values(|t: TargetId| lv[t.0 as int]) =~= path@.subrange(
            start as int,
            i as int,
        ).map_values(|t: TargetId| lv[t.0 as int]).push(lv[path@[i as int].0 as int]));
        i += 1;
    }
    let ghost prev = chain@;
    chain.push(copy_string(&labels[back_to.0]));
    let text = crate::manifest::join_strings(chain.as_slice(), " → ");
    let mut d = crate::manifest::error_at(
        "dependency-cycle",
        owned("dependency cycle"),
        site,
        owned("this edge closes the cycle"),
    );
    d.note(text);
    d.note(owned("like templates, cycles in the dependency graph are detected statically and fail"));
    proof {
        assert(path@.subrange(start as int, path@.len() as int) =~= path@.skip(start as int));
        assert(strings_view(chain@) =~= path@.skip(start as int).map_values(|t: TargetId| lv[t.0 as int]).push(
            lv[back_to.0 as int],
        ));
        assert(diag_m(d) == cycle_diag_m(lv, path@, back_to, site));
    }
    d
}


proof fn lemma_frame_work_push(edges: Seq<Vec<Edge>>, s: Seq<(TargetId, usize)>, f: (TargetId, usize))
    ensures
        frame_work(edges, s.push(f)) == frame_work(edges, s) + (deps_m(edges, f.0).len() - f.1 + 1),
{
    assert(s.push(f).drop_last() =~= s);
}

/// A dependency seen for the first time is entered: the frames keep their
/// shape.
proof fn step_push_new(
    edges: Seq<Vec<Edge>>,
    marks: Seq<Mark>,
    stk0: Seq<(TargetId, usize)>,
    stk1: Seq<(TargetId, usize)>,
    node: TargetId,
    idx: usize,
    next: TargetId,
    n: int,
)
    requires
        n <= usize::MAX,
        n == marks.len(),
        n == edges.len(),
        stk0 == stk1.push((node, idx)),
        next.0 < n,
        idx < deps_m(edges, node).len(),
        !on_stack(stk0, next),
        forall|v: int| 0 <= v < n ==> (marks[v] == Mark::InProgress) == on_stack(stk0, TargetId(v as usize)),
        forall|p: int, q: int| 0 <= p < q < stk0.len() ==> (#[trigger] stk0[p]).0 != (#[trigger] stk0[q]).0,
        forall|p: int| 0 <= p < stk0.len() ==> (#[trigger] stk0[p]).0.0 < n && stk0[p].1 <= deps_m(edges, stk0[p].0).len(),
    ensures
        ({
            let s = stk1.push((node, (idx + 1) as usize)).push((next, 0usize));
            let m = marks.update(next.0 as int, Mark::InProgress);
            &&& forall|v: int| 0 <= v < n ==> (m[v] == Mark::InProgress) == on_stack(s, TargetId(v as usize))
            &&& forall|p: int, q: int| 0 <= p < q < s.len() ==> (#[trigger] s[p]).0 != (#[trigger] s[q]).0
            &&& forall|p: int| 0 <= p < s.len() ==> (#[trigger] s[p]).0.0 < n && s[p].1 <= deps_m(edges, s[p].0).len()
        }),
{
    let s = stk1.push((node, (idx + 1) as usize)).push((next, 0usize));
    let m = marks.update(next.0 as int, Mark::InProgress);
    assert forall|p: int| 0 <= p < s.len() implies (#[trigger] s[p]).0 == (if p < stk0.len() { stk0[p].0 } else { next }) by {
        if p < stk1.len() {
            assert(s[p] == stk1[p] && stk0[p] == stk1[p]);
        }
    }
    assert forall|v: int| 0 <= v < n implies (m[v] == Mark::InProgress) == on_stack(s, TargetId(v as usize)) by {
        if on_stack(s, TargetId(v as usize)) {
            let p = choose|p: int| 0 <= p < s.len() && (#[trigger] s[p]).0 == TargetId(v as usize);
            if p < stk0.len() {
                assert(stk0[p].0 == TargetId(v as usize));
                assert(on_stack(stk0, TargetId(v as usize)));
            } else {
                assert(TargetId(v as usize) == next);
            }
        }
        if v == next.0 {
            assert(s[s.len() - 1].0 == next);
            assert(TargetId(v as usize) == next);
        } else if m[v] == Mark::InProgress {
            assert(on_stack(stk0, TargetId(v as usize)));
            let p = choose|p: int| 0 <= p < stk0.len() && (#[trigger] stk0[p]).0 == TargetId(v as usize);
            assert(s[p].0 == TargetId(v as usize));
        }
    }
    assert forall|p: int, q: int| 0 <= p < q < s.len() implies (#[trigger] s[p]).0 != (#[trigger] s[q]).0 by {
        if q == s.len() - 1 {
            assert(s[p].0 == stk0[p].0);
            if stk0[p].0 == next {
                assert(on_stack(stk0, next));
            }
        } else {
            assert(s[p].0 == stk0[p].0 && s[q].0 == stk0[q].0);
        }
    }
    assert forall|p: int| 0 <= p < s.len() implies (#[trigger] s[p]).0.0 < n && s[p].1 <= deps_m(edges, s[p].0).len() by {
        if p < stk1.len() {
            assert(s[p] == stk0[p]);
        }
    }
}

/// Looking at a dependency that is in progress or done leaves the frames
/// as they were, the top one a step further.
proof fn step_keep(
    edges: Seq<Vec<Edge>>,
    marks: Seq<Mark>,
    stk0: Seq<(TargetId, usize)>,
    stk1: Seq<(TargetId, usize)>,
    node: TargetId,
    idx: usize,
    n: int,
)
    requires
        n <= usize::MAX,
        n == marks.len(),
        stk0 == stk1.push((node, idx)),
        idx < deps_m(edges, node).len(),
        forall|v: int| 0 <= v < n ==> (marks[v] == Mark::InProgress) == on_stack(stk0, TargetId(v as usize)),
        forall|p: int, q: int| 0 <= p < q < stk0.len() ==> (#[trigger] stk0[p]).0 != (#[trigger] stk0[q]).0,
        forall|p: int| 0 <= p < stk0.len() ==> (#[trigger] stk0[p]).0.0 < n && stk0[p].1 <= deps_m(edges, stk0[p].0).len(),
    ensures
        ({
            let s = stk1.push((node, (idx + 1) as usize));
            &&& forall|v: int| 0 <= v < n ==> (marks[v] == Mark::InProgress) == on_stack(s, TargetId(v as usize))
            &&& forall|p: int, q: int| 0 <= p < q < s.len() ==> (#[trigger] s[p]).0 != (#[trigger] s[q]).0
            &&& forall|p: int| 0 <= p < s.len() ==> (#[trigger] s[p]).0.0 < n && s[p].1 <= deps_m(edges, s[p].0).len()
        }),
{
    let s = stk1.push((node, (idx + 1) as usize));
    assert forall|p: int| 0 <= p < s.len() implies (#[trigger] s[p]).0 == stk0[p].0 by {
        if p < stk1.len() {
            assert(s[p] == stk1[p] && stk0[p] == stk1[p]);
        }
    }
    assert forall|v: int| 0 <= v < n implies (marks[v] == Mark::InProgress) == on_stack(s, TargetId(v as usize)) by {
        if on_stack(s, TargetId(v as usize)) {
            let p = choose|p: int| 0 <= p < s.len() && (#[trigger] s[p]).0 == TargetId(v as usize);
            assert(stk0[p].0 == TargetId(v as usize));
        }
        if on_stack(stk0, TargetId(v as usize)) {
            let p = choose|p: int| 0 <= p < stk0.len() && (#[trigger] stk0[p]).0 == TargetId(v as usize);
            assert(s[p].0 == TargetId(v as usize));
        }
    }
    assert forall|p: int, q: int| 0 <= p < q < s.len() implies (#[trigger] s[p]).0 != (#[trigger] s[q]).0 by {
        assert(s[p].0 == stk0[p].0 && s[q].0 == stk0[q].0);
    }
    assert forall|p: int| 0 <= p < s.len() implies (#[trigger] s[p]).0.0 < n && s[p].1 <= deps_m(edges, s[p].0).len() by {
        if p < stk1.len() {
            assert(s[p] == stk0[p]);
        }
    }
}

/// Entering a new dependency keeps every frame's looked-at dependencies
/// done, the new one standing above its frame.
proof fn step_frame_new(
    edges: Seq<Vec<Edge>>,
    marks: Seq<Mark>,
    stk0: Seq<(TargetId, usize)>,
    stk1: Seq<(TargetId, usize)>,
    node: TargetId,
    idx: usize,
    next: TargetId,
    p: int,
)
    requires
        edges_wf(edges),
        marks.len() == edges.len(),
        forall|q: int| 0 <= q < stk0.len() ==> (#[trigger] stk0[q]).0.0 < edges.len() && stk0[q].1 <= deps_m(edges, stk0[q].0).len(),
        stk0 == stk1.push((node, idx)),
        idx < deps_m(edges, node).len(),
        next == dep_at(edges, node, idx as int),
        marks[next.0 as int] == Mark::NotSeen,
        forall|q: int| 0 <= q < stk0.len() ==> #[trigger] frame_ok(edges, marks, stk0, q),
        0 <= p < stk1.len() + 2,
    ensures
        frame_ok(
            edges,
            marks.update(next.0 as int, Mark::InProgress),
            stk1.push((node, (idx + 1) as usize)).push((next, 0usize)),
            p,
        ),
{
    let s = stk1.push((node, (idx + 1) as usize)).push((next, 0usize));
    let m = marks.update(next.0 as int, Mark::InProgress);
    if p < stk1.len() {
        assert(frame_ok(edges, marks, stk0, p));
        assert(s[p] == stk0[p]);
        assert(s[p + 1].0 == stk0[p + 1].0) by {
            if p + 1 < stk1.len() {
                assert(s[p + 1] == stk0[p + 1]);
            }
        }
        assert forall|k: int| 0 <= k < s[p].1 implies m[#[trigger] dep_at(edges, s[p].0, k).0 as int] == Mark::Done || (k
            == s[p].1 - 1 && p + 1 < s.len() && s[p + 1].0 == dep_at(edges, s[p].0, k)) by {
            let d = dep_at(edges, stk0[p].0, k);
            assert(edges[stk0[p].0.0 as int]@[k] == deps_m(edges, stk0[p].0)[k]);
            assert(d.0 < edges.len());
            if marks[d.0 as int] == Mark::Done {
                assert(d.0 != next.0);
                assert(m[d.0 as int] == marks[d.0 as int]);
            }
        }
    } else if p == stk1.len() {
        assert(frame_ok(edges, marks, stk0, p));
        assert(stk0[p] == (node, idx));
        assert forall|k: int| 0 <= k < s[p].1 implies m[#[trigger] dep_at(edges, s[p].0, k).0 as int] == Mark::Done || (k
            == s[p].1 - 1 && p + 1 < s.len() && s[p + 1].0 == dep_at(edges, s[p].0, k)) by {
            if k < idx {
                let d = dep_at(edges, node, k);
                assert(edges[node.0 as int]@[k] == deps_m(edges, node)[k]);
                assert(d.0 < edges.len());
                assert(marks[d.0 as int] == Mark::Done);
                assert(d.0 != next.0);
                assert(m[d.0 as int] == marks[d.0 as int]);
            }
        }
    }
}

/// Passing a dependency that is done keeps every frame as it was.
proof fn step_frame_done(
    edges: Seq<Vec<Edge>>,
    marks: Seq<Mark>,
    stk0: Seq<(TargetId, usize)>,
    stk1: Seq<(TargetId, usize)>,
    node: TargetId,
    idx: usize,
    p: int,
)
    requires
        stk0 == stk1.push((node, idx)),
        idx < deps_m(edges, node).len(),
        marks[dep_at(edges, node, idx as int).0 as int] == Mark::Done,
        forall|q: int| 0 <= q < stk0.len() ==> #[trigger] frame_ok(edges, marks, stk0, q),
        0 <= p < stk1.len() + 1,
    ensures
        frame_ok(edges, marks, stk1.push((node, (idx + 1) as usize)), p),
{
    let s = stk1.push((node, (idx + 1) as usize));
    assert(frame_ok(edges, marks, stk0, p));
    if p < stk1.len() {
        assert(s[p] == stk0[p]);
        assert(s[p + 1].0 == stk0[p + 1].0) by {
            if p + 1 < stk1.len() {
                assert(s[p + 1] == stk0[p + 1]);
            }
        }
    } else {
        assert(stk0[p] == (node, idx));
    }
}

/// Leaving a target whose dependencies are all looked at: it is done, and
/// each of its dependencies came before it.
proof fn step_finish(
    edges: Seq<Vec<Edge>>,
    marks: Seq<Mark>,
    stk0: Seq<(TargetId, usize)>,
    stk1: Seq<(TargetId, usize)>,
    ord0: Seq<TargetId>,
    node: TargetId,
    idx: usize,
    n: int,
    clean: bool,
)
    requires
        edges_wf(edges),
        n == edges.len(),
        n <= usize::MAX,
        n == marks.len(),
        stk0 == stk1.push((node, idx)),
        idx == deps_m(edges, node).len(),
        node.0 < n,
        TargetId(node.0 as usize) == node,
        !on_stack(stk1, node),
        !ord0.contains(node),
        forall|v: int| 0 <= v < n ==> (marks[v] == Mark::Done) == ord0.contains(TargetId(v as usize)),
        forall|v: int| 0 <= v < n ==> (marks[v] == Mark::InProgress) == on_stack(stk0, TargetId(v as usize)),
        forall|v: int| 0 <= v < n ==> #[trigger] on_stack(stk0, TargetId(v as usize)) == (on_stack(stk1, TargetId(v as usize))
            || node == TargetId(v as usize)),
        forall|p: int, q: int| 0 <= p < q < stk0.len() ==> (#[trigger] stk0[p]).0 != (#[trigger] stk0[q]).0,
        forall|p: int| 0 <= p < stk0.len() ==> (#[trigger] stk0[p]).0.0 < n && stk0[p].1 <= deps_m(edges, stk0[p].0).len(),
        ord0.no_duplicates(),
        forall|i: int| 0 <= i < ord0.len() ==> (#[trigger] ord0[i]).0 < n,
        clean ==> forall|q: int| 0 <= q < stk0.len() ==> #[trigger] frame_ok(edges, marks, stk0, q),
        clean ==> forall|i: int| 0 <= i < ord0.len() ==> #[trigger] deps_before(edges, ord0, i),
    ensures
        ({
            let m = marks.update(node.0 as int, Mark::Done);
            let o = ord0.push(node);
            &&& forall|v: int| 0 <= v < n ==> (m[v] == Mark::Done) == o.contains(TargetId(v as usize))
            &&& forall|v: int| 0 <= v < n ==> (m[v] == Mark::InProgress) == on_stack(stk1, TargetId(v as usize))
            &&& forall|p: int, q: int| 0 <= p < q < stk1.len() ==> (#[trigger] stk1[p]).0 != (#[trigger] stk1[q]).0
            &&& forall|p: int| 0 <= p < stk1.len() ==> (#[trigger] stk1[p]).0.0 < n && stk1[p].1 <= deps_m(edges, stk1[p].0).len()
            &&& o.no_duplicates()
            &&& forall|i: int| 0 <= i < o.len() ==> (#[trigger] o[i]).0 < n
            &&& clean ==> forall|q: int| 0 <= q < stk1.len() ==> #[trigger] frame_ok(edges, m, stk1, q)
            &&& clean ==> forall|i: int| 0 <= i < o.len() ==> #[trigger] deps_before(edges, o, i)
        }),
{
    let m = marks.update(node.0 as int, Mark::Done);
    let o = ord0.push(node);
    assert forall|p: int| 0 <= p < stk1.len() implies stk1[p] == stk0[p] by {}
    assert forall|v: int| 0 <= v < n implies (m[v] == Mark::Done) == o.contains(TargetId(v as usize)) by {
        if v == node.0 {
            assert(o[o.len() - 1] == node);
        } else {
            if o.contains(TargetId(v as usize)) {
                let i = choose|i: int| 0 <= i < o.len() && o[i] == TargetId(v as usize);
                assert(i < ord0.len());
                assert(ord0[i] == TargetId(v as usize));
            }
            if ord0.contains(TargetId(v as usize)) {
                let i = choose|i: int| 0 <= i < ord0.len() && ord0[i] == TargetId(v as usize);
                assert(o[i] == TargetId(v as usize));
            }
        }
    }
    assert forall|v: int| 0 <= v < n implies (m[v] == Mark::InProgress) == on_stack(stk1, TargetId(v as usize)) by {
        if v == node.0 {
            assert(TargetId(v as usize) == node);
        }
    }
    assert forall|p: int, q: int| 0 <= p < q < stk1.len() implies (#[trigger] stk1[p]).0 != (#[trigger] stk1[q]).0 by {
        assert(stk1[p] == stk0[p] && stk1[q] == stk0[q]);
    }
    assert forall|p: int| 0 <= p < stk1.len() implies (#[trigger] stk1[p]).0.0 < n && stk1[p].1 <= deps_m(edges, stk1[p].0).len() by {
        assert(stk1[p] == stk0[p]);
    }
    assert(o.no_duplicates()) by {
        assert forall|a: int, b: int| 0 <= a < b < o.len() implies o[a] != o[b] by {
            if b == o.len() - 1 {
                assert(ord0[a] == o[a]);
            } else {
                assert(ord0[a] == o[a] && ord0[b] == o[b]);
            }
        }
    }
    assert forall|i: int| 0 <= i < o.len() implies (#[trigger] o[i]).0 < n by {
        if i < ord0.len() {
            assert(o[i] == ord0[i]);
        }
    }
    if clean {
        let top = stk0.len() - 1;
        assert(frame_ok(edges, marks, stk0, top));
        assert(stk0[top] == (node, idx));
        assert forall|q: int| 0 <= q < stk1.len() implies #[trigger] frame_ok(edges, m, stk1, q) by {
            assert(frame_ok(edges, marks, stk0, q));
            assert(stk1[q] == stk0[q]);
            assert forall|k: int| 0 <= k < stk1[q].1 implies m[#[trigger] dep_at(edges, stk1[q].0, k).0 as int] == Mark::Done || (k
                == stk1[q].1 - 1 && q + 1 < stk1.len() && stk1[q + 1].0 == dep_at(edges, stk1[q].0, k)) by {
                let d = dep_at(edges, stk0[q].0, k);
                if marks[d.0 as int] != Mark::Done {
                    assert(k == stk0[q].1 - 1 && q + 1 < stk0.len() && stk0[q + 1].0 == d);
                    if q + 1 == stk1.len() {
                        assert(d == node);
                    } else {
                        assert(stk1[q + 1] == stk0[q + 1]);
                    }
                }
            }
        }
        assert forall|i: int| 0 <= i < o.len() implies #[trigger] deps_before(edges, o, i) by {
            if i < ord0.len() {
                assert(deps_before(edges, ord0, i));
                assert(o.take(i) =~= ord0.take(i));
                assert(o[i] == ord0[i]);
            } else {
                assert(o.take(i) =~= ord0);
                assert(o[i] == node);
                assert forall|k: int| 0 <= k < dep_ids(edges, node).len() implies o.take(i).contains(#[trigger] dep_ids(edges, node)[k]) by {
                    let d = dep_at(edges, node, k);
                    assert(dep_ids(edges, node)[k] == d);
                    assert(marks[d.0 as int] == Mark::Done);
                    assert(edges[node.0 as int]@[k] == deps_m(edges, node)[k]);
                    assert(d.0 < n);
                    assert(TargetId(d.0 as usize) == d);
                    assert(ord0.contains(TargetId(d.0 as usize)));
                }
            }
        }
    }
}

/// The targets ordered depth first, dependencies before dependents. An
/// edge that closes a cycle is reported and passed over, and ordering goes
/// on. Targets are started from in increasing number.
pub fn topological_order(labels: &[String], edges: &Vec<Vec<Edge>>) -> (r: (Vec<TargetId>, Vec<Diagnostic>))
    requires
        edges_wf(edges@),
        labels@.len() == edges@.len(),
    ensures
        r.0@.no_duplicates(),
        forall|t: TargetId| t.0 < edges@.len() ==> #[trigger] r.0@.contains(t),
        forall|i: int| 0 <= i < r.0@.len() ==> (#[trigger] r.0@[i]).0 < edges@.len(),
        r.1@.len() == 0 ==> forall|i: int, j: int|
            0 <= i < j < r.0@.len() ==> !(#[trigger] dep_ids(edges@, r.0@[i])).contains(#[trigger] r.0@[j]),
        forall|d: int| 0 <= d < r.1@.len() ==> (#[trigger] diag_m(r.1@[d])).code == "dependency-cycle"@,
        r.1@.len() > 0 ==> has_cycle(edges@),
        r.0@ == dfs_order(edges@),
{
    let ghost ev = edges@;
    let n = edges.len();
    let mut marks: Vec<Mark> = Vec::new();
    while marks.len() < n
        invariant
            marks@.len() <= n,
            forall|v: int| 0 <= v < marks@.len() ==> marks@[v] == Mark::NotSeen,
        decreases n - marks.len(),
    {
        marks.push(Mark::NotSeen);
    }
    let mut order: Vec<TargetId> = Vec::new();
    let mut diags: Vec<Diagnostic> = Vec::new();
    let mut path: Vec<TargetId> = Vec::new();
    let mut root: usize = 0;
    let ghost init = dfs_start(ev);
    let ghost big = dfs_left(ev, init);
    let ghost mut k: int = 0;
    assert(marks@ =~= init.marks);
    assert(order@ =~= init.order);
    assert(Walk { marks: marks@, stack: Seq::empty(), order: order@, root: 0 } == init);
    while root < n
        invariant
            0 <= k,
            k + dfs_left(ev, Walk { marks: marks@, stack: Seq::empty(), order: order@, root: root as int }) <= big,
            dfs_run(ev, Walk { marks: marks@, stack: Seq::empty(), order: order@, root: root as int }, (big - k) as nat)
                == dfs_run(ev, init, big as nat),
            ev == edges@,
            n == ev.len(),
            labels@.len() == n,
            edges_wf(ev),
            marks@.len() == n,
            root <= n,
            forall|v: int| 0 <= v < root ==> marks@[v] == Mark::Done,
            forall|v: int| 0 <= v < n ==> marks@[v] != Mark::InProgress,
            forall|v: int| 0 <= v < n ==> (marks@[v] == Mark::Done) == order@.contains(TargetId(v as usize)),
            order@.no_duplicates(),
            forall|i: int| 0 <= i < order@.len() ==> (#[trigger] order@[i]).0 < n,
            path@.len() == 0,
            diags@.len() == 0 ==> forall|i: int| 0 <= i < order@.len() ==> #[trigger] deps_before(ev, order@, i),
            forall|d: int| 0 <= d < diags@.len() ==> (#[trigger] diag_m(diags@[d])).code == "dependency-cycle"@,
            diags@.len() > 0 ==> has_cycle(ev),
        decreases n - root,
    {
        let ghost w0 = Walk { marks: marks@, stack: Seq::empty(), order: order@, root: root as int };
        proof {
            lemma_unseen_work_nonneg(ev, marks@, n as int);
        }
        if marks[root] != Mark::NotSeen {
            root += 1;
            proof {
                let w1 = Walk { marks: marks@, stack: Seq::empty(), order: order@, root: root as int };
                assert(w1 == dfs_step(ev, w0));
                assert(dfs_run(ev, w0, (big - k) as nat) == dfs_run(ev, w1, (big - k - 1) as nat));
                k = k + 1;
            }
            continue;
        }
        let mut stack: Vec<(TargetId, usize)> = Vec::new();
        stack.push((TargetId(root), 0));
        marks.set(root, Mark::InProgress);
        path.push(TargetId(root));
        proof {
            lemma_unseen_work_nonneg(ev, marks@, n as int);
            lemma_frame_work_nonneg(ev, stack@);
            let w1 = Walk { marks: marks@, stack: stack@, order: order@, root: root as int };
            assert(stack@ =~= seq![(TargetId(root as usize), 0usize)]);
            assert(w1 == dfs_step(ev, w0));
            lemma_unseen_work_update(ev, w0.marks, root as int, Mark::InProgress, n as int);
            lemma_frame_work_push(ev, Seq::empty(), (TargetId(root as usize), 0usize));
            assert(Seq::<(TargetId, usize)>::empty().push((TargetId(root as usize), 0usize)) =~= stack@);
            assert(deps_m(ev, TargetId(root as usize)).len() == ev[root as int]@.len());
            assert(dfs_run(ev, w0, (big - k) as nat) == dfs_run(ev, w1, (big - k - 1) as nat));
            k = k + 1;
        }
        while stack.len() > 0
            invariant
                ev == edges@,
                n == ev.len(),
                labels@.len() == n,
                edges_wf(ev),
                marks@.len() == n,
                root < n,
                marks@[root as int] != Mark::NotSeen,
                forall|v: int| 0 <= v < root ==> marks@[v] == Mark::Done,
                forall|v: int| 0 <= v < n ==> (marks@[v] == Mark::Done) == order@.contains(TargetId(v as usize)),
                forall|v: int| 0 <= v < n ==> (marks@[v] == Mark::InProgress) == on_stack(stack@, TargetId(v as usize)),
                forall|p: int, q: int| 0 <= p < q < stack@.len() ==> (#[trigger] stack@[p]).0 != (#[trigger] stack@[q]).0,
                forall|p: int|
                    0 <= p < stack@.len() ==> (#[trigger] stack@[p]).0.0 < n && stack@[p].1 <= deps_m(ev, stack@[p].0).len(),
                path@ == stack@.map_values(|f: (TargetId, usize)| f.0),
                order@.no_duplicates(),
                forall|i: int| 0 <= i < order@.len() ==> (#[trigger] order@[i]).0 < n,
                diags@.len() == 0 ==> forall|p: int| 0 <= p < stack@.len() ==> #[trigger] frame_ok(ev, marks@, stack@, p),
                diags@.len() == 0 ==> forall|i: int| 0 <= i < order@.len() ==> #[trigger] deps_before(ev, order@, i),
                forall|d: int| 0 <= d < diags@.len() ==> (#[trigger] diag_m(diags@[d])).code == "dependency-cycle"@,
                diags@.len() > 0 ==> has_cycle(ev),
                chained(ev, stack@),
                unseen_work(ev, marks@, n as int) >= 0,
                frame_work(ev, stack@) >= 0,
                0 <= k,
                k + dfs_left(ev, Walk { marks: marks@, stack: stack@, order: order@, root: root as int }) <= big,
                dfs_run(ev, Walk { marks: marks@, stack: stack@, order: order@, root: root as int }, (big - k) as nat)
                    == dfs_run(ev, init, big as nat),
            decreases unseen_work(ev, marks@, n as int) + frame_work(ev, stack@),
        {
            let ghost w0 = Walk { marks: marks@, stack: stack@, order: order@, root: root as int };
            let ghost stk0 = stack@;
            let ghost mk0 = marks@;
            let ghost ord0 = order@;
            let ghost nd0 = diags@.len();
            let (node, idx) = stack.pop().unwrap();
            let ghost stk1 = stack@;
            proof {
                assert(stk0 =~= stk1.push((node, idx)));
                assert(stk0[stk0.len() - 1] == (node, idx));
                assert(node.0 < n && idx <= deps_m(ev, node).len());
                lemma_frame_work_push(ev, stk1, (node, idx));
                assert forall|v: int| 0 <= v < n implies #[trigger] on_stack(stk0, TargetId(v as usize)) == (on_stack(
                    stk1,
                    TargetId(v as usize),
                ) || node == TargetId(v as usize)) by {
                    if on_stack(stk0, TargetId(v as usize)) {
                        let p = choose|p: int| 0 <= p < stk0.len() && (#[trigger] stk0[p]).0 == TargetId(v as usize);
                        if p < stk1.len() {
                            assert(stk1[p] == stk0[p]);
                        }
                    }
                    if on_stack(stk1, TargetId(v as usize)) {
                        let p = choose|p: int| 0 <= p < stk1.len() && (#[trigger] stk1[p]).0 == TargetId(v as usize);
                        assert(stk0[p] == stk1[p]);
                    }
                }
                assert(!on_stack(stk1, node)) by {
                    if on_stack(stk1, node) {
                        let p = choose|p: int| 0 <= p < stk1.len() && (#[trigger] stk1[p]).0 == node;
                        assert(stk0[p] == stk1[p]);
                    }
                }
                assert(mk0[node.0 as int] == Mark::InProgress) by {
                    assert(on_stack(stk0, TargetId(node.0 as usize)));
                }
            }
            proof {
                assert(stk1 == stk0.drop_last());
                lemma_chained_pop(ev, stk0);
            }
            let deps = &edges[node.0];
            if idx < deps.len() {
                stack.push((node, idx + 1));
                proof {
                    lemma_chained_advance(ev, stk0);
                    assert(stack@ == stk0.drop_last().push((node, (idx + 1) as usize)));
                }
                let next = deps[idx].to;
                proof {
                    assert(deps@[idx as int] == deps_m(ev, node)[idx as int]);
                    assert(next == dep_at(ev, node, idx as int));
                    assert(ev[node.0 as int]@[idx as int] == deps@[idx as int]);
                    assert(next.0 < n);
                }
                match marks[next.0] {
                    Mark::NotSeen => {
                        let ghost before_push = stack@;
                        marks.set(next.0, Mark::InProgress);
                        path.push(next);
                        stack.push((next, 0));
                        proof {
                            lemma_chained_push(ev, before_push, next);
                            let stk2 = stk1.push((node, (idx + 1) as usize));
                            assert(stack@ == stk2.push((next, 0)));
                            lemma_frame_work_push(ev, stk1, (node, (idx + 1) as usize));
                            lemma_frame_work_push(ev, stk2, (next, 0));
                            lemma_unseen_work_update(ev, mk0, next.0 as int, Mark::InProgress, n as int);
                            assert(!on_stack(stk0, next)) by {
                                assert(mk0[next.0 as int] != Mark::InProgress);
                                assert(TargetId(next.0 as usize) == next);
                            }
                            step_push_new(ev, mk0, stk0, stk1, node, idx, next, n as int);
                            assert(path@ =~= stack@.map_values(|f: (TargetId, usize)| f.0));
                            assert forall|v: int| 0 <= v < n implies (marks@[v] == Mark::Done) == order@.contains(TargetId(v as usize)) by {
                                if v == next.0 {
                                    assert(TargetId(v as usize) == next);
                                }
                            }
                            if nd0 == 0 {
                                assert forall|p: int| 0 <= p < stack@.len() implies #[trigger] frame_ok(ev, marks@, stack@, p) by {
                                    step_frame_new(ev, mk0, stk0, stk1, node, idx, next, p);
                                }
                            }
                        }
                    },
                    Mark::InProgress => {
                        proof {
                            assert forall|i: int| 0 <= i < path@.len() implies (#[trigger] path@[i]).0 < labels@.len() by {
                                assert(path@[i] == stk0[i].0);
                            }
                        }
                        proof {
                            assert(on_stack(stk0, TargetId(next.0 as usize)));
                            assert(TargetId(next.0 as usize) == next);
                            let q = choose|q: int| 0 <= q < stk0.len() && (#[trigger] stk0[q]).0 == next;
                            assert(stk0.last() == (node, idx));
                            lemma_stack_cycle(ev, stk0, q, idx as int);
                        }
                        let d = cycle_diagnostic(labels, path.as_slice(), next, deps[idx].site);
                        let ghost dg0 = diags@;
                        crate::diag::push_diag(&mut diags, d);
                        proof {
                            assert(crate::diag::diags_m(diags@) == crate::diag::diags_m(dg0).push(diag_m(d)));
                            assert(diags@.len() == dg0.len() + 1);
                            assert forall|e: int| 0 <= e < diags@.len() implies (#[trigger] diag_m(diags@[e])).code == "dependency-cycle"@ by {
                                assert(diag_m(diags@[e]) == crate::diag::diags_m(diags@)[e]);
                                if e < dg0.len() {
                                    assert(crate::diag::diags_m(dg0)[e] == diag_m(dg0[e]));
                                }
                            }
                            let stk2 = stk1.push((node, (idx + 1) as usize));
                            assert(stack@ == stk2);
                            lemma_frame_work_push(ev, stk1, (node, (idx + 1) as usize));
                            step_keep(ev, mk0, stk0, stk1, node, idx, n as int);
                            assert(path@ =~= stack@.map_values(|f: (TargetId, usize)| f.0));
                        }
                    },
                    Mark::Done => {
                        proof {
                            let stk2 = stk1.push((node, (idx + 1) as usize));
                            assert(stack@ == stk2);
                            lemma_frame_work_push(ev, stk1, (node, (idx + 1) as usize));
                            step_keep(ev, mk0, stk0, stk1, node, idx, n as int);
                            assert(path@ =~= stack@.map_values(|f: (TargetId, usize)| f.0));
                            if nd0 == 0 {
                                assert forall|p: int| 0 <= p < stack@.len() implies #[trigger] frame_ok(ev, marks@, stack@, p) by {
                                    step_frame_done(ev, mk0, stk0, stk1, node, idx, p);
                                }
                            }
                        }
                    },
                }
            } else {
                marks.set(node.0, Mark::Done);
                path.pop();
                order.push(node);
                proof {
                    assert(stack@ == stk1);
                    lemma_unseen_work_same(ev, mk0, node.0 as int, Mark::Done, n as int);
                    assert(path@ =~= stack@.map_values(|f: (TargetId, usize)| f.0));
                    assert(TargetId(node.0 as usize) == node);
                    assert(!ord0.contains(node));
                    assert(order@ == ord0.push(node));
                    assert(marks@ == mk0.update(node.0 as int, Mark::Done));
                    step_finish(ev, mk0, stk0, stk1, ord0, node, idx, n as int, nd0 == 0);
                }
            }
            proof {
                lemma_unseen_work_nonneg(ev, marks@, n as int);
                lemma_frame_work_nonneg(ev, stack@);
                let w1 = Walk { marks: marks@, stack: stack@, order: order@, root: root as int };
                let ws = dfs_step(ev, w0);
                assert(ev[node.0 as int]@ == deps_m(ev, node));
                assert(w1.marks =~= ws.marks);
                assert(w1.stack =~= ws.stack);
                assert(w1.order =~= ws.order);
                assert(w1 == ws);
                assert(dfs_left(ev, w1) < dfs_left(ev, w0));
                assert(dfs_run(ev, w0, (big - k) as nat) == dfs_run(ev, w1, (big - k - 1) as nat));
                k = k + 1;
            }
        }
        let ghost w0 = Walk { marks: marks@, stack: Seq::empty(), order: order@, root: root as int };
        root += 1;
        proof {
            assert(stack@ =~= Seq::<(TargetId, usize)>::empty());
            let w1 = Walk { marks: marks@, stack: Seq::empty(), order: order@, root: root as int };
            assert(w1 == dfs_step(ev, w0));
            assert(dfs_run(ev, w0, (big - k) as nat) == dfs_run(ev, w1, (big - k - 1) as nat));
            k = k + 1;
        }
    }
    proof {
        let wend = Walk { marks: marks@, stack: Seq::empty(), order: order@, root: root as int };
        assert(dfs_step(ev, wend) == wend);
        lemma_dfs_run_still(ev, wend, (big - k) as nat);
    }
    proof {
        assert forall|t: TargetId| t.0 < edges@.len() implies #[trigger] order@.contains(t) by {
            assert(marks@[t.0 as int] == Mark::Done);
            assert(TargetId(t.0 as usize) == t);
        }
        if diags@.len() == 0 {
            assert forall|i: int, j: int| 0 <= i < j < order@.len() implies !(#[trigger] dep_ids(ev, order@[i])).contains(
                #[trigger] order@[j],
            ) by {
                if dep_ids(ev, order@[i]).contains(order@[j]) {
                    let k = choose|k: int| 0 <= k < dep_ids(ev, order@[i]).len() && dep_ids(ev, order@[i])[k] == order@[j];
                    assert(deps_before(ev, order@, i));
                    assert(order@.take(i).contains(order@[j]));
                    let m = choose|m: int| 0 <= m < order@.take(i).len() && order@.take(i)[m] == order@[j];
                    assert(order@[m] == order@[j]);
                }
            }
        }
    }
    (order, diags)
}

/// The number of the target labelled `l`: the last of that label, as a
/// table keyed by label keeps it.
pub open spec fn label_index(labels: Seq<Seq<char>>, l: Seq<char>) -> Option<int>
    decreases labels.len(),
{
    if labels.len() == 0 {
        None
    } else if labels.last() == l {
        Some(labels.len() - 1)
    } else {
        label_index(labels.drop_last(), l)
    }
}

proof fn lemma_label_index(labels: Seq<Seq<char>>, l: Seq<char>)
    ensures
        label_index(labels, l) matches Some(i) ==> 0 <= i < labels.len(),
    decreases labels.len(),
{
    if labels.len() > 0 {
        lemma_label_index(labels.drop_last(), l);
    }
}

/// The edges that resolved labels give: each label that names a target of
/// the session becomes an edge to it; others are left out.
pub open spec fn edges_to(labels: Seq<Seq<char>>, resolved: Seq<EdgeM>) -> Seq<Edge>
    decreases resolved.len(),
{
    if resolved.len() == 0 {
        Seq::empty()
    } else {
        let before = edges_to(labels, resolved.drop_last());
        let e = resolved.last();
        match label_index(labels, e.0) {
            Some(i) => before.push(Edge { to: TargetId(i as usize), block: e.1, site: e.2 }),
            None => before,
        }
    }
}

/// Every edge leads to one of the first `n` targets.
pub open spec fn edges_wf_within(edges: Seq<Vec<Edge>>, n: int) -> bool {
    forall|i: int, k: int| 0 <= i < edges.len() && 0 <= k < edges[i]@.len() ==> (#[trigger] edges[i]@[k]).to.0 < n
}

/// The diagnostics of every resolution, one target after another.
pub open spec fn all_diags(resolved: Seq<Deps>) -> Seq<DiagM>
    decreases resolved.len(),
{
    if resolved.len() == 0 {
        Seq::empty()
    } else {
        all_diags(resolved.drop_last()) + diags_m(resolved.last().diagnostics@)
    }
}

fn index_of_label(labels: &[String], l: &str) -> (r: Option<usize>)
    ensures
        match r {
            Some(i) => label_index(strings_view(labels@), l@) == Some(i as int),
            None => label_index(strings_view(labels@), l@) is None,
        },
{
    let ghost ls = strings_view(labels@);
    let mut found: Option<usize> = None;
    let mut i: usize = 0;
    while i < labels.len()
        invariant
            i <= labels@.len(),
            ls == strings_view(labels@),
            match found {
                Some(k) => label_index(ls.take(i as int), l@) == Some(k as int),
                None => label_index(ls.take(i as int), l@) is None,
            },
        decreases labels.len() - i,
    {
        assert(ls.take(i + 1).drop_last() =~= ls.take(i as int));
        assert(ls.take(i + 1).last() == labels@[i as int]@);
        if str_eq(labels[i].as_str(), l) {
            found = Some(i);
        }
        i += 1;
    }
    assert(ls.take(i as int) =~= ls);
    found
}

/// The graph of a session's targets, `labels[i]` being the label of
/// `TargetId(i)` and `resolved[i]` its resolved dependencies: each edge to
/// a label of the session, the diagnostics of the resolutions, then those
/// of the cycles that ordering found.
pub fn build(labels: &[String], resolved: &[Deps]) -> (r: (Graph, Vec<Diagnostic>))
    requires
        labels@.len() == resolved@.len(),
    ensures
        r.0.edges@.len() == labels@.len(),
        forall|t: int| 0 <= t < labels@.len() ==> (#[trigger] r.0.edges@[t])@ == edges_to(
            strings_view(labels@),
            edges_m(resolved@[t].edges@),
        ),
        r.1@.len() >= all_diags(resolved@).len(),
        diags_m(r.1@).take(all_diags(resolved@).len() as int) == all_diags(resolved@),
        forall|d: int| all_diags(resolved@).len() <= d < r.1@.len() ==> (#[trigger] diag_m(r.1@[d])).code
            == "dependency-cycle"@,
        r.0.order@.no_duplicates(),
        forall|t: TargetId| t.0 < labels@.len() ==> #[trigger] r.0.order@.contains(t),
        forall|i: int| 0 <= i < r.0.order@.len() ==> (#[trigger] r.0.order@[i]).0 < labels@.len(),
        r.1@.len() > all_diags(resolved@).len() ==> has_cycle(r.0.edges@),
        r.0.order@ == dfs_order(r.0.edges@),
        r.1@.len() == all_diags(resolved@).len() ==> forall|i: int, j: int|
            0 <= i < j < r.0.order@.len() ==> !(#[trigger] dep_ids(r.0.edges@, r.0.order@[i])).contains(
                #[trigger] r.0.order@[j],
            ),
{
    let ghost ls = strings_view(labels@);
    let mut diags: Vec<Diagnostic> = Vec::new();
    let mut edges: Vec<Vec<Edge>> = Vec::new();
    let mut t: usize = 0;
    assert(diags_m(diags@) =~= all_diags(resolved@.take(0)));
    while t < resolved.len()
        invariant
            t <= resolved@.len(),
            labels@.len() == resolved@.len(),
            ls == strings_view(labels@),
            edges@.len() == t,
            edges_wf_within(edges@, labels@.len() as int),
            forall|u: int| 0 <= u < t ==> (#[trigger] edges@[u])@ == edges_to(ls, edges_m(resolved@[u].edges@)),
            diags_m(diags@) == all_diags(resolved@.take(t as int)),
        decreases resolved.len() - t,
    {
        let res = &resolved[t];
        let mut k: usize = 0;
        while k < res.diagnostics.len()
            invariant
                k <= res.diagnostics@.len(),
                diags_m(diags@) == all_diags(resolved@.take(t as int)) + diags_m(res.diagnostics@.take(k as int)),
            decreases res.diagnostics.len() - k,
        {
            let ghost before = diags@;
            diags.push(res.diagnostics[k].copy());
            assert(diags_m(diags@) =~= diags_m(before).push(diag_m(res.diagnostics@[k as int])));
            assert(res.diagnostics@.take(k + 1) =~= res.diagnostics@.take(k as int).push(res.diagnostics@[k as int]));
            assert(diags_m(res.diagnostics@.take(k + 1)) =~= diags_m(res.diagnostics@.take(k as int)).push(
                diag_m(res.diagnostics@[k as int]),
            ));
            k += 1;
        }
        assert(res.diagnostics@.take(k as int) =~= res.diagnostics@);
        assert(resolved@.take(t + 1).drop_last() =~= resolved@.take(t as int));
        let ghost em = edges_m(res.edges@);
        let mut out: Vec<Edge> = Vec::new();
        let mut k: usize = 0;
        assert(em.take(0) =~= Seq::<EdgeM>::empty());
        while k < res.edges.len()
            invariant
                k <= res.edges@.len(),
                em == edges_m(res.edges@),
                ls == strings_view(labels@),
                out@ == edges_to(ls, em.take(k as int)),
                forall|m: int| 0 <= m < out@.len() ==> (#[trigger] out@[m]).to.0 < labels@.len(),
            decreases res.edges.len() - k,
        {
            assert(em.take(k + 1).drop_last() =~= em.take(k as int));
            assert(em.take(k + 1).last() == em[k as int]);
            let e = &res.edges[k];
            proof {
                lemma_label_index(ls, e.0@);
            }
            match index_of_label(labels, e.0.as_str()) {
                Some(i) => {
                    out.push(Edge { to: TargetId(i), block: e.1, site: e.2 });
                },
                None => {},
            }
            k += 1;
        }
        assert(em.take(k as int) =~= em);
        let ghost prev = edges@;
        edges.push(out);
        assert(edges_wf_within(edges@, labels@.len() as int)) by {
            assert forall|i: int, m: int| 0 <= i < edges@.len() && 0 <= m < edges@[i]@.len() implies (#[trigger] edges@[i]@[m]).to.0 < labels@.len() by {
                if i < prev.len() {
                    assert(edges@[i] == prev[i]);
                }
            }
        }
        t += 1;
    }
    assert(resolved@.take(t as int) =~= resolved@);
    let (order, cycles) = topological_order(labels, &edges);
    let ghost n = diags@.len();
    let mut c: usize = 0;
    while c < cycles.len()
        invariant
            c <= cycles@.len(),
            diags@.len() == n + c,
            diags_m(diags@).take(n as int) == all_diags(resolved@),
            forall|d: int| 0 <= d < cycles@.len() ==> (#[trigger] diag_m(cycles@[d])).code == "dependency-cycle"@,
            forall|d: int| n <= d < diags@.len() ==> (#[trigger] diag_m(diags@[d])).code == "dependency-cycle"@,
            c > 0 ==> cycles@.len() > 0,
        decreases cycles.len() - c,
    {
        let ghost before = diags@;
        diags.push(cycles[c].copy());
        assert(diags_m(diags@).take(n as int) =~= diags_m(before).take(n as int));
        c += 1;
    }
    (Graph { edges, order }, diags)
}

} // verus!
