//! The augmented dependency graph: an explicit node/edge arena addressed
//! by package index, holding the non-dev dependency edges of the relevant
//! part of the workspace plus one generation edge per codegen unit. On top
//! of it: cycle detection by stack-tracked depth-first search, and the
//! post-order scheduling that turns the units into an executable plan.

use vstd::prelude::*;

use crate::unit::CodegenUnit;

verus! {

/// A dependency graph over the packages of a workspace. A package index
/// `a` is a node when `in_graph[a]`; `out[a]` lists the indices `a` has an
/// edge to (its dependencies and, for a generated package, its generator).
pub struct DependencyGraph {
    /// Node membership, indexed by package.
    pub in_graph: Vec<bool>,
    /// Outgoing adjacency, indexed by package.
    pub out: Vec<Vec<usize>>,
    /// The codegen units whose generation edges the graph carries.
    pub units: Vec<CodegenUnit>,
}

impl DependencyGraph {
    /// Number of packages the arena is sized for.
    pub open spec fn n(&self) -> int {
        self.in_graph@.len() as int
    }

    /// The adjacency arrays line up and every edge stays in the arena.
    pub open spec fn wf(&self) -> bool {
        &&& self.out@.len() == self.n()
        &&& forall|a: int, k: int|
            0 <= a < self.n() && 0 <= k < self.out@[a]@.len() ==> (#[trigger] self.out@[a]@[k])
                < self.n()
    }

    /// Package `a` is a node of the graph.
    pub open spec fn node(&self, a: int) -> bool {
        0 <= a < self.n() && self.in_graph@[a]
    }

    /// The graph has an edge from `a` to `b`.
    pub open spec fn has_edge(&self, a: int, b: int) -> bool {
        &&& 0 <= a < self.n()
        &&& exists|k: int| 0 <= k < self.out@[a]@.len() && (#[trigger] self.out@[a]@[k]) == b
    }

    /// `p` is a walk along edges of the graph.
    pub open spec fn is_path(&self, p: Seq<int>) -> bool {
        &&& p.len() >= 1
        &&& forall|k: int| 0 <= k < p.len() - 1 ==> self.has_edge(#[trigger] p[k], p[k + 1])
    }

    /// `b` can be reached from `a` (in zero or more steps).
    pub open spec fn reaches(&self, a: int, b: int) -> bool {
        exists|p: Seq<int>| #[trigger] self.is_path(p) && p.first() == a && p.last() == b
    }

    /// `b` can be reached from `a` in at least one step.
    pub open spec fn reaches_plus(&self, a: int, b: int) -> bool {
        exists|p: Seq<int>|
            #[trigger] self.is_path(p) && p.len() >= 2 && p.first() == a && p.last() == b
    }

    /// No node lies on a cycle.
    pub open spec fn acyclic(&self) -> bool {
        forall|a: int| !self.reaches_plus(a, a)
    }

    /// `c` walks a cycle: consecutive entries are edges and the last entry
    /// has an edge back to the first.
    pub open spec fn is_cycle(&self, c: Seq<int>) -> bool {
        &&& c.len() >= 1
        &&& forall|k: int| 0 <= k < c.len() - 1 ==> self.has_edge(#[trigger] c[k], c[k + 1])
        &&& self.has_edge(c.last(), c.first())
    }
}

/// A sequence of indices as mathematical integers.
pub open spec fn int_seq(s: Seq<usize>) -> Seq<int> {
    s.map_values(|x: usize| x as int)
}



/// Extending a reach by one edge is a one-or-more-step reach.
pub proof fn lemma_reaches_step(g: &DependencyGraph, a: int, b: int, c: int)
    requires
        g.reaches(a, b),
        g.has_edge(b, c),
    ensures
        g.reaches_plus(a, c),
        g.reaches(a, c),
{
    let p = choose|p: Seq<int>| #[trigger] g.is_path(p) && p.first() == a && p.last() == b;
    let q = p.push(c);
    assert forall|k: int| 0 <= k < q.len() - 1 implies g.has_edge(#[trigger] q[k], q[k + 1]) by {
        if k < p.len() - 1 {
            assert(q[k] == p[k] && q[k + 1] == p[k + 1]);
        } else {
            assert(q[k] == p.last() && q[k + 1] == c);
        }
    }
    assert(g.is_path(q));
    assert(q.first() == a && q.last() == c && q.len() >= 2);
}



/// Two reaches compose.
pub proof fn lemma_reaches_trans(g: &DependencyGraph, a: int, b: int, c: int)
    requires
        g.reaches(a, b),
        g.reaches(b, c),
    ensures
        g.reaches(a, c),
{
    let p = choose|p: Seq<int>| #[trigger] g.is_path(p) && p.first() == a && p.last() == b;
    let q = choose|q: Seq<int>| #[trigger] g.is_path(q) && q.first() == b && q.last() == c;
    let r = p + q.drop_first();
    if q.len() == 1 {
        assert(r =~= p);
    } else {
        assert forall|k: int| 0 <= k < r.len() - 1 implies g.has_edge(#[trigger] r[k], r[k + 1]) by {
            if k < p.len() - 1 {
                assert(r[k] == p[k] && r[k + 1] == p[k + 1]);
            } else if k == p.len() - 1 {
                assert(r[k] == p.last() && r[k + 1] == q[1]);
                assert(g.has_edge(q[0], q[1]));
            } else {
                let j = k - p.len();
                assert(r[k] == q[j + 1] && r[k + 1] == q[j + 2]);
                assert(g.has_edge(q[j + 1], q[j + 2]));
            }
        }
        assert(g.is_path(r));
        assert(r.first() == a && r.last() == c);
    }
}

/// Any two nodes of one cycle reach each other, going around it.
pub proof fn lemma_cycle_mutual(g: &DependencyGraph, c: Seq<int>, k: int)
    requires
        g.is_cycle(c),
        0 <= k < c.len(),
    ensures
        g.reaches(c.first(), c[k]),
        g.reaches(c[k], c.first()),
{
    let p = c.subrange(0, k + 1);
    assert(g.is_path(p)) by {
        assert forall|k2: int| 0 <= k2 < p.len() - 1 implies g.has_edge(
            #[trigger] p[k2],
            p[k2 + 1],
        ) by {
            assert(p[k2] == c[k2] && p[k2 + 1] == c[k2 + 1]);
        }
    }
    assert(p.first() == c.first() && p.last() == c[k]);
    assert(g.reaches(c.first(), c[k]));
    let q = c.subrange(k, c.len() as int);
    assert(g.is_path(q)) by {
        assert forall|k2: int| 0 <= k2 < q.len() - 1 implies g.has_edge(
            #[trigger] q[k2],
            q[k2 + 1],
        ) by {
            assert(q[k2] == c[k + k2] && q[k2 + 1] == c[k + k2 + 1]);
        }
    }
    assert(q.first() == c[k] && q.last() == c.last());
    assert(g.reaches(c[k], c.last()));
    lemma_reaches_step(g, c[k], c.last(), c.first());
}

/// A cycle witness refutes acyclicity.
pub proof fn lemma_cycle_not_acyclic(g: &DependencyGraph, c: Seq<int>)
    requires
        g.is_cycle(c),
    ensures
        !g.acyclic(),
{
    let p = c.push(c.first());
    assert forall|k: int| 0 <= k < p.len() - 1 implies g.has_edge(#[trigger] p[k], p[k + 1]) by {
        if k < c.len() - 1 {
            assert(p[k] == c[k] && p[k + 1] == c[k + 1]);
        } else {
            assert(p[k] == c.last() && p[k + 1] == c.first());
        }
    }
    assert(g.is_path(p));
    assert(p.len() >= 2 && p.first() == c.first() && p.last() == c.first());
    assert(g.reaches_plus(c.first(), c.first()));
}

/// `f` is a post-order finish sequence: no entry repeats, and every edge
/// out of an entry leads to an earlier entry.
pub open spec fn respects_finish_order(g: &DependencyGraph, f: Seq<int>) -> bool {
    &&& f.no_duplicates()
    &&& forall|idx: int, b: int|
        0 <= idx < f.len() && #[trigger] g.has_edge(f[idx], b) ==> exists|jdx: int|
            0 <= jdx < idx && f[jdx] == b
}

/// `u` and `v` both appear on some recorded cycle.
pub open spec fn covered(cycles: Seq<Vec<usize>>, u: int, v: int) -> bool {
    exists|ci: int|
        0 <= ci < cycles.len() && int_seq((#[trigger] cycles[ci])@).contains(u) && int_seq(
            cycles[ci]@,
        ).contains(v)
}

/// Every edge out of a finish-sequence entry leads to an earlier entry,
/// unless a recorded cycle covers both of its endpoints.
pub open spec fn fin_covered(
    g: &DependencyGraph,
    fin: Seq<int>,
    cycles: Seq<Vec<usize>>,
) -> bool {
    forall|idx: int, b: int|
        0 <= idx < fin.len() && #[trigger] g.has_edge(fin[idx], b) ==> (exists|jdx: int|
            0 <= jdx < idx && fin[jdx] == b) || covered(cycles, fin[idx], b)
}

/// Recording another cycle never uncovers a pair.
proof fn lemma_covered_grow(cycles: Seq<Vec<usize>>, c: Vec<usize>)
    ensures
        forall|u: int, v: int| #[trigger] covered(cycles, u, v) ==> covered(cycles.push(c), u, v),
{
    assert forall|u: int, v: int| #[trigger] covered(cycles, u, v) implies covered(
        cycles.push(c),
        u,
        v,
    ) by {
        let ci = choose|ci: int|
            0 <= ci < cycles.len() && int_seq((#[trigger] cycles[ci])@).contains(u) && int_seq(
                cycles[ci]@,
            ).contains(v);
        assert(cycles.push(c)[ci] == cycles[ci]);
    }
}

/// With no cycle recorded, the covered disjunct vanishes and the finish
/// sequence respects the edge order outright.
proof fn lemma_fin_covered_clean(g: &DependencyGraph, fin: Seq<int>, cycles: Seq<Vec<usize>>)
    requires
        fin.no_duplicates(),
        fin_covered(g, fin, cycles),
        cycles.len() == 0,
    ensures
        respects_finish_order(g, fin),
{
    assert forall|idx: int, b: int|
        0 <= idx < fin.len() && #[trigger] g.has_edge(fin[idx], b) implies exists|jdx: int|
        0 <= jdx < idx && fin[jdx] == b by {
        if covered(cycles, fin[idx], b) {
            let ci = choose|ci: int|
                0 <= ci < cycles.len() && int_seq((#[trigger] cycles[ci])@).contains(
                    fin[idx],
                ) && int_seq(cycles[ci]@).contains(b);
            assert(false);
        }
    }
}

/// Walking a path through a finish sequence only moves to strictly
/// earlier entries, as long as no edge of the path is covered by a
/// recorded cycle.
proof fn lemma_path_descends_uncovered(
    g: &DependencyGraph,
    fin: Seq<int>,
    cycles: Seq<Vec<usize>>,
    p: Seq<int>,
)
    requires
        fin.no_duplicates(),
        fin_covered(g, fin, cycles),
        g.is_path(p),
        fin.contains(p.first()),
        forall|k: int| 0 <= k < p.len() - 1 ==> !covered(cycles, #[trigger] p[k], p[k + 1]),
    ensures
        fin.contains(p.last()),
        p.len() >= 2 ==> fin.index_of(p.last()) < fin.index_of(p.first()),
    decreases p.len(),
{
    if p.len() >= 2 {
        let i0 = fin.index_of(p.first());
        assert(0 <= i0 < fin.len() && fin[i0] == p.first());
        assert(g.has_edge(p[0], p[1]));
        assert(g.has_edge(fin[i0], p[1]));
        assert(!covered(cycles, p[0], p[1]));
        let j = choose|j: int| 0 <= j < i0 && fin[j] == p[1];
        assert(fin.contains(p[1]));
        let q = p.drop_first();
        assert(g.is_path(q)) by {
            assert forall|k: int| 0 <= k < q.len() - 1 implies g.has_edge(
                #[trigger] q[k],
                q[k + 1],
            ) by {
                assert(q[k] == p[k + 1] && q[k + 1] == p[k + 2]);
            }
        }
        assert forall|k: int|
            0 <= k < q.len() - 1 implies !covered(cycles, #[trigger] q[k], q[k + 1]) by {
            assert(q[k] == p[k + 1] && q[k + 1] == p[k + 2]);
            assert(!covered(cycles, p[k + 1], p[k + 2]));
        }
        assert(q.first() == p[1] && q.last() == p.last());
        lemma_path_descends_uncovered(g, fin, cycles, q);
        let i1 = fin.index_of(p[1]);
        assert(fin[i1] == p[1]);
        assert(i1 < i0) by {
            if i1 != j {
                assert(fin[i1] == fin[j]);
                assert(false);
            }
        }
        if q.len() >= 2 {
            assert(fin.index_of(q.last()) < i1);
        }
    }
}

/// A closed walk through a covered finish sequence must use a covered
/// edge: otherwise its finish positions would descend forever.
proof fn lemma_cycle_covered_edge(
    g: &DependencyGraph,
    fin: Seq<int>,
    cycles: Seq<Vec<usize>>,
    p: Seq<int>,
)
    requires
        fin.no_duplicates(),
        fin_covered(g, fin, cycles),
        g.is_path(p),
        p.len() >= 2,
        p.first() == p.last(),
        fin.contains(p.first()),
    ensures
        exists|k: int| 0 <= k < p.len() - 1 && covered(cycles, #[trigger] p[k], p[k + 1]),
{
    if forall|k: int| 0 <= k < p.len() - 1 ==> !covered(cycles, #[trigger] p[k], p[k + 1]) {
        lemma_path_descends_uncovered(g, fin, cycles, p);
        assert(false);
    }
}

/// Walking a path through a finish sequence only moves to strictly
/// earlier entries.
pub proof fn lemma_path_descends(g: &DependencyGraph, f: Seq<int>, p: Seq<int>)
    requires
        respects_finish_order(g, f),
        g.is_path(p),
        f.contains(p.first()),
    ensures
        f.contains(p.last()),
        p.len() >= 2 ==> f.index_of(p.last()) < f.index_of(p.first()),
    decreases p.len(),
{
    if p.len() >= 2 {
        let i0 = f.index_of(p.first());
        assert(0 <= i0 < f.len() && f[i0] == p.first());
        assert(g.has_edge(p[0], p[1]));
        assert(g.has_edge(f[i0], p[1]));
        let j = choose|j: int| 0 <= j < i0 && f[j] == p[1];
        assert(f.contains(p[1]));
        let q = p.drop_first();
        assert(g.is_path(q)) by {
            assert forall|k: int| 0 <= k < q.len() - 1 implies g.has_edge(
                #[trigger] q[k],
                q[k + 1],
            ) by {
                assert(q[k] == p[k + 1] && q[k + 1] == p[k + 2]);
            }
        }
        assert(q.first() == p[1] && q.last() == p.last());
        lemma_path_descends(g, f, q);
        let i1 = f.index_of(p[1]);
        assert(f[i1] == p[1]);
        assert(i1 == j || f[i1] == f[j]);
        assert(i1 < i0) by {
            if i1 != j {
                assert(f[i1] == f[j]);
                assert(false);
            }
        }
        if q.len() >= 2 {
            assert(f.index_of(q.last()) < i1);
        }
    }
}

/// A finish sequence that covers every package rules out cycles.
pub proof fn lemma_finish_order_acyclic(g: &DependencyGraph, f: Seq<int>)
    requires
        g.wf(),
        respects_finish_order(g, f),
        forall|a: int| 0 <= a < g.n() ==> f.contains(a),
    ensures
        g.acyclic(),
{
    assert forall|a: int| !g.reaches_plus(a, a) by {
        if g.reaches_plus(a, a) {
            let p = choose|p: Seq<int>|
                #[trigger] g.is_path(p) && p.len() >= 2 && p.first() == a && p.last() == a;
            assert(g.has_edge(p[0], p[1]));
            assert(0 <= a < g.n());
            assert(f.contains(p.first()));
            lemma_path_descends(g, f, p);
            assert(false);
        }
    }
}


/// The nodes of a stack of depth-first frames, in order.
pub open spec fn stack_nodes(st: Seq<(usize, usize)>) -> Seq<int> {
    st.map_values(|fr: (usize, usize)| fr.0 as int)
}

/// How many outgoing edges the frames of the stack have not examined yet:
/// the inner loop's termination measure between pushes and pops.
pub open spec fn rem_work(g: &DependencyGraph, st: Seq<(usize, usize)>) -> nat
    decreases st.len(),
{
    if st.len() == 0 {
        0
    } else {
        rem_work(g, st.drop_last()) + (g.out@[st.last().0 as int]@.len() as int
            - st.last().1 as int) as nat
    }
}

/// A single depth-first frame is coherent: its node is in range, gray, and
/// its child cursor has not run past the adjacency list.
pub open spec fn frame_ok(
    g: &DependencyGraph,
    visited: Seq<bool>,
    finished: Seq<bool>,
    fr: (usize, usize),
) -> bool {
    &&& (fr.0 as int) < g.n()
    &&& visited[fr.0 as int]
    &&& !finished[fr.0 as int]
    &&& fr.1 <= g.out@[fr.0 as int]@.len()
}

/// The shared state invariant of both depth-first traversals: marks are
/// consistent, the finish sequence mirrors the finished marks, the stack
/// is an edge-connected chain of distinct gray nodes, and every gray node
/// is on the stack.
pub open spec fn dfs_state_inv(
    g: &DependencyGraph,
    visited: Seq<bool>,
    finished: Seq<bool>,
    st: Seq<(usize, usize)>,
    fin: Seq<int>,
) -> bool {
    &&& visited.len() == g.n()
    &&& finished.len() == g.n()
    &&& forall|x: int| 0 <= x < g.n() && #[trigger] finished[x] ==> visited[x]
    &&& forall|idx: int|
        0 <= idx < fin.len() ==> 0 <= #[trigger] fin[idx] < g.n() && finished[fin[idx]]
    &&& forall|x: int| 0 <= x < g.n() && #[trigger] finished[x] ==> fin.contains(x)
    &&& fin.no_duplicates()
    &&& forall|si: int| 0 <= si < st.len() ==> frame_ok(g, visited, finished, #[trigger] st[si])
    &&& forall|si: int|
        0 <= si < st.len() - 1 ==> g.has_edge((#[trigger] st[si]).0 as int, st[si + 1].0 as int)
    &&& forall|si: int, sj: int|
        0 <= si < sj < st.len() ==> (#[trigger] st[si]).0 != (#[trigger] st[sj]).0
    &&& forall|x: int|
        0 <= x < g.n() && visited[x] && !(#[trigger] finished[x]) ==> stack_nodes(st).contains(x)
}

/// Frame `si` is strictly below some frame holding node `c`.
pub open spec fn on_stack_above(st: Seq<(usize, usize)>, si: int, c: usize) -> bool {
    exists|sj: int| si < sj < st.len() && (#[trigger] st[sj]).0 == c
}

/// Every child that frame `si` has examined is finished, still being
/// explored above it, or shares a recorded cycle with the frame's node.
pub open spec fn frame_examined_cov(
    g: &DependencyGraph,
    st: Seq<(usize, usize)>,
    si: int,
    finished: Seq<bool>,
    cycles: Seq<Vec<usize>>,
) -> bool {
    forall|j: int|
        0 <= j < st[si].1 ==> finished[(#[trigger] g.out@[st[si].0 as int]@[j]) as int]
            || on_stack_above(st, si, g.out@[st[si].0 as int]@[j]) || covered(
            cycles,
            st[si].0 as int,
            g.out@[st[si].0 as int]@[j] as int,
        )
}

/// `frame_examined_cov` for every frame of the stack.
pub open spec fn examined_cov_inv(
    g: &DependencyGraph,
    st: Seq<(usize, usize)>,
    finished: Seq<bool>,
    cycles: Seq<Vec<usize>>,
) -> bool {
    forall|si: int|
        0 <= si < st.len() ==> #[trigger] frame_examined_cov(g, st, si, finished, cycles)
}

/// A vector of `n` `false` marks.
pub(crate) fn vec_false(n: usize) -> (v: Vec<bool>)
    ensures
        v@.len() == n,
        forall|i: int| 0 <= i < n ==> !(#[trigger] v@[i]),
{
    let mut v: Vec<bool> = Vec::new();
    let mut i: usize = 0;
    while i < n
        invariant
            i <= n,
            v@.len() == i,
            forall|j: int| 0 <= j < i ==> !(#[trigger] v@[j]),
        decreases n - i,
    {
        v.push(false);
        i = i + 1;
    }
    v
}

/// Position of the first frame holding node `x`; the caller guarantees
/// that some frame does.
fn find_on_stack(stack: &Vec<(usize, usize)>, x: usize) -> (pos: usize)
    requires
        exists|si: int| 0 <= si < stack@.len() && (#[trigger] stack@[si]).0 == x,
    ensures
        pos < stack@.len(),
        stack@[pos as int].0 == x,
        forall|si: int| 0 <= si < pos ==> (#[trigger] stack@[si]).0 != x,
{
    let mut i: usize = 0;
    while i < stack.len()
        invariant
            i <= stack@.len(),
            exists|si: int| 0 <= si < stack@.len() && (#[trigger] stack@[si]).0 == x,
            forall|si: int| 0 <= si < i ==> (#[trigger] stack@[si]).0 != x,
        decreases stack@.len() - i,
    {
        if stack[i].0 == x {
            return i;
        }
        i = i + 1;
    }
    proof {
        let si = choose|si: int| 0 <= si < stack@.len() && (#[trigger] stack@[si]).0 == x;
        assert(false);
    }
    0
}

/// The nodes of the stack from `pos` to the top, as a vector.
fn stack_suffix_nodes(stack: &Vec<(usize, usize)>, pos: usize) -> (c: Vec<usize>)
    requires
        pos < stack@.len(),
    ensures
        c@.len() == stack@.len() - pos,
        forall|k: int| 0 <= k < c@.len() ==> (#[trigger] c@[k]) == stack@[pos + k].0,
{
    let mut c: Vec<usize> = Vec::new();
    let mut i: usize = pos;
    while i < stack.len()
        invariant
            pos <= i <= stack@.len(),
            c@.len() == i - pos,
            forall|k: int| 0 <= k < c@.len() ==> (#[trigger] c@[k]) == stack@[pos + k].0,
        decreases stack@.len() - i,
    {
        c.push(stack[i].0);
        i = i + 1;
    }
    c
}


/// Finishing the top frame preserves the traversal invariants: each of the
/// popped node's examined edges leads to a finished node or shares a
/// recorded cycle with it, so appending the node keeps the covered finish
/// order, and no gray node leaves the stack.
#[verifier::rlimit(100)]
proof fn lemma_dfs_pop(
    g: &DependencyGraph,
    visited: Seq<bool>,
    pre_finished: Seq<bool>,
    post_finished: Seq<bool>,
    pre_st: Seq<(usize, usize)>,
    post_st: Seq<(usize, usize)>,
    pre_fin: Seq<int>,
    post_fin: Seq<int>,
    cycles: Seq<Vec<usize>>,
)
    requires
        g.wf(),
        dfs_state_inv(g, visited, pre_finished, pre_st, pre_fin),
        pre_st.len() >= 1,
        pre_st.last().1 == g.out@[pre_st.last().0 as int]@.len(),
        post_st == pre_st.drop_last(),
        post_finished == pre_finished.update(pre_st.last().0 as int, true),
        post_fin == pre_fin.push(pre_st.last().0 as int),
        fin_covered(g, pre_fin, cycles),
        examined_cov_inv(g, pre_st, pre_finished, cycles),
    ensures
        dfs_state_inv(g, visited, post_finished, post_st, post_fin),
        fin_covered(g, post_fin, cycles),
        examined_cov_inv(g, post_st, post_finished, cycles),
        rem_work(g, pre_st) == rem_work(g, post_st),
{
    let v = pre_st.last().0;
    assert(frame_ok(g, visited, pre_finished, pre_st[pre_st.len() - 1]));
    assert(rem_work(g, pre_st) == rem_work(g, post_st));
    assert(!pre_fin.contains(v as int)) by {
        if pre_fin.contains(v as int) {
            let idx = choose|idx: int| 0 <= idx < pre_fin.len() && pre_fin[idx] == v as int;
            assert(pre_finished[v as int]);
        }
    }
    assert(post_fin.no_duplicates()) by {
        assert forall|i1: int, i2: int|
            0 <= i1 < post_fin.len() && 0 <= i2 < post_fin.len() && i1 != i2 implies post_fin[i1]
            != post_fin[i2] by {
            if i1 < post_fin.len() - 1 && i2 < post_fin.len() - 1 {
                assert(post_fin[i1] == pre_fin[i1] && post_fin[i2] == pre_fin[i2]);
            } else if i1 == post_fin.len() - 1 {
                assert(post_fin[i1] == v as int && post_fin[i2] == pre_fin[i2]);
                assert(pre_fin.contains(pre_fin[i2]));
            } else {
                assert(post_fin[i2] == v as int && post_fin[i1] == pre_fin[i1]);
                assert(pre_fin.contains(pre_fin[i1]));
            }
        }
    }
    assert forall|x: int|
        0 <= x < g.n() && #[trigger] post_finished[x] implies post_fin.contains(x) by {
        if x == v as int {
            assert(post_fin[post_fin.len() - 1] == v as int);
        } else {
            assert(pre_finished[x]);
            assert(pre_fin.contains(x));
            let idx = choose|idx: int| 0 <= idx < pre_fin.len() && pre_fin[idx] == x;
            assert(post_fin[idx] == x);
        }
    }
    assert forall|si: int| 0 <= si < post_st.len() implies frame_ok(
        g,
        visited,
        post_finished,
        #[trigger] post_st[si],
    ) by {
        assert(post_st[si] == pre_st[si]);
        assert(pre_st[si].0 != pre_st[pre_st.len() - 1].0);
        assert(frame_ok(g, visited, pre_finished, pre_st[si]));
    }
    assert forall|x: int|
        0 <= x < g.n() && visited[x] && !(#[trigger] post_finished[x]) implies stack_nodes(
        post_st,
    ).contains(x) by {
        assert(!pre_finished[x]);
        assert(stack_nodes(pre_st).contains(x));
        let si = choose|si: int|
            0 <= si < stack_nodes(pre_st).len() && stack_nodes(pre_st)[si] == x;
        assert(pre_st[si].0 as int == x);
        if si == pre_st.len() - 1 {
            assert(x == v as int);
            assert(false);
        }
        assert(stack_nodes(post_st)[si] == x);
    }
    assert forall|si: int|
        0 <= si < post_st.len() - 1 implies g.has_edge(
        (#[trigger] post_st[si]).0 as int,
        post_st[si + 1].0 as int,
    ) by {
        assert(post_st[si] == pre_st[si] && post_st[si + 1] == pre_st[si + 1]);
        assert(g.has_edge((#[trigger] pre_st[si]).0 as int, pre_st[si + 1].0 as int));
    }
    assert(frame_examined_cov(g, pre_st, pre_st.len() - 1, pre_finished, cycles));
    assert forall|idx: int, b: int|
        0 <= idx < post_fin.len() && #[trigger] g.has_edge(post_fin[idx], b) implies (exists|
    jdx: int|
        0 <= jdx < idx && post_fin[jdx] == b) || covered(cycles, post_fin[idx], b) by {
        if idx < post_fin.len() - 1 {
            assert(post_fin[idx] == pre_fin[idx]);
            assert(g.has_edge(pre_fin[idx], b));
            if !covered(cycles, pre_fin[idx], b) {
                let jdx = choose|jdx: int| 0 <= jdx < idx && pre_fin[jdx] == b;
                assert(post_fin[jdx] == b);
            }
        } else {
            assert(post_fin[idx] == v as int);
            let ke = choose|ke: int|
                0 <= ke < g.out@[v as int]@.len() && (#[trigger] g.out@[v as int]@[ke]) == b;
            assert(pre_finished[(g.out@[pre_st[pre_st.len() - 1].0 as int]@[ke]) as int]
                || on_stack_above(
                pre_st,
                pre_st.len() - 1,
                g.out@[pre_st[pre_st.len() - 1].0 as int]@[ke],
            ) || covered(
                cycles,
                pre_st[pre_st.len() - 1].0 as int,
                g.out@[pre_st[pre_st.len() - 1].0 as int]@[ke] as int,
            ));
            if on_stack_above(pre_st, pre_st.len() - 1, g.out@[v as int]@[ke]) {
                let sj = choose|sj: int|
                    pre_st.len() - 1 < sj < pre_st.len() && (#[trigger] pre_st[sj]).0
                        == g.out@[v as int]@[ke];
                assert(false);
            }
            if pre_finished[b] {
                assert(pre_fin.contains(b));
                let jdx = choose|jdx: int| 0 <= jdx < pre_fin.len() && pre_fin[jdx] == b;
                assert(post_fin[jdx] == b);
            } else {
                assert(covered(cycles, v as int, b));
            }
        }
    }
    assert forall|si: int| 0 <= si < post_st.len() implies #[trigger] frame_examined_cov(
        g,
        post_st,
        si,
        post_finished,
        cycles,
    ) by {
        assert(frame_examined_cov(g, pre_st, si, pre_finished, cycles));
        assert forall|j: int| 0 <= j < post_st[si].1 implies post_finished[(
        #[trigger] g.out@[post_st[si].0 as int]@[j]) as int] || on_stack_above(
            post_st,
            si,
            g.out@[post_st[si].0 as int]@[j],
        ) || covered(
            cycles,
            post_st[si].0 as int,
            g.out@[post_st[si].0 as int]@[j] as int,
        ) by {
            assert(post_st[si] == pre_st[si]);
            let c = g.out@[pre_st[si].0 as int]@[j];
            assert(pre_finished[c as int] || on_stack_above(pre_st, si, c) || covered(
                cycles,
                pre_st[si].0 as int,
                c as int,
            ));
            if !pre_finished[c as int] && on_stack_above(pre_st, si, c) {
                let sj = choose|sj: int|
                    si < sj < pre_st.len() && (#[trigger] pre_st[sj]).0 == c;
                if sj == pre_st.len() - 1 {
                    assert(c == v);
                    assert(post_finished[c as int]);
                } else {
                    assert(post_st[sj] == pre_st[sj]);
                    assert(on_stack_above(post_st, si, c));
                }
            }
        }
    }
}

/// Advancing the top frame's cursor by one keeps the stack coherent and
/// costs one unit of remaining work.
#[verifier::rlimit(100)]
proof fn lemma_dfs_advance(
    g: &DependencyGraph,
    visited: Seq<bool>,
    finished: Seq<bool>,
    pre_st: Seq<(usize, usize)>,
    mid_st: Seq<(usize, usize)>,
    fin: Seq<int>,
)
    requires
        g.wf(),
        dfs_state_inv(g, visited, finished, pre_st, fin),
        pre_st.len() >= 1,
        pre_st.last().1 < usize::MAX,
        pre_st.last().1 < g.out@[pre_st.last().0 as int]@.len(),
        mid_st == pre_st.update(
            pre_st.len() - 1,
            (pre_st.last().0, (pre_st.last().1 + 1) as usize),
        ),
    ensures
        dfs_state_inv(g, visited, finished, mid_st, fin),
        rem_work(g, mid_st) + 1 == rem_work(g, pre_st),
{
    assert(frame_ok(g, visited, finished, pre_st[pre_st.len() - 1]));
    assert(mid_st.drop_last() =~= pre_st.drop_last());
    assert(rem_work(g, mid_st) + 1 == rem_work(g, pre_st));
    assert forall|si: int| 0 <= si < mid_st.len() implies frame_ok(
        g,
        visited,
        finished,
        #[trigger] mid_st[si],
    ) by {
        if si < mid_st.len() - 1 {
            assert(mid_st[si] == pre_st[si]);
        }
        assert(frame_ok(g, visited, finished, pre_st[si]));
    }
    assert forall|x: int|
        0 <= x < g.n() && visited[x] && !(#[trigger] finished[x]) implies stack_nodes(
        mid_st,
    ).contains(x) by {
        let si = choose|si: int|
            0 <= si < stack_nodes(pre_st).len() && stack_nodes(pre_st)[si] == x;
        assert(stack_nodes(mid_st)[si] == x);
    }
    assert forall|si: int|
        0 <= si < mid_st.len() - 1 implies g.has_edge(
        (#[trigger] mid_st[si]).0 as int,
        mid_st[si + 1].0 as int,
    ) by {
        assert(mid_st[si].0 == pre_st[si].0);
        assert(mid_st[si + 1].0 == pre_st[si + 1].0);
        assert(g.has_edge((#[trigger] pre_st[si]).0 as int, pre_st[si + 1].0 as int));
    }
    assert forall|si: int, sj: int|
        0 <= si < sj < mid_st.len() implies (#[trigger] mid_st[si]).0 != (
    #[trigger] mid_st[sj]).0 by {
        assert(mid_st[si].0 == pre_st[si].0);
        assert(mid_st[sj].0 == pre_st[sj].0);
    }
}

/// After the cursor has moved past child `c`, pushing a fresh frame for an
/// unvisited `c` keeps the invariants: the chain grows by the edge to `c`,
/// and `c` is the only new gray node.
#[verifier::rlimit(100)]
proof fn lemma_dfs_push(
    g: &DependencyGraph,
    old_visited: Seq<bool>,
    visited: Seq<bool>,
    finished: Seq<bool>,
    pre_st: Seq<(usize, usize)>,
    mid_st: Seq<(usize, usize)>,
    post_st: Seq<(usize, usize)>,
    fin: Seq<int>,
    c: usize,
    cycles: Seq<Vec<usize>>,
)
    requires
        g.wf(),
        dfs_state_inv(g, old_visited, finished, pre_st, fin),
        pre_st.len() >= 1,
        pre_st.last().1 < usize::MAX,
        pre_st.last().1 < g.out@[pre_st.last().0 as int]@.len(),
        c == g.out@[pre_st.last().0 as int]@[pre_st.last().1 as int],
        !old_visited[c as int],
        visited == old_visited.update(c as int, true),
        mid_st == pre_st.update(
            pre_st.len() - 1,
            (pre_st.last().0, (pre_st.last().1 + 1) as usize),
        ),
        post_st == mid_st.push((c, 0)),
        examined_cov_inv(g, pre_st, finished, cycles),
    ensures
        dfs_state_inv(g, visited, finished, post_st, fin),
        examined_cov_inv(g, post_st, finished, cycles),
{
    let v = pre_st.last().0;
    let k = pre_st.last().1;
    assert(frame_ok(g, old_visited, finished, pre_st[pre_st.len() - 1]));
    assert((c as int) < g.n());
    assert(!finished[c as int]);
    assert(g.has_edge(v as int, c as int)) by {
        assert(g.out@[v as int]@[k as int] == c);
    }
    assert forall|si: int| 0 <= si < post_st.len() implies frame_ok(
        g,
        visited,
        finished,
        #[trigger] post_st[si],
    ) by {
        if si < post_st.len() - 1 {
            assert(post_st[si].0 == pre_st[si].0);
            assert(post_st[si].1 <= g.out@[pre_st[si].0 as int]@.len());
            assert(frame_ok(g, old_visited, finished, pre_st[si]));
        } else {
            assert(post_st[si].0 == c && post_st[si].1 == 0);
        }
    }
    assert forall|si: int|
        0 <= si < post_st.len() - 1 implies g.has_edge(
        (#[trigger] post_st[si]).0 as int,
        post_st[si + 1].0 as int,
    ) by {
        if si < post_st.len() - 2 {
            assert(post_st[si].0 == pre_st[si].0 && post_st[si + 1].0 == pre_st[si + 1].0);
            assert(g.has_edge((#[trigger] pre_st[si]).0 as int, pre_st[si + 1].0 as int));
        } else {
            assert(post_st[si].0 == v && post_st[si + 1].0 == c);
        }
    }
    assert forall|si: int, sj: int|
        0 <= si < sj < post_st.len() implies (#[trigger] post_st[si]).0 != (
    #[trigger] post_st[sj]).0 by {
        if sj < post_st.len() - 1 {
            assert(post_st[si].0 == pre_st[si].0 && post_st[sj].0 == pre_st[sj].0);
        } else {
            assert(post_st[sj].0 == c);
            assert(post_st[si].0 == pre_st[si].0);
            assert(frame_ok(g, old_visited, finished, pre_st[si]));
            assert(old_visited[pre_st[si].0 as int]);
        }
    }
    assert forall|x: int|
        0 <= x < g.n() && visited[x] && !(#[trigger] finished[x]) implies stack_nodes(
        post_st,
    ).contains(x) by {
        if x == c as int {
            assert(stack_nodes(post_st)[post_st.len() - 1] == c as int);
        } else {
            assert(old_visited[x]);
            let si = choose|si: int|
                0 <= si < stack_nodes(pre_st).len() && stack_nodes(pre_st)[si] == x;
            assert(stack_nodes(post_st)[si] == x);
        }
    }
    assert forall|si: int| 0 <= si < post_st.len() implies #[trigger] frame_examined_cov(
        g,
        post_st,
        si,
        finished,
        cycles,
    ) by {
        assert forall|j: int| 0 <= j < post_st[si].1 implies finished[(
        #[trigger] g.out@[post_st[si].0 as int]@[j]) as int] || on_stack_above(
            post_st,
            si,
            g.out@[post_st[si].0 as int]@[j],
        ) || covered(
            cycles,
            post_st[si].0 as int,
            g.out@[post_st[si].0 as int]@[j] as int,
        ) by {
            if si == post_st.len() - 1 {
                assert(false);
            } else if si == post_st.len() - 2 && j == k as int {
                assert(post_st[si].0 == v);
                assert(g.out@[v as int]@[j] == c);
                assert((#[trigger] post_st[post_st.len() - 1]).0 == c);
            } else {
                assert(post_st[si].0 == pre_st[si].0);
                assert(j < pre_st[si].1) by {
                    if si < post_st.len() - 2 {
                        assert(post_st[si] == pre_st[si]);
                    }
                }
                assert(frame_examined_cov(g, pre_st, si, finished, cycles));
                let ch = g.out@[pre_st[si].0 as int]@[j];
                assert(finished[ch as int] || on_stack_above(pre_st, si, ch) || covered(
                    cycles,
                    pre_st[si].0 as int,
                    ch as int,
                ));
                if !finished[ch as int] && on_stack_above(pre_st, si, ch) {
                    let sj = choose|sj: int|
                        si < sj < pre_st.len() && (#[trigger] pre_st[sj]).0 == ch;
                    assert(post_st[sj].0 == pre_st[sj].0);
                    assert(on_stack_above(post_st, si, ch));
                }
            }
        }
    }
}

/// After the cursor has moved past an already-finished child, every
/// examined edge still leads to a finished, still-gray or cycle-covered
/// node.
#[verifier::rlimit(100)]
proof fn lemma_dfs_black(
    g: &DependencyGraph,
    finished: Seq<bool>,
    pre_st: Seq<(usize, usize)>,
    mid_st: Seq<(usize, usize)>,
    c: usize,
    cycles: Seq<Vec<usize>>,
)
    requires
        g.wf(),
        pre_st.len() >= 1,
        pre_st.last().1 < usize::MAX,
        pre_st.last().1 < g.out@[pre_st.last().0 as int]@.len(),
        c == g.out@[pre_st.last().0 as int]@[pre_st.last().1 as int],
        finished[c as int],
        mid_st == pre_st.update(
            pre_st.len() - 1,
            (pre_st.last().0, (pre_st.last().1 + 1) as usize),
        ),
        examined_cov_inv(g, pre_st, finished, cycles),
    ensures
        examined_cov_inv(g, mid_st, finished, cycles),
{
    let v = pre_st.last().0;
    let k = pre_st.last().1;
    assert forall|si: int| 0 <= si < mid_st.len() implies #[trigger] frame_examined_cov(
        g,
        mid_st,
        si,
        finished,
        cycles,
    ) by {
        assert forall|j: int| 0 <= j < mid_st[si].1 implies finished[(
        #[trigger] g.out@[mid_st[si].0 as int]@[j]) as int] || on_stack_above(
            mid_st,
            si,
            g.out@[mid_st[si].0 as int]@[j],
        ) || covered(
            cycles,
            mid_st[si].0 as int,
            g.out@[mid_st[si].0 as int]@[j] as int,
        ) by {
            assert(mid_st[si].0 == pre_st[si].0);
            if si == mid_st.len() - 1 && j == k as int {
                assert(g.out@[v as int]@[j] == c);
                assert(finished[c as int]);
            } else {
                assert(j < pre_st[si].1) by {
                    if si < mid_st.len() - 1 {
                        assert(mid_st[si] == pre_st[si]);
                    }
                }
                assert(frame_examined_cov(g, pre_st, si, finished, cycles));
                let ch = g.out@[pre_st[si].0 as int]@[j];
                assert(finished[ch as int] || on_stack_above(pre_st, si, ch) || covered(
                    cycles,
                    pre_st[si].0 as int,
                    ch as int,
                ));
                if !finished[ch as int] && on_stack_above(pre_st, si, ch) {
                    let sj = choose|sj: int|
                        si < sj < pre_st.len() && (#[trigger] pre_st[sj]).0 == ch;
                    assert(mid_st[sj].0 == pre_st[sj].0);
                    assert(on_stack_above(mid_st, si, ch));
                }
            }
        }
    }
}

/// After the cursor has moved past a still-gray child, the newly recorded
/// cycle covers that edge, and recording it uncovers nothing else.
#[verifier::rlimit(100)]
proof fn lemma_dfs_gray(
    g: &DependencyGraph,
    finished: Seq<bool>,
    pre_st: Seq<(usize, usize)>,
    mid_st: Seq<(usize, usize)>,
    c: usize,
    cycles: Seq<Vec<usize>>,
    cyc: Vec<usize>,
    fin: Seq<int>,
)
    requires
        g.wf(),
        pre_st.len() >= 1,
        pre_st.last().1 < usize::MAX,
        pre_st.last().1 < g.out@[pre_st.last().0 as int]@.len(),
        c == g.out@[pre_st.last().0 as int]@[pre_st.last().1 as int],
        mid_st == pre_st.update(
            pre_st.len() - 1,
            (pre_st.last().0, (pre_st.last().1 + 1) as usize),
        ),
        examined_cov_inv(g, pre_st, finished, cycles),
        fin_covered(g, fin, cycles),
        int_seq(cyc@).contains(pre_st.last().0 as int),
        int_seq(cyc@).contains(c as int),
    ensures
        examined_cov_inv(g, mid_st, finished, cycles.push(cyc)),
        fin_covered(g, fin, cycles.push(cyc)),
{
    let v = pre_st.last().0;
    let k = pre_st.last().1;
    lemma_covered_grow(cycles, cyc);
    let post_cycles = cycles.push(cyc);
    assert(covered(post_cycles, v as int, c as int)) by {
        assert(post_cycles[post_cycles.len() - 1] == cyc);
    }
    assert forall|idx: int, b: int|
        0 <= idx < fin.len() && #[trigger] g.has_edge(fin[idx], b) implies (exists|jdx: int|
        0 <= jdx < idx && fin[jdx] == b) || covered(post_cycles, fin[idx], b) by {
        if covered(cycles, fin[idx], b) {
            assert(covered(post_cycles, fin[idx], b));
        }
    }
    assert forall|si: int| 0 <= si < mid_st.len() implies #[trigger] frame_examined_cov(
        g,
        mid_st,
        si,
        finished,
        post_cycles,
    ) by {
        assert forall|j: int| 0 <= j < mid_st[si].1 implies finished[(
        #[trigger] g.out@[mid_st[si].0 as int]@[j]) as int] || on_stack_above(
            mid_st,
            si,
            g.out@[mid_st[si].0 as int]@[j],
        ) || covered(
            post_cycles,
            mid_st[si].0 as int,
            g.out@[mid_st[si].0 as int]@[j] as int,
        ) by {
            assert(mid_st[si].0 == pre_st[si].0);
            if si == mid_st.len() - 1 && j == k as int {
                assert(g.out@[v as int]@[j] == c);
                assert(covered(post_cycles, v as int, c as int));
            } else {
                assert(j < pre_st[si].1) by {
                    if si < mid_st.len() - 1 {
                        assert(mid_st[si] == pre_st[si]);
                    }
                }
                assert(frame_examined_cov(g, pre_st, si, finished, cycles));
                let ch = g.out@[pre_st[si].0 as int]@[j];
                assert(finished[ch as int] || on_stack_above(pre_st, si, ch) || covered(
                    cycles,
                    pre_st[si].0 as int,
                    ch as int,
                ));
                if !finished[ch as int] && on_stack_above(pre_st, si, ch) {
                    let sj = choose|sj: int|
                        si < sj < pre_st.len() && (#[trigger] pre_st[sj]).0 == ch;
                    assert(mid_st[sj].0 == pre_st[sj].0);
                    assert(on_stack_above(mid_st, si, ch));
                }
                if covered(cycles, pre_st[si].0 as int, ch as int) {
                    assert(covered(post_cycles, pre_st[si].0 as int, ch as int));
                }
            }
        }
    }
}

/// Run the stack-tracked depth-first search until the stack empties,
/// recording a cycle whenever an examined child is still on the stack and
/// appending each node to the ghost finish sequence as it finishes.
#[verifier::rlimit(100)]
fn dfs_record_cycles(
    g: &DependencyGraph,
    visited: &mut Vec<bool>,
    finished: &mut Vec<bool>,
    cycles: &mut Vec<Vec<usize>>,
    stack: &mut Vec<(usize, usize)>,
    order: &mut Vec<usize>,
    Ghost(fin0): Ghost<Seq<int>>,
    Ghost(uset0): Ghost<Set<int>>,
) -> (res: Ghost<(Seq<int>, Set<int>)>)
    requires
        g.wf(),
        int_seq(old(order)@) == fin0,
        dfs_state_inv(g, old(visited)@, old(finished)@, old(stack)@, fin0),
        forall|x: int| uset0.contains(x) <==> (0 <= x < g.n() && !old(visited)@[x]),
        uset0.finite(),
        fin_covered(g, fin0, old(cycles)@),
        examined_cov_inv(g, old(stack)@, old(finished)@, old(cycles)@),
        forall|ci: int|
            0 <= ci < old(cycles)@.len() ==> g.is_cycle(int_seq((#[trigger] old(cycles)@[ci])@))
                && int_seq(old(cycles)@[ci]@).no_duplicates(),
    ensures
        final(stack)@.len() == 0,
        int_seq(final(order)@) == res@.0,
        dfs_state_inv(g, final(visited)@, final(finished)@, final(stack)@, res@.0),
        forall|x: int| res@.1.contains(x) <==> (0 <= x < g.n() && !final(visited)@[x]),
        res@.1.finite(),
        fin_covered(g, res@.0, final(cycles)@),
        examined_cov_inv(g, final(stack)@, final(finished)@, final(cycles)@),
        forall|ci: int|
            0 <= ci < final(cycles)@.len() ==> g.is_cycle(
                int_seq((#[trigger] final(cycles)@[ci])@),
            ) && int_seq(final(cycles)@[ci]@).no_duplicates(),
        final(cycles)@.len() == 0 ==> old(cycles)@.len() == 0,
        forall|x: int| 0 <= x < g.n() && old(visited)@[x] ==> final(visited)@[x],
{
    let ghost mut fin: Seq<int> = fin0;
    let ghost mut uset: Set<int> = uset0;
    while stack.len() > 0
        invariant
            g.wf(),
            int_seq(order@) == fin,
            dfs_state_inv(g, visited@, finished@, stack@, fin),
            forall|x: int| uset.contains(x) <==> (0 <= x < g.n() && !visited@[x]),
            uset.finite(),
            fin_covered(g, fin, cycles@),
            examined_cov_inv(g, stack@, finished@, cycles@),
            forall|ci: int|
                0 <= ci < cycles@.len() ==> g.is_cycle(int_seq((#[trigger] cycles@[ci])@))
                    && int_seq(cycles@[ci]@).no_duplicates(),
            cycles@.len() == 0 ==> old(cycles)@.len() == 0,
            forall|x: int| 0 <= x < g.n() && old(visited)@[x] ==> visited@[x],
        decreases uset.len(), rem_work(g, stack@), stack@.len(),
    {
        let top = stack.len() - 1;
        let (v, k) = stack[top];
        proof {
            assert(frame_ok(g, visited@, finished@, stack@[top as int]));
        }
        if k == g.out[v].len() {
            let ghost pre_st = stack@;
            let ghost pre_fin = fin;
            let ghost pre_finished = finished@;
            stack.pop();
            finished.set(v, true);
            order.push(v);
            proof {
                fin = fin.push(v as int);
                assert(int_seq(order@) =~= fin);
                assert(stack@ =~= pre_st.drop_last());
                lemma_dfs_pop(
                    g,
                    visited@,
                    pre_finished,
                    finished@,
                    pre_st,
                    stack@,
                    pre_fin,
                    fin,
                    cycles@,
                );
            }
        } else {
            let c = g.out[v][k];
            let ghost pre_st = stack@;
            stack.set(top, (v, k + 1));
            let ghost mid_st = stack@;
            proof {
                assert(mid_st == pre_st.update(
                    pre_st.len() - 1,
                    (pre_st.last().0, (pre_st.last().1 + 1) as usize),
                ));
                lemma_dfs_advance(g, visited@, finished@, pre_st, mid_st, fin);
            }
            if !visited[c] {
                let ghost old_visited = visited@;
                let ghost pre_uset = uset;
                visited.set(c, true);
                proof {
                    assert(pre_uset.contains(c as int));
                    uset = uset.remove(c as int);
                    assert(uset.len() < pre_uset.len());
                }
                stack.push((c, 0));
                proof {
                    lemma_dfs_push(
                        g,
                        old_visited,
                        visited@,
                        finished@,
                        pre_st,
                        mid_st,
                        stack@,
                        fin,
                        c,
                        cycles@,
                    );
                }
            } else if !finished[c] {
                proof {
                    assert(stack_nodes(mid_st).contains(c as int));
                    let si = choose|si: int|
                        0 <= si < stack_nodes(mid_st).len() && stack_nodes(mid_st)[si]
                            == c as int;
                    assert((#[trigger] mid_st[si]).0 == c);
                }
                let pos = find_on_stack(stack, c);
                let cyc = stack_suffix_nodes(stack, pos);
                proof {
                    let cs = int_seq(cyc@);
                    assert forall|i: int| 0 <= i < cs.len() - 1 implies g.has_edge(
                        #[trigger] cs[i],
                        cs[i + 1],
                    ) by {
                        assert(cyc@[i] == mid_st[pos + i].0);
                        assert(cyc@[i + 1] == mid_st[pos + i + 1].0);
                        assert(g.has_edge(
                            (#[trigger] mid_st[pos + i]).0 as int,
                            mid_st[pos + i + 1].0 as int,
                        ));
                    }
                    assert(cs.last() == mid_st[mid_st.len() - 1].0 as int);
                    assert(cs.first() == c as int);
                    assert(g.has_edge(v as int, c as int)) by {
                        assert(g.out@[v as int]@[k as int] == c);
                    }
                    assert(g.is_cycle(cs));
                    assert(cs.no_duplicates()) by {
                        assert forall|k1: int, k2: int|
                            0 <= k1 < cs.len() && 0 <= k2 < cs.len() && k1 != k2 implies cs[k1]
                            != cs[k2] by {
                            assert(cyc@[k1] == mid_st[pos + k1].0);
                            assert(cyc@[k2] == mid_st[pos + k2].0);
                            assert((#[trigger] mid_st[pos + k1]).0 != (
                            #[trigger] mid_st[pos + k2]).0);
                        }
                    }
                }
                let ghost old_cycles = cycles@;
                let ghost cyc_g = cyc;
                cycles.push(cyc);
                proof {
                    assert forall|ci: int| 0 <= ci < cycles@.len() implies g.is_cycle(
                        int_seq((#[trigger] cycles@[ci])@),
                    ) && int_seq(cycles@[ci]@).no_duplicates() by {
                        if ci < cycles@.len() - 1 {
                            assert(cycles@[ci] == old_cycles[ci]);
                        } else {
                            assert(cycles@[ci] == cyc_g);
                        }
                    }
                    assert(int_seq(cyc_g@).contains(v as int)) by {
                        assert(int_seq(cyc_g@)[cyc_g@.len() - 1] == v as int);
                    }
                    assert(int_seq(cyc_g@).contains(c as int)) by {
                        assert(int_seq(cyc_g@)[0] == c as int);
                    }
                    lemma_dfs_gray(g, finished@, pre_st, mid_st, c, old_cycles, cyc_g, fin);
                    assert(cycles@ == old_cycles.push(cyc_g));
                }
            } else {
                proof {
                    lemma_dfs_black(g, finished@, pre_st, mid_st, c, cycles@);
                }
            }
        }
    }
    Ghost((fin, uset))
}

/// Return all the cycles the stack-tracked depth-first search finds; the
/// result is empty exactly when the graph is acyclic.
///
/// When a traversal reaches a node already on the recursion stack, the
/// stack slice from that node's position to the top is recorded as one
/// cycle. Not every distinct elementary cycle is enumerated, but no cyclic
/// region goes unreported: every node that lies on a cycle shares a
/// strongly connected component with some recorded cycle, which is enough
/// for error reporting.
#[verifier::rlimit(100)]
pub fn find_cycles(g: &DependencyGraph) -> (cycles: Vec<Vec<usize>>)
    requires
        g.wf(),
    ensures
        cycles@.len() == 0 <==> g.acyclic(),
        forall|ci: int|
            0 <= ci < cycles@.len() ==> g.is_cycle(int_seq((#[trigger] cycles@[ci])@)) && int_seq(
                cycles@[ci]@,
            ).no_duplicates(),
        forall|v: int|
            #[trigger] g.reaches_plus(v, v) ==> exists|ci: int|
                0 <= ci < cycles@.len() && g.reaches(
                    v,
                    int_seq((#[trigger] cycles@[ci])@).first(),
                ) && g.reaches(int_seq(cycles@[ci]@).first(), v),
{
    let n = g.in_graph.len();
    let mut visited: Vec<bool> = vec_false(n);
    let mut finished: Vec<bool> = vec_false(n);
    let mut cycles: Vec<Vec<usize>> = Vec::new();
    let mut stack: Vec<(usize, usize)> = Vec::new();
    let mut order: Vec<usize> = Vec::new();
    let ghost mut fin: Seq<int> = Seq::empty();
    let ghost mut uset: Set<int> = Set::new(|x: int| 0 <= x < n && !visited@[x]);
    proof {
        assert(uset =~= vstd::set_lib::set_int_range(0, n as int));
        vstd::set_lib::lemma_int_range(0, n as int);
    }
    let mut s: usize = 0;
    while s < n
        invariant
            g.wf(),
            n == g.n(),
            stack@.len() == 0,
            int_seq(order@) == fin,
            dfs_state_inv(g, visited@, finished@, stack@, fin),
            forall|x: int| uset.contains(x) <==> (0 <= x < g.n() && !visited@[x]),
            uset.finite(),
            fin_covered(g, fin, cycles@),
            forall|ci: int|
                0 <= ci < cycles@.len() ==> g.is_cycle(int_seq((#[trigger] cycles@[ci])@))
                    && int_seq(cycles@[ci]@).no_duplicates(),
            forall|x: int| 0 <= x < s ==> visited@[x],
            s <= n,
        decreases n - s,
    {
        if !visited[s] {
            let ghost old_visited = visited@;
            let ghost pre_uset = uset;
            visited.set(s, true);
            proof {
                assert(pre_uset.contains(s as int));
                uset = uset.remove(s as int);
            }
            stack.push((s, 0));
            proof {
                assert forall|x: int|
                    0 <= x < g.n() && visited@[x] && !(#[trigger] finished@[x]) implies stack_nodes(
                    stack@,
                ).contains(x) by {
                    if x == s as int {
                        assert(stack_nodes(stack@)[0] == s as int);
                    } else {
                        assert(old_visited[x]);
                        assert(stack_nodes(Seq::<(usize, usize)>::empty()).contains(x));
                    }
                }
                assert forall|si: int|
                    0 <= si < stack@.len() implies #[trigger] frame_examined_cov(
                    g,
                    stack@,
                    si,
                    finished@,
                    cycles@,
                ) by {
                    assert(stack@[si].1 == 0);
                }
            }
            let res = dfs_record_cycles(
                g,
                &mut visited,
                &mut finished,
                &mut cycles,
                &mut stack,
                &mut order,
                Ghost(fin),
                Ghost(uset),
            );
            proof {
                fin = res@.0;
                uset = res@.1;
            }
        }
        s = s + 1;
    }
    proof {
        assert forall|x: int| 0 <= x < g.n() implies fin.contains(x) by {
            assert(visited@[x]);
            if !finished@[x] {
                assert(stack_nodes(stack@).contains(x));
                let si = choose|si: int|
                    0 <= si < stack_nodes(stack@).len() && stack_nodes(stack@)[si] == x;
                assert(false);
            }
            assert(fin.contains(x));
        }
        if cycles@.len() == 0 {
            lemma_fin_covered_clean(g, fin, cycles@);
            lemma_finish_order_acyclic(g, fin);
        } else {
            lemma_cycle_not_acyclic(g, int_seq(cycles@[0]@));
        }
        assert forall|v: int| #[trigger] g.reaches_plus(v, v) implies exists|ci: int|
            0 <= ci < cycles@.len() && g.reaches(v, int_seq((#[trigger] cycles@[ci])@).first())
                && g.reaches(int_seq(cycles@[ci]@).first(), v) by {
            let p = choose|p: Seq<int>|
                #[trigger] g.is_path(p) && p.len() >= 2 && p.first() == v && p.last() == v;
            assert(g.has_edge(p[0], p[1]));
            assert(0 <= v < g.n());
            assert(fin.contains(v));
            lemma_cycle_covered_edge(g, fin, cycles@, p);
            let k = choose|k: int|
                0 <= k < p.len() - 1 && covered(cycles@, #[trigger] p[k], p[k + 1]);
            let ci = choose|ci: int|
                0 <= ci < cycles@.len() && int_seq((#[trigger] cycles@[ci])@).contains(
                    p[k],
                ) && int_seq(cycles@[ci]@).contains(p[k + 1]);
            let cs = int_seq(cycles@[ci]@);
            assert(g.is_cycle(cs));
            let k2 = choose|k2: int| 0 <= k2 < cs.len() && cs[k2] == p[k];
            lemma_cycle_mutual(g, cs, k2);
            let pre = p.subrange(0, k + 1);
            assert(g.is_path(pre)) by {
                assert forall|j: int| 0 <= j < pre.len() - 1 implies g.has_edge(
                    #[trigger] pre[j],
                    pre[j + 1],
                ) by {
                    assert(pre[j] == p[j] && pre[j + 1] == p[j + 1]);
                }
            }
            assert(pre.first() == v && pre.last() == p[k]);
            assert(g.reaches(v, p[k]));
            let suf = p.subrange(k, p.len() as int);
            assert(g.is_path(suf)) by {
                assert forall|j: int| 0 <= j < suf.len() - 1 implies g.has_edge(
                    #[trigger] suf[j],
                    suf[j + 1],
                ) by {
                    assert(suf[j] == p[k + j] && suf[j + 1] == p[k + j + 1]);
                }
            }
            assert(suf.first() == p[k] && suf.last() == v);
            assert(g.reaches(p[k], v));
            lemma_reaches_trans(g, v, p[k], cs.first());
            lemma_reaches_trans(g, cs.first(), p[k], v);
            assert(g.reaches(v, int_seq(cycles@[ci]@).first()) && g.reaches(
                int_seq(cycles@[ci]@).first(),
                v,
            ));
        }
    }
    cycles
}

impl DependencyGraph {
    /// Each unit's target and generator are in the arena, the generation
    /// edge is present, and no two units share a target package.
    pub open spec fn units_ok(&self) -> bool {
        &&& forall|ui: int|
            0 <= ui < self.units@.len() ==> {
                let u = #[trigger] self.units@[ui];
                &&& (u.package as int) < self.n()
                &&& (u.generator.binary.package as int) < self.n()
                &&& self.has_edge(u.package as int, u.generator.binary.package as int)
            }
        &&& forall|u1: int, u2: int|
            0 <= u1 < u2 < self.units@.len() ==> (#[trigger] self.units@[u1]).package != (
            #[trigger] self.units@[u2]).package
    }
}

/// Some entry of `s` has the same mathematical content as `u`.
pub open spec fn seq_has_unit(s: Seq<CodegenUnit>, u: CodegenUnit) -> bool {
    exists|j: int| 0 <= j < s.len() && (#[trigger] s[j])@ == u@
}

/// Turn a finish order into the plan: walk the finished nodes in order and
/// append, for each, the units whose generator package it is.
#[verifier::rlimit(100)]
fn plan_from_order(
    g: &DependencyGraph,
    order: &Vec<usize>,
    Ghost(fin): Ghost<Seq<int>>,
) -> (plan: Vec<CodegenUnit>)
    requires
        g.wf(),
        g.units_ok(),
        g.acyclic(),
        int_seq(order@) == fin,
        respects_finish_order(g, fin),
        forall|a: int| 0 <= a < g.n() ==> #[trigger] fin.contains(a),
        forall|idx: int| 0 <= idx < fin.len() ==> 0 <= #[trigger] fin[idx] < g.n(),
    ensures
        plan@.len() == g.units@.len(),
        forall|ui: int|
            0 <= ui < g.units@.len() ==> seq_has_unit(plan@, #[trigger] g.units@[ui]),
        forall|j: int| 0 <= j < plan@.len() ==> seq_has_unit(g.units@, #[trigger] plan@[j]),
        forall|j1: int, j2: int|
            0 <= j1 < plan@.len() && 0 <= j2 < plan@.len() && j1 != j2 ==> (
            #[trigger] plan@[j1]).package != (#[trigger] plan@[j2]).package,
        forall|j1: int, j2: int|
            0 <= j1 < plan@.len() && 0 <= j2 < plan@.len() && j1 != j2 && #[trigger] g.reaches(
                plan@[j1].generator.binary.package as int,
                plan@[j2].package as int,
            ) ==> j2 < j1,
{
    let mut plan: Vec<CodegenUnit> = Vec::new();
    let ghost mut src: Seq<int> = Seq::empty();
    let ghost mut gdx: Seq<int> = Seq::empty();
    let mut idx: usize = 0;
    while idx < order.len()
        invariant
            g.wf(),
            g.units_ok(),
            int_seq(order@) == fin,
            idx <= order@.len(),
            plan@.len() == src.len(),
            src.len() == gdx.len(),
            forall|t: int| 0 <= t < src.len() ==> 0 <= #[trigger] src[t] < g.units@.len(),
            forall|t: int| 0 <= t < plan@.len() ==> (#[trigger] plan@[t])@ == g.units@[src[t]]@,
            forall|t: int|
                0 <= t < gdx.len() ==> 0 <= #[trigger] gdx[t] < idx && fin[gdx[t]]
                    == g.units@[src[t]].generator.binary.package as int,
            forall|t1: int, t2: int| #![trigger gdx[t1], gdx[t2]]
                0 <= t1 < t2 < src.len() ==> gdx[t1] < gdx[t2] || (gdx[t1] == gdx[t2]
                    && src[t1] < src[t2]),
            forall|ui: int|
                0 <= ui < g.units@.len() ==> ((exists|t: int|
                    0 <= t < src.len() && #[trigger] src[t] == ui) <==> (exists|jdx: int|
                    0 <= jdx < idx && fin[jdx] == (
                    #[trigger] g.units@[ui]).generator.binary.package as int)),
        decreases order@.len() - idx,
    {
        let node = order[idx];
        proof {
            assert(fin[idx as int] == node as int) by {
                assert(int_seq(order@)[idx as int] == order@[idx as int] as int);
            }
        }
        let mut ui: usize = 0;
        while ui < g.units.len()
            invariant
                g.wf(),
                g.units_ok(),
                int_seq(order@) == fin,
                idx < order@.len(),
                node == order@[idx as int],
                fin[idx as int] == node as int,
                ui <= g.units@.len(),
                plan@.len() == src.len(),
                src.len() == gdx.len(),
                forall|t: int| 0 <= t < src.len() ==> 0 <= #[trigger] src[t] < g.units@.len(),
                forall|t: int| 0 <= t < plan@.len() ==> (#[trigger] plan@[t])@ == g.units@[src[t]]@,
                forall|t: int|
                    0 <= t < gdx.len() ==> 0 <= #[trigger] gdx[t] <= idx && fin[gdx[t]]
                        == g.units@[src[t]].generator.binary.package as int && (gdx[t] == idx
                        ==> src[t] < ui),
                forall|t1: int, t2: int| #![trigger gdx[t1], gdx[t2]]
                    0 <= t1 < t2 < src.len() ==> gdx[t1] < gdx[t2] || (gdx[t1]
                        == gdx[t2] && src[t1] < src[t2]),
                forall|ui2: int|
                    0 <= ui2 < g.units@.len() ==> ((exists|t: int|
                        0 <= t < src.len() && #[trigger] src[t] == ui2) <==> ((exists|jdx: int|
                        0 <= jdx < idx && fin[jdx] == (
                        #[trigger] g.units@[ui2]).generator.binary.package as int) || (
                    g.units@[ui2].generator.binary.package == node && ui2 < ui))),
            decreases g.units@.len() - ui,
        {
            if g.units[ui].generator.binary.package == node {
                let u = g.units[ui].clone();
                let ghost old_src = src;
                let ghost old_gdx = gdx;
                let ghost old_plan = plan@;
                plan.push(u);
                proof {
                    src = src.push(ui as int);
                    gdx = gdx.push(idx as int);
                    assert forall|t: int| 0 <= t < plan@.len() implies (#[trigger] plan@[t])@
                        == g.units@[src[t]]@ by {
                        if t < plan@.len() - 1 {
                            assert(plan@[t] == old_plan[t] && src[t] == old_src[t]);
                        } else {
                            assert(src[t] == ui as int);
                        }
                    }
                    assert forall|t1: int, t2: int| #![trigger gdx[t1], gdx[t2]]
                        0 <= t1 < t2 < src.len() implies gdx[t1] < gdx[t2] || (gdx[t1] == gdx[t2]
                        && src[t1] < src[t2]) by {
                        if t2 < src.len() - 1 {
                            assert(gdx[t1] == old_gdx[t1] && gdx[t2] == old_gdx[t2]);
                            assert(src[t1] == old_src[t1] && src[t2] == old_src[t2]);
                        } else {
                            assert(gdx[t2] == idx as int && src[t2] == ui as int);
                            assert(gdx[t1] == old_gdx[t1] && src[t1] == old_src[t1]);
                        }
                    }
                    assert forall|ui2: int| 0 <= ui2 < g.units@.len() implies ((exists|t: int|
                        0 <= t < src.len() && #[trigger] src[t] == ui2) <==> ((exists|jdx: int|
                        0 <= jdx < idx && fin[jdx] == (
                        #[trigger] g.units@[ui2]).generator.binary.package as int) || (
                    g.units@[ui2].generator.binary.package == node && ui2 < ui + 1))) by {
                        if exists|t: int| 0 <= t < src.len() && #[trigger] src[t] == ui2 {
                            let t = choose|t: int| 0 <= t < src.len() && #[trigger] src[t] == ui2;
                            if t < src.len() - 1 {
                                assert(old_src[t] == ui2);
                                assert(exists|t2: int|
                                    0 <= t2 < old_src.len() && #[trigger] old_src[t2] == ui2);
                            } else {
                                assert(ui2 == ui as int);
                            }
                        }
                        if g.units@[ui2].generator.binary.package == node && ui2 < ui + 1 {
                            if ui2 < ui {
                                let t = choose|t: int|
                                    0 <= t < old_src.len() && #[trigger] old_src[t] == ui2;
                                assert(src[t] == ui2);
                            } else {
                                assert(src[src.len() - 1] == ui2);
                            }
                        }
                        if exists|jdx: int|
                            0 <= jdx < idx && fin[jdx] == (
                            #[trigger] g.units@[ui2]).generator.binary.package as int {
                            let t = choose|t: int|
                                0 <= t < old_src.len() && #[trigger] old_src[t] == ui2;
                            assert(src[t] == ui2);
                        }
                    }
                }
            } else {
                proof {
                    assert forall|ui2: int| 0 <= ui2 < g.units@.len() implies ((exists|t: int|
                        0 <= t < src.len() && #[trigger] src[t] == ui2) <==> ((exists|jdx: int|
                        0 <= jdx < idx && fin[jdx] == (
                        #[trigger] g.units@[ui2]).generator.binary.package as int) || (
                    g.units@[ui2].generator.binary.package == node && ui2 < ui + 1))) by {
                        if g.units@[ui2].generator.binary.package == node && ui2 < ui + 1 {
                            if ui2 == ui as int {
                                assert(false);
                            }
                        }
                    }
                }
            }
            ui = ui + 1;
        }
        idx = idx + 1;
        proof {
            assert forall|ui2: int| 0 <= ui2 < g.units@.len() implies ((exists|t: int|
                0 <= t < src.len() && #[trigger] src[t] == ui2) <==> (exists|jdx: int|
                0 <= jdx < idx && fin[jdx] == (
                #[trigger] g.units@[ui2]).generator.binary.package as int)) by {
                if exists|jdx: int|
                    0 <= jdx < idx && fin[jdx] == (
                    #[trigger] g.units@[ui2]).generator.binary.package as int {
                    let jdx = choose|jdx: int|
                        0 <= jdx < idx && fin[jdx]
                            == g.units@[ui2].generator.binary.package as int;
                    if jdx == idx - 1 {
                        assert(g.units@[ui2].generator.binary.package == node);
                    }
                }
            }
        }
    }
    proof {
        assert(fin.len() == order@.len());
        assert(src.no_duplicates()) by {
            assert forall|t1: int, t2: int|
                0 <= t1 < src.len() && 0 <= t2 < src.len() && t1 != t2 implies src[t1]
                != src[t2] by {
                if t1 < t2 {
                    if gdx[t1] == gdx[t2] {
                    } else {
                        if src[t1] == src[t2] {
                            assert(fin[gdx[t1]] == fin[gdx[t2]]);
                            assert(fin.no_duplicates());
                        }
                    }
                } else {
                    if gdx[t2] == gdx[t1] {
                    } else {
                        if src[t1] == src[t2] {
                            assert(fin[gdx[t1]] == fin[gdx[t2]]);
                            assert(fin.no_duplicates());
                        }
                    }
                }
            }
        }
        src.unique_seq_to_set();
        vstd::set_lib::lemma_int_range(0, g.units@.len() as int);
        assert(src.to_set() =~= vstd::set_lib::set_int_range(0, g.units@.len() as int)) by {
            assert forall|x: int|
                src.to_set().contains(x) implies vstd::set_lib::set_int_range(
                0,
                g.units@.len() as int,
            ).contains(x) by {
                let t = choose|t: int| 0 <= t < src.len() && src[t] == x;
                assert(0 <= x < g.units@.len());
            }
            assert forall|x: int|
                vstd::set_lib::set_int_range(0, g.units@.len() as int).contains(x) implies src
                .to_set()
                .contains(x) by {
                let gp = (#[trigger] g.units@[x]).generator.binary.package as int;
                assert(0 <= gp < g.n());
                assert(fin.contains(gp));
                let jdx = choose|jdx: int| 0 <= jdx < fin.len() && fin[jdx] == gp;
                assert(exists|jdx2: int| 0 <= jdx2 < idx && fin[jdx2] == gp);
                let t = choose|t: int| 0 <= t < src.len() && #[trigger] src[t] == x;
                assert(src[t] == x);
            }
        }
        assert(src.len() == g.units@.len());
        assert forall|j: int| 0 <= j < plan@.len() implies seq_has_unit(
            g.units@,
            #[trigger] plan@[j],
        ) by {
            let ui = src[j];
            assert((#[trigger] g.units@[ui])@ == plan@[j]@);
        }
        assert forall|ui: int| 0 <= ui < g.units@.len() implies seq_has_unit(
            plan@,
            #[trigger] g.units@[ui],
        ) by {
            let gp = g.units@[ui].generator.binary.package as int;
            assert(0 <= gp < g.n());
            assert(fin.contains(gp));
            let jdx = choose|jdx: int| 0 <= jdx < fin.len() && fin[jdx] == gp;
            assert(exists|jdx2: int| 0 <= jdx2 < idx && fin[jdx2] == gp);
            let t = choose|t: int| 0 <= t < src.len() && #[trigger] src[t] == ui;
            assert((#[trigger] plan@[t])@ == g.units@[ui]@);
        }
        assert forall|j1: int, j2: int|
            0 <= j1 < plan@.len() && 0 <= j2 < plan@.len() && j1 != j2 implies (
        #[trigger] plan@[j1]).package != (#[trigger] plan@[j2]).package by {
            assert(plan@[j1]@ == g.units@[src[j1]]@);
            assert(plan@[j2]@ == g.units@[src[j2]]@);
            assert(src[j1] != src[j2]);
            if src[j1] < src[j2] {
                assert((#[trigger] g.units@[src[j1]]).package != (
                #[trigger] g.units@[src[j2]]).package);
            } else {
                assert((#[trigger] g.units@[src[j2]]).package != (
                #[trigger] g.units@[src[j1]]).package);
            }
            assert(plan@[j1]@.package != plan@[j2]@.package);
        }
        assert forall|j1: int, j2: int|
            0 <= j1 < plan@.len() && 0 <= j2 < plan@.len() && j1 != j2 && #[trigger] g.reaches(
                plan@[j1].generator.binary.package as int,
                plan@[j2].package as int,
            ) implies j2 < j1 by {
            let g1 = plan@[j1].generator.binary.package as int;
            let t2 = plan@[j2].package as int;
            assert(plan@[j1]@ == g.units@[src[j1]]@);
            assert(plan@[j2]@ == g.units@[src[j2]]@);
            let g2 = g.units@[src[j2]].generator.binary.package as int;
            assert(g1 == g.units@[src[j1]].generator.binary.package as int);
            assert(t2 == g.units@[src[j2]].package as int);
            assert(g.has_edge(t2, g2));
            lemma_reaches_step(g, g1, t2, g2);
            if g1 == g2 {
                assert(g.reaches_plus(g1, g1));
                assert(false);
            }
            let p = choose|p: Seq<int>|
                #[trigger] g.is_path(p) && p.len() >= 2 && p.first() == g1 && p.last() == g2;
            assert(fin.contains(g1)) by {
                assert(0 <= g1 < g.n());
            }
            lemma_path_descends(g, fin, p);
            let i1 = fin.index_of(g1);
            let i2 = fin.index_of(g2);
            assert(i2 < i1);
            assert(fin[gdx[j1]] == g1 && fin[gdx[j2]] == g2);
            assert(fin[i1] == g1 && fin[i2] == g2);
            assert(gdx[j1] == i1) by {
                if gdx[j1] != i1 {
                    assert(fin.no_duplicates());
                    assert(false);
                }
            }
            assert(gdx[j2] == i2) by {
                if gdx[j2] != i2 {
                    assert(fin.no_duplicates());
                    assert(false);
                }
            }
            if j1 < j2 {
                assert(gdx[j1] < gdx[j2] || (gdx[j1] == gdx[j2] && src[j1] < src[j2]));
                assert(false);
            }
        }
    }
    plan
}

impl DependencyGraph {
    /// Return the codegen plan: the units ordered so that each can be
    /// generated after every unit its generator package depends on.
    ///
    /// A post-order depth-first traversal finishes a node only after
    /// everything it reaches has finished; appending a unit when its
    /// generator package finishes therefore puts it after every unit whose
    /// target its generator reaches. Each unit appears exactly once.
    #[verifier::rlimit(100)]
    pub fn codegen_plan(&self) -> (plan: Vec<CodegenUnit>)
        requires
            self.wf(),
            self.units_ok(),
            self.acyclic(),
        ensures
            plan@.len() == self.units@.len(),
            forall|ui: int|
                0 <= ui < self.units@.len() ==> seq_has_unit(plan@, #[trigger] self.units@[ui]),
            forall|j: int| 0 <= j < plan@.len() ==> seq_has_unit(self.units@, #[trigger] plan@[j]),
            forall|j1: int, j2: int|
                0 <= j1 < plan@.len() && 0 <= j2 < plan@.len() && j1 != j2 ==> (
                #[trigger] plan@[j1]).package != (#[trigger] plan@[j2]).package,
            forall|j1: int, j2: int|
                0 <= j1 < plan@.len() && 0 <= j2 < plan@.len() && j1 != j2
                    && #[trigger] self.reaches(
                    plan@[j1].generator.binary.package as int,
                    plan@[j2].package as int,
                ) ==> j2 < j1,
    {
        let n = self.in_graph.len();
        let mut visited: Vec<bool> = vec_false(n);
        let mut finished: Vec<bool> = vec_false(n);
        let mut cycles: Vec<Vec<usize>> = Vec::new();
        let mut stack: Vec<(usize, usize)> = Vec::new();
        let mut order: Vec<usize> = Vec::new();
        let ghost mut fin: Seq<int> = Seq::empty();
        let ghost mut uset: Set<int> = Set::new(|x: int| 0 <= x < n && !visited@[x]);
        proof {
            assert(uset =~= vstd::set_lib::set_int_range(0, n as int));
            vstd::set_lib::lemma_int_range(0, n as int);
        }
        let mut s: usize = 0;
        while s < n
            invariant
                self.wf(),
                n == self.n(),
                stack@.len() == 0,
                int_seq(order@) == fin,
                dfs_state_inv(self, visited@, finished@, stack@, fin),
                forall|x: int| uset.contains(x) <==> (0 <= x < self.n() && !visited@[x]),
                uset.finite(),
                fin_covered(self, fin, cycles@),
                forall|ci: int|
                    0 <= ci < cycles@.len() ==> self.is_cycle(int_seq((#[trigger] cycles@[ci])@))
                        && int_seq(cycles@[ci]@).no_duplicates(),
                forall|x: int| 0 <= x < s ==> visited@[x],
                s <= n,
            decreases n - s,
        {
            if !visited[s] {
                let ghost old_visited = visited@;
                let ghost pre_uset = uset;
                visited.set(s, true);
                proof {
                    assert(pre_uset.contains(s as int));
                    uset = uset.remove(s as int);
                }
                stack.push((s, 0));
                proof {
                    assert forall|x: int|
                        0 <= x < self.n() && visited@[x] && !(
                    #[trigger] finished@[x]) implies stack_nodes(stack@).contains(x) by {
                        if x == s as int {
                            assert(stack_nodes(stack@)[0] == s as int);
                        } else {
                            assert(old_visited[x]);
                            assert(stack_nodes(Seq::<(usize, usize)>::empty()).contains(x));
                        }
                    }
                    assert forall|si: int|
                        0 <= si < stack@.len() implies #[trigger] frame_examined_cov(
                        self,
                        stack@,
                        si,
                        finished@,
                        cycles@,
                    ) by {
                        assert(stack@[si].1 == 0);
                    }
                }
                let res = dfs_record_cycles(
                    self,
                    &mut visited,
                    &mut finished,
                    &mut cycles,
                    &mut stack,
                    &mut order,
                    Ghost(fin),
                    Ghost(uset),
                );
                proof {
                    fin = res@.0;
                    uset = res@.1;
                }
            }
            s = s + 1;
        }
        proof {
            if cycles@.len() > 0 {
                lemma_cycle_not_acyclic(self, int_seq(cycles@[0]@));
                assert(false);
            }
            lemma_fin_covered_clean(self, fin, cycles@);
            assert forall|a: int| 0 <= a < self.n() implies fin.contains(a) by {
                assert(visited@[a]);
                if !finished@[a] {
                    assert(stack_nodes(stack@).contains(a));
                    let si = choose|si: int|
                        0 <= si < stack_nodes(stack@).len() && stack_nodes(stack@)[si] == a;
                    assert(false);
                }
                assert(fin.contains(a));
            }
        }
        plan_from_order(self, &order, Ghost(fin))
    }
}

} // verus!
