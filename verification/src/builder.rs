//! Building the augmented dependency graph from the workspace and the
//! extracted codegen units. The frontier starts at the workspace members
//! and expands along reverse non-dev dependency edges, so the graph stays
//! limited to the packages that could need a workspace crate; then one
//! generation edge is added per unit. Cyclic configurations are rejected
//! with one error per detected cycle.

use vstd::prelude::*;

use crate::errors::{CodegenError, CycleStep, EdgeRelationship};
use crate::graph::{find_cycles, int_seq, vec_false, DependencyGraph};
use crate::unit::{unit_wf, CodegenUnit};
use crate::workspace::{lemma_depends_on_refl, Workspace};

verus! {

/// Some unit targets `a` and keeps its generator in `b`.
pub open spec fn gen_edge(units: Seq<CodegenUnit>, a: int, b: int) -> bool {
    exists|ui: int|
        0 <= ui < units.len() && (#[trigger] units[ui]).package == a
            && units[ui].generator.binary.package == b
}

/// The adjacency rows of `out` list `b` among the successors of `a`.
pub open spec fn adj_has(out: Seq<Vec<usize>>, a: int, b: int) -> bool {
    0 <= a < out.len() && exists|k: int|
        0 <= k < out[a]@.len() && (#[trigger] out[a]@[k]) as int == b
}

/// Package `i` belongs to the reverse closure of the workspace members:
/// it transitively depends on a member through non-dev edges (every
/// member trivially does).
pub open spec fn reaches_member(w: Workspace, i: int) -> bool {
    exists|m: int| w.is_member(m) && w.depends_on(i, m, false)
}

/// What graph construction guarantees: the graph spans the package arena,
/// its node set is exactly the member reverse closure, and an edge runs
/// from `a` to `b` exactly when `a` has a direct non-dev dependency on
/// node `b` or some unit records `a` as generated by a binary of `b`.
pub open spec fn graph_matches(g: DependencyGraph, w: Workspace, units: Seq<CodegenUnit>) -> bool {
    &&& g.wf()
    &&& g.n() == w.packages@.len()
    &&& g.units@ == units
    &&& forall|i: int| #[trigger] g.node(i) <==> reaches_member(w, i)
    &&& forall|a: int, b: int|
        #[trigger] g.has_edge(a, b) <==> ((g.node(b) && w.direct_dep(a, b, false)) || gen_edge(
            units,
            a,
            b,
        ))
}

/// A set of marks closed under taking direct dependents contains every
/// package that transitively depends on a marked one.
proof fn lemma_reverse_closed(w: &Workspace, marks: Seq<bool>, p: Seq<int>)
    requires
        marks.len() == w.packages@.len(),
        w.dep_path(p, false),
        0 <= p[p.len() - 1] < marks.len() && marks[p[p.len() - 1]],
        forall|a: int, b: int| #![trigger marks[a], marks[b]]
            0 <= b < marks.len() && marks[b] && w.direct_dep(a, b, false) ==> 0 <= a < marks.len()
                && marks[a],
    ensures
        0 <= p[0] < marks.len() && marks[p[0]],
    decreases p.len(),
{
    if p.len() >= 2 {
        let q = p.drop_last();
        assert(w.dep_path(q, false)) by {
            assert forall|k: int| 0 <= k < q.len() - 1 implies w.direct_dep(
                #[trigger] q[k],
                q[k + 1],
                false,
            ) by {
                assert(q[k] == p[k] && q[k + 1] == p[k + 1]);
            }
        }
        assert(w.direct_dep(p[p.len() - 2], p[p.len() - 1], false));
        assert(marks[p[p.len() - 2]]);
        assert(q[q.len() - 1] == p[p.len() - 2]);
        lemma_reverse_closed(w, marks, q);
        assert(q[0] == p[0]);
    }
}

/// Whether `v` lists `x`.
fn contains_idx(v: &Vec<usize>, x: usize) -> (r: bool)
    ensures
        r == v@.contains(x),
{
    let mut k: usize = 0;
    while k < v.len()
        invariant
            k <= v@.len(),
            forall|j: int| 0 <= j < k ==> v@[j] != x,
        decreases v@.len() - k,
    {
        if v[k] == x {
            return true;
        }
        k = k + 1;
    }
    proof {
        if v@.contains(x) {
            let j = choose|j: int| 0 <= j < v@.len() && v@[j] == x;
            assert(false);
        }
    }
    false
}

/// Whether package `a` has a direct non-dev dependency on package `i`.
fn has_nondev_dep(w: &Workspace, a: usize, i: usize) -> (r: bool)
    requires
        (a as int) < w.packages@.len(),
        (i as int) < w.packages@.len(),
    ensures
        r == w.direct_dep(a as int, i as int, false),
{
    let deps = &w.packages[a].deps;
    let mut k: usize = 0;
    while k < deps.len()
        invariant
            (a as int) < w.packages@.len(),
            (i as int) < w.packages@.len(),
            k <= deps@.len(),
            deps@ == w.packages@[a as int].deps@,
            forall|j: int|
                0 <= j < k ==> !((#[trigger] deps@[j]).to == i && !deps@[j].dev_only),
        decreases deps@.len() - k,
    {
        if deps[k].to == i && !deps[k].dev_only {
            proof {
                assert(w.direct_dep(a as int, i as int, false)) by {
                    assert(0 <= k < w.packages@[a as int].deps@.len());
                    assert((#[trigger] w.packages@[a as int].deps@[k as int]).to == i as int);
                    assert(!w.packages@[a as int].deps@[k as int].dev_only);
                }
            }
            return true;
        }
        k = k + 1;
    }
    proof {
        if w.direct_dep(a as int, i as int, false) {
            let j = choose|j: int|
                0 <= j < w.packages@[a as int].deps@.len()
                    && (#[trigger] w.packages@[a as int].deps@[j]).to == i as int && !w.packages@[a
                    as int].deps@[j].dev_only;
            assert(deps@[j].to == i && !deps@[j].dev_only);
            assert(false);
        }
    }
    false
}

/// Connect every package with a direct non-dev dependency on node `i`,
/// enqueuing newly discovered dependents.
#[verifier::rlimit(100)]
fn add_reverse_deps(
    w: &Workspace,
    i: usize,
    out: &mut Vec<Vec<usize>>,
    in_graph: &mut Vec<bool>,
    processed: &Vec<bool>,
    work: &mut Vec<usize>,
)
    requires
        (i as int) < w.packages@.len(),
        old(out)@.len() == w.packages@.len(),
        old(in_graph)@.len() == w.packages@.len(),
        processed@.len() == w.packages@.len(),
        old(in_graph)@[i as int],
    ensures
        final(out)@.len() == old(out)@.len(),
        final(in_graph)@.len() == old(in_graph)@.len(),
        forall|a: int, b: int|
            #[trigger] adj_has(final(out)@, a, b) <==> (adj_has(old(out)@, a, b) || (0 <= a
                < w.packages@.len() && w.direct_dep(a, i as int, false) && b == i as int)),
        forall|x: int| 0 <= x < w.packages@.len() && old(in_graph)@[x] ==> final(in_graph)@[x],
        forall|x: int|
            0 <= x < w.packages@.len() && #[trigger] final(in_graph)@[x] ==> (old(in_graph)@[x]
                || w.direct_dep(x, i as int, false)),
        forall|x: int|
            0 <= x < w.packages@.len() && w.direct_dep(x, i as int, false)
                ==> #[trigger] final(in_graph)@[x],
        forall|t: int| 0 <= t < old(work)@.len() ==> final(work)@[t] == old(work)@[t],
        final(work)@.len() >= old(work)@.len(),
        forall|t: int|
            old(work)@.len() <= t < final(work)@.len() ==> ((#[trigger] final(work)@[t]) as int)
                < w.packages@.len() && w.direct_dep((final(work)@[t]) as int, i as int, false),
        forall|a: int|
            0 <= a < w.packages@.len() && w.direct_dep(a, i as int, false) && !processed@[a]
                ==> exists|t: int|
                0 <= t < final(work)@.len() && ((#[trigger] final(work)@[t]) as int) == a,
{
    let n = w.packages.len();
    let mut a: usize = 0;
    while a < n
        invariant
            n == w.packages@.len(),
            (i as int) < n,
            a <= n,
            out@.len() == n,
            in_graph@.len() == n,
            processed@.len() == n,
            in_graph@[i as int],
            forall|a2: int, b: int|
                #[trigger] adj_has(out@, a2, b) <==> (adj_has(old(out)@, a2, b) || (0 <= a2 < a
                    && w.direct_dep(a2, i as int, false) && b == i as int)),
            forall|x: int| 0 <= x < n && old(in_graph)@[x] ==> in_graph@[x],
            forall|x: int|
                0 <= x < n && #[trigger] in_graph@[x] ==> (old(in_graph)@[x] || w.direct_dep(
                    x,
                    i as int,
                    false,
                )),
            forall|x: int|
                0 <= x < a && w.direct_dep(x, i as int, false) ==> #[trigger] in_graph@[x],
            forall|t: int| 0 <= t < old(work)@.len() ==> work@[t] == old(work)@[t],
            work@.len() >= old(work)@.len(),
            forall|t: int|
                old(work)@.len() <= t < work@.len() ==> ((#[trigger] work@[t]) as int) < n
                    && w.direct_dep((work@[t]) as int, i as int, false),
            forall|a2: int|
                0 <= a2 < a && w.direct_dep(a2, i as int, false) && !processed@[a2]
                    ==> exists|t: int|
                    0 <= t < work@.len() && ((#[trigger] work@[t]) as int) == a2,
        decreases n - a,
    {
        let ghost pre_out = out@;
        if has_nondev_dep(w, a, i) {
            if !contains_idx(&out[a], i) {
                let mut row = out[a].clone();
                row.push(i);
                proof {
                    assert(row@.drop_last() =~= out@[a as int]@);
                }
                out.set(a, row);
            }
            proof {
                assert forall|a2: int, b: int| #[trigger] adj_has(out@, a2, b) <==> (adj_has(
                    pre_out,
                    a2,
                    b,
                ) || (a2 == a as int && b == i as int)) by {
                    if adj_has(out@, a2, b) {
                        let k2 = choose|k2: int|
                            0 <= k2 < out@[a2]@.len() && ((#[trigger] out@[a2]@[k2]) as int) == b;
                        if a2 != a as int {
                            assert(out@[a2] == pre_out[a2]);
                            assert(adj_has(pre_out, a2, b));
                        } else {
                            if k2 < pre_out[a2]@.len() {
                                assert(pre_out[a2]@[k2] as int == b);
                                assert(adj_has(pre_out, a2, b));
                            } else {
                                assert(b == i as int);
                            }
                        }
                    }
                    if adj_has(pre_out, a2, b) {
                        let k2 = choose|k2: int|
                            0 <= k2 < pre_out[a2]@.len() && ((#[trigger] pre_out[a2]@[k2]) as int)
                                == b;
                        assert(out@[a2]@[k2] as int == b);
                        assert(adj_has(out@, a2, b));
                    }
                    if a2 == a as int && b == i as int && !adj_has(pre_out, a2, b) {
                        assert(!pre_out[a as int]@.contains(i));
                        assert(out@[a as int]@.last() == i);
                        assert(adj_has(out@, a2, b));
                    }
                }
            }
            in_graph.set(a, true);
            let ghost pre_work = work@;
            if !processed[a] {
                work.push(a);
            }
            proof {
                assert forall|a2: int|
                    0 <= a2 < a + 1 && w.direct_dep(a2, i as int, false) && !processed@[a2] implies
                    exists|t: int|
                        0 <= t < work@.len() && ((#[trigger] work@[t]) as int) == a2 by {
                    if a2 == a as int {
                        assert(work@[work@.len() - 1] as int == a2);
                    } else {
                        let t = choose|t: int|
                            0 <= t < pre_work.len() && ((#[trigger] pre_work[t]) as int) == a2;
                        assert(work@[t] as int == a2);
                    }
                }
            }
        } else {
            proof {
                assert forall|a2: int|
                    0 <= a2 < a + 1 && w.direct_dep(a2, i as int, false) && !processed@[a2] implies
                    exists|t: int|
                        0 <= t < work@.len() && ((#[trigger] work@[t]) as int) == a2 by {
                    if a2 == a as int {
                        assert(false);
                    }
                }
            }
        }
        a = a + 1;
    }
}

/// Build the augmented dependency graph: a frontier expands from the
/// workspace members along reverse non-dev dependency edges, so the node
/// set is exactly the packages that transitively depend on a member; then
/// one generation edge is added per unit.
#[verifier::rlimit(100)]
pub fn build_graph(units: Vec<CodegenUnit>, w: &Workspace) -> (g: DependencyGraph)
    requires
        forall|ui: int| 0 <= ui < units@.len() ==> unit_wf(#[trigger] units@[ui], *w),
    ensures
        graph_matches(g, *w, units@),
{
    let n = w.packages.len();
    let mut in_graph: Vec<bool> = vec_false(n);
    let mut processed: Vec<bool> = vec_false(n);
    let mut out: Vec<Vec<usize>> = Vec::new();
    let mut k: usize = 0;
    while k < n
        invariant
            k <= n,
            out@.len() == k,
            forall|a: int| 0 <= a < k ==> (#[trigger] out@[a])@.len() == 0,
        decreases n - k,
    {
        out.push(Vec::new());
        k = k + 1;
    }
    proof {
        assert forall|a: int, b: int| !adj_has(out@, a, b) by {
            if adj_has(out@, a, b) {
                let k2 = choose|k2: int|
                    0 <= k2 < out@[a]@.len() && ((#[trigger] out@[a]@[k2]) as int) == b;
                assert(false);
            }
        }
    }
    let mut work: Vec<usize> = Vec::new();
    let mut m: usize = 0;
    while m < n
        invariant
            m <= n,
            n == w.packages@.len(),
            forall|t: int|
                0 <= t < work@.len() ==> ((#[trigger] work@[t]) as int) < n && reaches_member(
                    *w,
                    (work@[t]) as int,
                ),
            forall|m2: int|
                0 <= m2 < m && w.is_member(m2) ==> exists|t: int|
                    0 <= t < work@.len() && ((#[trigger] work@[t]) as int) == m2,
        decreases n - m,
    {
        let ghost pre_work = work@;
        if w.packages[m].in_workspace {
            work.push(m);
            proof {
                lemma_depends_on_refl(w, m as int, false);
                assert(w.is_member(m as int));
                assert(w.depends_on(m as int, m as int, false));
                assert(reaches_member(*w, m as int));
            }
        }
        proof {
            assert forall|m2: int|
                0 <= m2 < m + 1 && w.is_member(m2) implies exists|t: int|
                0 <= t < work@.len() && ((#[trigger] work@[t]) as int) == m2 by {
                if m2 == m as int {
                    assert(work@[work@.len() - 1] as int == m2);
                } else {
                    let t = choose|t: int|
                        0 <= t < pre_work.len() && ((#[trigger] pre_work[t]) as int) == m2;
                    assert(work@[t] as int == m2);
                }
            }
        }
        m = m + 1;
    }
    let ghost mut uset: Set<int> = Set::new(|x: int| 0 <= x < n && !processed@[x]);
    proof {
        assert(uset =~= vstd::set_lib::set_int_range(0, n as int));
        vstd::set_lib::lemma_int_range(0, n as int);
    }
    while work.len() > 0
        invariant
            n == w.packages@.len(),
            out@.len() == n,
            in_graph@.len() == n,
            processed@.len() == n,
            forall|x: int| uset.contains(x) <==> (0 <= x < n && !processed@[x]),
            uset.finite(),
            forall|t: int|
                0 <= t < work@.len() ==> ((#[trigger] work@[t]) as int) < n && reaches_member(
                    *w,
                    (work@[t]) as int,
                ),
            forall|x: int| 0 <= x < n && #[trigger] processed@[x] ==> in_graph@[x],
            forall|x: int| 0 <= x < n && #[trigger] in_graph@[x] ==> reaches_member(*w, x),
            forall|a: int, b: int|
                #[trigger] adj_has(out@, a, b) ==> 0 <= a < n && 0 <= b < n && in_graph@[b]
                    && w.direct_dep(a, b, false),
            forall|a: int, b: int| #![trigger w.direct_dep(a, b, false)]
                0 <= a < n && 0 <= b < n && processed@[b] && w.direct_dep(a, b, false)
                    ==> adj_has(out@, a, b) && in_graph@[a],
            forall|x: int|
                0 <= x < n && in_graph@[x] && !processed@[x] ==> exists|t: int|
                    0 <= t < work@.len() && ((#[trigger] work@[t]) as int) == x,
            forall|m2: int|
                w.is_member(m2) && !in_graph@[m2] ==> exists|t: int|
                    0 <= t < work@.len() && ((#[trigger] work@[t]) as int) == m2,
        decreases uset.len(), work@.len(),
    {
        let ghost pre_work = work@;
        let i = match work.pop() {
            Some(v) => v,
            None => {
                proof {
                    assert(false);
                }
                0
            },
        };
        proof {
            assert(pre_work[pre_work.len() - 1] == i);
            assert(reaches_member(*w, i as int));
        }
        if !processed[i] {
            let ghost pre_uset = uset;
            let ghost pre_in = in_graph@;
            let ghost pre_out = out@;
            let ghost popped_work = work@;
            let ghost pre_processed = processed@;
            in_graph.set(i, true);
            add_reverse_deps(w, i, &mut out, &mut in_graph, &processed, &mut work);
            processed.set(i, true);
            proof {
                assert(pre_uset.contains(i as int));
                uset = uset.remove(i as int);
                assert(uset.len() < pre_uset.len());
                // every node still points somewhere that reaches a member
                assert forall|x: int|
                    0 <= x < n && #[trigger] in_graph@[x] implies reaches_member(*w, x) by {
                    if !pre_in[x] && x != i as int {
                        assert(w.direct_dep(x, i as int, false));
                        let m2 = choose|m2: int|
                            w.is_member(m2) && w.depends_on(i as int, m2, false);
                        crate::workspace::lemma_depends_on_step(w, x, i as int, m2, false);
                    }
                }
                // new work entries reach a member through i
                assert forall|t: int|
                    0 <= t < work@.len() implies ((#[trigger] work@[t]) as int) < n
                    && reaches_member(*w, (work@[t]) as int) by {
                    if t < popped_work.len() {
                        assert(work@[t] == popped_work[t]);
                        assert(popped_work[t] == pre_work[t]);
                    } else {
                        assert(w.direct_dep((work@[t]) as int, i as int, false));
                        let m2 = choose|m2: int|
                            w.is_member(m2) && w.depends_on(i as int, m2, false);
                        crate::workspace::lemma_depends_on_step(
                            w,
                            (work@[t]) as int,
                            i as int,
                            m2,
                            false,
                        );
                    }
                }
                // edge soundness: edges still point at marked nodes
                assert forall|a: int, b: int| #[trigger] adj_has(out@, a, b) implies 0 <= a < n
                    && 0 <= b < n && in_graph@[b] && w.direct_dep(a, b, false) by {
                    if adj_has(pre_out, a, b) {
                        assert(pre_in[b]);
                        assert(in_graph@[b]);
                    } else {
                        assert(0 <= a < n && w.direct_dep(a, i as int, false) && b == i as int);
                        assert(in_graph@[i as int]);
                    }
                }
                // edge completeness for processed targets
                assert forall|a: int, b: int| #![trigger w.direct_dep(a, b, false)]
                    0 <= a < n && 0 <= b < n && processed@[b] && w.direct_dep(
                        a,
                        b,
                        false,
                    ) implies adj_has(out@, a, b) && in_graph@[a] by {
                    if b == i as int {
                        assert(adj_has(out@, a, b));
                        assert(in_graph@[a]);
                    } else {
                        assert(pre_processed[b]);
                        assert(adj_has(pre_out, a, b));
                        assert(adj_has(out@, a, b));
                        assert(pre_in[a]);
                        assert(in_graph@[a]);
                    }
                }
                // every gray node is still enqueued
                assert forall|x: int|
                    0 <= x < n && in_graph@[x] && !processed@[x] implies exists|t: int|
                    0 <= t < work@.len() && ((#[trigger] work@[t]) as int) == x by {
                    assert(x != i as int);
                    if pre_in[x] {
                        let t = choose|t: int|
                            0 <= t < pre_work.len() && ((#[trigger] pre_work[t]) as int) == x;
                        assert(t < pre_work.len() - 1);
                        assert(popped_work[t] as int == x);
                        assert(work@[t] as int == x);
                    } else {
                        assert(w.direct_dep(x, i as int, false));
                        assert(!pre_processed[x]);
                        let t = choose|t: int|
                            0 <= t < work@.len() && ((#[trigger] work@[t]) as int) == x;
                    }
                }
                // members missing from the graph are still enqueued
                assert forall|m2: int|
                    w.is_member(m2) && !in_graph@[m2] implies exists|t: int|
                    0 <= t < work@.len() && ((#[trigger] work@[t]) as int) == m2 by {
                    assert(!pre_in[m2]);
                    assert(m2 != i as int);
                    let t = choose|t: int|
                        0 <= t < pre_work.len() && ((#[trigger] pre_work[t]) as int) == m2;
                    assert(t < pre_work.len() - 1);
                    assert(popped_work[t] as int == m2);
                    assert(work@[t] as int == m2);
                }
            }
        } else {
            proof {
                assert forall|x: int|
                    0 <= x < n && in_graph@[x] && !processed@[x] implies exists|t: int|
                    0 <= t < work@.len() && ((#[trigger] work@[t]) as int) == x by {
                    let t = choose|t: int|
                        0 <= t < pre_work.len() && ((#[trigger] pre_work[t]) as int) == x;
                    assert(t < pre_work.len() - 1);
                    assert(work@[t] as int == x);
                }
                assert forall|m2: int|
                    w.is_member(m2) && !in_graph@[m2] implies exists|t: int|
                    0 <= t < work@.len() && ((#[trigger] work@[t]) as int) == m2 by {
                    let t = choose|t: int|
                        0 <= t < pre_work.len() && ((#[trigger] pre_work[t]) as int) == m2;
                    assert(t < pre_work.len() - 1);
                    assert(work@[t] as int == m2);
                }
            }
        }
    }
    proof {
        // with the worklist drained, the marks are the member reverse
        // closure and the edges are complete for it
        assert forall|x: int|
            0 <= x < n && reaches_member(*w, x) implies #[trigger] in_graph@[x] by {
            let m2 = choose|m2: int| w.is_member(m2) && w.depends_on(x, m2, false);
            let p = choose|p: Seq<int>|
                #[trigger] w.dep_path(p, false) && p[0] == x && p[p.len() - 1] == m2;
            assert(in_graph@[m2]) by {
                if !in_graph@[m2] {
                    let t = choose|t: int|
                        0 <= t < work@.len() && ((#[trigger] work@[t]) as int) == m2;
                }
            }
            assert forall|a2: int, b2: int| #![trigger in_graph@[a2], in_graph@[b2]]
                0 <= b2 < in_graph@.len() && in_graph@[b2] && w.direct_dep(a2, b2, false) implies 0
                <= a2 < in_graph@.len() && in_graph@[a2] by {
                assert(processed@[b2]) by {
                    if !processed@[b2] {
                        let t = choose|t: int|
                            0 <= t < work@.len() && ((#[trigger] work@[t]) as int) == b2;
                    }
                }
                assert(adj_has(out@, a2, b2) && in_graph@[a2]);
            }
            lemma_reverse_closed(w, in_graph@, p);
        }
        assert forall|a: int, b: int|
            0 <= b < n && in_graph@[b] && w.direct_dep(a, b, false) implies #[trigger] adj_has(
            out@,
            a,
            b,
        ) by {
            assert(processed@[b]) by {
                if !processed@[b] {
                    let t = choose|t: int|
                        0 <= t < work@.len() && ((#[trigger] work@[t]) as int) == b;
                }
            }
        }
    }
    let mut ui: usize = 0;
    while ui < units.len()
        invariant
            n == w.packages@.len(),
            out@.len() == n,
            in_graph@.len() == n,
            forall|ui2: int| 0 <= ui2 < units@.len() ==> unit_wf(#[trigger] units@[ui2], *w),
            ui <= units@.len(),
            forall|x: int| 0 <= x < n ==> ((#[trigger] in_graph@[x]) <==> reaches_member(*w, x)),
            forall|a: int, b: int|
                #[trigger] adj_has(out@, a, b) <==> ((0 <= a < n && 0 <= b < n && in_graph@[b]
                    && w.direct_dep(a, b, false)) || gen_edge(units@.subrange(0, ui as int), a, b)),
        decreases units@.len() - ui,
    {
        let t = units[ui].package;
        let gp = units[ui].generator.binary.package;
        proof {
            assert(unit_wf(units@[ui as int], *w));
        }
        let ghost pre_out = out@;
        if !contains_idx(&out[t], gp) {
            let mut row = out[t].clone();
            row.push(gp);
            proof {
                assert(row@.drop_last() =~= out@[t as int]@);
            }
            out.set(t, row);
        }
        proof {
            assert forall|a: int, b: int| #[trigger] adj_has(out@, a, b) <==> (adj_has(
                pre_out,
                a,
                b,
            ) || (a == t as int && b == gp as int)) by {
                if adj_has(out@, a, b) {
                    let k2 = choose|k2: int|
                        0 <= k2 < out@[a]@.len() && ((#[trigger] out@[a]@[k2]) as int) == b;
                    if a != t as int {
                        assert(out@[a] == pre_out[a]);
                        assert(adj_has(pre_out, a, b));
                    } else {
                        if k2 < pre_out[a]@.len() {
                            assert(pre_out[a]@[k2] as int == b);
                            assert(adj_has(pre_out, a, b));
                        } else {
                            assert(b == gp as int);
                        }
                    }
                }
                if adj_has(pre_out, a, b) {
                    let k2 = choose|k2: int|
                        0 <= k2 < pre_out[a]@.len() && ((#[trigger] pre_out[a]@[k2]) as int) == b;
                    assert(out@[a]@[k2] as int == b);
                    assert(adj_has(out@, a, b));
                }
                if a == t as int && b == gp as int && !adj_has(pre_out, a, b) {
                    assert(!pre_out[t as int]@.contains(gp));
                    assert(out@[t as int]@.last() == gp);
                    assert(adj_has(out@, a, b));
                }
            }
            assert forall|a: int, b: int| #[trigger] gen_edge(
                units@.subrange(0, ui as int + 1),
                a,
                b,
            ) <==> (gen_edge(units@.subrange(0, ui as int), a, b) || (a == t as int && b
                == gp as int)) by {
                let sub1 = units@.subrange(0, ui as int + 1);
                let sub0 = units@.subrange(0, ui as int);
                if gen_edge(sub1, a, b) {
                    let ui2 = choose|ui2: int|
                        0 <= ui2 < sub1.len() && (#[trigger] sub1[ui2]).package == a
                            && sub1[ui2].generator.binary.package == b;
                    if ui2 < ui as int {
                        assert(sub0[ui2] == sub1[ui2]);
                        assert(gen_edge(sub0, a, b));
                    } else {
                        assert(sub1[ui2] == units@[ui as int]);
                    }
                }
                if gen_edge(sub0, a, b) {
                    let ui2 = choose|ui2: int|
                        0 <= ui2 < sub0.len() && (#[trigger] sub0[ui2]).package == a
                            && sub0[ui2].generator.binary.package == b;
                    assert(sub1[ui2] == sub0[ui2]);
                    assert(gen_edge(sub1, a, b));
                }
                if a == t as int && b == gp as int {
                    assert(sub1[ui as int] == units@[ui as int]);
                    assert(gen_edge(sub1, a, b));
                }
            }
        }
        ui = ui + 1;
    }
    proof {
        assert(units@.subrange(0, units@.len() as int) =~= units@);
    }
    let g = DependencyGraph { in_graph, out, units };
    proof {
        assert forall|a: int, b: int| #[trigger] g.has_edge(a, b) implies adj_has(g.out@, a, b) by {
            let k2 = choose|k2: int|
                0 <= k2 < g.out@[a]@.len() && (#[trigger] g.out@[a]@[k2]) == b;
            assert(((g.out@[a]@[k2]) as int) == b);
            assert(adj_has(g.out@, a, b));
        }
        assert forall|a: int, b: int| adj_has(g.out@, a, b) implies g.has_edge(a, b) by {
            let k2 = choose|k2: int|
                0 <= k2 < g.out@[a]@.len() && ((#[trigger] g.out@[a]@[k2]) as int) == b;
            assert(0 <= b);
            assert(g.out@[a]@[k2] == b);
        }
        assert forall|a: int, kk: int|
            0 <= a < g.n() && 0 <= kk < g.out@[a]@.len() implies ((#[trigger] g.out@[a]@[kk])
            as int) < g.n() by {
            assert(adj_has(g.out@, a, g.out@[a]@[kk] as int));
            if gen_edge(g.units@, a, g.out@[a]@[kk] as int) {
                let ui2 = choose|ui2: int|
                    0 <= ui2 < g.units@.len() && (#[trigger] g.units@[ui2]).package == a
                        && g.units@[ui2].generator.binary.package == g.out@[a]@[kk] as int;
                assert(unit_wf(g.units@[ui2], *w));
            }
        }
        assert(g.wf());
        assert forall|i2: int| #[trigger] g.node(i2) <==> reaches_member(*w, i2) by {
            if reaches_member(*w, i2) {
                let m2 = choose|m2: int| w.is_member(m2) && w.depends_on(i2, m2, false);
                let p = choose|p: Seq<int>|
                    #[trigger] w.dep_path(p, false) && p[0] == i2 && p[p.len() - 1] == m2;
                assert(0 <= i2 < n);
            }
        }
        assert forall|a: int, b: int| #[trigger] g.has_edge(a, b) <==> ((g.node(b)
            && w.direct_dep(a, b, false)) || gen_edge(g.units@, a, b)) by {
            assert(g.has_edge(a, b) <==> adj_has(g.out@, a, b));
        }
    }
    g
}

/// An edge of the augmented graph, characterized over the workspace and
/// the units alone: a non-dev dependency onto a package of the member
/// reverse closure, or a recorded generation relationship.
pub open spec fn aug_edge(w: Workspace, units: Seq<CodegenUnit>, a: int, b: int) -> bool {
    (reaches_member(w, b) && w.direct_dep(a, b, false)) || gen_edge(units, a, b)
}

/// A walk along augmented edges.
pub open spec fn aug_path(w: Workspace, units: Seq<CodegenUnit>, p: Seq<int>) -> bool {
    &&& p.len() >= 1
    &&& forall|k: int| 0 <= k < p.len() - 1 ==> aug_edge(w, units, #[trigger] p[k], p[k + 1])
}

/// The augmented graph of this workspace and unit set has no cycle.
pub open spec fn aug_acyclic(w: Workspace, units: Seq<CodegenUnit>) -> bool {
    forall|p: Seq<int>|
        !(#[trigger] aug_path(w, units, p) && p.len() >= 2 && p.first() == p.last())
}

/// `b` can be reached from `a` along augmented edges.
pub open spec fn aug_reaches(w: Workspace, units: Seq<CodegenUnit>, a: int, b: int) -> bool {
    exists|p: Seq<int>| #[trigger] aug_path(w, units, p) && p.first() == a && p.last() == b
}

/// A graph faithful to the workspace and units has exactly the augmented
/// edges, so its paths, reachability and acyclicity coincide with theirs.
proof fn lemma_graph_bridge(g: DependencyGraph, w: Workspace, units: Seq<CodegenUnit>)
    requires
        graph_matches(g, w, units),
    ensures
        forall|p: Seq<int>| #[trigger] g.is_path(p) <==> aug_path(w, units, p),
        g.acyclic() <==> aug_acyclic(w, units),
        forall|a: int, b: int| #[trigger] g.reaches(a, b) <==> aug_reaches(w, units, a, b),
{
    assert forall|p: Seq<int>| #[trigger] g.is_path(p) <==> aug_path(w, units, p) by {
        if g.is_path(p) {
            assert forall|k: int| 0 <= k < p.len() - 1 implies aug_edge(
                w,
                units,
                #[trigger] p[k],
                p[k + 1],
            ) by {
                assert(g.has_edge(p[k], p[k + 1]));
                assert(g.node(p[k + 1]) <==> reaches_member(w, p[k + 1]));
            }
        }
        if aug_path(w, units, p) {
            assert forall|k: int| 0 <= k < p.len() - 1 implies g.has_edge(
                #[trigger] p[k],
                p[k + 1],
            ) by {
                assert(aug_edge(w, units, p[k], p[k + 1]));
                assert(g.node(p[k + 1]) <==> reaches_member(w, p[k + 1]));
            }
        }
    }
    assert forall|a: int, b: int| #[trigger] g.reaches(a, b) <==> aug_reaches(w, units, a, b) by {
        if g.reaches(a, b) {
            let p = choose|p: Seq<int>| #[trigger] g.is_path(p) && p.first() == a && p.last() == b;
            assert(aug_path(w, units, p));
        }
        if aug_reaches(w, units, a, b) {
            let p = choose|p: Seq<int>|
                #[trigger] aug_path(w, units, p) && p.first() == a && p.last() == b;
            assert(g.is_path(p));
        }
    }
    if !g.acyclic() {
        let a = choose|a: int| g.reaches_plus(a, a);
        let p = choose|p: Seq<int>|
            #[trigger] g.is_path(p) && p.len() >= 2 && p.first() == a && p.last() == a;
        assert(aug_path(w, units, p));
        assert(!aug_acyclic(w, units));
    }
    if !aug_acyclic(w, units) {
        let p = choose|p: Seq<int>|
            #[trigger] aug_path(w, units, p) && p.len() >= 2 && p.first() == p.last();
        assert(g.is_path(p));
        assert(g.reaches_plus(p.first(), p.first()));
        assert(!g.acyclic());
    }
}

/// A unit whose generator package depends back on the unit's target, even
/// directly, closes a loop: such a configuration is never acyclic and is
/// therefore always rejected.
pub proof fn lemma_generation_cycle_rejected(w: Workspace, units: Seq<CodegenUnit>, ui: int)
    requires
        0 <= ui < units.len(),
        w.is_member(units[ui].package as int),
        w.direct_dep(
            units[ui].generator.binary.package as int,
            units[ui].package as int,
            false,
        ),
    ensures
        !aug_acyclic(w, units),
{
    let a = units[ui].package as int;
    let b = units[ui].generator.binary.package as int;
    assert(gen_edge(units, a, b)) by {
        assert((#[trigger] units[ui]).package == a);
    }
    assert(aug_edge(w, units, a, b));
    lemma_depends_on_refl(&w, a, false);
    assert(w.is_member(a) && w.depends_on(a, a, false));
    assert(reaches_member(w, a));
    assert(aug_edge(w, units, b, a));
    let p = seq![a, b, a];
    assert(aug_path(w, units, p)) by {
        assert(p[0] == a && p[1] == b && p[2] == a);
    }
    assert(p.len() >= 2 && p.first() == p.last());
    assert(!aug_acyclic(w, units)) by {
        if aug_acyclic(w, units) {
            assert(!(aug_path(w, units, p) && p.len() >= 2 && p.first() == p.last()));
        }
    }
}

/// `chain` renders `cyc`, a genuine cycle of the augmented graph: each
/// step names the dependent and depended-on packages by id and labels the
/// relationship that links them.
pub open spec fn chain_matches_cycle(
    w: Workspace,
    units: Seq<CodegenUnit>,
    chain: Seq<CycleStep>,
    cyc: Seq<int>,
) -> bool {
    &&& cyc.len() == chain.len()
    &&& cyc.len() >= 1
    &&& forall|k: int| 0 <= k < cyc.len() - 1 ==> aug_edge(w, units, #[trigger] cyc[k], cyc[k + 1])
    &&& aug_edge(w, units, cyc[cyc.len() - 1], cyc[0])
    &&& forall|k: int|
        0 <= k < chain.len() ==> {
            let dep_idx = if k == 0 {
                cyc[cyc.len() - 1]
            } else {
                cyc[k - 1]
            };
            &&& 0 <= cyc[k] < w.packages@.len()
            &&& (#[trigger] chain[k]).dependent@ == w.packages@[dep_idx].id@
            &&& chain[k].dependency@ == w.packages@[cyc[k]].id@
            &&& (chain[k].relationship is IsGeneratedBy <==> gen_edge(units, dep_idx, cyc[k]))
        }
}

/// Whether some unit records `a` as generated by a binary of `b`.
fn is_generation_pair(units: &Vec<CodegenUnit>, a: usize, b: usize) -> (r: bool)
    ensures
        r == gen_edge(units@, a as int, b as int),
{
    let mut ui: usize = 0;
    while ui < units.len()
        invariant
            ui <= units@.len(),
            forall|ui2: int|
                0 <= ui2 < ui ==> !((#[trigger] units@[ui2]).package == a
                    && units@[ui2].generator.binary.package == b),
        decreases units@.len() - ui,
    {
        if units[ui].package == a && units[ui].generator.binary.package == b {
            return true;
        }
        ui = ui + 1;
    }
    proof {
        if gen_edge(units@, a as int, b as int) {
            let ui2 = choose|ui2: int|
                0 <= ui2 < units@.len() && (#[trigger] units@[ui2]).package == a as int
                    && units@[ui2].generator.binary.package == b as int;
            assert(false);
        }
    }
    false
}

/// Render one detected cycle as the chain of relationships around the
/// loop, in traversal order, so the offending generator or dependency
/// declarations can be seen.
fn render_cycle(cyc: &Vec<usize>, units: &Vec<CodegenUnit>, w: &Workspace) -> (chain: Vec<
    CycleStep,
>)
    requires
        cyc@.len() >= 1,
        forall|k: int| 0 <= k < cyc@.len() ==> ((#[trigger] cyc@[k]) as int) < w.packages@.len(),
    ensures
        chain@.len() == cyc@.len(),
        forall|k: int|
            0 <= k < chain@.len() ==> {
                let dep_idx = if k == 0 {
                    cyc@[cyc@.len() - 1]
                } else {
                    cyc@[k - 1]
                };
                &&& (#[trigger] chain@[k]).dependent@ == w.packages@[dep_idx as int].id@
                &&& chain@[k].dependency@ == w.packages@[cyc@[k] as int].id@
                &&& (chain@[k].relationship is IsGeneratedBy <==> gen_edge(
                    units@,
                    dep_idx as int,
                    cyc@[k] as int,
                ))
            },
{
    let mut chain: Vec<CycleStep> = Vec::new();
    let mut k: usize = 0;
    while k < cyc.len()
        invariant
            k <= cyc@.len(),
            cyc@.len() >= 1,
            forall|k2: int|
                0 <= k2 < cyc@.len() ==> ((#[trigger] cyc@[k2]) as int) < w.packages@.len(),
            chain@.len() == k,
            forall|k2: int|
                0 <= k2 < k ==> {
                    let dep_idx = if k2 == 0 {
                        cyc@[cyc@.len() - 1]
                    } else {
                        cyc@[k2 - 1]
                    };
                    &&& (#[trigger] chain@[k2]).dependent@ == w.packages@[dep_idx as int].id@
                    &&& chain@[k2].dependency@ == w.packages@[cyc@[k2] as int].id@
                    &&& (chain@[k2].relationship is IsGeneratedBy <==> gen_edge(
                        units@,
                        dep_idx as int,
                        cyc@[k2] as int,
                    ))
                },
        decreases cyc@.len() - k,
    {
        let dep_idx = if k == 0 {
            cyc[cyc.len() - 1]
        } else {
            cyc[k - 1]
        };
        let relationship = if is_generation_pair(units, dep_idx, cyc[k]) {
            EdgeRelationship::IsGeneratedBy
        } else {
            EdgeRelationship::DependsOn
        };
        chain.push(
            CycleStep {
                dependent: w.packages[dep_idx].id.clone(),
                relationship,
                dependency: w.packages[cyc[k]].id.clone(),
            },
        );
        k = k + 1;
    }
    chain
}

impl DependencyGraph {
    /// Build the augmented graph and reject cyclic configurations: the
    /// result is `Ok` exactly when the augmented graph of this workspace
    /// and unit set is acyclic, and otherwise carries one error per
    /// detected cycle, each rendering a genuine cycle.
    pub fn new(units: Vec<CodegenUnit>, w: &Workspace) -> (res: Result<
        DependencyGraph,
        Vec<CodegenError>,
    >)
        requires
            forall|ui: int| 0 <= ui < units@.len() ==> unit_wf(#[trigger] units@[ui], *w),
        ensures
            res is Ok <==> aug_acyclic(*w, units@),
            res matches Ok(g) ==> graph_matches(g, *w, units@) && g.acyclic(),
            res matches Err(errs) ==> errs@.len() >= 1 && (forall|e: int|
                0 <= e < errs@.len() ==> ((#[trigger] errs@[e]) matches
                    CodegenError::CyclicDependency { chain } && (exists|cyc: Seq<int>|
                    #[trigger] chain_matches_cycle(*w, units@, chain@, cyc)))),
    {
        let ghost units0 = units@;
        let g = build_graph(units, w);
        proof {
            lemma_graph_bridge(g, *w, units0);
        }
        let cycles = find_cycles(&g);
        if cycles.len() == 0 {
            Ok(g)
        } else {
            proof {
                crate::graph::lemma_cycle_not_acyclic(&g, int_seq(cycles@[0]@));
            }
            let mut errs: Vec<CodegenError> = Vec::new();
            let ghost mut cycs: Seq<Seq<int>> = Seq::empty();
            let mut ci: usize = 0;
            while ci < cycles.len()
                invariant
                    ci <= cycles@.len(),
                    cycles@.len() >= 1,
                    g.wf(),
                    graph_matches(g, *w, units0),
                    forall|c2: int|
                        0 <= c2 < cycles@.len() ==> g.is_cycle(
                            int_seq((#[trigger] cycles@[c2])@),
                        ),
                    errs@.len() == ci,
                    cycs.len() == ci,
                    forall|e: int|
                        0 <= e < errs@.len() ==> ((#[trigger] errs@[e]) matches
                            CodegenError::CyclicDependency { chain } && chain_matches_cycle(
                            *w,
                            units0,
                            chain@,
                            cycs[e],
                        )),
                decreases cycles@.len() - ci,
            {
                let cyc = &cycles[ci];
                proof {
                    let cs = int_seq(cyc@);
                    assert(g.is_cycle(cs));
                    assert(cs.len() == cyc@.len());
                    assert forall|k: int|
                        0 <= k < cyc@.len() implies ((#[trigger] cyc@[k]) as int)
                        < w.packages@.len() by {
                        if k < cyc@.len() - 1 {
                            assert(g.has_edge(cs[k], cs[k + 1]));
                        } else {
                            assert(g.has_edge(cs.last(), cs.first()));
                            assert(cs[k] == cs.last());
                        }
                    }
                    assert(cyc@.len() >= 1);
                    assert forall|k: int| 0 <= k < cs.len() - 1 implies aug_edge(
                        *w,
                        units0,
                        #[trigger] cs[k],
                        cs[k + 1],
                    ) by {
                        assert(g.has_edge(cs[k], cs[k + 1]));
                        assert(g.node(cs[k + 1]) <==> reaches_member(*w, cs[k + 1]));
                    }
                    assert(aug_edge(*w, units0, cs[cs.len() - 1], cs[0])) by {
                        assert(g.has_edge(cs.last(), cs.first()));
                        assert(cs[cs.len() - 1] == cs.last() && cs[0] == cs.first());
                        assert(g.node(cs[0]) <==> reaches_member(*w, cs[0]));
                    }
                }
                let chain = render_cycle(cyc, &g.units, w);
                let ghost prior_errs = errs@;
                errs.push(CodegenError::CyclicDependency { chain });
                proof {
                    cycs = cycs.push(int_seq(cyc@));
                    assert forall|e: int|
                        0 <= e < errs@.len() implies ((#[trigger] errs@[e]) matches
                            CodegenError::CyclicDependency { chain } && chain_matches_cycle(
                            *w,
                            units0,
                            chain@,
                            cycs[e],
                        )) by {
                        if e < errs@.len() - 1 {
                            assert(errs@[e] == prior_errs[e]);
                            assert(cycs[e] == cycs.drop_last()[e]);
                        }
                    }
                }
                ci = ci + 1;
            }
            proof {
                assert forall|e: int|
                    0 <= e < errs@.len() implies ((#[trigger] errs@[e]) matches
                        CodegenError::CyclicDependency { chain } && (exists|cyc: Seq<int>|
                        #[trigger] chain_matches_cycle(*w, units0, chain@, cyc))) by {
                    assert(errs@[e] matches CodegenError::CyclicDependency { chain }
                        && chain_matches_cycle(*w, units0, chain@, cycs[e]));
                }
            }
            Err(errs)
        }
    }
}

/// Return the codegen plan for the whole unit set: build the augmented
/// graph, reject cyclic configurations, and schedule the units. The call
/// succeeds exactly when the augmented graph is acyclic; the plan then
/// holds each unit exactly once, ordered so that a unit precedes every
/// unit whose generator package reaches its target package.
pub fn codegen_plan(units: Vec<CodegenUnit>, w: &Workspace) -> (res: Result<
    Vec<CodegenUnit>,
    Vec<CodegenError>,
>)
    requires
        forall|ui: int| 0 <= ui < units@.len() ==> unit_wf(#[trigger] units@[ui], *w),
        forall|u1: int, u2: int|
            0 <= u1 < u2 < units@.len() ==> (#[trigger] units@[u1]).package != (
            #[trigger] units@[u2]).package,
    ensures
        res is Ok <==> aug_acyclic(*w, units@),
        res matches Ok(plan) ==> {
            &&& plan@.len() == units@.len()
            &&& forall|ui: int|
                0 <= ui < units@.len() ==> crate::graph::seq_has_unit(
                    plan@,
                    #[trigger] units@[ui],
                )
            &&& forall|j: int|
                0 <= j < plan@.len() ==> crate::graph::seq_has_unit(units@, #[trigger] plan@[j])
            &&& forall|j1: int, j2: int|
                0 <= j1 < plan@.len() && 0 <= j2 < plan@.len() && j1 != j2 ==> (
                #[trigger] plan@[j1]).package != (#[trigger] plan@[j2]).package
            &&& forall|j1: int, j2: int|
                0 <= j1 < plan@.len() && 0 <= j2 < plan@.len() && j1 != j2
                    && #[trigger] aug_reaches(
                    *w,
                    units@,
                    plan@[j1].generator.binary.package as int,
                    plan@[j2].package as int,
                ) ==> j2 < j1
        },
        res matches Err(errs) ==> errs@.len() >= 1 && (forall|e: int|
            0 <= e < errs@.len() ==> ((#[trigger] errs@[e]) matches
                CodegenError::CyclicDependency { chain } && (exists|cyc: Seq<int>|
                #[trigger] chain_matches_cycle(*w, units@, chain@, cyc)))),
{
    let ghost units0 = units@;
    let g = match DependencyGraph::new(units, w) {
        Ok(g) => g,
        Err(errs) => {
            return Err(errs);
        },
    };
    proof {
        lemma_graph_bridge(g, *w, units0);
        assert(g.units_ok()) by {
            assert forall|ui: int| 0 <= ui < g.units@.len() implies {
                let u = #[trigger] g.units@[ui];
                &&& (u.package as int) < g.n()
                &&& (u.generator.binary.package as int) < g.n()
                &&& g.has_edge(u.package as int, u.generator.binary.package as int)
            } by {
                assert(unit_wf(g.units@[ui], *w));
                assert(gen_edge(units0, g.units@[ui].package as int, g.units@[ui].generator.binary.package as int)) by {
                    assert((#[trigger] units0[ui]).package == g.units@[ui].package);
                }
            }
        }
    }
    let plan = g.codegen_plan();
    proof {
        assert forall|j1: int, j2: int|
            0 <= j1 < plan@.len() && 0 <= j2 < plan@.len() && j1 != j2 && #[trigger] aug_reaches(
                *w,
                units0,
                plan@[j1].generator.binary.package as int,
                plan@[j2].package as int,
            ) implies j2 < j1 by {
            assert(g.reaches(
                plan@[j1].generator.binary.package as int,
                plan@[j2].package as int,
            ));
        }
    }
    Ok(plan)
}

} // verus!
