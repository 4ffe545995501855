//! Narrowing the unit set to a requested scope: a unit is retained when
//! some target package is, or transitively depends on, the unit's target
//! package — packages upstream of a scope member may need fresh generated
//! code for the scope member to compile. The membership test runs over the
//! full metadata graph, dev edges included.

use vstd::prelude::*;

use crate::builder::{aug_acyclic, aug_reaches, chain_matches_cycle};
use crate::errors::CodegenError;
use crate::unit::{unit_wf, CodegenUnit};
use crate::workspace::{lemma_depends_on_refl, Workspace};

verus! {

/// Extending a transitive dependency by one step at the far end.
proof fn lemma_depends_on_extend(w: &Workspace, a: int, b: int, c: int, include_dev: bool)
    requires
        w.depends_on(a, b, include_dev),
        w.direct_dep(b, c, include_dev),
    ensures
        w.depends_on(a, c, include_dev),
{
    let p = choose|p: Seq<int>|
        #[trigger] w.dep_path(p, include_dev) && p[0] == a && p[p.len() - 1] == b;
    let q = p.push(c);
    assert forall|k: int| 0 <= k < q.len() - 1 implies w.direct_dep(
        #[trigger] q[k],
        q[k + 1],
        include_dev,
    ) by {
        if k < p.len() - 1 {
            assert(q[k] == p[k] && q[k + 1] == p[k + 1]);
        } else {
            assert(q[k] == p[p.len() - 1] && q[k + 1] == c);
        }
    }
    assert(w.dep_path(q, include_dev));
    assert(q[0] == a && q[q.len() - 1] == c);
}

/// A marked set closed under direct dependencies contains everything the
/// marked packages transitively depend on.
proof fn lemma_closed_marks(w: &Workspace, marks: Seq<bool>, p: Seq<int>, include_dev: bool)
    requires
        marks.len() == w.packages@.len(),
        w.dep_path(p, include_dev),
        0 <= p[0] < marks.len() && marks[p[0]],
        forall|a: int, b: int| #![trigger marks[a], marks[b]]
            0 <= a < marks.len() && marks[a] && w.direct_dep(a, b, include_dev)
                ==> 0 <= b < marks.len() && marks[b],
    ensures
        0 <= p[p.len() - 1] < marks.len() && marks[p[p.len() - 1]],
    decreases p.len(),
{
    if p.len() >= 2 {
        assert(w.direct_dep(p[0], p[1], include_dev));
        assert(marks[p[1]]);
        let q = p.drop_first();
        assert(w.dep_path(q, include_dev)) by {
            assert forall|k: int| 0 <= k < q.len() - 1 implies w.direct_dep(
                #[trigger] q[k],
                q[k + 1],
                include_dev,
            ) by {
                assert(q[k] == p[k + 1] && q[k + 1] == p[k + 2]);
            }
        }
        assert(q[0] == p[1]);
        lemma_closed_marks(w, marks, q, include_dev);
        assert(q[q.len() - 1] == p[p.len() - 1]);
    }
}

/// Mark every package that `from` transitively depends on, dev edges
/// included.
#[verifier::rlimit(100)]
pub fn reachable_from(w: &Workspace, from: usize) -> (marks: Vec<bool>)
    requires
        w.wf(),
        (from as int) < w.packages@.len(),
    ensures
        marks@.len() == w.packages@.len(),
        forall|x: int|
            0 <= x < w.packages@.len() ==> ((#[trigger] marks@[x]) <==> w.depends_on(
                from as int,
                x,
                true,
            )),
{
    let n = w.packages.len();
    let mut marks: Vec<bool> = crate::graph::vec_false(n);
    let mut processed: Vec<bool> = crate::graph::vec_false(n);
    let mut work: Vec<usize> = Vec::new();
    marks.set(from, true);
    work.push(from);
    proof {
        lemma_depends_on_refl(w, from as int, true);
        assert forall|x: int|
            0 <= x < n && marks@[x] && !processed@[x] implies exists|t: int|
            0 <= t < work@.len() && (#[trigger] work@[t]) as int == x by {
            assert(x == from as int);
            assert(work@[0] as int == x);
        }
    }
    let ghost mut uset: Set<int> = Set::new(|x: int| 0 <= x < n && !processed@[x]);
    proof {
        assert(uset =~= vstd::set_lib::set_int_range(0, n as int));
        vstd::set_lib::lemma_int_range(0, n as int);
    }
    while work.len() > 0
        invariant
            w.wf(),
            n == w.packages@.len(),
            marks@.len() == n,
            processed@.len() == n,
            (from as int) < n,
            forall|x: int| uset.contains(x) <==> (0 <= x < n && !processed@[x]),
            uset.finite(),
            forall|t: int| 0 <= t < work@.len() ==> ((#[trigger] work@[t]) as int) < n,
            forall|t: int| 0 <= t < work@.len() ==> marks@[((#[trigger] work@[t]) as int)],
            forall|x: int| 0 <= x < n && #[trigger] processed@[x] ==> marks@[x],
            forall|x: int|
                0 <= x < n && #[trigger] marks@[x] ==> w.depends_on(from as int, x, true),
            marks@[from as int],
            forall|x: int|
                0 <= x < n && marks@[x] && !processed@[x] ==> exists|t: int|
                    0 <= t < work@.len() && (#[trigger] work@[t]) as int == x,
            forall|a: int, b: int| #![trigger processed@[a], marks@[b]]
                0 <= a < n && processed@[a] && w.direct_dep(a, b, true) ==> 0 <= b < n
                    && marks@[b],
        decreases uset.len(), work@.len(),
    {
        let ghost pre_work = work@;
        let i = match work.pop() {
            Some(v) => v,
            None => {
                proof {
                    assert(false);
                }
                0
            },
        };
        proof {
            assert(pre_work[pre_work.len() - 1] == i);
        }
        if !processed[i] {
            let ghost pre_uset = uset;
            let ghost popped_work = work@;
            proof {
                assert forall|x: int|
                    0 <= x < n && marks@[x] && !processed@[x] && x != i as int implies exists|
                t: int,
                |
                    0 <= t < work@.len() && (#[trigger] work@[t]) as int == x by {
                    let t = choose|t: int|
                        0 <= t < pre_work.len() && (#[trigger] pre_work[t]) as int == x;
                    assert(t < pre_work.len() - 1);
                    assert(work@[t] as int == x);
                }
            }
            let deps_len = w.packages[i].deps.len();
            let mut dk: usize = 0;
            while dk < deps_len
                invariant
                    w.wf(),
                    n == w.packages@.len(),
                    marks@.len() == n,
                    processed@.len() == n,
                    (from as int) < n,
                    (i as int) < n,
                    !processed@[i as int],
                    marks@[i as int],
                    deps_len == w.packages@[i as int].deps@.len(),
                    dk <= deps_len,
                    forall|x: int| uset.contains(x) <==> (0 <= x < n && !processed@[x]),
                    uset.finite(),
                    forall|t: int| 0 <= t < work@.len() ==> ((#[trigger] work@[t]) as int) < n,
                    forall|t: int| 0 <= t < work@.len() ==> marks@[((#[trigger] work@[t]) as int)],
                    forall|x: int| 0 <= x < n && #[trigger] processed@[x] ==> marks@[x],
                    forall|x: int|
                        0 <= x < n && #[trigger] marks@[x] ==> w.depends_on(from as int, x, true),
                    marks@[from as int],
                    forall|x: int|
                        0 <= x < n && marks@[x] && !processed@[x] && x != i as int ==> exists|
                        t: int|
                            0 <= t < work@.len() && (#[trigger] work@[t]) as int == x,
                    forall|a: int, b: int| #![trigger processed@[a], marks@[b]]
                        0 <= a < n && processed@[a] && w.direct_dep(a, b, true) ==> 0 <= b < n
                            && marks@[b],
                    forall|j: int|
                        0 <= j < dk ==> 0 <= (#[trigger] w.packages@[i as int].deps@[j]).to < n
                            && marks@[w.packages@[i as int].deps@[j].to as int],
                decreases deps_len - dk,
            {
                let b = w.packages[i].deps[dk].to;
                proof {
                    assert((b as int) < n) by {
                        assert((#[trigger] w.packages@[i as int].deps@[dk as int]).to == b);
                    }
                }
                if !marks[b] {
                    let ghost pre_push = work@;
                    marks.set(b, true);
                    proof {
                        assert(w.direct_dep(i as int, b as int, true)) by {
                            assert((#[trigger] w.packages@[i as int].deps@[dk as int]).to
                                == b as int);
                        }
                        lemma_depends_on_extend(w, from as int, i as int, b as int, true);
                    }
                    work.push(b);
                    proof {
                        assert forall|x: int|
                            0 <= x < n && marks@[x] && !processed@[x] && x != i as int implies
                            exists|t: int|
                                0 <= t < work@.len() && (#[trigger] work@[t]) as int == x by {
                            if x == b as int {
                                assert(work@[work@.len() - 1] as int == x);
                            } else {
                                let t = choose|t: int|
                                    0 <= t < pre_push.len() && (#[trigger] pre_push[t]) as int
                                        == x;
                                assert(work@[t] as int == x);
                            }
                        }
                    }
                }
                dk = dk + 1;
            }
            processed.set(i, true);
            proof {
                assert(pre_uset.contains(i as int));
                uset = uset.remove(i as int);
                assert(uset.len() < pre_uset.len());
                assert forall|x: int|
                    0 <= x < n && marks@[x] && !processed@[x] implies exists|t: int|
                    0 <= t < work@.len() && (#[trigger] work@[t]) as int == x by {
                    assert(x != i as int);
                    let t = choose|t: int|
                        0 <= t < work@.len() && (#[trigger] work@[t]) as int == x;
                }
                assert forall|a: int, b: int| #![trigger processed@[a], marks@[b]]
                    0 <= a < n && processed@[a] && w.direct_dep(a, b, true) implies 0 <= b < n
                    && marks@[b] by {
                    if a == i as int {
                        let j = choose|j: int|
                            0 <= j < w.packages@[a].deps@.len() && (
                            #[trigger] w.packages@[a].deps@[j]).to == b && (true
                                || !w.packages@[a].deps@[j].dev_only);
                        assert(marks@[w.packages@[i as int].deps@[j].to as int]);
                    }
                }
            }
        } else {
            proof {
                assert forall|x: int|
                    0 <= x < n && marks@[x] && !processed@[x] implies exists|t: int|
                    0 <= t < work@.len() && (#[trigger] work@[t]) as int == x by {
                    let t = choose|t: int|
                        0 <= t < pre_work.len() && (#[trigger] pre_work[t]) as int == x;
                    assert(t < pre_work.len() - 1);
                    assert(work@[t] as int == x);
                }
            }
        }
    }
    proof {
        assert forall|x: int|
            0 <= x < n && w.depends_on(from as int, x, true) implies marks@[x] by {
            let p = choose|p: Seq<int>|
                #[trigger] w.dep_path(p, true) && p[0] == from as int && p[p.len() - 1] == x;
            assert forall|a: int, b: int| #![trigger marks@[a], marks@[b]]
                0 <= a < marks@.len() && marks@[a] && w.direct_dep(a, b, true) implies 0 <= b
                < marks@.len() && marks@[b] by {
                assert(processed@[a]) by {
                    if !processed@[a] {
                        let t = choose|t: int|
                            0 <= t < work@.len() && (#[trigger] work@[t]) as int == a;
                        assert(false);
                    }
                }
            }
            lemma_closed_marks(w, marks@, p, true);
        }
    }
    marks
}

/// `m` exhibits `kept` as the subsequence of `units` at strictly
/// increasing positions, entry for entry: filtering preserves order and
/// multiplicity and invents nothing.
pub open spec fn subsequence_map(
    units: Seq<CodegenUnit>,
    kept: Seq<CodegenUnit>,
    m: Seq<int>,
) -> bool {
    &&& m.len() == kept.len()
    &&& forall|k: int| 0 <= k < m.len() ==> 0 <= #[trigger] m[k] < units.len()
    &&& forall|k1: int, k2: int| 0 <= k1 < k2 < m.len() ==> #[trigger] m[k1] < #[trigger] m[k2]
    &&& forall|k: int| 0 <= k < kept.len() ==> (#[trigger] kept[k])@ == units[m[k]]@
}

/// A unit survives filtering to `targets`: some target is, or depends on,
/// its target package.
pub open spec fn unit_in_scope(w: Workspace, targets: Seq<usize>, u: CodegenUnit) -> bool {
    exists|t: int|
        0 <= t < targets.len() && w.depends_on((#[trigger] targets[t]) as int, u.package as int, true)
}

/// `m` picks out of `units`, in order, exactly the entries the scope
/// retains (everything when the scope is empty), and `kept` is their list.
pub open spec fn scope_positions(
    w: Workspace,
    units: Seq<CodegenUnit>,
    targets: Seq<usize>,
    kept: Seq<CodegenUnit>,
    m: Seq<int>,
) -> bool {
    &&& m.len() == kept.len()
    &&& forall|k: int| 0 <= k < m.len() ==> 0 <= #[trigger] m[k] < units.len()
    &&& forall|k1: int, k2: int| 0 <= k1 < k2 < m.len() ==> #[trigger] m[k1] < #[trigger] m[k2]
    &&& forall|k: int| 0 <= k < kept.len() ==> (#[trigger] kept[k])@ == units[m[k]]@
    &&& forall|ui: int|
        0 <= ui < units.len() ==> ((exists|k: int| 0 <= k < m.len() && #[trigger] m[k] == ui)
            <==> (targets.len() == 0 || unit_in_scope(w, targets, #[trigger] units[ui])))
}

/// `kept` is the in-scope subsequence of `units`.
pub open spec fn is_scope_subsequence(
    w: Workspace,
    units: Seq<CodegenUnit>,
    targets: Seq<usize>,
    kept: Seq<CodegenUnit>,
) -> bool {
    exists|m: Seq<int>| #[trigger] scope_positions(w, units, targets, kept, m)
}

/// Keep only the codegen units that appear in the dependency graph of the
/// chosen target packages. An empty target list means no filtering.
#[verifier::rlimit(100)]
pub fn filter_units(units: Vec<CodegenUnit>, targets: &Vec<usize>, w: &Workspace) -> (kept: Vec<
    CodegenUnit,
>)
    requires
        w.wf(),
        forall|t: int| 0 <= t < targets@.len() ==> ((#[trigger] targets@[t]) as int) < w.packages@.len(),
        forall|ui: int|
            0 <= ui < units@.len() ==> ((#[trigger] units@[ui]).package as int)
                < w.packages@.len(),
    ensures
        targets@.len() == 0 ==> kept@ == units@,
        targets@.len() > 0 ==> {
            &&& forall|k: int|
                0 <= k < kept@.len() ==> crate::graph::seq_has_unit(units@, #[trigger] kept@[k])
                    && unit_in_scope(*w, targets@, kept@[k])
            &&& forall|ui: int|
                0 <= ui < units@.len() && unit_in_scope(*w, targets@, #[trigger] units@[ui])
                    ==> crate::graph::seq_has_unit(kept@, units@[ui])
            &&& exists|m: Seq<int>| #[trigger] subsequence_map(units@, kept@, m)
        },
        (forall|u1: int, u2: int|
            0 <= u1 < u2 < units@.len() ==> (#[trigger] units@[u1]).package != (
            #[trigger] units@[u2]).package) ==> (forall|k1: int, k2: int|
            0 <= k1 < k2 < kept@.len() ==> (#[trigger] kept@[k1]).package != (
            #[trigger] kept@[k2]).package),
        targets@.len() > 0 ==> is_scope_subsequence(*w, units@, targets@, kept@),
{
    if targets.len() == 0 {
        return units;
    }
    let n = w.packages.len();
    let mut scope: Vec<bool> = crate::graph::vec_false(n);
    let mut t: usize = 0;
    while t < targets.len()
        invariant
            w.wf(),
            n == w.packages@.len(),
            scope@.len() == n,
            t <= targets@.len(),
            forall|t2: int|
                0 <= t2 < targets@.len() ==> ((#[trigger] targets@[t2]) as int) < n,
            forall|x: int|
                0 <= x < n ==> ((#[trigger] scope@[x]) <==> exists|t2: int|
                    0 <= t2 < t && w.depends_on((#[trigger] targets@[t2]) as int, x, true)),
        decreases targets@.len() - t,
    {
        let marks = reachable_from(w, targets[t]);
        let ghost pre_scope = scope@;
        let mut x: usize = 0;
        while x < n
            invariant
                n == w.packages@.len(),
                scope@.len() == n,
                marks@.len() == n,
                t < targets@.len(),
                x <= n,
                forall|t2: int|
                    0 <= t2 < targets@.len() ==> ((#[trigger] targets@[t2]) as int) < n,
                forall|x2: int|
                    0 <= x2 < n ==> ((#[trigger] marks@[x2]) <==> w.depends_on(
                        targets@[t as int] as int,
                        x2,
                        true,
                    )),
                forall|x2: int|
                    x <= x2 < n ==> ((#[trigger] scope@[x2]) <==> (pre_scope[x2])),
                forall|x2: int|
                    0 <= x2 < x ==> ((#[trigger] scope@[x2]) <==> (pre_scope[x2] || marks@[x2])),
                forall|x2: int|
                    0 <= x2 < n ==> ((#[trigger] pre_scope[x2]) <==> exists|t2: int|
                        0 <= t2 < t && w.depends_on((#[trigger] targets@[t2]) as int, x2, true)),
            decreases n - x,
        {
            if marks[x] {
                scope.set(x, true);
            } else {
                proof {
                    assert(scope@[x as int] == pre_scope[x as int]);
                }
            }
            x = x + 1;
        }
        proof {
            assert forall|x2: int|
                0 <= x2 < n implies ((#[trigger] scope@[x2]) <==> exists|t2: int|
                0 <= t2 < t + 1 && w.depends_on((#[trigger] targets@[t2]) as int, x2, true)) by {
                if scope@[x2] {
                    if pre_scope[x2] {
                        let t2 = choose|t2: int|
                            0 <= t2 < t && w.depends_on((#[trigger] targets@[t2]) as int, x2, true);
                    } else {
                        assert(marks@[x2]);
                        assert(w.depends_on((#[trigger] targets@[t as int]) as int, x2, true));
                    }
                }
                if exists|t2: int|
                    0 <= t2 < t + 1 && w.depends_on((#[trigger] targets@[t2]) as int, x2, true) {
                    let t2 = choose|t2: int|
                        0 <= t2 < t + 1 && w.depends_on((#[trigger] targets@[t2]) as int, x2, true);
                    if t2 < t {
                        assert(pre_scope[x2]);
                    } else {
                        assert(marks@[x2]);
                    }
                }
            }
        }
        t = t + 1;
    }
    let mut kept: Vec<CodegenUnit> = Vec::new();
    let ghost mut src: Seq<int> = Seq::empty();
    let mut ui: usize = 0;
    while ui < units.len()
        invariant
            subsequence_map(units@, kept@, src),
            forall|k: int| 0 <= k < src.len() ==> #[trigger] src[k] < ui,
            forall|ui2: int|
                0 <= ui2 < ui ==> ((exists|k: int| 0 <= k < src.len() && #[trigger] src[k] == ui2)
                    <==> scope@[(#[trigger] units@[ui2]).package as int]),
            n == w.packages@.len(),
            scope@.len() == n,
            ui <= units@.len(),
            targets@.len() > 0,
            forall|ui2: int|
                0 <= ui2 < units@.len() ==> ((#[trigger] units@[ui2]).package as int) < n,
            forall|x: int|
                0 <= x < n ==> ((#[trigger] scope@[x]) <==> exists|t2: int|
                    0 <= t2 < targets@.len() && w.depends_on(
                        (#[trigger] targets@[t2]) as int,
                        x,
                        true,
                    )),
            forall|k: int|
                0 <= k < kept@.len() ==> crate::graph::seq_has_unit(units@, #[trigger] kept@[k])
                    && unit_in_scope(*w, targets@, kept@[k]),
            forall|ui2: int|
                0 <= ui2 < ui && unit_in_scope(*w, targets@, #[trigger] units@[ui2])
                    ==> crate::graph::seq_has_unit(kept@, units@[ui2]),
        decreases units@.len() - ui,
    {
        if scope[units[ui].package] {
            let ghost pre_kept = kept@;
            let ghost pre_src = src;
            let u = units[ui].clone();
            kept.push(u);
            proof {
                src = src.push(ui as int);
                assert(kept@[kept@.len() - 1]@ == units@[ui as int]@);
                assert forall|k1: int, k2: int|
                    0 <= k1 < k2 < src.len() implies #[trigger] src[k1] < #[trigger] src[k2] by {
                    if k2 < src.len() - 1 {
                        assert(src[k1] == pre_src[k1] && src[k2] == pre_src[k2]);
                    } else {
                        assert(src[k2] == ui as int && src[k1] == pre_src[k1]);
                    }
                }
                assert forall|k: int| 0 <= k < kept@.len() implies (#[trigger] kept@[k])@
                    == units@[src[k]]@ by {
                    if k < kept@.len() - 1 {
                        assert(kept@[k] == pre_kept[k] && src[k] == pre_src[k]);
                    } else {
                        assert(src[k] == ui as int);
                    }
                }
                assert forall|ui2: int| 0 <= ui2 < ui + 1 implies ((exists|k: int|
                    0 <= k < src.len() && #[trigger] src[k] == ui2) <==> scope@[(
                #[trigger] units@[ui2]).package as int]) by {
                    if ui2 == ui as int {
                        assert(src[src.len() - 1] == ui2);
                    } else {
                        if exists|k: int| 0 <= k < src.len() && #[trigger] src[k] == ui2 {
                            let k = choose|k: int|
                                0 <= k < src.len() && #[trigger] src[k] == ui2;
                            assert(k < src.len() - 1);
                            assert(pre_src[k] == ui2);
                        }
                        if scope@[(units@[ui2]).package as int] {
                            let k = choose|k: int|
                                0 <= k < pre_src.len() && #[trigger] pre_src[k] == ui2;
                            assert(src[k] == ui2);
                        }
                    }
                }
                assert forall|k: int| 0 <= k < kept@.len() implies crate::graph::seq_has_unit(
                    units@,
                    #[trigger] kept@[k],
                ) && unit_in_scope(*w, targets@, kept@[k]) by {
                    if k < kept@.len() - 1 {
                        assert(kept@[k] == pre_kept[k]);
                    } else {
                        assert((#[trigger] units@[ui as int])@ == kept@[k]@);
                        assert(kept@[k].package == units@[ui as int].package);
                        let t2 = choose|t2: int|
                            0 <= t2 < targets@.len() && w.depends_on(
                                (#[trigger] targets@[t2]) as int,
                                units@[ui as int].package as int,
                                true,
                            );
                        assert(unit_in_scope(*w, targets@, kept@[k]));
                    }
                }
                assert forall|ui2: int|
                    0 <= ui2 < ui + 1 && unit_in_scope(
                        *w,
                        targets@,
                        #[trigger] units@[ui2],
                    ) implies crate::graph::seq_has_unit(kept@, units@[ui2]) by {
                    if ui2 < ui as int {
                        let k = choose|k: int|
                            0 <= k < pre_kept.len() && (#[trigger] pre_kept[k])@ == units@[ui2]@;
                        assert((#[trigger] kept@[k])@ == units@[ui2]@);
                    } else {
                        assert((#[trigger] kept@[kept@.len() - 1])@ == units@[ui2]@);
                    }
                }
            }
        } else {
            proof {
                assert forall|ui2: int|
                    0 <= ui2 < ui + 1 && unit_in_scope(
                        *w,
                        targets@,
                        #[trigger] units@[ui2],
                    ) implies crate::graph::seq_has_unit(kept@, units@[ui2]) by {
                    if ui2 == ui as int {
                        let t2 = choose|t2: int|
                            0 <= t2 < targets@.len() && w.depends_on(
                                (#[trigger] targets@[t2]) as int,
                                units@[ui2].package as int,
                                true,
                            );
                        assert(scope@[units@[ui2].package as int]);
                        assert(false);
                    }
                }
                assert forall|ui2: int| 0 <= ui2 < ui + 1 implies ((exists|k: int|
                    0 <= k < src.len() && #[trigger] src[k] == ui2) <==> scope@[(
                #[trigger] units@[ui2]).package as int]) by {
                    if ui2 == ui as int {
                        if exists|k: int| 0 <= k < src.len() && #[trigger] src[k] == ui2 {
                            let k = choose|k: int|
                                0 <= k < src.len() && #[trigger] src[k] == ui2;
                            assert(src[k] < ui);
                            assert(false);
                        }
                    }
                }
            }
        }
        ui = ui + 1;
    }
    proof {
        assert(subsequence_map(units@, kept@, src));
        assert(scope_positions(*w, units@, targets@, kept@, src)) by {
            assert forall|ui2: int|
                0 <= ui2 < units@.len() implies ((exists|k: int|
                0 <= k < src.len() && #[trigger] src[k] == ui2) <==> (targets@.len() == 0
                || unit_in_scope(*w, targets@, #[trigger] units@[ui2]))) by {
                assert(scope@[(units@[ui2]).package as int] <==> unit_in_scope(
                    *w,
                    targets@,
                    units@[ui2],
                ));
            }
        }
        assert forall|k1: int, k2: int|
            (forall|u1: int, u2: int|
                0 <= u1 < u2 < units@.len() ==> (#[trigger] units@[u1]).package != (
                #[trigger] units@[u2]).package) && 0 <= k1 < k2 < kept@.len() implies (
        #[trigger] kept@[k1]).package != (#[trigger] kept@[k2]).package by {
            assert(kept@[k1]@ == units@[src[k1]]@);
            assert(kept@[k2]@ == units@[src[k2]]@);
            assert(src[k1] < src[k2]);
            assert((#[trigger] units@[src[k1]]).package != (#[trigger] units@[src[k2]]).package);
        }
    }
    kept
}

/// What one filtered planning run guarantees, relative to the retained
/// unit list `kept`: `kept` is the in-scope subsequence of the input (all
/// of it when no scope was requested); planning succeeds exactly when the
/// augmented graph over `kept` is acyclic; on success the plan is a
/// permutation of `kept` ordered by the generator-reaches-target relation;
/// on failure every error renders a genuine cycle.
pub open spec fn filtered_plan_outcome(
    w: Workspace,
    units: Seq<CodegenUnit>,
    targets: Seq<usize>,
    kept: Seq<CodegenUnit>,
    res: Result<Vec<CodegenUnit>, Vec<CodegenError>>,
) -> bool {
    &&& (targets.len() == 0 ==> kept == units)
    &&& (targets.len() > 0 ==> is_scope_subsequence(w, units, targets, kept))
    &&& (res is Ok <==> aug_acyclic(w, kept))
    &&& match res {
        Ok(plan) => {
            &&& plan@.len() == kept.len()
            &&& forall|ui: int|
                0 <= ui < kept.len() ==> crate::graph::seq_has_unit(plan@, #[trigger] kept[ui])
            &&& forall|j: int|
                0 <= j < plan@.len() ==> crate::graph::seq_has_unit(kept, #[trigger] plan@[j])
            &&& forall|j1: int, j2: int|
                0 <= j1 < plan@.len() && 0 <= j2 < plan@.len() && j1 != j2 ==> (
                #[trigger] plan@[j1]).package != (#[trigger] plan@[j2]).package
            &&& forall|j1: int, j2: int|
                0 <= j1 < plan@.len() && 0 <= j2 < plan@.len() && j1 != j2
                    && #[trigger] aug_reaches(
                    w,
                    kept,
                    plan@[j1].generator.binary.package as int,
                    plan@[j2].package as int,
                ) ==> j2 < j1
        },
        Err(errs) => errs@.len() >= 1 && (forall|e: int|
            0 <= e < errs@.len() ==> ((#[trigger] errs@[e]) matches
                CodegenError::CyclicDependency { chain } && (exists|cyc: Seq<int>|
                #[trigger] chain_matches_cycle(w, kept, chain@, cyc)))),
    }
}

/// Narrow the unit set to the requested scope, then plan it: filtering and
/// scheduling in one step, as one invocation of the pipeline runs them.
pub fn compute_filtered_codegen_plan(
    units: Vec<CodegenUnit>,
    targets: &Vec<usize>,
    w: &Workspace,
) -> (res: Result<Vec<CodegenUnit>, Vec<CodegenError>>)
    requires
        w.wf(),
        forall|t: int|
            0 <= t < targets@.len() ==> ((#[trigger] targets@[t]) as int) < w.packages@.len(),
        forall|ui: int| 0 <= ui < units@.len() ==> unit_wf(#[trigger] units@[ui], *w),
        forall|u1: int, u2: int|
            0 <= u1 < u2 < units@.len() ==> (#[trigger] units@[u1]).package != (
            #[trigger] units@[u2]).package,
    ensures
        exists|kept: Seq<CodegenUnit>|
            #[trigger] filtered_plan_outcome(*w, units@, targets@, kept, res),
{
    let ghost units0 = units@;
    proof {
        assert forall|ui: int|
            0 <= ui < units0.len() implies ((#[trigger] units0[ui]).package as int)
            < w.packages@.len() by {
            assert(unit_wf(units0[ui], *w));
        }
    }
    let kept = filter_units(units, targets, w);
    let ghost kept0 = kept@;
    proof {
        assert forall|k: int| 0 <= k < kept0.len() implies unit_wf(#[trigger] kept0[k], *w) by {
            if targets@.len() == 0 {
                assert(kept0[k] == units0[k]);
            } else {
                let m = choose|m: Seq<int>|
                    #[trigger] scope_positions(*w, units0, targets@, kept0, m);
                assert(kept0[k]@ == units0[m[k]]@);
                assert(unit_wf(units0[m[k]], *w));
                assert(kept0[k]@.package == units0[m[k]]@.package);
                assert(kept0[k]@.generator.package == units0[m[k]]@.generator.package);
            }
        }
    }
    let r = crate::builder::codegen_plan(kept, w);
    proof {
        assert(filtered_plan_outcome(*w, units0, targets@, kept0, r));
    }
    r
}

} // verus!
