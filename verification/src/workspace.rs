//! A plain-data model of the workspace metadata that the external metadata
//! provider reports: packages with their build targets and direct
//! dependency edges. Packages are addressed by their index into
//! [`Workspace::packages`]; the caller keeps the side mapping from its own
//! stable package identifiers to these indices.

use vstd::prelude::*;

verus! {

/// One build target of a package: a name and whether it is a binary.
pub struct BuildTarget {
    pub name: String,
    pub is_binary: bool,
}

/// A direct dependency edge, by package index.
pub struct Dependency {
    /// Index of the package depended upon.
    pub to: usize,
    /// Whether the edge comes from dev-dependencies only.
    pub dev_only: bool,
}

/// One package of the metadata graph.
pub struct Package {
    /// Stable identifier, used when naming the package in errors.
    pub id: String,
    /// Display name.
    pub name: String,
    /// Path to the package's manifest file.
    pub manifest_path: String,
    /// Components of the package's manifest directory, relative to the
    /// workspace root. Meaningful for workspace members only.
    pub dir: Vec<String>,
    /// Whether the package is a member of the workspace.
    pub in_workspace: bool,
    /// The package's build targets.
    pub targets: Vec<BuildTarget>,
    /// The package's direct dependencies.
    pub deps: Vec<Dependency>,
}

/// The whole package graph reported by the metadata provider: workspace
/// members plus any other package connected to them.
pub struct Workspace {
    pub packages: Vec<Package>,
}

impl Workspace {
    /// Every dependency edge points at a package of this workspace.
    pub open spec fn wf(&self) -> bool {
        forall|i: int, j: int|
            0 <= i < self.packages@.len() && 0 <= j < self.packages@[i].deps@.len()
                ==> #[trigger] self.packages@[i].deps@[j].to < self.packages@.len()
    }

    /// Package `a` has a direct dependency on package `b`; `dev` tells
    /// whether dev-only edges count.
    pub open spec fn direct_dep(&self, a: int, b: int, include_dev: bool) -> bool {
        &&& 0 <= a < self.packages@.len()
        &&& 0 <= b < self.packages@.len()
        &&& exists|j: int|
            0 <= j < self.packages@[a].deps@.len() && #[trigger] self.packages@[a].deps@[j].to
                == b && (include_dev || !self.packages@[a].deps@[j].dev_only)
    }

    /// `p` is a chain of direct dependency steps.
    pub open spec fn dep_path(&self, p: Seq<int>, include_dev: bool) -> bool {
        &&& p.len() >= 1
        &&& forall|k: int|
            0 <= k < p.len() - 1 ==> self.direct_dep(#[trigger] p[k], p[k + 1], include_dev)
        &&& 0 <= p[0] < self.packages@.len()
    }

    /// Package `a` transitively depends on package `b` (reflexively: every
    /// package depends on itself).
    pub open spec fn depends_on(&self, a: int, b: int, include_dev: bool) -> bool {
        exists|p: Seq<int>|
            #[trigger] self.dep_path(p, include_dev) && p[0] == a && p[p.len() - 1] == b
    }

    /// Package index `i` names a workspace member.
    pub open spec fn is_member(&self, i: int) -> bool {
        0 <= i < self.packages@.len() && self.packages@[i].in_workspace
    }
}

/// A one-step dependency extends a transitive one.
pub proof fn lemma_depends_on_step(w: &Workspace, a: int, b: int, c: int, include_dev: bool)
    requires
        w.direct_dep(a, b, include_dev),
        w.depends_on(b, c, include_dev),
    ensures
        w.depends_on(a, c, include_dev),
{
    let p = choose|p: Seq<int>|
        #[trigger] w.dep_path(p, include_dev) && p[0] == b && p[p.len() - 1] == c;
    let q = seq![a] + p;
    assert(q[0] == a);
    assert(q[q.len() - 1] == c);
    assert forall|k: int| 0 <= k < q.len() - 1 implies w.direct_dep(
        #[trigger] q[k],
        q[k + 1],
        include_dev,
    ) by {
        if k == 0 {
            assert(q[0] == a && q[1] == p[0]);
        } else {
            assert(q[k] == p[k - 1] && q[k + 1] == p[k]);
        }
    }
    assert(w.dep_path(q, include_dev));
}

/// Transitive dependence is reflexive.
pub proof fn lemma_depends_on_refl(w: &Workspace, a: int, include_dev: bool)
    requires
        0 <= a < w.packages@.len(),
    ensures
        w.depends_on(a, a, include_dev),
{
    let p = seq![a];
    assert(w.dep_path(p, include_dev));
}

} // verus!
