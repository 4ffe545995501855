//! Determining which packages one invocation targets: an explicit list of
//! package names resolves against the workspace members, or, with no
//! explicit selection, the member whose directory is the closest ancestor
//! of the working directory is chosen. An unresolvable explicit selection
//! falls back to "everything" — better to regenerate too much than too
//! little.

use vstd::prelude::*;

use crate::workspace::Workspace;

verus! {

/// Member `i` has the given name.
pub open spec fn member_named(w: Workspace, name: Seq<char>, i: int) -> bool {
    w.is_member(i) && w.packages@[i].name@ == name
}

/// `i` is the first member with the given name in package order.
pub open spec fn first_member_named(w: Workspace, name: Seq<char>, i: int) -> bool {
    member_named(w, name, i) && forall|j: int| 0 <= j < i ==> !member_named(w, name, j)
}

/// Member `i`'s directory is an ancestor of (or equal to) the working
/// directory, given as path components relative to the workspace root.
pub open spec fn dir_matches(w: Workspace, wd: Seq<Seq<char>>, i: int) -> bool {
    &&& w.is_member(i)
    &&& w.packages@[i].dir.deep_view().len() <= wd.len()
    &&& forall|k: int|
        0 <= k < w.packages@[i].dir.deep_view().len() ==> #[trigger] w.packages@[i].dir.deep_view()[k]
            == wd[k]
}

/// How far below member `i`'s directory the working directory lies.
pub open spec fn suffix_len(w: Workspace, wd: Seq<Seq<char>>, i: int) -> int {
    wd.len() - w.packages@[i].dir.deep_view().len()
}

/// Find the first workspace member with the given name.
pub fn member_by_name(w: &Workspace, name: &String) -> (r: Option<usize>)
    ensures
        match r {
            Some(i) => first_member_named(*w, name@, i as int),
            None => forall|j: int| !member_named(*w, name@, j),
        },
{
    let mut i: usize = 0;
    let n = w.packages.len();
    while i < n
        invariant
            n == w.packages@.len(),
            i <= n,
            forall|j: int| 0 <= j < i ==> !member_named(*w, name@, j),
        decreases n - i,
    {
        if w.packages[i].in_workspace && w.packages[i].name == *name {
            return Some(i);
        }
        i = i + 1;
    }
    None
}

/// Whether member `i`'s directory is a prefix of the working directory.
fn dir_is_prefix(w: &Workspace, wd: &Vec<String>, i: usize) -> (r: bool)
    requires
        (i as int) < w.packages@.len(),
        w.is_member(i as int),
    ensures
        r == dir_matches(*w, wd.deep_view(), i as int),
{
    let dir = &w.packages[i].dir;
    if dir.len() > wd.len() {
        return false;
    }
    let mut k: usize = 0;
    while k < dir.len()
        invariant
            (i as int) < w.packages@.len(),
            w.is_member(i as int),
            dir@ == w.packages@[i as int].dir@,
            dir@.len() <= wd@.len(),
            k <= dir@.len(),
            forall|k2: int|
                0 <= k2 < k ==> #[trigger] w.packages@[i as int].dir.deep_view()[k2]
                    == wd.deep_view()[k2],
        decreases dir@.len() - k,
    {
        if !(dir[k] == wd[k]) {
            proof {
                assert(w.packages@[i as int].dir.deep_view()[k as int] == dir@[k as int]@);
                assert(wd.deep_view()[k as int] == wd@[k as int]@);
            }
            return false;
        }
        proof {
            assert(w.packages@[i as int].dir.deep_view()[k as int] == dir@[k as int]@);
            assert(wd.deep_view()[k as int] == wd@[k as int]@);
        }
        k = k + 1;
    }
    true
}

/// With no explicit selection, choose the member whose manifest directory
/// is the closest ancestor of the working directory; ties go to the first
/// such member in package order.
pub fn find_implicit_target(wd: &Vec<String>, w: &Workspace) -> (r: Option<usize>)
    ensures
        match r {
            Some(i) => {
                &&& dir_matches(*w, wd.deep_view(), i as int)
                &&& forall|j: int|
                    dir_matches(*w, wd.deep_view(), j) ==> suffix_len(*w, wd.deep_view(), i as int)
                        <= suffix_len(*w, wd.deep_view(), j)
                &&& forall|j: int|
                    0 <= j < i ==> !(dir_matches(*w, wd.deep_view(), j) && suffix_len(
                        *w,
                        wd.deep_view(),
                        j,
                    ) == suffix_len(*w, wd.deep_view(), i as int))
            },
            None => forall|j: int| !dir_matches(*w, wd.deep_view(), j),
        },
{
    let n = w.packages.len();
    let mut best: Option<usize> = None;
    let mut i: usize = 0;
    while i < n
        invariant
            n == w.packages@.len(),
            i <= n,
            match best {
                Some(b) => {
                    &&& (b as int) < i
                    &&& dir_matches(*w, wd.deep_view(), b as int)
                    &&& forall|j: int|
                        0 <= j < i && dir_matches(*w, wd.deep_view(), j) ==> suffix_len(
                            *w,
                            wd.deep_view(),
                            b as int,
                        ) <= suffix_len(*w, wd.deep_view(), j)
                    &&& forall|j: int|
                        0 <= j < b ==> !(dir_matches(*w, wd.deep_view(), j) && suffix_len(
                            *w,
                            wd.deep_view(),
                            j,
                        ) == suffix_len(*w, wd.deep_view(), b as int))
                },
                None => forall|j: int| 0 <= j < i ==> !dir_matches(*w, wd.deep_view(), j),
            },
        decreases n - i,
    {
        if w.packages[i].in_workspace && dir_is_prefix(w, wd, i) {
            let score = wd.len() - w.packages[i].dir.len();
            let better = match best {
                Some(b) => {
                    let best_score = wd.len() - w.packages[b].dir.len();
                    score < best_score
                },
                None => true,
            };
            if better {
                best = Some(i);
            }
        }
        i = i + 1;
    }
    proof {
        if best is None {
            assert forall|j: int| !dir_matches(*w, wd.deep_view(), j) by {
                if dir_matches(*w, wd.deep_view(), j) {
                    assert(0 <= j < n);
                }
            }
        } else {
            let b = best->0 as int;
            assert forall|j: int|
                dir_matches(*w, wd.deep_view(), j) implies suffix_len(*w, wd.deep_view(), b)
                <= suffix_len(*w, wd.deep_view(), j) by {
                assert(0 <= j < n);
            }
        }
    }
    best
}

/// Determine the target packages for this invocation: the named packages
/// when every name resolves to a workspace member, nothing (meaning
/// "everything") when any name fails to resolve, and the member closest
/// to the working directory when no names were given.
pub fn determine_targets(package_specs: &Vec<String>, wd: &Vec<String>, w: &Workspace) -> (r: Vec<
    usize,
>)
    ensures
        package_specs@.len() == 0 ==> {
            &&& r@.len() <= 1
            &&& (r@.len() == 1 <==> exists|j: int| dir_matches(*w, wd.deep_view(), j))
            &&& (r@.len() == 1 ==> dir_matches(*w, wd.deep_view(), r@[0] as int))
        },
        package_specs@.len() > 0 ==> {
            ||| (r@.len() == package_specs@.len() && (forall|s: int|
                0 <= s < r@.len() ==> first_member_named(
                    *w,
                    package_specs@[s]@,
                    (#[trigger] r@[s]) as int,
                )))
            ||| (r@.len() == 0 && (exists|s: int|
                0 <= s < package_specs@.len() && (forall|j: int|
                    !member_named(*w, (#[trigger] package_specs@[s])@, j))))
        },
        forall|t: int| 0 <= t < r@.len() ==> ((#[trigger] r@[t]) as int) < w.packages@.len(),
{
    if package_specs.len() == 0 {
        match find_implicit_target(wd, w) {
            Some(i) => {
                let mut r: Vec<usize> = Vec::new();
                r.push(i);
                proof {
                    assert(dir_matches(*w, wd.deep_view(), i as int));
                }
                return r;
            },
            None => {
                return Vec::new();
            },
        }
    }
    let mut r: Vec<usize> = Vec::new();
    let mut s: usize = 0;
    while s < package_specs.len()
        invariant
            s <= package_specs@.len(),
            r@.len() == s,
            forall|s2: int|
                0 <= s2 < s ==> first_member_named(
                    *w,
                    package_specs@[s2]@,
                    (#[trigger] r@[s2]) as int,
                ),
            forall|t: int| 0 <= t < r@.len() ==> ((#[trigger] r@[t]) as int) < w.packages@.len(),
        decreases package_specs@.len() - s,
    {
        match member_by_name(w, &package_specs[s]) {
            Some(i) => {
                r.push(i);
            },
            None => {
                proof {
                    assert(forall|j: int|
                        !member_named(*w, (#[trigger] package_specs@[s as int])@, j));
                }
                return Vec::new();
            },
        }
        s = s + 1;
    }
    r
}

} // verus!
