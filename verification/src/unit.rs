//! Codegen units: which packages need generation, by which binary, with
//! which arguments. Units are extracted from the per-package configuration
//! outcomes and validated against the workspace: the named generator and
//! verifier binaries must be defined by some other workspace member.

use vstd::prelude::*;

use crate::config::{
    CargoBinaryGeneratorConfig, CargoBinaryVerifierConfig, ConfigOutcome, ConfigOutcomeView,
    GenerateConfig, PxConfig, PxConfigView, VerifyConfig,
};
use crate::errors::{BinaryRole, CodegenError};
use crate::workspace::{Package, Workspace};

verus! {

/// A binary defined by a package of the workspace.
#[derive(Debug)]
pub struct WorkspaceBinary {
    /// The name of the binary.
    pub name: String,
    /// Index of the workspace member that defines the binary.
    pub package: usize,
}

/// A binary together with the extra arguments to forward when invoking it.
#[derive(Debug)]
pub struct BinaryInvocation {
    pub binary: WorkspaceBinary,
    pub args: Vec<String>,
}

/// A package that relies on the pipeline for code generation.
#[derive(Debug)]
pub struct CodegenUnit {
    /// Index of the package whose source is generated.
    pub package: usize,
    pub generator: BinaryInvocation,
    pub verifier: Option<BinaryInvocation>,
}

/// The mathematical content of a [`BinaryInvocation`]: binary name, owning
/// package index, and forwarded arguments.
pub struct BinaryInvocationView {
    pub name: Seq<char>,
    pub package: int,
    pub args: Seq<Seq<char>>,
}

/// The mathematical content of a [`CodegenUnit`].
pub struct CodegenUnitView {
    pub package: int,
    pub generator: BinaryInvocationView,
    pub verifier: Option<BinaryInvocationView>,
}

impl View for BinaryInvocation {
    type V = BinaryInvocationView;

    open spec fn view(&self) -> BinaryInvocationView {
        BinaryInvocationView {
            name: self.binary.name@,
            package: self.binary.package as int,
            args: self.args.deep_view(),
        }
    }
}

impl View for CodegenUnit {
    type V = CodegenUnitView;

    open spec fn view(&self) -> CodegenUnitView {
        CodegenUnitView {
            package: self.package as int,
            generator: self.generator@,
            verifier: match self.verifier {
                Some(v) => Some(v@),
                None => None,
            },
        }
    }
}

/// Package `p` defines a binary target with the given name.
pub open spec fn has_binary_named(p: Package, name: Seq<char>) -> bool {
    exists|k: int|
        0 <= k < p.targets@.len() && (#[trigger] p.targets@[k]).is_binary && p.targets@[k].name@
            == name
}

/// Package `i` is a workspace member other than `pkg` that defines a
/// binary target with the given name.
pub open spec fn owner_match(w: Workspace, pkg: int, name: Seq<char>, i: int) -> bool {
    &&& w.is_member(i)
    &&& i != pkg
    &&& has_binary_named(w.packages@[i], name)
}

/// Some workspace member other than `pkg` defines the binary.
pub open spec fn owner_exists(w: Workspace, pkg: int, name: Seq<char>) -> bool {
    exists|i: int| owner_match(w, pkg, name, i)
}

/// `i` is the last matching owner in package order: the one the search
/// settles on.
pub open spec fn is_last_owner(w: Workspace, pkg: int, name: Seq<char>, i: int) -> bool {
    &&& owner_match(w, pkg, name, i)
    &&& forall|j: int| i < j < w.packages@.len() ==> !owner_match(w, pkg, name, j)
}

/// The generator binary name requested by a configuration.
pub open spec fn generator_name_of(c: PxConfigView) -> Seq<char> {
    c.generator.name
}

/// The generator arguments requested by a configuration.
pub open spec fn generator_args_of(c: PxConfigView) -> Seq<Seq<char>> {
    c.generator.args
}

/// Whether the configuration declares a verification step.
pub open spec fn wants_verifier(c: PxConfigView) -> bool {
    c.verifier is Some
}

/// The verifier binary name requested by a configuration.
pub open spec fn verifier_name_of(c: PxConfigView) -> Seq<char> {
    match c.verifier {
        Some(v) => v.name,
        None => Seq::empty(),
    }
}

/// The verifier arguments requested by a configuration.
pub open spec fn verifier_args_of(c: PxConfigView) -> Seq<Seq<char>> {
    match c.verifier {
        Some(v) => v.args,
        None => Seq::empty(),
    }
}

/// The configuration can be turned into a unit: its generator binary
/// exists, and so does its verifier binary if one is requested.
#[verifier::opaque]
pub open spec fn unit_ok(c: PxConfigView, w: Workspace, pkg: int) -> bool {
    &&& owner_exists(w, pkg, generator_name_of(c))
    &&& (wants_verifier(c) ==> owner_exists(w, pkg, verifier_name_of(c)))
}

/// The unit `u` is exactly what the configuration `c` for package `pkg`
/// asks for.
#[verifier::opaque]
pub open spec fn unit_matches(u: CodegenUnitView, c: PxConfigView, w: Workspace, pkg: int) -> bool {
    &&& u.package == pkg
    &&& w.is_member(pkg)
    &&& u.generator.name == generator_name_of(c)
    &&& u.generator.args == generator_args_of(c)
    &&& is_last_owner(w, pkg, generator_name_of(c), u.generator.package)
    &&& (wants_verifier(c) <==> u.verifier is Some)
    &&& match u.verifier {
        Some(v) => {
            &&& v.name == verifier_name_of(c)
            &&& v.args == verifier_args_of(c)
            &&& is_last_owner(w, pkg, verifier_name_of(c), v.package)
        },
        None => true,
    }
}

/// The structural facts about a unit that graph construction relies on:
/// target and generator are distinct workspace members.
pub open spec fn unit_wf(u: CodegenUnit, w: Workspace) -> bool {
    &&& w.is_member(u.package as int)
    &&& w.is_member(u.generator.binary.package as int)
    &&& u.generator.binary.package != u.package
}

/// The error that unit construction reports for configuration `c` of
/// package `i`: the generator's absence wins over the verifier's.
pub open spec fn unit_error_for(w: Workspace, i: int, c: PxConfigView, e: CodegenError) -> bool {
    if !owner_exists(w, i, generator_name_of(c)) {
        e matches CodegenError::MissingBinary { binary_name, package_name, role }
            && binary_name@ == generator_name_of(c) && package_name@ == w.packages@[i].name@
            && role is Generator
    } else {
        &&& wants_verifier(c)
        &&& !owner_exists(w, i, verifier_name_of(c))
        &&& e matches CodegenError::MissingBinary { binary_name, package_name, role }
            && binary_name@ == verifier_name_of(c) && package_name@ == w.packages@[i].name@
            && role is Verifier
    }
}

/// The error that configuration extraction reports for package `i` with
/// outcome `o`.
#[verifier::opaque]
pub open spec fn config_error_for(
    w: Workspace,
    i: int,
    o: ConfigOutcomeView,
    e: CodegenError,
) -> bool {
    match o {
        ConfigOutcomeView::Absent => false,
        ConfigOutcomeView::Malformed(m) => e
            matches CodegenError::MalformedConfig { package_name, message } && package_name@
            == w.packages@[i].name@ && message@ == m,
        ConfigOutcomeView::Declared(c) => unit_error_for(w, i, c, e),
    }
}

/// Workspace member `i` contributes an error to extraction.
#[verifier::opaque]
pub open spec fn member_failure(w: Workspace, i: int, o: ConfigOutcomeView) -> bool {
    w.is_member(i) && match o {
        ConfigOutcomeView::Absent => false,
        ConfigOutcomeView::Malformed(_) => true,
        ConfigOutcomeView::Declared(c) => !unit_ok(c, w, i),
    }
}

/// Workspace member `i` contributes a unit to extraction.
#[verifier::opaque]
pub open spec fn member_declares(w: Workspace, i: int, o: ConfigOutcomeView) -> bool {
    w.is_member(i) && o is Declared
}

impl Clone for WorkspaceBinary {
    fn clone(&self) -> (res: Self)
        ensures
            res == *self,
    {
        WorkspaceBinary { name: self.name.clone(), package: self.package }
    }
}

impl Clone for BinaryInvocation {
    fn clone(&self) -> (res: Self)
        ensures
            res@ == self@,
    {
        BinaryInvocation { binary: self.binary.clone(), args: clone_strings(&self.args) }
    }
}

impl Clone for CodegenUnit {
    fn clone(&self) -> (res: Self)
        ensures
            res@ == self@,
    {
        CodegenUnit {
            package: self.package,
            generator: self.generator.clone(),
            verifier: match &self.verifier {
                Some(v) => Some(v.clone()),
                None => None,
            },
        }
    }
}

/// Copy a vector of strings.
pub fn clone_strings(v: &Vec<String>) -> (r: Vec<String>)
    ensures
        r@ == v@,
{
    let mut r: Vec<String> = Vec::new();
    let mut i: usize = 0;
    while i < v.len()
        invariant
            i <= v@.len(),
            r@ =~= v@.subrange(0, i as int),
        decreases v@.len() - i,
    {
        r.push(v[i].clone());
        i = i + 1;
    }
    assert(r@ =~= v@);
    r
}

/// Whether package `p` defines a binary target with the given name.
fn package_has_binary(p: &Package, name: &String) -> (r: bool)
    ensures
        r == has_binary_named(*p, name@),
{
    let mut k: usize = 0;
    while k < p.targets.len()
        invariant
            k <= p.targets@.len(),
            forall|j: int|
                0 <= j < k ==> !((#[trigger] p.targets@[j]).is_binary && p.targets@[j].name@
                    == name@),
        decreases p.targets@.len() - k,
    {
        if p.targets[k].is_binary && p.targets[k].name == *name {
            return true;
        }
        k = k + 1;
    }
    false
}

/// Search the workspace for a member other than `package` that defines a
/// binary with the given name; the last match in package order wins.
fn find_binary_owner(w: &Workspace, package: usize, name: &String) -> (r: Option<usize>)
    ensures
        match r {
            Some(i) => is_last_owner(*w, package as int, name@, i as int),
            None => !owner_exists(*w, package as int, name@),
        },
{
    let mut found: Option<usize> = None;
    let mut i: usize = 0;
    while i < w.packages.len()
        invariant
            i <= w.packages@.len(),
            match found {
                Some(f) => owner_match(*w, package as int, name@, f as int) && forall|j: int|
                    f < j < i ==> !owner_match(*w, package as int, name@, j),
                None => forall|j: int| 0 <= j < i ==> !owner_match(*w, package as int, name@, j),
            },
        decreases w.packages@.len() - i,
    {
        if i != package && w.packages[i].in_workspace && package_has_binary(
            &w.packages[i],
            name,
        ) {
            found = Some(i);
        }
        i = i + 1;
    }
    found
}

impl CodegenUnit {
    /// Build a `CodegenUnit` for `package` from its configuration.
    ///
    /// It returns an error if the configuration names a generator or
    /// verifier binary that no other workspace member defines.
    pub fn new(px_config: PxConfig, package: usize, w: &Workspace) -> (res: Result<
        CodegenUnit,
        CodegenError,
    >)
        requires
            w.is_member(package as int),
        ensures
            res is Ok <==> unit_ok(px_config@, *w, package as int),
            res matches Ok(u) ==> unit_matches(u@, px_config@, *w, package as int),
            res matches Err(e) ==> unit_error_for(*w, package as int, px_config@, e),
    {
        proof {
            reveal(unit_ok);
            reveal(unit_matches);
        }
        let PxConfig { generate, verify } = px_config;
        let GenerateConfig::CargoWorkspaceBinary(gen_config) = generate;
        let CargoBinaryGeneratorConfig { generator_name, generator_args } = gen_config;

        let generator_package = match find_binary_owner(w, package, &generator_name) {
            Some(i) => i,
            None => {
                return Err(
                    CodegenError::MissingBinary {
                        binary_name: generator_name,
                        package_name: w.packages[package].name.clone(),
                        role: BinaryRole::Generator,
                    },
                );
            },
        };
        let generator = BinaryInvocation {
            binary: WorkspaceBinary { name: generator_name, package: generator_package },
            args: generator_args,
        };

        let verifier = match verify {
            None => None,
            Some(VerifyConfig::CargoWorkspaceBinary(verify_config)) => {
                let CargoBinaryVerifierConfig { verifier_name, verifier_args } = verify_config;
                match find_binary_owner(w, package, &verifier_name) {
                    Some(i) => Some(
                        BinaryInvocation {
                            binary: WorkspaceBinary { name: verifier_name, package: i },
                            args: verifier_args,
                        },
                    ),
                    None => {
                        return Err(
                            CodegenError::MissingBinary {
                                binary_name: verifier_name,
                                package_name: w.packages[package].name.clone(),
                                role: BinaryRole::Verifier,
                            },
                        );
                    },
                }
            },
        };

        Ok(CodegenUnit { package, generator, verifier })
    }
}

/// Handle one package during extraction: append its unit, or its error, or
/// nothing, depending on its membership and configuration outcome.
fn process_member(
    w: &Workspace,
    i: usize,
    outcome: &ConfigOutcome,
    units: &mut Vec<CodegenUnit>,
    errs: &mut Vec<CodegenError>,
)
    requires
        i < w.packages@.len(),
    ensures
        (member_declares(*w, i as int, outcome@) && !member_failure(*w, i as int, outcome@)) ==> {
            &&& final(units)@.len() == old(units)@.len() + 1
            &&& final(units)@ == old(units)@.push(final(units)@.last())
            &&& final(units)@.last().package == i
            &&& (outcome@ matches ConfigOutcomeView::Declared(c) && unit_matches(
                final(units)@.last()@,
                c,
                *w,
                i as int,
            ))
        },
        !(member_declares(*w, i as int, outcome@) && !member_failure(*w, i as int, outcome@))
            ==> final(units)@ == old(units)@,
        member_failure(*w, i as int, outcome@) ==> {
            &&& final(errs)@.len() == old(errs)@.len() + 1
            &&& final(errs)@ == old(errs)@.push(final(errs)@.last())
            &&& config_error_for(*w, i as int, outcome@, final(errs)@.last())
        },
        !member_failure(*w, i as int, outcome@) ==> final(errs)@ == old(errs)@,
{
    proof {
        reveal(member_failure);
        reveal(member_declares);
        reveal(config_error_for);
        reveal(unit_matches);
    }
    if !w.packages[i].in_workspace {
        return ;
    }
    match outcome {
        ConfigOutcome::Absent => {},
        ConfigOutcome::Malformed(m) => {
            errs.push(
                CodegenError::MalformedConfig {
                    package_name: w.packages[i].name.clone(),
                    message: m.clone(),
                },
            );
        },
        ConfigOutcome::Declared(c) => {
            match CodegenUnit::new(c.clone(), i, w) {
                Ok(u) => units.push(u),
                Err(e) => errs.push(e),
            }
        },
    }
}


/// The units that extraction accumulates after examining the first `i`
/// packages: one per member whose configuration parsed and validated, in
/// package order.
pub open spec fn units_for_prefix(
    w: Workspace,
    outcomes: Seq<ConfigOutcome>,
    i: int,
    units: Seq<CodegenUnit>,
) -> bool
    decreases i,
{
    if i <= 0 {
        units.len() == 0
    } else {
        let o = outcomes[i - 1]@;
        if member_declares(w, i - 1, o) && !member_failure(w, i - 1, o) {
            &&& units.len() >= 1
            &&& units_for_prefix(w, outcomes, i - 1, units.drop_last())
            &&& units.last().package == i - 1
            &&& (o matches ConfigOutcomeView::Declared(c) && unit_matches(
                units.last()@,
                c,
                w,
                i - 1,
            ))
        } else {
            units_for_prefix(w, outcomes, i - 1, units)
        }
    }
}

/// The errors that extraction accumulates after examining the first `i`
/// packages: one per misconfigured member, in package order.
pub open spec fn errors_for_prefix(
    w: Workspace,
    outcomes: Seq<ConfigOutcome>,
    i: int,
    errs: Seq<CodegenError>,
) -> bool
    decreases i,
{
    if i <= 0 {
        errs.len() == 0
    } else {
        if member_failure(w, i - 1, outcomes[i - 1]@) {
            &&& errs.len() >= 1
            &&& errors_for_prefix(w, outcomes, i - 1, errs.drop_last())
            &&& config_error_for(w, i - 1, outcomes[i - 1]@, errs.last())
        } else {
            errors_for_prefix(w, outcomes, i - 1, errs)
        }
    }
}

/// What the accumulated unit list guarantees: targets are strictly
/// increasing (so no duplicates), every unit matches its member's parsed
/// configuration, and every member whose configuration parsed and
/// validated has exactly one unit.
pub proof fn lemma_units_facts(
    w: Workspace,
    outcomes: Seq<ConfigOutcome>,
    i: int,
    units: Seq<CodegenUnit>,
)
    requires
        outcomes.len() == w.packages@.len(),
        0 <= i <= outcomes.len(),
        units_for_prefix(w, outcomes, i, units),
    ensures
        forall|k: int| 0 <= k < units.len() ==> 0 <= (#[trigger] units[k]).package < i,
        forall|k1: int, k2: int|
            0 <= k1 < k2 < units.len() ==> (#[trigger] units[k1]).package < (
            #[trigger] units[k2]).package,
        forall|k: int|
            0 <= k < units.len() ==> {
                let j = (#[trigger] units[k]).package as int;
                &&& outcomes[j]@ matches ConfigOutcomeView::Declared(c) && unit_matches(
                    units[k]@,
                    c,
                    w,
                    j,
                )
            },
        forall|j: int|
            0 <= j < i && member_declares(w, j, #[trigger] outcomes[j]@) && !member_failure(
                w,
                j,
                outcomes[j]@,
            ) ==> exists|k: int| 0 <= k < units.len() && (#[trigger] units[k]).package == j,
    decreases i,
{
    if i > 0 {
        let o = outcomes[i - 1]@;
        if member_declares(w, i - 1, o) && !member_failure(w, i - 1, o) {
            let prior = units.drop_last();
            lemma_units_facts(w, outcomes, i - 1, prior);
            assert forall|k: int| 0 <= k < units.len() implies 0 <= (
            #[trigger] units[k]).package < i by {
                if k < units.len() - 1 {
                    assert(units[k] == prior[k]);
                }
            }
            assert forall|k1: int, k2: int|
                0 <= k1 < k2 < units.len() implies (#[trigger] units[k1]).package < (
            #[trigger] units[k2]).package by {
                if k2 < units.len() - 1 {
                    assert(units[k1] == prior[k1] && units[k2] == prior[k2]);
                } else {
                    assert(units[k1] == prior[k1]);
                    assert(units[k2] == units.last());
                }
            }
            assert forall|k: int| 0 <= k < units.len() implies {
                let j = (#[trigger] units[k]).package as int;
                &&& outcomes[j]@ matches ConfigOutcomeView::Declared(c) && unit_matches(
                    units[k]@,
                    c,
                    w,
                    j,
                )
            } by {
                if k < units.len() - 1 {
                    assert(units[k] == prior[k]);
                } else {
                    assert(units[k] == units.last());
                    assert(member_declares(w, i - 1, o));
                    reveal(member_declares);
                }
            }
            assert forall|j: int|
                0 <= j < i && member_declares(w, j, #[trigger] outcomes[j]@) && !member_failure(
                    w,
                    j,
                    outcomes[j]@,
                ) implies exists|k: int|
                0 <= k < units.len() && (#[trigger] units[k]).package == j by {
                if j < i - 1 {
                    let k = choose|k: int| 0 <= k < prior.len() && (#[trigger] prior[k]).package == j;
                    assert(units[k] == prior[k]);
                    assert(0 <= k < units.len() && units[k].package == j);
                } else {
                    assert(units[units.len() - 1] == units.last());
                    assert(units[units.len() - 1].package == j);
                }
            }
        } else {
            lemma_units_facts(w, outcomes, i - 1, units);
        }
    }
}

/// What the accumulated error list guarantees: it is empty exactly when no
/// member failed, every error belongs to a failing member, and every
/// failing member has an error.
pub proof fn lemma_errors_facts(
    w: Workspace,
    outcomes: Seq<ConfigOutcome>,
    i: int,
    errs: Seq<CodegenError>,
)
    requires
        outcomes.len() == w.packages@.len(),
        0 <= i <= outcomes.len(),
        errors_for_prefix(w, outcomes, i, errs),
    ensures
        errs.len() == 0 <==> (forall|j: int|
            0 <= j < i ==> !member_failure(w, j, #[trigger] outcomes[j]@)),
        forall|k: int|
            0 <= k < errs.len() ==> exists|j: int|
                0 <= j < i && member_failure(w, j, outcomes[j]@) && config_error_for(
                    w,
                    j,
                    outcomes[j]@,
                    #[trigger] errs[k],
                ),
        forall|j: int|
            0 <= j < i && member_failure(w, j, #[trigger] outcomes[j]@) ==> exists|k: int|
                0 <= k < errs.len() && config_error_for(w, j, outcomes[j]@, errs[k]),
    decreases i,
{
    if i > 0 {
        if member_failure(w, i - 1, outcomes[i - 1]@) {
            let prior = errs.drop_last();
            lemma_errors_facts(w, outcomes, i - 1, prior);
            assert forall|k: int| 0 <= k < errs.len() implies exists|j: int|
                0 <= j < i && member_failure(w, j, outcomes[j]@) && config_error_for(
                    w,
                    j,
                    outcomes[j]@,
                    #[trigger] errs[k],
                ) by {
                if k < errs.len() - 1 {
                    assert(errs[k] == prior[k]);
                    let j = choose|j: int|
                        0 <= j < i - 1 && member_failure(w, j, outcomes[j]@) && config_error_for(
                            w,
                            j,
                            outcomes[j]@,
                            prior[k],
                        );
                    assert(member_failure(w, j, outcomes[j]@) && config_error_for(
                        w,
                        j,
                        outcomes[j]@,
                        errs[k],
                    ));
                } else {
                    assert(errs[k] == errs.last());
                    assert(member_failure(w, i - 1, outcomes[i - 1]@) && config_error_for(
                        w,
                        i - 1,
                        outcomes[i - 1]@,
                        errs[k],
                    ));
                }
            }
            assert forall|j: int|
                0 <= j < i && member_failure(w, j, #[trigger] outcomes[j]@) implies exists|k: int|
                0 <= k < errs.len() && config_error_for(w, j, outcomes[j]@, errs[k]) by {
                if j < i - 1 {
                    let k = choose|k: int|
                        0 <= k < prior.len() && config_error_for(w, j, outcomes[j]@, prior[k]);
                    assert(errs[k] == prior[k]);
                    assert(0 <= k < errs.len() && config_error_for(w, j, outcomes[j]@, errs[k]));
                } else {
                    assert(errs[errs.len() - 1] == errs.last());
                    assert(config_error_for(w, j, outcomes[j]@, errs[errs.len() - 1]));
                }
            }
            assert(errs.len() >= 1);
            assert(member_failure(w, i - 1, outcomes[i - 1]@));
        } else {
            lemma_errors_facts(w, outcomes, i - 1, errs);
        }
    }
}

/// Retrieve all packages in the workspace that require code generation,
/// walking the members in package order.
///
/// Every member is checked independently and all errors are collected, so
/// one pass reports every misconfigured package.
pub fn extract_codegen_units(w: &Workspace, outcomes: &Vec<ConfigOutcome>) -> (res: Result<
    Vec<CodegenUnit>,
    Vec<CodegenError>,
>)
    requires
        outcomes@.len() == w.packages@.len(),
    ensures
        res is Ok <==> (forall|i: int|
            0 <= i < w.packages@.len() ==> !member_failure(*w, i, #[trigger] outcomes@[i]@)),
        res matches Ok(units) ==> units_for_prefix(
            *w,
            outcomes@,
            w.packages@.len() as int,
            units@,
        ),
        res matches Err(errs) ==> errs@.len() >= 1 && errors_for_prefix(
            *w,
            outcomes@,
            w.packages@.len() as int,
            errs@,
        ),
{
    let mut units: Vec<CodegenUnit> = Vec::new();
    let mut errs: Vec<CodegenError> = Vec::new();
    let n = w.packages.len();
    let mut i: usize = 0;
    while i < n
        invariant
            n == w.packages@.len(),
            outcomes@.len() == n,
            i <= n,
            units_for_prefix(*w, outcomes@, i as int, units@),
            errors_for_prefix(*w, outcomes@, i as int, errs@),
        decreases n - i,
    {
        let ghost prior_units = units@;
        let ghost prior_errs = errs@;
        process_member(w, i, &outcomes[i], &mut units, &mut errs);
        proof {
            if member_declares(*w, i as int, outcomes@[i as int]@) && !member_failure(
                *w,
                i as int,
                outcomes@[i as int]@,
            ) {
                assert(units@.drop_last() =~= prior_units);
            }
            if member_failure(*w, i as int, outcomes@[i as int]@) {
                assert(errs@.drop_last() =~= prior_errs);
            }
        }
        i = i + 1;
    }
    proof {
        lemma_errors_facts(*w, outcomes@, n as int, errs@);
    }
    if errs.len() == 0 {
        Ok(units)
    } else {
        Err(errs)
    }
}

} // verus!
