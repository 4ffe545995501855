use cargo_px::config::{
    CargoBinaryGeneratorConfig, CargoBinaryVerifierConfig, ConfigOutcome, GenerateConfig, PxConfig,
    VerifyConfig,
};
use cargo_px::builder::codegen_plan;
use cargo_px::filter::{compute_filtered_codegen_plan, filter_units};
use cargo_px::errors::{BinaryRole, CodegenError, CycleStep};
use cargo_px::graph::{find_cycles, DependencyGraph};
use cargo_px::unit::{extract_codegen_units, BinaryInvocation, CodegenUnit, WorkspaceBinary};
use cargo_px::workspace::{BuildTarget, Dependency, Package, Workspace};

fn pkg(id: &str, name: &str, bins: &[&str], deps: &[(usize, bool)], member: bool) -> Package {
    Package {
        id: id.to_string(),
        name: name.to_string(),
        manifest_path: format!("/ws/{}/Cargo.toml", name),
        dir: vec![name.to_string()],
        in_workspace: member,
        targets: bins
            .iter()
            .map(|b| BuildTarget { name: b.to_string(), is_binary: true })
            .collect(),
        deps: deps
            .iter()
            .map(|&(to, dev_only)| Dependency { to, dev_only })
            .collect(),
    }
}

fn gen_config(generator: &str) -> PxConfig {
    PxConfig {
        generate: GenerateConfig::CargoWorkspaceBinary(CargoBinaryGeneratorConfig {
            generator_name: generator.to_string(),
            generator_args: vec![],
        }),
        verify: None,
    }
}

#[test]
fn extracts_unit_for_configured_member() {
    // package 0 is generated by the `gen` binary that package 1 defines
    let w = Workspace {
        packages: vec![
            pkg("app-id", "app", &[], &[], true),
            pkg("gen-id", "gen", &["gen"], &[], true),
        ],
    };
    let outcomes = vec![ConfigOutcome::Declared(gen_config("gen")), ConfigOutcome::Absent];
    let units = extract_codegen_units(&w, &outcomes).expect("extraction succeeds");
    assert_eq!(units.len(), 1);
    assert_eq!(units[0].package, 0);
    assert_eq!(units[0].generator.binary.name, "gen");
    assert_eq!(units[0].generator.binary.package, 1);
    assert!(units[0].verifier.is_none());
}

#[test]
fn missing_generator_binary_is_reported() {
    let w = Workspace {
        packages: vec![pkg("app-id", "app", &[], &[], true)],
    };
    let outcomes = vec![ConfigOutcome::Declared(gen_config("nope"))];
    let errs = extract_codegen_units(&w, &outcomes).expect_err("extraction fails");
    assert_eq!(errs.len(), 1);
    match &errs[0] {
        CodegenError::MissingBinary { binary_name, package_name, role } => {
            assert_eq!(binary_name, "nope");
            assert_eq!(package_name, "app");
            assert!(matches!(role, BinaryRole::Generator));
        }
        other => panic!("unexpected error: {:?}", discriminant_name(other)),
    }
}

#[test]
fn all_misconfigured_members_are_reported_in_one_pass() {
    let w = Workspace {
        packages: vec![
            pkg("a-id", "a", &[], &[], true),
            pkg("b-id", "b", &[], &[], true),
            pkg("c-id", "c", &["genc"], &[], true),
        ],
    };
    let outcomes = vec![
        ConfigOutcome::Declared(gen_config("missing-bin")),
        ConfigOutcome::Malformed("bad metadata".to_string()),
        ConfigOutcome::Absent,
    ];
    let errs = extract_codegen_units(&w, &outcomes).expect_err("extraction fails");
    assert_eq!(errs.len(), 2);
}

#[test]
fn verifier_binary_is_resolved() {
    let w = Workspace {
        packages: vec![
            pkg("app-id", "app", &[], &[], true),
            pkg("gen-id", "gen", &["gen", "check"], &[], true),
        ],
    };
    let config = PxConfig {
        generate: GenerateConfig::CargoWorkspaceBinary(CargoBinaryGeneratorConfig {
            generator_name: "gen".to_string(),
            generator_args: vec!["--fast".to_string()],
        }),
        verify: Some(VerifyConfig::CargoWorkspaceBinary(CargoBinaryVerifierConfig {
            verifier_name: "check".to_string(),
            verifier_args: vec![],
        })),
    };
    let outcomes = vec![ConfigOutcome::Declared(config), ConfigOutcome::Absent];
    let units = extract_codegen_units(&w, &outcomes).expect("extraction succeeds");
    assert_eq!(units.len(), 1);
    let v = units[0].verifier.as_ref().expect("has verifier");
    assert_eq!(v.binary.name, "check");
    assert_eq!(v.binary.package, 1);
    assert_eq!(units[0].generator.args, vec!["--fast".to_string()]);
}

fn discriminant_name(e: &CodegenError) -> &'static str {
    match e {
        CodegenError::MissingBinary { .. } => "MissingBinary",
        CodegenError::MalformedConfig { .. } => "MalformedConfig",
        CodegenError::CyclicDependency { .. } => "CyclicDependency",
        CodegenError::ProcessFailure { .. } => "ProcessFailure",
        CodegenError::MissingVerifier { .. } => "MissingVerifier",
        CodegenError::EnvironmentUnavailable { .. } => "EnvironmentUnavailable",
    }
}

fn graph(n: usize, edges: &[(usize, usize)], units: Vec<CodegenUnit>) -> DependencyGraph {
    let mut out = vec![Vec::new(); n];
    for &(a, b) in edges {
        out[a].push(b);
    }
    DependencyGraph { in_graph: vec![true; n], out, units }
}

#[test]
fn acyclic_graph_has_no_cycles() {
    // 0 -> 1 -> 2, 0 -> 2
    let g = graph(3, &[(0, 1), (1, 2), (0, 2)], vec![]);
    assert!(find_cycles(&g).is_empty());
}

#[test]
fn two_node_loop_is_detected() {
    let g = graph(2, &[(0, 1), (1, 0)], vec![]);
    let cycles = find_cycles(&g);
    assert_eq!(cycles.len(), 1);
    let mut c = cycles[0].clone();
    c.sort();
    assert_eq!(c, vec![0, 1]);
}

#[test]
fn self_loop_is_detected() {
    let g = graph(1, &[(0, 0)], vec![]);
    let cycles = find_cycles(&g);
    assert_eq!(cycles.len(), 1);
    assert_eq!(cycles[0], vec![0]);
}

fn unit(target: usize, gen_name: &str, gen_pkg: usize) -> CodegenUnit {
    CodegenUnit {
        package: target,
        generator: BinaryInvocation {
            binary: WorkspaceBinary { name: gen_name.to_string(), package: gen_pkg },
            args: vec![],
        },
        verifier: None,
    }
}

#[test]
fn plan_contains_each_unit_once() {
    // 0 generated by 1, 2 generated by 3; no cross dependencies
    let g = graph(
        4,
        &[(0, 1), (2, 3)],
        vec![unit(0, "gen-a", 1), unit(2, "gen-b", 3)],
    );
    let plan = g.codegen_plan();
    assert_eq!(plan.len(), 2);
    let mut targets: Vec<usize> = plan.iter().map(|u| u.package).collect();
    targets.sort();
    assert_eq!(targets, vec![0, 2]);
}

#[test]
fn plan_orders_dependent_generators_last() {
    // unit A: package 0 generated by binary in package 1;
    // unit B: package 2 generated by binary in package 3;
    // package 1 (A's generator) depends on package 2 (B's target),
    // so B must precede A.
    let g = graph(
        4,
        &[(0, 1), (2, 3), (1, 2)],
        vec![unit(0, "gen-a", 1), unit(2, "gen-b", 3)],
    );
    let plan = g.codegen_plan();
    assert_eq!(plan.len(), 2);
    assert_eq!(plan[0].package, 2, "the unit the other generator depends on runs first");
    assert_eq!(plan[1].package, 0);
}

#[test]
fn plan_handles_generator_chains() {
    // 0 generated by 1; 1 generated by 2; 2 generated by 3.
    // Each generated package's generator is itself generated.
    let g = graph(
        4,
        &[(0, 1), (1, 2), (2, 3)],
        vec![unit(0, "g1", 1), unit(1, "g2", 2), unit(2, "g3", 3)],
    );
    let plan = g.codegen_plan();
    let targets: Vec<usize> = plan.iter().map(|u| u.package).collect();
    assert_eq!(targets, vec![2, 1, 0]);
}

#[test]
fn plan_is_deterministic_across_runs() {
    let g = graph(
        4,
        &[(0, 1), (2, 3), (1, 2)],
        vec![unit(0, "gen-a", 1), unit(2, "gen-b", 3)],
    );
    let first: Vec<usize> = g.codegen_plan().iter().map(|u| u.package).collect();
    let second: Vec<usize> = g.codegen_plan().iter().map(|u| u.package).collect();
    assert_eq!(first, second);
}

#[test]
fn cyclic_generator_configuration_is_rejected() {
    // package A's generator lives in package B, and B has a non-dev
    // dependency on A: the configuration must be rejected.
    let w = Workspace {
        packages: vec![
            pkg("a-id", "a", &[], &[], true),
            pkg("b-id", "b", &["genbin"], &[(0, false)], true),
        ],
    };
    let units = vec![unit(0, "genbin", 1)];
    let errs = codegen_plan(units, &w).expect_err("cycle must be rejected");
    assert_eq!(errs.len(), 1);
    match &errs[0] {
        CodegenError::CyclicDependency { chain } => {
            let named: Vec<&str> = chain.iter().map(|s: &CycleStep| s.dependency.as_str()).collect();
            assert!(named.contains(&"a-id"));
            assert!(named.contains(&"b-id"));
        }
        other => panic!("unexpected error: {}", discriminant_name(other)),
    }
}

#[test]
fn dev_only_dependency_does_not_close_a_cycle() {
    // same shape, but B's dependency on A is dev-only: no cycle.
    let w = Workspace {
        packages: vec![
            pkg("a-id", "a", &[], &[], true),
            pkg("b-id", "b", &["genbin"], &[(0, true)], true),
        ],
    };
    let units = vec![unit(0, "genbin", 1)];
    let plan = codegen_plan(units, &w).expect("acyclic configuration is accepted");
    assert_eq!(plan.len(), 1);
    assert_eq!(plan[0].package, 0);
}

#[test]
fn pipeline_plans_from_extracted_units() {
    let w = Workspace {
        packages: vec![
            pkg("app-id", "app", &[], &[(1, false)], true),
            pkg("gen-id", "gen", &["gen"], &[], true),
        ],
    };
    let outcomes = vec![ConfigOutcome::Declared(gen_config("gen")), ConfigOutcome::Absent];
    let units = extract_codegen_units(&w, &outcomes).expect("extraction succeeds");
    let plan = codegen_plan(units, &w).expect("plan succeeds");
    assert_eq!(plan.len(), 1);
    assert_eq!(plan[0].package, 0);
    assert_eq!(plan[0].generator.binary.package, 1);
}

#[test]
fn filter_keeps_scope_members_and_their_dependencies() {
    // A depends on B depends on C, each with a codegen unit; the
    // generator binaries live in package 3.
    let w = Workspace {
        packages: vec![
            pkg("a-id", "a", &[], &[(1, false)], true),
            pkg("b-id", "b", &[], &[(2, false)], true),
            pkg("c-id", "c", &[], &[], true),
            pkg("t-id", "tools", &["ga", "gb", "gc"], &[], true),
        ],
    };
    let units = vec![unit(0, "ga", 3), unit(1, "gb", 3), unit(2, "gc", 3)];
    // filtering to target A keeps all three units
    let kept = filter_units(units.clone(), &vec![0], &w);
    let mut t: Vec<usize> = kept.iter().map(|u| u.package).collect();
    t.sort();
    assert_eq!(t, vec![0, 1, 2]);
    // filtering to target C keeps only C's unit
    let kept = filter_units(units.clone(), &vec![2], &w);
    let t: Vec<usize> = kept.iter().map(|u| u.package).collect();
    assert_eq!(t, vec![2]);
    // an empty scope keeps everything
    let kept = filter_units(units.clone(), &vec![], &w);
    assert_eq!(kept.len(), 3);
}

#[test]
fn disjoint_cycles_are_each_reported() {
    // two disjoint two-node loops: one cycle must be found in each
    let g = graph(4, &[(0, 1), (1, 0), (2, 3), (3, 2)], vec![]);
    let cycles = find_cycles(&g);
    assert_eq!(cycles.len(), 2);
    let mut firsts: Vec<usize> = cycles.iter().map(|c| *c.iter().min().unwrap()).collect();
    firsts.sort();
    assert_eq!(firsts, vec![0, 2]);
}

#[test]
fn acyclic_configuration_is_accepted_with_a_full_plan() {
    // three units on an acyclic workspace: planning must succeed and keep
    // every unit exactly once
    let w = Workspace {
        packages: vec![
            pkg("a-id", "a", &[], &[(1, false)], true),
            pkg("b-id", "b", &[], &[], true),
            pkg("t-id", "tools", &["ga", "gb"], &[], true),
        ],
    };
    let units = vec![unit(0, "ga", 2), unit(1, "gb", 2)];
    let plan = codegen_plan(units, &w).expect("acyclic input is accepted");
    let mut targets: Vec<usize> = plan.iter().map(|u| u.package).collect();
    targets.sort();
    assert_eq!(targets, vec![0, 1]);
}

#[test]
fn filtered_plan_keeps_scope_and_dependencies() {
    // A depends on B depends on C, each generated by a binary of `tools`
    let w = Workspace {
        packages: vec![
            pkg("a-id", "a", &[], &[(1, false)], true),
            pkg("b-id", "b", &[], &[(2, false)], true),
            pkg("c-id", "c", &[], &[], true),
            pkg("t-id", "tools", &["ga", "gb", "gc"], &[], true),
        ],
    };
    let units = vec![unit(0, "ga", 3), unit(1, "gb", 3), unit(2, "gc", 3)];
    // requesting A plans all three units
    let plan = compute_filtered_codegen_plan(units.clone(), &vec![0], &w)
        .expect("acyclic scope plans fine");
    let mut t: Vec<usize> = plan.iter().map(|u| u.package).collect();
    t.sort();
    assert_eq!(t, vec![0, 1, 2]);
    // requesting C plans exactly C's unit
    let plan = compute_filtered_codegen_plan(units.clone(), &vec![2], &w)
        .expect("acyclic scope plans fine");
    let t: Vec<usize> = plan.iter().map(|u| u.package).collect();
    assert_eq!(t, vec![2]);
}

#[test]
fn cycle_error_labels_the_generation_step() {
    let w = Workspace {
        packages: vec![
            pkg("a-id", "a", &[], &[], true),
            pkg("b-id", "b", &["genbin"], &[(0, false)], true),
        ],
    };
    let units = vec![unit(0, "genbin", 1)];
    let errs = codegen_plan(units, &w).expect_err("cycle must be rejected");
    match &errs[0] {
        CodegenError::CyclicDependency { chain } => {
            assert!(chain.iter().any(|s| {
                matches!(s.relationship, cargo_px::errors::EdgeRelationship::IsGeneratedBy)
                    && s.dependent == "a-id" && s.dependency == "b-id"
            }));
            assert!(chain.iter().any(|s| {
                matches!(s.relationship, cargo_px::errors::EdgeRelationship::DependsOn)
                    && s.dependent == "b-id" && s.dependency == "a-id"
            }));
        }
        other => panic!("unexpected error: {}", discriminant_name(other)),
    }
}
