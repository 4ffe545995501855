use cargo_px::errors::{CodegenError, ProcessStep};
use cargo_px::exec_plan::{ExecutionMode, Executor};
use cargo_px::unit::{BinaryInvocation, CodegenUnit, WorkspaceBinary};
use cargo_px::workspace::{BuildTarget, Dependency, Package, Workspace};

fn pkg(name: &str, bins: &[&str]) -> Package {
    Package {
        id: format!("{}-id", name),
        name: name.to_string(),
        manifest_path: format!("/ws/{}/Cargo.toml", name),
        dir: vec![name.to_string()],
        in_workspace: true,
        targets: bins
            .iter()
            .map(|b| BuildTarget { name: b.to_string(), is_binary: true })
            .collect(),
        deps: Vec::<Dependency>::new(),
    }
}

fn unit(target: usize, gen_name: &str, gen_pkg: usize, args: Vec<String>) -> CodegenUnit {
    CodegenUnit {
        package: target,
        generator: BinaryInvocation {
            binary: WorkspaceBinary { name: gen_name.to_string(), package: gen_pkg },
            args,
        },
        verifier: None,
    }
}

fn three_unit_workspace() -> (Workspace, Vec<CodegenUnit>) {
    let w = Workspace {
        packages: vec![
            pkg("a", &[]),
            pkg("b", &[]),
            pkg("c", &[]),
            pkg("tools", &["gen-a", "gen-b", "gen-c"]),
        ],
    };
    let units = vec![
        unit(0, "gen-a", 3, vec![]),
        unit(1, "gen-b", 3, vec![]),
        unit(2, "gen-c", 3, vec![]),
    ];
    (w, units)
}

#[test]
fn executor_walks_compile_then_run_per_unit() {
    let (w, units) = three_unit_workspace();
    let mut e = Executor::new(
        units,
        ExecutionMode::Generate,
        "/usr/bin/cargo".to_string(),
        "/ws".to_string(),
        false,
    );
    let build = e.next_command(&w).unwrap().expect("first command");
    assert_eq!(build.args[0], "build");
    assert_eq!(build.args[2], "tools");
    assert_eq!(build.args[4], "gen-a");
    assert_eq!(build.envs.len(), 1);
    assert_eq!(build.envs[0].name, "CARGO_PX_WORKSPACE_ROOT_DIR");
    assert_eq!(build.envs[0].value, "/ws");
    e.report(true, &w).unwrap();
    let run = e.next_command(&w).unwrap().expect("second command");
    assert_eq!(run.args[0], "run");
    assert_eq!(run.envs.len(), 3);
    assert_eq!(run.envs[1].name, "CARGO_PX_GENERATED_PKG_MANIFEST_PATH");
    assert_eq!(run.envs[1].value, "/ws/a/Cargo.toml");
    assert_eq!(run.envs[2].name, "CARGO_PX_WORKSPACE_ROOT_DIR");
    e.report(true, &w).unwrap();
    let build_b = e.next_command(&w).unwrap().expect("third command");
    assert_eq!(build_b.args[4], "gen-b");
}

#[test]
fn second_unit_compile_failure_stops_the_plan() {
    let (w, units) = three_unit_workspace();
    let mut e = Executor::new(
        units,
        ExecutionMode::Generate,
        "cargo".to_string(),
        "/ws".to_string(),
        true,
    );
    // unit 0: compile and run succeed
    assert!(e.next_command(&w).unwrap().is_some());
    e.report(true, &w).unwrap();
    assert!(e.next_command(&w).unwrap().is_some());
    e.report(true, &w).unwrap();
    // unit 1: compile fails
    let cmd = e.next_command(&w).unwrap().expect("unit 1 compile");
    assert_eq!(cmd.args[4], "gen-b");
    let err = e.report(false, &w).expect_err("failure is reported");
    match err {
        CodegenError::ProcessFailure { binary_name, package_name, step, .. } => {
            assert_eq!(binary_name, "gen-b");
            assert_eq!(package_name, "b");
            assert!(matches!(step, ProcessStep::Compile));
        }
        _ => panic!("expected a process failure"),
    }
    // the third unit's commands are never handed out
    assert!(e.next_command(&w).unwrap().is_none());
}

#[test]
fn verify_mode_requires_a_verifier() {
    let w = Workspace { packages: vec![pkg("a", &[]), pkg("tools", &["gen-a"])] };
    let units = vec![unit(0, "gen-a", 1, vec![])];
    let e = Executor::new(
        units,
        ExecutionMode::Verify,
        "cargo".to_string(),
        "/ws".to_string(),
        false,
    );
    match e.next_command(&w) {
        Err(CodegenError::MissingVerifier { package_name }) => assert_eq!(package_name, "a"),
        _ => panic!("expected a missing-verifier error"),
    }
}

#[test]
fn forwarded_arguments_follow_a_separator() {
    let w = Workspace { packages: vec![pkg("a", &[]), pkg("tools", &["gen-a"])] };
    let units = vec![unit(0, "gen-a", 1, vec!["--flag".to_string(), "v".to_string()])];
    let mut e = Executor::new(
        units,
        ExecutionMode::Generate,
        "cargo".to_string(),
        "/ws".to_string(),
        false,
    );
    e.report(true, &w).unwrap();
    let run = e.next_command(&w).unwrap().expect("run command");
    assert_eq!(run.args[5], "--");
    assert_eq!(run.args[6], "--flag");
    assert_eq!(run.args[7], "v");
}

#[test]
fn quiet_flag_is_forwarded() {
    let w = Workspace { packages: vec![pkg("a", &[]), pkg("tools", &["gen-a"])] };
    let units = vec![unit(0, "gen-a", 1, vec![])];
    let e = Executor::new(
        units,
        ExecutionMode::Generate,
        "cargo".to_string(),
        "/ws".to_string(),
        true,
    );
    let build = e.next_command(&w).unwrap().expect("build command");
    assert_eq!(build.args[build.args.len() - 1], "--quiet");
}
