//! Commands as plain data: the program, arguments and environment
//! assignments that the process runner must carry out. Spawning them is
//! the caller's job; later environment assignments override earlier ones.

use vstd::prelude::*;

use crate::unit::{BinaryInvocation, WorkspaceBinary};
use crate::workspace::Workspace;

verus! {

/// One environment assignment for a spawned process.
#[derive(Debug)]
pub struct EnvAssignment {
    pub name: String,
    pub value: String,
}

/// A process invocation: program, arguments, and environment assignments
/// applied in order.
#[derive(Debug)]
pub struct CommandSpec {
    pub program: String,
    pub args: Vec<String>,
    pub envs: Vec<EnvAssignment>,
}

/// The arguments of `cargo run` for a workspace binary.
pub open spec fn spec_run_args(pkg_name: Seq<char>, bin: Seq<char>, quiet: bool) -> Seq<Seq<char>> {
    let base = seq!["run"@, "--package"@, pkg_name, "--bin"@, bin];
    if quiet {
        base.push("--quiet"@)
    } else {
        base
    }
}

/// The arguments of `cargo build` for a workspace binary.
pub open spec fn spec_build_args(pkg_name: Seq<char>, bin: Seq<char>, quiet: bool) -> Seq<
    Seq<char>,
> {
    let base = seq!["build"@, "--package"@, pkg_name, "--bin"@, bin];
    if quiet {
        base.push("--quiet"@)
    } else {
        base
    }
}

/// Forwarded extra arguments: `--` followed by the configured arguments,
/// or nothing when there are none.
pub open spec fn spec_forwarded(args: Seq<Seq<char>>) -> Seq<Seq<char>> {
    if args.len() > 0 {
        seq!["--"@] + args
    } else {
        Seq::empty()
    }
}

impl WorkspaceBinary {
    /// Build the command that invokes the binary through `cargo run`,
    /// with the owning package's manifest path exposed to it.
    pub fn run_command(&self, cargo_path: &str, be_quiet: bool, w: &Workspace) -> (cmd: CommandSpec)
        requires
            (self.package as int) < w.packages@.len(),
        ensures
            cmd.program@ == cargo_path@,
            cmd.args.deep_view() == spec_run_args(
                w.packages@[self.package as int].name@,
                self.name@,
                be_quiet,
            ),
            cmd.envs@.len() == 1,
            cmd.envs@[0].name@ == "CARGO_PX_GENERATED_PKG_MANIFEST_PATH"@,
            cmd.envs@[0].value@ == w.packages@[self.package as int].manifest_path@,
    {
        let mut args: Vec<String> = Vec::new();
        args.push(String::from_str("run"));
        args.push(String::from_str("--package"));
        args.push(w.packages[self.package].name.clone());
        args.push(String::from_str("--bin"));
        args.push(self.name.clone());
        if be_quiet {
            args.push(String::from_str("--quiet"));
        }
        let mut envs: Vec<EnvAssignment> = Vec::new();
        envs.push(
            EnvAssignment {
                name: String::from_str("CARGO_PX_GENERATED_PKG_MANIFEST_PATH"),
                value: w.packages[self.package].manifest_path.clone(),
            },
        );
        proof {
            assert(args.deep_view() =~= spec_run_args(
                w.packages@[self.package as int].name@,
                self.name@,
                be_quiet,
            ));
        }
        CommandSpec { program: cargo_path.to_owned(), args, envs }
    }

    /// Build the command that compiles the binary through `cargo build`.
    pub fn build_command(&self, cargo_path: &str, be_quiet: bool, w: &Workspace) -> (cmd:
        CommandSpec)
        requires
            (self.package as int) < w.packages@.len(),
        ensures
            cmd.program@ == cargo_path@,
            cmd.args.deep_view() == spec_build_args(
                w.packages@[self.package as int].name@,
                self.name@,
                be_quiet,
            ),
            cmd.envs@.len() == 0,
    {
        let mut args: Vec<String> = Vec::new();
        args.push(String::from_str("build"));
        args.push(String::from_str("--package"));
        args.push(w.packages[self.package].name.clone());
        args.push(String::from_str("--bin"));
        args.push(self.name.clone());
        if be_quiet {
            args.push(String::from_str("--quiet"));
        }
        proof {
            assert(args.deep_view() =~= spec_build_args(
                w.packages@[self.package as int].name@,
                self.name@,
                be_quiet,
            ));
        }
        CommandSpec { program: cargo_path.to_owned(), args, envs: Vec::new() }
    }
}

impl BinaryInvocation {
    /// Build the command that runs the binary, forwarding the configured
    /// extra arguments after a `--` separator.
    pub fn run_command(&self, cargo_path: &str, be_quiet: bool, w: &Workspace) -> (cmd: CommandSpec)
        requires
            (self.binary.package as int) < w.packages@.len(),
        ensures
            cmd.program@ == cargo_path@,
            cmd.args.deep_view() == spec_run_args(
                w.packages@[self.binary.package as int].name@,
                self.binary.name@,
                be_quiet,
            ) + spec_forwarded(self.args.deep_view()),
            cmd.envs@.len() == 1,
            cmd.envs@[0].name@ == "CARGO_PX_GENERATED_PKG_MANIFEST_PATH"@,
            cmd.envs@[0].value@ == w.packages@[self.binary.package as int].manifest_path@,
    {
        let mut cmd = self.binary.run_command(cargo_path, be_quiet, w);
        let ghost base = cmd.args.deep_view();
        if self.args.len() > 0 {
            cmd.args.push(String::from_str("--"));
            let mut i: usize = 0;
            while i < self.args.len()
                invariant
                    i <= self.args@.len(),
                    self.args@.len() > 0,
                    (self.binary.package as int) < w.packages@.len(),
                    cmd.program@ == cargo_path@,
                    cmd.envs@.len() == 1,
                    cmd.envs@[0].name@ == "CARGO_PX_GENERATED_PKG_MANIFEST_PATH"@,
                    cmd.envs@[0].value@ == w.packages@[self.binary.package as int].manifest_path@,
                    cmd.args.deep_view() =~= base + seq!["--"@] + self.args.deep_view().subrange(
                        0,
                        i as int,
                    ),
                decreases self.args@.len() - i,
            {
                let ghost before = cmd.args.deep_view();
                cmd.args.push(self.args[i].clone());
                proof {
                    assert(cmd.args.deep_view() =~= before.push(self.args@[i as int]@));
                    assert(self.args.deep_view()[i as int] == self.args@[i as int]@);
                    assert(cmd.args.deep_view() =~= base + seq!["--"@]
                        + self.args.deep_view().subrange(0, i as int + 1));
                }
                i = i + 1;
            }
            proof {
                assert(self.args.deep_view().subrange(0, self.args@.len() as int)
                    =~= self.args.deep_view());
                assert(cmd.args.deep_view() =~= base + spec_forwarded(self.args.deep_view()));
            }
        } else {
            proof {
                assert(cmd.args.deep_view() =~= base + spec_forwarded(self.args.deep_view()));
            }
        }
        cmd
    }

    /// Build the command that compiles the binary.
    pub fn build_command(&self, cargo_path: &str, be_quiet: bool, w: &Workspace) -> (cmd:
        CommandSpec)
        requires
            (self.binary.package as int) < w.packages@.len(),
        ensures
            cmd.program@ == cargo_path@,
            cmd.args.deep_view() == spec_build_args(
                w.packages@[self.binary.package as int].name@,
                self.binary.name@,
                be_quiet,
            ),
            cmd.envs@.len() == 0,
    {
        self.binary.build_command(cargo_path, be_quiet, w)
    }
}

} // verus!
