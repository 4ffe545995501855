//! The sequential executor over an ordered plan. Each unit takes two
//! external process steps, compile then run; the executor hands the caller
//! one command at a time and is told whether it succeeded. The first
//! failure is terminal: no further command is ever handed out, and the
//! reported error names only the failing step.

use vstd::prelude::*;

use crate::command::{CommandSpec, EnvAssignment};
use crate::errors::{BinaryRole, CodegenError, ProcessStep};
use crate::unit::CodegenUnit;
use crate::workspace::Workspace;

verus! {

/// What one invocation of the pipeline does to each unit.
#[derive(Debug, Clone, Copy, PartialEq, Eq, Structural)]
pub enum ExecutionMode {
    /// Run each unit's generator.
    Generate,
    /// Run each unit's verifier to check freshness; a unit without a
    /// verifier is an error.
    Verify,
}

/// The two external process steps of one unit.
#[derive(Debug, Clone, Copy, PartialEq, Eq, Structural)]
pub enum UnitPhase {
    Compile,
    Run,
}

/// The invocation a unit contributes in the given mode, if any.
pub open spec fn mode_invocation(u: CodegenUnit, mode: ExecutionMode) -> Option<
    crate::unit::BinaryInvocation,
> {
    match mode {
        ExecutionMode::Generate => Some(u.generator),
        ExecutionMode::Verify => u.verifier,
    }
}

/// Every unit of the plan points into the workspace.
pub open spec fn plan_wf(plan: Seq<CodegenUnit>, w: Workspace) -> bool {
    forall|j: int|
        0 <= j < plan.len() ==> {
            let u = #[trigger] plan[j];
            &&& (u.package as int) < w.packages@.len()
            &&& (u.generator.binary.package as int) < w.packages@.len()
            &&& match u.verifier {
                Some(v) => (v.binary.package as int) < w.packages@.len(),
                None => true,
            }
        }
}

/// The sequential executor's whole state.
#[derive(Debug)]
pub struct Executor {
    /// The ordered plan being carried out.
    pub plan: Vec<CodegenUnit>,
    pub mode: ExecutionMode,
    pub cargo_path: String,
    pub workspace_root: String,
    pub be_quiet: bool,
    /// Index of the unit being worked on.
    pub next_unit: usize,
    /// Which of the unit's two steps comes next.
    pub phase: UnitPhase,
    /// Set by the first failure; terminal.
    pub failed: bool,
}

impl Executor {
    /// The executor has carried the whole plan out.
    pub open spec fn is_done(&self) -> bool {
        self.next_unit == self.plan@.len() && !self.failed
    }

    /// The unit cursor never runs past the plan.
    pub open spec fn state_wf(&self) -> bool {
        self.next_unit <= self.plan@.len()
    }

    /// Start at the first unit's compile step.
    pub fn new(
        plan: Vec<CodegenUnit>,
        mode: ExecutionMode,
        cargo_path: String,
        workspace_root: String,
        be_quiet: bool,
    ) -> (e: Executor)
        ensures
            e.plan@ == plan@,
            e.mode == mode,
            e.cargo_path@ == cargo_path@,
            e.workspace_root@ == workspace_root@,
            e.be_quiet == be_quiet,
            e.next_unit == 0,
            e.phase is Compile,
            !e.failed,
            e.state_wf(),
    {
        Executor {
            plan,
            mode,
            cargo_path,
            workspace_root,
            be_quiet,
            next_unit: 0,
            phase: UnitPhase::Compile,
            failed: false,
        }
    }

    /// The command to run next: `Ok(None)` when the plan is exhausted or a
    /// failure has stopped it, an error when verification is requested for
    /// a unit with no verifier, and otherwise the compile or run command
    /// of the current unit's invocation with the pipeline's environment
    /// assignments appended (the last assignment of a name wins).
    pub fn next_command(&self, w: &Workspace) -> (r: Result<Option<CommandSpec>, CodegenError>)
        requires
            plan_wf(self.plan@, *w),
            self.state_wf(),
        ensures
            (self.failed || self.next_unit == self.plan@.len()) <==> (r matches Ok(c) && c
                is None),
            (!self.failed && self.next_unit < self.plan@.len() && mode_invocation(
                self.plan@[self.next_unit as int],
                self.mode,
            ) is None) <==> (r matches Err(e) && e matches CodegenError::MissingVerifier {
                package_name,
            } && package_name@
                == w.packages@[self.plan@[self.next_unit as int].package as int].name@),
            (!self.failed && self.next_unit < self.plan@.len() && mode_invocation(
                self.plan@[self.next_unit as int],
                self.mode,
            ) is Some) ==> (r matches Ok(c) && c is Some),
            r matches Ok(Some(cmd)) ==> {
                let u = self.plan@[self.next_unit as int];
                let inv = mode_invocation(u, self.mode)->0;
                &&& !self.failed
                &&& self.next_unit < self.plan@.len()
                &&& cmd.program@ == self.cargo_path@
                &&& match self.phase {
                    UnitPhase::Compile => {
                        &&& cmd.args.deep_view() == crate::command::spec_build_args(
                            w.packages@[inv.binary.package as int].name@,
                            inv.binary.name@,
                            self.be_quiet,
                        )
                        &&& cmd.envs@.len() == 1
                        &&& cmd.envs@[0].name@ == "CARGO_PX_WORKSPACE_ROOT_DIR"@
                        &&& cmd.envs@[0].value@ == self.workspace_root@
                    },
                    UnitPhase::Run => {
                        &&& cmd.args.deep_view() == crate::command::spec_run_args(
                            w.packages@[inv.binary.package as int].name@,
                            inv.binary.name@,
                            self.be_quiet,
                        ) + crate::command::spec_forwarded(inv.args.deep_view())
                        &&& cmd.envs@.len() == 3
                        &&& cmd.envs@[0].name@ == "CARGO_PX_GENERATED_PKG_MANIFEST_PATH"@
                        &&& cmd.envs@[0].value@ == w.packages@[inv.binary.package as int].manifest_path@
                        &&& cmd.envs@[1].name@ == "CARGO_PX_GENERATED_PKG_MANIFEST_PATH"@
                        &&& cmd.envs@[1].value@ == w.packages@[u.package as int].manifest_path@
                        &&& cmd.envs@[2].name@ == "CARGO_PX_WORKSPACE_ROOT_DIR"@
                        &&& cmd.envs@[2].value@ == self.workspace_root@
                    },
                }
            },
    {
        if self.failed || self.next_unit == self.plan.len() {
            return Ok(None);
        }
        let u = &self.plan[self.next_unit];
        let inv = match self.mode {
            ExecutionMode::Generate => &u.generator,
            ExecutionMode::Verify => {
                match &u.verifier {
                    Some(v) => v,
                    None => {
                        return Err(
                            CodegenError::MissingVerifier {
                                package_name: w.packages[u.package].name.clone(),
                            },
                        );
                    },
                }
            },
        };
        match self.phase {
            UnitPhase::Compile => {
                let mut cmd = inv.build_command(self.cargo_path.as_str(), self.be_quiet, w);
                cmd.envs.push(
                    EnvAssignment {
                        name: String::from_str("CARGO_PX_WORKSPACE_ROOT_DIR"),
                        value: self.workspace_root.clone(),
                    },
                );
                Ok(Some(cmd))
            },
            UnitPhase::Run => {
                let mut cmd = inv.run_command(self.cargo_path.as_str(), self.be_quiet, w);
                cmd.envs.push(
                    EnvAssignment {
                        name: String::from_str("CARGO_PX_GENERATED_PKG_MANIFEST_PATH"),
                        value: w.packages[u.package].manifest_path.clone(),
                    },
                );
                cmd.envs.push(
                    EnvAssignment {
                        name: String::from_str("CARGO_PX_WORKSPACE_ROOT_DIR"),
                        value: self.workspace_root.clone(),
                    },
                );
                Ok(Some(cmd))
            },
        }
    }

    /// Record the outcome of the command last handed out. Success moves to
    /// the unit's next step or to the next unit; failure is terminal and
    /// the returned error names only the failing step of the current unit.
    pub fn report(&mut self, success: bool, w: &Workspace) -> (r: Result<(), CodegenError>)
        requires
            plan_wf(old(self).plan@, *w),
            !old(self).failed,
            old(self).next_unit < old(self).plan@.len(),
            mode_invocation(old(self).plan@[old(self).next_unit as int], old(self).mode) is Some,
        ensures
            final(self).state_wf(),
            final(self).plan@ == old(self).plan@,
            final(self).mode == old(self).mode,
            final(self).cargo_path@ == old(self).cargo_path@,
            final(self).workspace_root@ == old(self).workspace_root@,
            final(self).be_quiet == old(self).be_quiet,
            success ==> r is Ok && !final(self).failed && (match old(self).phase {
                UnitPhase::Compile => {
                    final(self).next_unit == old(self).next_unit && final(self).phase is Run
                },
                UnitPhase::Run => {
                    final(self).next_unit == old(self).next_unit + 1
                        && final(self).phase is Compile
                },
            }),
            !success ==> {
                let u = old(self).plan@[old(self).next_unit as int];
                let inv = mode_invocation(u, old(self).mode)->0;
                &&& final(self).failed
                &&& final(self).next_unit == old(self).next_unit
                &&& r matches Err(e) && e matches CodegenError::ProcessFailure {
                    binary_name,
                    package_name,
                    role,
                    step,
                } && binary_name@ == inv.binary.name@ && package_name@
                    == w.packages@[u.package as int].name@ && (role is Generator
                    <==> old(self).mode is Generate) && (step is Compile
                    <==> old(self).phase is Compile)
            },
    {
        let plan_len = self.plan.len();
        let u = &self.plan[self.next_unit];
        if success {
            match self.phase {
                UnitPhase::Compile => {
                    self.phase = UnitPhase::Run;
                },
                UnitPhase::Run => {
                    self.next_unit = self.next_unit + 1;
                    self.phase = UnitPhase::Compile;
                },
            }
            Ok(())
        } else {
            let (binary_name, role) = match self.mode {
                ExecutionMode::Generate => (u.generator.binary.name.clone(), BinaryRole::Generator),
                ExecutionMode::Verify => {
                    match &u.verifier {
                        Some(v) => (v.binary.name.clone(), BinaryRole::Verifier),
                        None => {
                            proof {
                                assert(false);
                            }
                            (u.generator.binary.name.clone(), BinaryRole::Verifier)
                        },
                    }
                },
            };
            let step = match self.phase {
                UnitPhase::Compile => ProcessStep::Compile,
                UnitPhase::Run => ProcessStep::Run,
            };
            let e = CodegenError::ProcessFailure {
                binary_name,
                package_name: w.packages[u.package].name.clone(),
                role,
                step,
            };
            self.failed = true;
            Err(e)
        }
    }
}

} // verus!
