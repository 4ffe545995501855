//! The error model: every way a generation run can fail, as plain data.
//! Rendering errors as console text is the caller's concern.

use vstd::prelude::*;

verus! {

/// Which of a unit's two binaries an error is about.
#[derive(Debug)]
pub enum BinaryRole {
    Generator,
    Verifier,
}

/// Which of the two external process steps failed.
#[derive(Debug)]
pub enum ProcessStep {
    Compile,
    Run,
}

/// The relationship an edge of the dependency graph records.
#[derive(Debug)]
pub enum EdgeRelationship {
    /// The dependent package has a non-dev dependency on the other.
    DependsOn,
    /// The dependent package's source is generated by a binary of the other.
    IsGeneratedBy,
}

/// One link of a rendered dependency cycle: `dependent` relates to
/// `dependency` through `relationship`.
#[derive(Debug)]
pub struct CycleStep {
    pub dependent: String,
    pub relationship: EdgeRelationship,
    pub dependency: String,
}

/// Everything that can go wrong while planning or executing generation.
#[derive(Debug)]
pub enum CodegenError {
    /// A configured generator or verifier binary is not defined anywhere
    /// else in the workspace.
    MissingBinary { binary_name: String, package_name: String, role: BinaryRole },
    /// A package's code-generation configuration failed to parse.
    MalformedConfig { package_name: String, message: String },
    /// The augmented dependency graph contains a cycle; `chain` walks it.
    CyclicDependency { chain: Vec<CycleStep> },
    /// Compiling or running a generator or verifier binary failed.
    ProcessFailure {
        binary_name: String,
        package_name: String,
        role: BinaryRole,
        step: ProcessStep,
    },
    /// Freshness verification was requested for a unit that declares no
    /// verifier.
    MissingVerifier { package_name: String },
    /// An ambient variable the orchestrator itself needs is absent.
    EnvironmentUnavailable { variable: String },
}

} // verus!
