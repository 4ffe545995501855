//! The environment contract between the orchestrator and the generator and
//! verifier binaries it spawns: two well-known variables carry the
//! workspace root and the manifest of the package being generated. Reading
//! the process environment is the caller's job; this module classifies the
//! raw outcome of such a read.

use vstd::prelude::*;

verus! {

/// The name of the variable that carries the path to the root directory
/// of the workspace.
pub fn workspace_root_dir_env() -> (s: &'static str)
    ensures
        s@ == "CARGO_PX_WORKSPACE_ROOT_DIR"@,
{
    "CARGO_PX_WORKSPACE_ROOT_DIR"
}

/// The name of the variable that carries the path to the manifest of the
/// package that must be generated.
pub fn generated_pkg_manifest_path_env() -> (s: &'static str)
    ensures
        s@ == "CARGO_PX_GENERATED_PKG_MANIFEST_PATH"@,
{
    "CARGO_PX_GENERATED_PKG_MANIFEST_PATH"
}

/// How a raw environment read can fail.
#[derive(Debug)]
pub enum RawEnvError {
    /// The variable is not set.
    Missing,
    /// The variable contains invalid Unicode data.
    InvalidUnicode,
}

/// One of the variables the pipeline should have set is not set.
#[derive(Debug)]
pub struct MissingVarError {
    /// The name of the variable.
    pub name: String,
}

/// One of the variables the pipeline should have set holds invalid
/// Unicode data.
#[derive(Debug)]
pub struct InvalidUnicodeError {
    /// The name of the variable.
    pub name: String,
}

/// An error that can occur when retrieving one of the pipeline's
/// environment variables.
#[derive(Debug)]
pub enum VarError {
    Missing(MissingVarError),
    InvalidUnicode(InvalidUnicodeError),
}

/// Classify the raw outcome of reading the variable named `name`: a value
/// passes through, a failure is labelled with the variable's name.
pub fn px_env_var(name: &str, raw: Result<String, RawEnvError>) -> (res: Result<String, VarError>)
    ensures
        match raw {
            Ok(v) => res matches Ok(r) && r@ == v@,
            Err(RawEnvError::Missing) => res matches Err(VarError::Missing(e)) && e.name@ == name@,
            Err(RawEnvError::InvalidUnicode) => res matches Err(VarError::InvalidUnicode(e))
                && e.name@ == name@,
        },
{
    match raw {
        Ok(v) => Ok(v),
        Err(RawEnvError::Missing) => Err(
            VarError::Missing(MissingVarError { name: name.to_owned() }),
        ),
        Err(RawEnvError::InvalidUnicode) => Err(
            VarError::InvalidUnicode(InvalidUnicodeError { name: name.to_owned() }),
        ),
    }
}

/// Interpret a read of the workspace-root variable.
///
/// It returns an error if the variable was not set or held invalid
/// Unicode data.
pub fn workspace_root_dir(raw: Result<String, RawEnvError>) -> (res: Result<String, VarError>)
    ensures
        match raw {
            Ok(v) => res matches Ok(r) && r@ == v@,
            Err(RawEnvError::Missing) => res matches Err(VarError::Missing(e)) && e.name@
                == "CARGO_PX_WORKSPACE_ROOT_DIR"@,
            Err(RawEnvError::InvalidUnicode) => res matches Err(VarError::InvalidUnicode(e))
                && e.name@ == "CARGO_PX_WORKSPACE_ROOT_DIR"@,
        },
{
    px_env_var(workspace_root_dir_env(), raw)
}

/// Interpret a read of the generated-package-manifest variable.
///
/// It returns an error if the variable was not set or held invalid
/// Unicode data.
pub fn generated_pkg_manifest_path(raw: Result<String, RawEnvError>) -> (res: Result<
    String,
    VarError,
>)
    ensures
        match raw {
            Ok(v) => res matches Ok(r) && r@ == v@,
            Err(RawEnvError::Missing) => res matches Err(VarError::Missing(e)) && e.name@
                == "CARGO_PX_GENERATED_PKG_MANIFEST_PATH"@,
            Err(RawEnvError::InvalidUnicode) => res matches Err(VarError::InvalidUnicode(e))
                && e.name@ == "CARGO_PX_GENERATED_PKG_MANIFEST_PATH"@,
        },
{
    px_env_var(generated_pkg_manifest_path_env(), raw)
}

} // verus!
