//! The declarative configuration that packages use to request code
//! generation, as plain data. Parsing it out of manifest metadata is the
//! caller's job; this crate receives one parse outcome per package.

use vstd::prelude::*;

verus! {

/// Configuration of the generation step: the name of a binary defined
/// elsewhere in the workspace, plus extra arguments to forward to it.
pub struct CargoBinaryGeneratorConfig {
    /// The name of the binary to be invoked to perform code generation.
    pub generator_name: String,
    /// The arguments to be passed to the generator binary.
    pub generator_args: Vec<String>,
}

/// Configuration of the optional verification step, in the same shape as
/// the generation step.
pub struct CargoBinaryVerifierConfig {
    /// The name of the binary to be invoked to verify the freshness of the
    /// generated package.
    pub verifier_name: String,
    /// The arguments to be passed to the verifier binary.
    pub verifier_args: Vec<String>,
}

/// How the generation step is performed.
pub enum GenerateConfig {
    /// By invoking a binary defined within the same workspace.
    CargoWorkspaceBinary(CargoBinaryGeneratorConfig),
}

/// How the verification step is performed.
pub enum VerifyConfig {
    /// By invoking a binary defined within the same workspace.
    CargoWorkspaceBinary(CargoBinaryVerifierConfig),
}

/// A package's full code-generation configuration: a mandatory generation
/// step and an optional verification step.
pub struct PxConfig {
    pub generate: GenerateConfig,
    pub verify: Option<VerifyConfig>,
}

/// The outcome of reading one package's manifest metadata.
pub enum ConfigOutcome {
    /// The package declares no code-generation configuration.
    Absent,
    /// The configuration failed to parse; the message describes why.
    Malformed(String),
    /// The configuration parsed successfully.
    Declared(PxConfig),
}

/// The mathematical content of a generation step configuration.
pub struct GeneratorConfigView {
    pub name: Seq<char>,
    pub args: Seq<Seq<char>>,
}

/// The mathematical content of a verification step configuration.
pub struct VerifierConfigView {
    pub name: Seq<char>,
    pub args: Seq<Seq<char>>,
}

/// The mathematical content of a package's configuration.
pub struct PxConfigView {
    pub generator: GeneratorConfigView,
    pub verifier: Option<VerifierConfigView>,
}

/// The mathematical content of a configuration outcome.
pub enum ConfigOutcomeView {
    Absent,
    Malformed(Seq<char>),
    Declared(PxConfigView),
}

impl View for CargoBinaryGeneratorConfig {
    type V = GeneratorConfigView;

    open spec fn view(&self) -> GeneratorConfigView {
        GeneratorConfigView { name: self.generator_name@, args: self.generator_args.deep_view() }
    }
}

impl View for CargoBinaryVerifierConfig {
    type V = VerifierConfigView;

    open spec fn view(&self) -> VerifierConfigView {
        VerifierConfigView { name: self.verifier_name@, args: self.verifier_args.deep_view() }
    }
}

impl View for PxConfig {
    type V = PxConfigView;

    open spec fn view(&self) -> PxConfigView {
        PxConfigView {
            generator: match self.generate {
                GenerateConfig::CargoWorkspaceBinary(g) => g@,
            },
            verifier: match self.verify {
                Some(VerifyConfig::CargoWorkspaceBinary(v)) => Some(v@),
                None => None,
            },
        }
    }
}

impl View for ConfigOutcome {
    type V = ConfigOutcomeView;

    open spec fn view(&self) -> ConfigOutcomeView {
        match self {
            ConfigOutcome::Absent => ConfigOutcomeView::Absent,
            ConfigOutcome::Malformed(m) => ConfigOutcomeView::Malformed(m@),
            ConfigOutcome::Declared(c) => ConfigOutcomeView::Declared(c@),
        }
    }
}

impl Clone for CargoBinaryGeneratorConfig {
    fn clone(&self) -> (res: Self)
        ensures
            res@ == self@,
    {
        CargoBinaryGeneratorConfig {
            generator_name: self.generator_name.clone(),
            generator_args: crate::unit::clone_strings(&self.generator_args),
        }
    }
}

impl Clone for CargoBinaryVerifierConfig {
    fn clone(&self) -> (res: Self)
        ensures
            res@ == self@,
    {
        CargoBinaryVerifierConfig {
            verifier_name: self.verifier_name.clone(),
            verifier_args: crate::unit::clone_strings(&self.verifier_args),
        }
    }
}

impl Clone for PxConfig {
    fn clone(&self) -> (res: Self)
        ensures
            res@ == self@,
    {
        PxConfig {
            generate: match &self.generate {
                GenerateConfig::CargoWorkspaceBinary(g) => GenerateConfig::CargoWorkspaceBinary(
                    g.clone(),
                ),
            },
            verify: match &self.verify {
                Some(VerifyConfig::CargoWorkspaceBinary(v)) => Some(
                    VerifyConfig::CargoWorkspaceBinary(v.clone()),
                ),
                None => None,
            },
        }
    }
}

} // verus!
