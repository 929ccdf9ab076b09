//! The project configuration read from `.mlmdrc`.
use vstd::prelude::*;

verus! {

/// One code generation target: a language and an output path.
#[derive(Debug, Clone)]
pub struct TargetConfig {
    pub lang: String,
    pub out: String,
}

/// The configuration of a project: where its plugins are and which targets
/// to generate.
#[derive(Debug, Clone)]
pub struct MlmdConfig {
    pub plugins: Option<String>,
    pub targets: Option<Vec<TargetConfig>>,
}

} // verus!
