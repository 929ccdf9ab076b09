//! The error type of the whole pipeline.
use vstd::prelude::*;

use crate::text::push_str;

verus! {

/// Top-level error of the MLMD pipeline.
#[derive(Debug, Clone)]
pub enum MlmdError {
    /// An error while parsing source text.
    ParseError(String),
    /// An error during shape inference.
    ShapeError(String),
    /// A reference to an unknown block type.
    UnknownBlockType(String),
    /// A cycle in the graph.
    CycleDetected,
    /// An error while loading or checking the configuration.
    ConfigError(String),
    /// An error that a plugin reported.
    PluginError(String),
}

/// The text that describes an error.
pub open spec fn error_text(e: MlmdError) -> Seq<char> {
    match e {
        MlmdError::ParseError(m) => "parse error: "@ + m@,
        MlmdError::ShapeError(m) => "shape error: "@ + m@,
        MlmdError::UnknownBlockType(n) => "unknown block type: "@ + n@,
        MlmdError::CycleDetected => "cycle detected in graph"@,
        MlmdError::ConfigError(m) => "config error: "@ + m@,
        MlmdError::PluginError(m) => "plugin error: "@ + m@,
    }
}

impl MlmdError {
    /// The human-readable description of this error.
    pub fn message(&self) -> (r: String)
        ensures
            r@ == error_text(*self),
    {
        let mut out = String::new();
        match self {
            MlmdError::ParseError(m) => {
                push_str(&mut out, "parse error: ");
                push_str(&mut out, m.as_str());
            },
            MlmdError::ShapeError(m) => {
                push_str(&mut out, "shape error: ");
                push_str(&mut out, m.as_str());
            },
            MlmdError::UnknownBlockType(n) => {
                push_str(&mut out, "unknown block type: ");
                push_str(&mut out, n.as_str());
            },
            MlmdError::CycleDetected => {
                push_str(&mut out, "cycle detected in graph");
            },
            MlmdError::ConfigError(m) => {
                push_str(&mut out, "config error: ");
                push_str(&mut out, m.as_str());
            },
            MlmdError::PluginError(m) => {
                push_str(&mut out, "plugin error: ");
                push_str(&mut out, m.as_str());
            },
        }
        out
    }
}

} // verus!
