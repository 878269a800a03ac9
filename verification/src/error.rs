//! Error type for configuration lookup and reference resolution.

use vstd::prelude::*;

use crate::text::{str_concat, str_to_string};

verus! {

/// Everything that can go wrong while loading configuration or resolving
/// bundle references.
#[derive(Debug, Clone, PartialEq, Eq)]
pub enum PanoutError {
    /// Config file does not exist at the expected path.
    ConfigNotFound(String),
    /// Could not determine the user's config directory.
    NoConfigDir,
    /// Requested bundle does not exist in the configuration.
    BundleNotFound(String),
    /// Requested server does not exist in the configuration.
    ServerNotFound(String),
    /// Requested workspace does not exist in the configuration.
    WorkspaceNotFound(String),
    /// Bundle reference (`@ref`) has invalid syntax.
    InvalidRef(String),
    /// Bundle references form a cycle.
    CircularRef(String),
    /// A tmux command failed to execute.
    TmuxError(String),
    /// Command was run outside of a tmux session.
    NotInTmux,
}

/// The description that `message` produces for an error value.
pub open spec fn spec_message(e: PanoutError) -> Seq<char> {
    match e {
        PanoutError::ConfigNotFound(p) => "Config file not found: "@ + p@,
        PanoutError::NoConfigDir => "Could not determine config directory"@,
        PanoutError::BundleNotFound(p) => "Bundle not found: "@ + p@,
        PanoutError::ServerNotFound(p) => "Server not found: "@ + p@,
        PanoutError::WorkspaceNotFound(p) => "Workspace not found: "@ + p@,
        PanoutError::InvalidRef(p) => "Invalid bundle reference: "@ + p@,
        PanoutError::CircularRef(p) => "Circular reference detected: "@ + p@,
        PanoutError::TmuxError(p) => "Tmux error: "@ + p@,
        PanoutError::NotInTmux => "Not running inside tmux"@,
    }
}

impl PanoutError {
    /// A human-readable description of the error.
    pub fn message(&self) -> (r: String)
        ensures
            r@ == spec_message(*self),
    {
        match self {
            PanoutError::ConfigNotFound(p) => str_concat("Config file not found: ", p.as_str()),
            PanoutError::NoConfigDir => str_to_string("Could not determine config directory"),
            PanoutError::BundleNotFound(p) => str_concat("Bundle not found: ", p.as_str()),
            PanoutError::ServerNotFound(p) => str_concat("Server not found: ", p.as_str()),
            PanoutError::WorkspaceNotFound(p) => str_concat(
                "Workspace not found: ",
                p.as_str(),
            ),
            PanoutError::InvalidRef(p) => str_concat("Invalid bundle reference: ", p.as_str()),
            PanoutError::CircularRef(p) => str_concat(
                "Circular reference detected: ",
                p.as_str(),
            ),
            PanoutError::TmuxError(p) => str_concat("Tmux error: ", p.as_str()),
            PanoutError::NotInTmux => str_to_string("Not running inside tmux"),
        }
    }
}

} // verus!
