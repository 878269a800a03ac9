//! Panout: a tmux pane orchestrator driven by declarative configuration.
//!
//! The library holds the verified core: the configuration model (bundle
//! groups, servers, workspaces), the reference parser for the `@group.name`
//! and `@group.*` syntax, the two resolvers (flat and pane-grouped) with
//! cycle detection, and command-string helpers (host interpolation, shell
//! command construction). Everything that touches the terminal multiplexer,
//! the file system or the command line lives outside the library and talks
//! to it through plain values.

pub mod cli;
pub mod config;
pub mod error;
pub mod interpolate;
pub mod laws;
pub mod resolver;
pub mod text;

pub use config::{BundleEntry, Cmd, Config, Defaults, Layout, ServerConfig, WindowDef, Workspace};
pub use error::PanoutError;
