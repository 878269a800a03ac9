//! Command-line options, as plain data, and the layout precedence rule.
//!
//! Argument parsing itself happens outside the library; the options arrive
//! here as plain values.

use vstd::prelude::*;

use crate::config::Layout;

verus! {

/// The user-specified options.
#[derive(Debug, Clone)]
pub struct Cli {
    /// Bundle to run, as a `group.name` path.
    pub bundle: Option<String>,
    /// Workspace to run (creates multiple windows).
    pub workspace: Option<String>,
    /// Number of panes to create.
    pub num: Option<u32>,
    /// Use the vertical layout (side-by-side panes).
    pub vertical: bool,
    /// Use the horizontal layout (stacked panes).
    pub horizontal: bool,
    /// List all available bundles, workspaces and servers.
    pub list: bool,
}

/// The layout the flags select, if any: the vertical flag wins over the
/// horizontal one.
pub open spec fn spec_cli_layout(vertical: bool, horizontal: bool) -> Option<Layout> {
    if vertical {
        Some(Layout::Vertical)
    } else if horizontal {
        Some(Layout::Horizontal)
    } else {
        None
    }
}

impl Cli {
    /// The layout selected by the flags, or `None` when neither flag was
    /// given.
    pub fn layout(&self) -> (r: Option<Layout>)
        ensures
            r == spec_cli_layout(self.vertical, self.horizontal),
    {
        if self.vertical {
            Some(Layout::Vertical)
        } else if self.horizontal {
            Some(Layout::Horizontal)
        } else {
            None
        }
    }

    /// Layout precedence when running a bundle: command-line flag, then the
    /// bundle's own layout, then the configured default, then tiled.
    pub fn effective_layout(&self, bundle_layout: Option<Layout>, default_layout: Option<Layout>)
        -> (r: Layout)
        ensures
            r == (match spec_cli_layout(self.vertical, self.horizontal) {
                Some(l) => l,
                None => match bundle_layout {
                    Some(l) => l,
                    None => match default_layout {
                        Some(l) => l,
                        None => Layout::Tiled,
                    },
                },
            }),
    {
        match self.layout() {
            Some(l) => l,
            None => match bundle_layout {
                Some(l) => l,
                None => match default_layout {
                    Some(l) => l,
                    None => Layout::Tiled,
                },
            },
        }
    }
}

} // verus!
