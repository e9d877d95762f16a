//! The command model.
//!
//! One invocation runs exactly one command: a full update, enabling or
//! disabling a ruleset (with an optional name; without one the
//! embedding application prompts), or refreshing the source catalog
//! alone.  Argument parsing and help text belong to the embedding
//! application; these types carry its result.

use vstd::prelude::*;

verus! {

/// One parsed invocation.
#[derive(Debug)]
pub struct Cli {
    /// Use user-specific directories instead of system directories.
    pub user: bool,
    /// Verbosity level; each step up prints more.
    pub verbose: u8,
    pub command: Commands,
}

/// The command to run.
#[derive(Debug)]
pub enum Commands {
    /// Update rule sources and rulesets.
    Update { force: bool, quiet: bool },
    /// Enable a ruleset.
    EnableRuleset { name: Option<String> },
    /// Disable a ruleset.
    DisableRuleset { name: Option<String> },
    /// Update rule sources only.
    UpdateSources,
}

} // verus!
