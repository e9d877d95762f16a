//! Synchronizes a local Suricata rule set from remote rule vendors.
//!
//! The library holds the logic of the synchronization pipeline: the
//! source-index cache freshness policy, the enable/disable state of rule
//! sources, archive extraction and rule parsing, and the cross-source
//! merge that produces one deterministic output file.  All file and
//! network traffic is left to the embedding application, which hands the
//! library plain values and mirrors its decisions onto disk.

use vstd::prelude::*;

pub mod archive;
pub mod cache;
pub mod cli;
pub mod errors;
pub mod merge;
pub mod paths;
pub mod rules;
pub mod rulesets;
pub mod sources;
pub mod text;
pub mod update;
pub mod user_agent;

verus! {

/// Number of seconds a cached catalog or archive stays fresh.
pub const CACHE_MIN_AGE_SECS: i64 = 900;

} // verus!
