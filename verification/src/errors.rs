//! The failure taxonomy of the synchronizer.
//!
//! Transport failures, bad HTTP statuses, malformed documents, broken
//! or unknown archive containers, attempts to enable an obsolete
//! source, filesystem failures and missing expected state are all kept
//! apart, so a caller can tell "retry" from "fix something first".

use vstd::prelude::*;

verus! {

/// Why an operation of the synchronizer failed.
#[derive(Debug, Clone, Copy, PartialEq, Eq, Structural)]
pub enum SyncError {
    /// A transport-level failure reaching a remote host.
    Network,
    /// A non-success HTTP status.
    Protocol,
    /// A malformed catalog, marker or other structured document.
    Parse,
    /// An archive whose container could not be read.
    CorruptArchive,
    /// An archive extension naming no supported container format.
    UnsupportedFormat,
    /// An attempt to enable a source whose descriptor is obsolete.
    Conflict,
    /// A failed filesystem operation.
    Io,
    /// Expected state missing after a supposedly successful step.
    Consistency,
}

/// Whether an HTTP status code counts as success: only the `2xx` range
/// does; anything else is reported as [`SyncError::Protocol`].
pub fn status_is_success(code: u16) -> (r: bool)
    ensures
        r == (200 <= code && code < 300),
{
    200 <= code && code < 300
}

} // verus!
