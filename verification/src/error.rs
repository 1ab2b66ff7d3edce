//! The error taxonomy of the store.  Every failure surfaces as a typed
//! result to the immediate caller; nothing is retried automatically.
use vstd::prelude::*;

verus! {

/// A failure of the store.  The unimplemented-feature case is distinguished
/// from transient failures so that callers do not retry it.
#[derive(Debug, Clone, PartialEq, Eq)]
pub enum Error {
    /// The storage engine failed; the message is propagated verbatim.
    Storage(String),
    /// The process-wide epoch offset was never established.
    EpochNotSet,
    /// The system clock reported a time before the configured epoch.
    ClockRegression,
    /// All 32 worker slots have already been handed out.
    WorkerSlotsExhausted,
    /// Malformed identifier text.
    IdentifierParse,
    /// A stored row's bytes are corrupt or unexpected.
    Decode,
    /// The requested feature is declared out of scope, not transient.
    Unimplemented,
}

} // verus!
