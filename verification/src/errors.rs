use vstd::prelude::*;

verus! {

/// The error taxonomy of the pipeline.
///
/// The first four variants are per-item embedding failures; `ParseError`
/// marks a malformed persisted record, `ShapeMismatch` an inconsistent
/// embedding dimensionality at merge time, and `IoFailure` a sink or source
/// that cannot be opened, read or written.
#[derive(Clone, Copy, Debug, PartialEq, Eq, Structural)]
pub enum PipelineError {
    InvalidInput,
    Transport,
    RemoteRejected,
    MalformedResponse,
    ParseError,
    ShapeMismatch,
    IoFailure,
}

} // verus!
