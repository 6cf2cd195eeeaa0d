use vstd::prelude::*;

verus! {

/// The ways a trim job can fail.
///
/// A missing keyframe in the requested window is deliberately not here: it is
/// a normal outcome, resolved as an absent boundary marker, and drives the
/// job onto the all-transcode path instead of aborting it.
#[derive(Clone, Copy, Debug, PartialEq, Eq, Structural)]
pub enum TrimError {
    /// The input, or a required stream or codec, cannot be resolved.
    NotFound,
    /// Every video stream was dropped, so no stream can anchor boundary
    /// resolution.
    Unsupported,
    /// A seek against the input container failed; the job aborts.
    SeekFailure,
    /// A write to the output container failed; the job aborts.
    WriteFailure,
    /// A packet carries neither a presentation nor a decode timestamp where
    /// one is required.
    MalformedTimestamp,
    /// The requested window is empty or inverted: `end` is not after `start`.
    InvalidWindow,
}

} // verus!
