//! Why a descriptor has no fingerprint.

use vstd::prelude::*;

verus! {

/// The ways in which an input can fail to have a fingerprint. Each is a
/// property of the input alone: retrying the same input fails the same way.
#[derive(Clone, Copy, Debug, PartialEq, Eq, Structural)]
pub enum HashError {
    /// The reference component cannot be brought to canonical form.
    InvalidReference,
    /// The content-type component cannot be parsed.
    InvalidContentType,
    /// The input is not one reference and one content-type in a frame.
    MalformedInput,
}

} // verus!
