//! The execution mode.
//!
//! The normalizers and the hash core can run in one of two modes. The
//! constant-time mode decides with the branch-free primitives and, in the
//! reference normalizer, the search for the frame delimiter and the
//! comparison of byte strings, looks at every byte in passes of fixed
//! length; the standard mode branches on the bytes and stops where it can.
//! The content-type normalizer follows its grammar in either mode; the
//! mode decides how it classifies, folds and compares bytes. Both modes
//! compute the same results: each operation that has two paths states one
//! contract for both.
//!
//! The mode is fixed when the crate is built. It is a constant, not a
//! parameter: nothing can change it while the library runs.

use vstd::prelude::*;

verus! {

/// Whether the constant-time paths are the ones that run.
pub const CONSTANT_TIME: bool = true;

} // verus!
