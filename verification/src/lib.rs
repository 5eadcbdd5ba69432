//! Deterministic 32-byte fingerprints of resume descriptors.
//!
//! A descriptor pairs a reference (a path-like handle) with a content-type
//! tag. Both parts are brought to a canonical byte form, joined with
//! length prefixes, and digested with SHA-256, so that descriptors which
//! differ only in superficial formatting share one fingerprint.
//!
//! # Modules
//!
//! * `reference` and `content_type` define the two canonical forms and
//!   compute them; `reference_laws` and `content_type_laws` prove what
//!   holds of them.
//! * `hash_core` reads the frame, assembles the canonical forms and
//!   digests them; `laws` proves what holds of the fingerprint.
//! * `sha256` is the digest.
//! * `ct`, `bytes`, `trim` and `order` hold what the normalizers share.
//!
//! * `mode` fixes the execution mode.
//!
//! # Timing
//!
//! In constant-time mode bytes are classified, compared, folded and
//! selected without branching on their values. The reference normalizer,
//! the search for the frame delimiter, the comparison of byte strings and
//! the digest run in passes whose control flow depends on lengths alone.
//! The content-type normalizer follows its grammar in either mode: where
//! one token ends and the next begins steers its control flow, and so does
//! the order of the parameters. That running time is independent of
//! content is a matter of measurement; no contract here states it.

pub mod bytes;
pub mod content_type;
pub mod content_type_laws;
pub mod ct;
pub mod error;
pub mod hash_core;
pub mod laws;
pub mod mode;
pub mod order;
pub mod reference;
pub mod reference_laws;
pub mod sha256;
pub mod trim;

use vstd::prelude::*;
use vstd::string::StringSliceAdditionalSpecFns;
use crate::error::HashError;
use crate::hash_core::{fingerprint, fingerprint_spec};

verus! {

/// Number of bytes in a fingerprint.
pub const CT_RESUME_HASH_LEN: usize = 32;

/// The status that reports a fingerprint.
pub const STATUS_OK: i32 = 0;

/// The status that reports a failure, whatever its cause.
pub const STATUS_FAILED: i32 = 1;

/// Computes the fingerprint of a framed descriptor into `out`.
///
/// The status is zero exactly when the input has a fingerprint, and `out`
/// then holds it. On any failure the status is the one non-zero code and
/// `out` is left as it was: nothing derived from the input reaches it.
pub fn ct_resume_hash_once(input: &[u8], out: &mut [u8; CT_RESUME_HASH_LEN]) -> (status: i32)
    ensures
        status == STATUS_OK || status == STATUS_FAILED,
        status == STATUS_OK <==> fingerprint_spec(input@) is Ok,
        status == STATUS_OK ==> fingerprint_spec(input@) == Ok::<Seq<u8>, HashError>(final(out)@),
        status != STATUS_OK ==> *final(out) == *old(out),
{
    match fingerprint(input) {
        Ok(digest) => {
            *out = digest;
            STATUS_OK
        },
        Err(_) => STATUS_FAILED,
    }
}

/// The fingerprint of a framed descriptor given as text, or the one failure
/// message where it has none.
pub fn hash_once(input: &str) -> (r: Result<[u8; CT_RESUME_HASH_LEN], &'static str>)
    ensures
        match r {
            Ok(digest) => fingerprint_spec(input.spec_bytes()) == Ok::<Seq<u8>, HashError>(
                digest@,
            ),
            Err(message) => fingerprint_spec(input.spec_bytes()) is Err && message@
                == "ct_resume_hash_once failed"@,
        },
{
    let bytes: &[u8] = input.as_bytes();
    let mut out: [u8; CT_RESUME_HASH_LEN] = [0u8;CT_RESUME_HASH_LEN];
    let rc: i32 = ct_resume_hash_once(bytes, &mut out);
    if rc == 0 {
        Ok(out)
    } else {
        Err("ct_resume_hash_once failed")
    }
}

} // verus!
