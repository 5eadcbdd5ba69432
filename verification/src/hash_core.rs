//! The hash core: from a framed descriptor to its fingerprint.
//!
//! # Framing
//!
//! The input holds the reference, one line feed (`0x0a`), and the content
//! type, in that order. An input with no line feed, with more than one, or
//! longer than `MAX_INPUT_LEN` bytes is malformed. Neither component can hold
//! a line feed of its own, so the frame is read in one way only.
//!
//! # Assembly
//!
//! The digest is taken over the two canonical forms, each preceded by its
//! length as eight bytes, most significant first. The lengths keep
//! `("ab", "c")` and `("a", "bc")` apart.
//!
//! Where both components are invalid, the reference is reported.

use vstd::prelude::*;
use crate::content_type::{canonical_content_type, normalize_content_type};
use crate::ct::{eq_bit, select_index};
use crate::error::HashError;
use crate::mode::CONSTANT_TIME;
use crate::reference::{canonical_reference, normalize_reference};
use crate::sha256::{be64, push_be64, sha256, sha256_spec};

verus! {

/// The byte between the reference and the content type.
pub const DELIMITER: u8 = 0x0a;

/// The longest input that is read.
pub const MAX_INPUT_LEN: usize = 65535;

/// The framed form of a descriptor.
pub open spec fn frame(reference: Seq<u8>, content_type: Seq<u8>) -> Seq<u8> {
    reference + seq![DELIMITER] + content_type
}

/// Position `k` holds the only delimiter of `input`.
pub open spec fn splits_at(input: Seq<u8>, k: int) -> bool {
    &&& 0 <= k < input.len()
    &&& input[k] == DELIMITER
    &&& forall|j: int| 0 <= j < input.len() && j != k ==> #[trigger] input[j] != DELIMITER
}

/// The reference and the content type that `input` frames, or `None`
/// where it is malformed.
pub open spec fn split_frame(input: Seq<u8>) -> Option<(Seq<u8>, Seq<u8>)> {
    if input.len() <= MAX_INPUT_LEN && exists|k: int| splits_at(input, k) {
        let k = choose|k: int| splits_at(input, k);
        Some((input.take(k), input.skip(k + 1)))
    } else {
        None
    }
}

/// The byte string that is digested for two canonical forms.
pub open spec fn assemble(reference: Seq<u8>, content_type: Seq<u8>) -> Seq<u8> {
    be64(reference.len() as u64) + reference + be64(content_type.len() as u64) + content_type
}

/// The two canonical forms of a framed descriptor, or why it has none.
/// Where both components are invalid, the reference is reported.
pub open spec fn canonical_descriptor(input: Seq<u8>) -> Result<(Seq<u8>, Seq<u8>), HashError> {
    match split_frame(input) {
        None => Err(HashError::MalformedInput),
        Some((raw_reference, raw_content_type)) => match canonical_reference(raw_reference) {
            None => Err(HashError::InvalidReference),
            Some(reference) => match canonical_content_type(raw_content_type) {
                None => Err(HashError::InvalidContentType),
                Some(content_type) => Ok((reference, content_type)),
            },
        },
    }
}

/// The fingerprint of a framed descriptor, or why it has none: the digest
/// of its assembled canonical forms.
pub open spec fn fingerprint_spec(input: Seq<u8>) -> Result<Seq<u8>, HashError> {
    match canonical_descriptor(input) {
        Ok((reference, content_type)) => Ok(sha256_spec(assemble(reference, content_type))),
        Err(e) => Err(e),
    }
}

/// Whether `r` is what the fingerprint of `input` is.
pub open spec fn is_fingerprint_of(input: Seq<u8>, r: Result<[u8; 32], HashError>) -> bool {
    match r {
        Ok(digest) => fingerprint_spec(input) == Ok::<Seq<u8>, HashError>(digest@),
        Err(e) => fingerprint_spec(input) == Err::<Seq<u8>, HashError>(e),
    }
}

/// A frame has its delimiter in one place only.
pub proof fn lemma_split_unique(input: Seq<u8>, k: int)
    requires
        splits_at(input, k),
        input.len() <= MAX_INPUT_LEN,
    ensures
        split_frame(input) == Some((input.take(k), input.skip(k + 1))),
{
    let c = choose|c: int| splits_at(input, c);
    assert(c == k);
}

/// Where the only delimiter of `input` stands, if it holds exactly one,
/// found as the execution mode asks.
pub fn find_delimiter(input: &[u8]) -> (r: Option<usize>)
    ensures
        match r {
            Some(k) => splits_at(input@, k as int),
            None => forall|k: int| !splits_at(input@, k),
        },
{
    if CONSTANT_TIME {
        find_delimiter_ct(input)
    } else {
        find_delimiter_std(input)
    }
}

/// Where the only delimiter of `input` stands, if it holds exactly one.
/// Every byte is looked at once, wherever the delimiters are, and none is
/// branched on.
pub fn find_delimiter_ct(input: &[u8]) -> (r: Option<usize>)
    ensures
        match r {
            Some(k) => splits_at(input@, k as int),
            None => forall|k: int| !splits_at(input@, k),
        },
{
    let n: usize = input.len();
    let mut count: usize = 0;
    let mut at: usize = 0;
    let ghost mut first: int = 0;
    let mut i: usize = 0;
    while i < n
        invariant
            i <= n,
            n == input@.len(),
            count <= i,
            count == 0 ==> forall|j: int| 0 <= j < i ==> #[trigger] input@[j] != DELIMITER,
            count == 1 ==> at < i && input@[at as int] == DELIMITER && forall|j: int|
                0 <= j < i && j != at ==> #[trigger] input@[j] != DELIMITER,
            count >= 2 ==> 0 <= first < at < i && input@[first] == DELIMITER && input@[at as int]
                == DELIMITER,
        decreases n - i,
    {
        let hit: u8 = eq_bit(input[i], DELIMITER);
        proof {
            if hit == 1 && count >= 1 {
                first = at as int;
            }
        }
        count = count + hit as usize;
        at = select_index(hit, i, at);
        i = i + 1;
    }
    if count == 1 {
        Some(at)
    } else {
        proof {
            lemma_no_split(input@, count as int, first, at as int);
        }
        None
    }
}

/// Where the only delimiter of `input` stands, if it holds exactly one.
/// The search ends at a second delimiter.
pub fn find_delimiter_std(input: &[u8]) -> (r: Option<usize>)
    ensures
        match r {
            Some(k) => splits_at(input@, k as int),
            None => forall|k: int| !splits_at(input@, k),
        },
{
    let n: usize = input.len();
    let mut found: Option<usize> = None;
    let mut i: usize = 0;
    while i < n
        invariant
            i <= n,
            n == input@.len(),
            match found {
                None => forall|j: int| 0 <= j < i ==> #[trigger] input@[j] != DELIMITER,
                Some(at) => at < i && input@[at as int] == DELIMITER && forall|j: int|
                    0 <= j < i && j != at ==> #[trigger] input@[j] != DELIMITER,
            },
        decreases n - i,
    {
        if input[i] == DELIMITER {
            match found {
                Some(at) => {
                    proof {
                        lemma_no_split(input@, 2, at as int, i as int);
                    }
                    return None;
                },
                None => {
                    found = Some(i);
                },
            }
        }
        i = i + 1;
    }
    proof {
        if found is None {
            lemma_no_split(input@, 0, 0, 0);
        }
    }
    found
}

/// An input with no delimiter, or with delimiters in two places, has its
/// delimiter in no one place only.
proof fn lemma_no_split(input: Seq<u8>, count: int, first: int, second: int)
    requires
        count != 1,
        count == 0 ==> forall|j: int| 0 <= j < input.len() ==> #[trigger] input[j] != DELIMITER,
        count != 0 ==> 0 <= first < second < input.len() && input[first] == DELIMITER
            && input[second] == DELIMITER,
    ensures
        forall|k: int| !splits_at(input, k),
{
    assert forall|k: int| !splits_at(input, k) by {
        if splits_at(input, k) {
            if count == 0 {
                assert(input[k] != DELIMITER);
            } else if k == first {
                assert(input[second] != DELIMITER);
            } else {
                assert(input[first] != DELIMITER);
            }
        }
    }
}

/// The byte string that is digested for two canonical forms.
pub fn assemble_parts(reference: &[u8], content_type: &[u8]) -> (message: Vec<u8>)
    ensures
        message@ == assemble(reference@, content_type@),
{
    let mut message: Vec<u8> = Vec::new();
    push_be64(&mut message, reference.len() as u64);
    append(&mut message, reference);
    push_be64(&mut message, content_type.len() as u64);
    append(&mut message, content_type);
    assert(message@ =~= assemble(reference@, content_type@));
    message
}

/// Appends `v` to `out`.
fn append(out: &mut Vec<u8>, v: &[u8])
    ensures
        final(out)@ == old(out)@ + v@,
{
    let mut i: usize = 0;
    assert(out@ =~= old(out)@ + v@.take(0));
    while i < v.len()
        invariant
            i <= v@.len(),
            out@ == old(out)@ + v@.take(i as int),
        decreases v@.len() - i,
    {
        out.push(v[i]);
        i = i + 1;
        assert(out@ =~= old(out)@ + v@.take(i as int));
    }
    assert(v@.take(v@.len() as int) =~= v@);
}

/// The raw reference and the raw content type that `input` frames, or
/// `MalformedInput` where it frames none. The length is tested first, and
/// by itself.
pub fn split_input<'a>(input: &'a [u8]) -> (r: Result<(&'a [u8], &'a [u8]), HashError>)
    ensures
        match r {
            Ok((reference, content_type)) => split_frame(input@) == Some(
                (reference@, content_type@),
            ),
            Err(e) => e == HashError::MalformedInput && split_frame(input@) is None,
        },
{
    if input.len() > MAX_INPUT_LEN {
        return Err(HashError::MalformedInput);
    }
    match find_delimiter(input) {
        Some(k) => {
            proof {
                lemma_split_unique(input@, k as int);
                assert(input@.subrange(0, k as int) =~= input@.take(k as int));
                assert(input@.subrange(k + 1, input@.len() as int) =~= input@.skip(k + 1));
            }
            Ok((&input[0..k], &input[k + 1..input.len()]))
        },
        None => Err(HashError::MalformedInput),
    }
}

/// The fingerprint of the framed descriptor `input`, or why it has none.
///
/// A failure stops the work at once: the digest is never run on an input
/// that is malformed or has an invalid component.
pub fn fingerprint(input: &[u8]) -> (r: Result<[u8; 32], HashError>)
    ensures
        is_fingerprint_of(input@, r),
{
    let (raw_reference, raw_content_type) = match split_input(input) {
        Ok(parts) => parts,
        Err(e) => {
            return Err(e);
        },
    };
    let reference: Vec<u8> = match normalize_reference(raw_reference) {
        Ok(v) => v,
        Err(e) => {
            return Err(e);
        },
    };
    let content_type: Vec<u8> = match normalize_content_type(raw_content_type) {
        Ok(v) => v,
        Err(e) => {
            return Err(e);
        },
    };
    let message: Vec<u8> = assemble_parts(reference.as_slice(), content_type.as_slice());
    Ok(sha256(message.as_slice()))
}

/// The fingerprint of the descriptor made of `reference` and
/// `content_type`, or why it has none. A component that holds a line feed
/// cannot be framed, and makes the input malformed.
pub fn fingerprint_descriptor(reference: &[u8], content_type: &[u8]) -> (r: Result<
    [u8; 32],
    HashError,
>)
    ensures
        is_fingerprint_of(frame(reference@, content_type@), r),
{
    let mut input: Vec<u8> = Vec::new();
    append(&mut input, reference);
    input.push(DELIMITER);
    append(&mut input, content_type);
    assert(input@ =~= frame(reference@, content_type@));
    fingerprint(input.as_slice())
}

} // verus!
