//! What holds of the fingerprint as a whole.

use vstd::prelude::*;
use crate::error::HashError;
use crate::bytes::is_ws;
use crate::content_type::canonical_content_type;
use crate::content_type_laws::lemma_canonical_content_type_length;
use crate::hash_core::{
    assemble, canonical_descriptor, fingerprint_spec, frame, is_fingerprint_of, lemma_split_unique,
    split_frame, splits_at, DELIMITER, MAX_INPUT_LEN,
};
use crate::reference::canonical_reference;
use crate::reference_laws::lemma_canonical_reference_length;
use crate::sha256::{be64, lemma_be64_len};
use crate::trim::{all_ws, law_trim_ignores_surrounding_ws};

verus! {

/// The eight-byte form of a length determines the length.
pub proof fn lemma_be64_injective(a: u64, b: u64)
    requires
        be64(a) == be64(b),
    ensures
        a == b,
{
    reveal(be64);
    let x = be64(a);
    let y = be64(b);
    assert(x[0] == y[0] && x[1] == y[1] && x[2] == y[2] && x[3] == y[3]);
    assert(x[4] == y[4] && x[5] == y[5] && x[6] == y[6] && x[7] == y[7]);
    assert(a == b) by (bit_vector)
        requires
            (a / 0x100_0000_0000_0000) % 0x100 == (b / 0x100_0000_0000_0000) % 0x100,
            (a / 0x1_0000_0000_0000) % 0x100 == (b / 0x1_0000_0000_0000) % 0x100,
            (a / 0x100_0000_0000) % 0x100 == (b / 0x100_0000_0000) % 0x100,
            (a / 0x1_0000_0000) % 0x100 == (b / 0x1_0000_0000) % 0x100,
            (a / 0x100_0000) % 0x100 == (b / 0x100_0000) % 0x100,
            (a / 0x1_0000) % 0x100 == (b / 0x1_0000) % 0x100,
            (a / 0x100) % 0x100 == (b / 0x100) % 0x100,
            a % 0x100 == b % 0x100,
    ;
}

/// Two concatenations that agree have the same first part, where the
/// first parts are equally long, and then the same remainder.
proof fn lemma_same_parts(a1: Seq<u8>, b1: Seq<u8>, a2: Seq<u8>, b2: Seq<u8>)
    requires
        a1.len() == a2.len(),
        a1 + b1 == a2 + b2,
    ensures
        a1 == a2,
        b1 == b2,
{
    let n = a1.len() as int;
    assert(a1 =~= (a1 + b1).take(n));
    assert(a2 =~= (a2 + b2).take(n));
    assert(b1 =~= (a1 + b1).skip(n));
    assert(b2 =~= (a2 + b2).skip(n));
}

/// Framing injectivity: the assembled byte string determines both
/// canonical forms. Two pairs that a plain concatenation would confuse,
/// such as `("ab", "c")` and `("a", "bc")`, are assembled differently.
pub proof fn law_assembly_injective(r1: Seq<u8>, c1: Seq<u8>, r2: Seq<u8>, c2: Seq<u8>)
    requires
        r1.len() <= u64::MAX,
        c1.len() <= u64::MAX,
        r2.len() <= u64::MAX,
        c2.len() <= u64::MAX,
        assemble(r1, c1) == assemble(r2, c2),
    ensures
        r1 == r2,
        c1 == c2,
{
    let len_r1 = be64(r1.len() as u64);
    let len_r2 = be64(r2.len() as u64);
    let len_c1 = be64(c1.len() as u64);
    let len_c2 = be64(c2.len() as u64);
    lemma_be64_len(r1.len() as u64);
    lemma_be64_len(r2.len() as u64);
    lemma_be64_len(c1.len() as u64);
    lemma_be64_len(c2.len() as u64);
    assert(assemble(r1, c1) =~= len_r1 + (r1 + (len_c1 + c1)));
    assert(assemble(r2, c2) =~= len_r2 + (r2 + (len_c2 + c2)));
    lemma_same_parts(len_r1, r1 + (len_c1 + c1), len_r2, r2 + (len_c2 + c2));
    lemma_be64_injective(r1.len() as u64, r2.len() as u64);
    lemma_same_parts(r1, len_c1 + c1, r2, len_c2 + c2);
    lemma_same_parts(len_c1, c1, len_c2, c2);
}

/// Determinism: two fingerprints of one input are the same, be they
/// digests or failures.
pub proof fn law_fingerprint_deterministic(
    input: Seq<u8>,
    first: Result<[u8; 32], HashError>,
    second: Result<[u8; 32], HashError>,
)
    requires
        is_fingerprint_of(input, first),
        is_fingerprint_of(input, second),
    ensures
        first == second,
{
    broadcast use vstd::array::group_array_axioms;

    if first is Ok {
        let a = first->Ok_0;
        let b = second->Ok_0;
        assert(a@ == b@);
        assert(a =~= b);
    }
}

/// Two inputs with the same canonical forms have the same fingerprint.
pub proof fn law_equal_forms_equal_fingerprints(a: Seq<u8>, b: Seq<u8>)
    requires
        canonical_descriptor(a) == canonical_descriptor(b),
    ensures
        fingerprint_spec(a) == fingerprint_spec(b),
{
}

/// Two inputs with different canonical forms are digested from different
/// byte strings. That their digests differ rests on the collision
/// resistance of SHA-256, which is not proved here.
pub proof fn law_distinct_forms_distinct_messages(a: Seq<u8>, b: Seq<u8>)
    requires
        canonical_descriptor(a) is Ok,
        canonical_descriptor(b) is Ok,
        canonical_descriptor(a) != canonical_descriptor(b),
    ensures
        assemble(canonical_descriptor(a)->Ok_0.0, canonical_descriptor(a)->Ok_0.1) != assemble(
            canonical_descriptor(b)->Ok_0.0,
            canonical_descriptor(b)->Ok_0.1,
        ),
{
    let (r1, c1) = canonical_descriptor(a)->Ok_0;
    let (r2, c2) = canonical_descriptor(b)->Ok_0;
    lemma_canonical_lengths(a);
    lemma_canonical_lengths(b);
    if assemble(r1, c1) == assemble(r2, c2) {
        law_assembly_injective(r1, c1, r2, c2);
    }
}

/// The canonical forms of an input are short enough for their length
/// prefixes.
proof fn lemma_canonical_lengths(input: Seq<u8>)
    requires
        canonical_descriptor(input) is Ok,
    ensures
        canonical_descriptor(input)->Ok_0.0.len() <= u64::MAX,
        canonical_descriptor(input)->Ok_0.1.len() <= u64::MAX,
{
    let (raw_reference, raw_content_type) = split_frame(input)->Some_0;
    lemma_canonical_reference_length(raw_reference);
    lemma_canonical_content_type_length(raw_content_type);
}

/// A component that can stand in a frame: it holds no delimiter.
pub open spec fn frameable(component: Seq<u8>) -> bool {
    forall|i: int| 0 <= i < component.len() ==> #[trigger] component[i] != DELIMITER
}

/// A frame is taken apart into what it was made of.
pub proof fn law_frame_splits(reference: Seq<u8>, content_type: Seq<u8>)
    requires
        frameable(reference),
        frameable(content_type),
        reference.len() + 1 + content_type.len() <= MAX_INPUT_LEN,
    ensures
        split_frame(frame(reference, content_type)) == Some((reference, content_type)),
{
    let input = frame(reference, content_type);
    let k = reference.len() as int;
    assert forall|j: int| 0 <= j < input.len() && j != k implies #[trigger] input[j]
        != DELIMITER by {
        if j < k {
            assert(input[j] == reference[j]);
        } else {
            assert(input[j] == content_type[j - k - 1]);
        }
    }
    assert(splits_at(input, k));
    lemma_split_unique(input, k);
    assert(input.take(k) =~= reference);
    assert(input.skip(k + 1) =~= content_type);
}

/// Equivalence closure: two descriptors whose components have the same
/// canonical forms have the same fingerprint, where both can be framed and
/// neither frame is longer than an input may be.
pub proof fn law_equivalent_descriptors(
    reference1: Seq<u8>,
    content_type1: Seq<u8>,
    reference2: Seq<u8>,
    content_type2: Seq<u8>,
)
    requires
        frameable(reference1) && frameable(content_type1),
        frameable(reference2) && frameable(content_type2),
        reference1.len() + 1 + content_type1.len() <= MAX_INPUT_LEN,
        reference2.len() + 1 + content_type2.len() <= MAX_INPUT_LEN,
        canonical_reference(reference1) == canonical_reference(reference2),
        canonical_content_type(content_type1) == canonical_content_type(content_type2),
    ensures
        fingerprint_spec(frame(reference1, content_type1)) == fingerprint_spec(
            frame(reference2, content_type2),
        ),
{
    law_frame_splits(reference1, content_type1);
    law_frame_splits(reference2, content_type2);
}

/// Whitespace around either component does not change the fingerprint,
/// where the frame with the whitespace is not longer than an input may be.
pub proof fn law_descriptor_ignores_whitespace(
    reference: Seq<u8>,
    content_type: Seq<u8>,
    ws: Seq<Seq<u8>>,
)
    requires
        frameable(reference),
        frameable(content_type),
        ws.len() == 4,
        all_ws(ws[0]) && all_ws(ws[1]) && all_ws(ws[2]) && all_ws(ws[3]),
        ws[0].len() + reference.len() + ws[1].len() + 1 + ws[2].len() + content_type.len()
            + ws[3].len() <= MAX_INPUT_LEN,
    ensures
        fingerprint_spec(
            frame(ws[0] + reference + ws[1], ws[2] + content_type + ws[3]),
        ) == fingerprint_spec(frame(reference, content_type)),
{
    let r = ws[0] + reference + ws[1];
    let c = ws[2] + content_type + ws[3];
    law_trim_ignores_surrounding_ws(ws[0], reference, ws[1]);
    law_trim_ignores_surrounding_ws(ws[2], content_type, ws[3]);
    assert forall|i: int| 0 <= i < r.len() implies #[trigger] r[i] != DELIMITER by {
        if i < ws[0].len() {
            assert(is_ws(ws[0][i]));
        } else if i < ws[0].len() + reference.len() {
            assert(r[i] == reference[i - ws[0].len()]);
        } else {
            assert(is_ws(ws[1][i - ws[0].len() - reference.len()]));
        }
    }
    assert forall|i: int| 0 <= i < c.len() implies #[trigger] c[i] != DELIMITER by {
        if i < ws[2].len() {
            assert(is_ws(ws[2][i]));
        } else if i < ws[2].len() + content_type.len() {
            assert(c[i] == content_type[i - ws[2].len()]);
        } else {
            assert(is_ws(ws[3][i - ws[2].len() - content_type.len()]));
        }
    }
    law_equivalent_descriptors(r, c, reference, content_type);
}

} // verus!
