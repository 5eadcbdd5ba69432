//! The reference normalizer.
//!
//! A reference is a path-like handle. Its canonical form is reached by these
//! rules, and by no others:
//!
//! * spaces and tabs around the reference are dropped;
//! * `/` and `\` both separate segments; a run of separators becomes one `/`;
//! * a separator that ends the reference is dropped, unless the reference is
//!   the separator alone;
//! * the two hexadecimal digits of a `%` escape are case-insensitive and are
//!   written in upper case; every other byte keeps its case.
//!
//! A reference has no canonical form when, after trimming, it holds a space,
//! a control byte or DEL, or a `%` that is not followed by two hexadecimal
//! digits.

use vstd::prelude::*;
use crate::bytes::{
    hex_bit, hex_upper, is_hex, is_ref_byte, is_sep, is_ws, ref_byte_bit, sep_bit, to_hex_upper,
    BACKSLASH, DELETE, PERCENT, SLASH, SPACE,
};
use crate::ct::{and_bit, eq_bit, ge_index_bit, not_bit, or_bit, select};
use crate::error::HashError;
use crate::mode::CONSTANT_TIME;
use crate::trim::{trim, trim_bounds_ct, trim_bounds_std};

verus! {

/// A trimmed reference that can be canonicalized: every byte may stand in
/// a reference, and every `%` opens a complete escape.
pub open spec fn well_formed(t: Seq<u8>) -> bool {
    &&& forall|i: int| 0 <= i < t.len() ==> is_ref_byte(#[trigger] t[i])
    &&& forall|i: int|
        0 <= i < t.len() && #[trigger] t[i] == PERCENT ==> i + 2 < t.len() && is_hex(t[i + 1])
            && is_hex(t[i + 2])
}

/// Whether position `i` holds a digit of an escape, told from the one or
/// two bytes before it.
pub open spec fn in_escape(t: Seq<u8>, i: int) -> bool {
    (i >= 1 && t[i - 1] == PERCENT) || (i >= 2 && t[i - 2] == PERCENT)
}

/// The canonical form of the byte at position `i`.
pub open spec fn folded(t: Seq<u8>, i: int) -> u8 {
    if is_sep(t[i]) {
        SLASH
    } else if in_escape(t, i) {
        hex_upper(t[i])
    } else {
        t[i]
    }
}

/// Whether the byte at position `i` is a separator that follows another.
pub open spec fn repeats_sep(t: Seq<u8>, i: int) -> bool {
    is_sep(t[i]) && i >= 1 && is_sep(t[i - 1])
}

/// `t` with every byte in canonical form and every run of separators
/// reduced to its first.
pub open spec fn squeeze(t: Seq<u8>) -> Seq<u8>
    decreases t.len(),
{
    if t.len() == 0 {
        Seq::empty()
    } else if repeats_sep(t, t.len() - 1) {
        squeeze(t.drop_last())
    } else {
        squeeze(t.drop_last()).push(folded(t, t.len() - 1))
    }
}

/// `u` without a closing separator, unless `u` is the separator alone.
pub open spec fn chop(u: Seq<u8>) -> Seq<u8> {
    if u.len() > 1 && u.last() == SLASH {
        u.drop_last()
    } else {
        u
    }
}

/// The canonical form of a raw reference, or `None` where it has none.
pub open spec fn canonical_reference(raw: Seq<u8>) -> Option<Seq<u8>> {
    let t = trim(raw);
    if well_formed(t) {
        Some(chop(squeeze(t)))
    } else {
        None
    }
}

/// The part of well-formedness that the first `n` bytes decide by
/// themselves: each may stand in a reference, and each that follows a `%`
/// by one or two places is a hexadecimal digit.
pub open spec fn well_formed_upto(t: Seq<u8>, n: int) -> bool {
    forall|i: int|
        0 <= i < n ==> is_ref_byte(#[trigger] t[i]) && (in_escape(t, i) ==> is_hex(t[i]))
}

/// No escape is left open at the end of `t`.
pub open spec fn escapes_closed(t: Seq<u8>) -> bool {
    &&& t.len() >= 1 ==> t[t.len() - 1] != PERCENT
    &&& t.len() >= 2 ==> t[t.len() - 2] != PERCENT
}

/// Well-formedness, read backwards from each byte.
pub proof fn lemma_well_formed_backward(t: Seq<u8>)
    ensures
        well_formed(t) <==> well_formed_upto(t, t.len() as int) && escapes_closed(t),
{
    if well_formed(t) {
        assert forall|i: int| 0 <= i < t.len() implies is_ref_byte(#[trigger] t[i]) && (in_escape(
            t,
            i,
        ) ==> is_hex(t[i])) by {
            if i >= 1 && t[i - 1] == PERCENT {
                assert(is_hex(t[(i - 1) + 1]));
            }
            if i >= 2 && t[i - 2] == PERCENT {
                assert(is_hex(t[(i - 2) + 2]));
            }
        }
        if t.len() >= 1 && t[t.len() - 1] == PERCENT {
            assert(false);
        }
        if t.len() >= 2 && t[t.len() - 2] == PERCENT {
            assert(false);
        }
    }
    if well_formed_upto(t, t.len() as int) && escapes_closed(t) {
        assert forall|i: int| 0 <= i < t.len() && #[trigger] t[i] == PERCENT implies i + 2
            < t.len() && is_hex(t[i + 1]) && is_hex(t[i + 2]) by {
            assert(i + 2 < t.len());
            assert(in_escape(t, i + 1));
            assert(in_escape(t, i + 2));
            assert(is_ref_byte(t[i + 1]));
            assert(is_ref_byte(t[i + 2]));
        }
    }
}

/// How many bytes of the trimmed part `raw[a..b]` come before index `i`.
pub open spec fn trimmed_before(i: int, a: int, b: int) -> int {
    if i <= a {
        0
    } else if i >= b {
        b - a
    } else {
        i - a
    }
}

/// What one more byte adds to a prefix of a trimmed reference, told from
/// the byte and the two before it. Before the first byte of the trimmed
/// part stands whitespace or nothing, which `prev` and `prior` then hold.
proof fn lemma_step(t: Seq<u8>, d: int, prev: u8, prior: u8)
    requires
        0 <= d < t.len(),
        d >= 1 ==> prev == t[d - 1],
        d == 0 ==> prev != PERCENT && !is_sep(prev),
        d >= 2 ==> prior == t[d - 2],
        d < 2 ==> prior != PERCENT,
    ensures
        in_escape(t, d) == (prev == PERCENT || prior == PERCENT),
        repeats_sep(t.take(d + 1), d) == (is_sep(t[d]) && is_sep(prev)),
        folded(t.take(d + 1), d) == (if is_sep(t[d]) {
            SLASH
        } else if prev == PERCENT || prior == PERCENT {
            hex_upper(t[d])
        } else {
            t[d]
        }),
        squeeze(t.take(d + 1)) == (if repeats_sep(t.take(d + 1), d) {
            squeeze(t.take(d))
        } else {
            squeeze(t.take(d)).push(folded(t.take(d + 1), d))
        }),
        well_formed_upto(t, d + 1) == (well_formed_upto(t, d) && is_ref_byte(t[d]) && (in_escape(
            t,
            d,
        ) ==> is_hex(t[d]))),
        escapes_closed(t.take(d + 1)) == (t[d] != PERCENT && prev != PERCENT),
{
    let now = t.take(d + 1);
    assert(now.drop_last() =~= t.take(d));
    assert(now[d] == t[d]);
    if d >= 1 {
        assert(now[d - 1] == t[d - 1]);
    }
    if d >= 2 {
        assert(now[d - 2] == t[d - 2]);
    }
    assert(in_escape(now, d) == in_escape(t, d));
    if well_formed_upto(t, d) && is_ref_byte(t[d]) && (in_escape(t, d) ==> is_hex(t[d])) {
        assert forall|i: int| 0 <= i < d + 1 implies is_ref_byte(#[trigger] t[i]) && (in_escape(
            t,
            i,
        ) ==> is_hex(t[i])) by {
            if i < d {
                assert(is_ref_byte(t[i]));
            }
        }
    }
    if well_formed_upto(t, d + 1) {
        assert(is_ref_byte(t[d]));
        assert forall|i: int| 0 <= i < d implies is_ref_byte(#[trigger] t[i]) && (in_escape(
            t,
            i,
        ) ==> is_hex(t[i])) by {
            assert(is_ref_byte(t[i]));
        }
    }
}

/// A buffer written at its first free place and then counted one longer,
/// or not, holds what it held, with or without the new byte.
proof fn lemma_write(out: Seq<u8>, kept: int, byte: u8, keep: u8)
    requires
        0 <= kept < out.len(),
        keep == 0 || keep == 1,
    ensures
        out.update(kept, byte).take(kept + keep) == (if keep == 1 {
            out.take(kept).push(byte)
        } else {
            out.take(kept)
        }),
{
    assert(out.update(kept, byte).take(kept + keep) =~= if keep == 1 {
        out.take(kept).push(byte)
    } else {
        out.take(kept)
    });
}

/// The canonical form of `raw`, or `InvalidReference` where it has none,
/// computed as the execution mode asks.
pub fn normalize_reference(raw: &[u8]) -> (r: Result<Vec<u8>, HashError>)
    ensures
        match r {
            Ok(v) => canonical_reference(raw@) == Some(v@),
            Err(e) => e == HashError::InvalidReference && canonical_reference(raw@) is None,
        },
{
    if CONSTANT_TIME {
        normalize_reference_ct(raw)
    } else {
        normalize_reference_std(raw)
    }
}

/// The canonical form of `raw`, or `InvalidReference` where it has none.
///
/// The bytes are read one by one, and the first that cannot stand where it
/// does ends the work.
pub fn normalize_reference_std(raw: &[u8]) -> (r: Result<Vec<u8>, HashError>)
    ensures
        match r {
            Ok(v) => canonical_reference(raw@) == Some(v@),
            Err(e) => e == HashError::InvalidReference && canonical_reference(raw@) is None,
        },
{
    let (a, b) = trim_bounds_std(raw);
    let t: &[u8] = &raw[a..b];
    let m: usize = t.len();
    let mut out: Vec<u8> = Vec::new();
    let mut i: usize = 0;
    proof {
        lemma_well_formed_backward(t@);
        assert(t@.take(0) =~= Seq::<u8>::empty());
    }
    while i < m
        invariant
            i <= m,
            m == t@.len(),
            t@ == trim(raw@),
            out@ == squeeze(t@.take(i as int)),
            well_formed_upto(t@, i as int),
            well_formed(t@) <==> well_formed_upto(t@, t@.len() as int) && escapes_closed(t@),
        decreases m - i,
    {
        let c: u8 = t[i];
        let escaped: bool = (i >= 1 && t[i - 1] == PERCENT) || (i >= 2 && t[i - 2] == PERCENT);
        let hex: bool = (0x30 <= c && c <= 0x39) || (0x41 <= c && c <= 0x46) || (0x61 <= c && c
            <= 0x66);
        proof {
            lemma_step(
                t@,
                i as int,
                if i >= 1 { t@[i - 1] } else { 0u8 },
                if i >= 2 { t@[i - 2] } else { 0u8 },
            );
        }
        if c <= SPACE || c == DELETE || (escaped && !hex) {
            assert(!well_formed_upto(t@, i + 1));
            assert(!well_formed_upto(t@, t@.len() as int)) by {
                if well_formed_upto(t@, t@.len() as int) {
                    assert(is_ref_byte(t@[i as int]));
                }
            }
            return Err(HashError::InvalidReference);
        }
        if c == SLASH || c == BACKSLASH {
            if !(i >= 1 && (t[i - 1] == SLASH || t[i - 1] == BACKSLASH)) {
                out.push(SLASH);
            }
        } else if escaped && 0x61 <= c {
            out.push(c - 0x20);
        } else {
            out.push(c);
        }
        i = i + 1;
    }
    assert(t@.take(m as int) =~= t@);
    if (m >= 1 && t[m - 1] == PERCENT) || (m >= 2 && t[m - 2] == PERCENT) {
        return Err(HashError::InvalidReference);
    }
    if out.len() > 1 && out[out.len() - 1] == SLASH {
        out.pop();
        assert(out@ =~= chop(squeeze(t@)));
    }
    Ok(out)
}

/// The canonical form of `raw`, or `InvalidReference` where it has none.
///
/// Every byte of `raw` is looked at once, in a pass that neither branches
/// on a byte nor stops early: each byte is classified, folded and counted
/// with the branch-free primitives, and a rejection is only reported once
/// every byte was seen. Control flow depends on the length of `raw` alone;
/// the place at which a byte is written depends on how many were kept
/// before it.
pub fn normalize_reference_ct(raw: &[u8]) -> (r: Result<Vec<u8>, HashError>)
    ensures
        match r {
            Ok(v) => canonical_reference(raw@) == Some(v@),
            Err(e) => e == HashError::InvalidReference && canonical_reference(raw@) is None,
        },
{
    let n: usize = raw.len();
    let (a, b) = trim_bounds_ct(raw);
    let ghost t = raw@.subrange(a as int, b as int);
    if n == 0 {
        assert(squeeze(t) =~= Seq::<u8>::empty());
        return Ok(Vec::new());
    }
    let (mut out, mut kept, well) = squeeze_pass(raw, a, b);
    let last: u8 = out[kept - ge_index_bit(kept, 1) as usize];
    let drop: u8 = and_bit(ge_index_bit(kept, 2), eq_bit(last, SLASH));
    kept = kept - drop as usize;
    out.truncate(kept);
    assert(out@ =~= chop(squeeze(t)));
    if well {
        Ok(out)
    } else {
        Err(HashError::InvalidReference)
    }
}

/// The pass over the bytes of `raw`, of which `raw[a..b]` is the trimmed
/// part: the buffer that starts with what the trimmed part is squeezed to,
/// the length of that, and whether the trimmed part is well formed.
fn squeeze_pass(raw: &[u8], a: usize, b: usize) -> (r: (Vec<u8>, usize, bool))
    requires
        a <= b <= raw@.len(),
        raw@.len() > 0,
        forall|j: int| 0 <= j < a ==> is_ws(#[trigger] raw@[j]),
    ensures
        r.0@.len() == raw@.len(),
        r.1 <= b - a,
        r.0@.take(r.1 as int) == squeeze(raw@.subrange(a as int, b as int)),
        r.2 == well_formed(raw@.subrange(a as int, b as int)),
{
    let n: usize = raw.len();
    let ghost t = raw@.subrange(a as int, b as int);
    let mut out: Vec<u8> = vec![0u8; n];
    let mut kept: usize = 0;
    let mut bad: u8 = 0;
    let mut open: u8 = 0;
    let mut prev: u8 = 0;
    let mut prior: u8 = 0;
    let mut i: usize = 0;
    assert(t.take(0) =~= Seq::<u8>::empty());
    assert(out@.take(0) =~= Seq::<u8>::empty());
    while i < n
        invariant
            i <= n,
            n == raw@.len(),
            a <= b <= n,
            t == raw@.subrange(a as int, b as int),
            forall|j: int| 0 <= j < a ==> is_ws(#[trigger] raw@[j]),
            out@.len() == n,
            kept <= trimmed_before(i as int, a as int, b as int),
            out@.take(kept as int) == squeeze(t.take(trimmed_before(i as int, a as int, b as int))),
            bad == 0 || bad == 1,
            bad == 0 <==> well_formed_upto(t, trimmed_before(i as int, a as int, b as int)),
            open == 0 || open == 1,
            open == 0 <==> escapes_closed(t.take(trimmed_before(i as int, a as int, b as int))),
            prev == (if i >= 1 { raw@[i - 1] } else { 0u8 }),
            prior == (if i >= 2 { raw@[i - 2] } else { 0u8 }),
        decreases n - i,
    {
        let c: u8 = raw[i];
        let inside: u8 = and_bit(ge_index_bit(i, a), not_bit(ge_index_bit(i, b)));
        let sep: u8 = sep_bit(c);
        let esc: u8 = or_bit(eq_bit(prev, PERCENT), eq_bit(prior, PERCENT));
        let ok: u8 = and_bit(ref_byte_bit(c), or_bit(not_bit(esc), hex_bit(c)));
        let byte: u8 = select(sep, SLASH, select(esc, to_hex_upper(c), c));
        let keep: u8 = and_bit(inside, not_bit(and_bit(sep, sep_bit(prev))));
        let open_now: u8 = or_bit(eq_bit(c, PERCENT), eq_bit(prev, PERCENT));
        proof {
            if inside == 1 {
                let d = i - a;
                assert(t[d] == c);
                if d >= 1 {
                    assert(t[d - 1] == raw@[i - 1]);
                } else if i >= 1 {
                    assert(is_ws(raw@[i - 1]));
                }
                if d >= 2 {
                    assert(t[d - 2] == raw@[i - 2]);
                } else if i >= 2 {
                    assert(is_ws(raw@[i - 2]));
                }
                lemma_step(t, d, prev, prior);
            }
            lemma_write(out@, kept as int, byte, keep);
        }
        out.set(kept, byte);
        kept = kept + keep as usize;
        bad = or_bit(bad, and_bit(inside, not_bit(ok)));
        open = select(inside, open_now, open);
        prior = prev;
        prev = c;
        i = i + 1;
    }
    proof {
        assert(t.take(b - a) =~= t);
        lemma_well_formed_backward(t);
    }
    (out, kept, or_bit(bad, open) == 0)
}

} // verus!
