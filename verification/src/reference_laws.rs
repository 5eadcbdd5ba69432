//! What holds of the canonical form of a reference: what it looks like,
//! that it is its own canonical form, and which differences between two
//! references it does not keep.

use vstd::prelude::*;
use crate::bytes::{hex_upper, is_hex, is_ref_byte, is_sep, is_ws, BACKSLASH, PERCENT, SLASH};
use crate::reference::{
    canonical_reference, chop, escapes_closed, folded, in_escape, lemma_well_formed_backward,
    repeats_sep, squeeze, well_formed, well_formed_upto,
};
use crate::trim::{lemma_trim_fixed, lemma_trim_is_subrange, lemma_trim_shape, trim};

verus! {

/// What a canonical reference looks like: it can be canonicalized, its
/// separators are single `/`, none closes it unless it stands alone, and
/// its escapes are in upper case.
pub open spec fn is_canonical(c: Seq<u8>) -> bool {
    &&& well_formed(c)
    &&& tidy(c)
    &&& c.len() > 1 ==> c.last() != SLASH
}

/// The part of being canonical that every prefix shares.
pub open spec fn tidy(u: Seq<u8>) -> bool {
    &&& forall|i: int| 0 <= i < u.len() ==> #[trigger] u[i] != BACKSLASH
    &&& forall|i: int| 0 < i < u.len() ==> !(#[trigger] u[i] == SLASH && u[i - 1] == SLASH)
    &&& forall|i: int|
        0 <= i < u.len() && in_escape(u, i) ==> hex_upper(#[trigger] u[i]) == u[i]
}

/// What `squeeze` makes of a sequence whose bytes are allowed and whose
/// escapes, as far as they go, hold hexadecimal digits.
pub proof fn lemma_squeeze_shape(p: Seq<u8>)
    requires
        well_formed_upto(p, p.len() as int),
    ensures
        squeeze(p).len() <= p.len(),
        p.len() > 0 ==> squeeze(p).len() > 0 && squeeze(p).last() == folded(p, p.len() - 1),
        p.len() >= 2 && !is_sep(p.last()) ==> squeeze(p).len() >= 2 && squeeze(p)[squeeze(
            p,
        ).len() - 2] == folded(p, p.len() - 2),
        well_formed_upto(squeeze(p), squeeze(p).len() as int),
        tidy(squeeze(p)),
    decreases p.len(),
{
    if p.len() > 0 {
        let d = p.drop_last();
        let n = p.len() - 1;
        assert forall|i: int| 0 <= i < d.len() implies is_ref_byte(#[trigger] d[i]) && (in_escape(
            d,
            i,
        ) ==> is_hex(d[i])) by {
            assert(d[i] == p[i]);
            assert(is_ref_byte(p[i]));
            assert(in_escape(d, i) == in_escape(p, i));
        }
        lemma_squeeze_shape(d);
        let v = squeeze(d);
        let u = squeeze(p);
        assert(is_ref_byte(p[n]));
        if n >= 1 {
            assert(is_ref_byte(p[n - 1]));
            assert(folded(d, n - 1) == folded(p, n - 1));
        }
        if n >= 2 {
            assert(is_ref_byte(p[n - 2]));
            assert(folded(d, n - 2) == folded(p, n - 2));
        }
        if repeats_sep(p, n) {
            assert(u == v);
        } else {
            let b = folded(p, n);
            assert(u == v.push(b));
            let m = v.len() as int;
            assert(is_ref_byte(b));
            // the byte before the new one, and the one before that
            if m >= 1 {
                assert(v[m - 1] == folded(p, n - 1));
                assert((v[m - 1] == PERCENT) == (p[n - 1] == PERCENT));
                assert((v[m - 1] == SLASH) == is_sep(p[n - 1]));
            }
            if m >= 2 && v[m - 2] == PERCENT {
                assert(in_escape(v, m - 1));
                assert(is_hex(v[m - 1]));
                assert(!is_sep(p[n - 1]));
                assert(v[m - 2] == folded(p, n - 2));
                assert(p[n - 2] == PERCENT);
            }
            assert(in_escape(u, m) ==> in_escape(p, n));
            assert forall|i: int| 0 <= i < u.len() implies is_ref_byte(#[trigger] u[i]) && (
            in_escape(u, i) ==> is_hex(u[i])) by {
                if i < m {
                    assert(u[i] == v[i]);
                    assert(is_ref_byte(v[i]));
                    assert(in_escape(u, i) == in_escape(v, i));
                }
            }
            assert forall|i: int| 0 <= i < u.len() implies #[trigger] u[i] != BACKSLASH by {
                if i < m {
                    assert(u[i] == v[i]);
                }
            }
            assert forall|i: int| 0 < i < u.len() implies !(#[trigger] u[i] == SLASH && u[i - 1]
                == SLASH) by {
                if i < m {
                    assert(u[i] == v[i]);
                    assert(u[i - 1] == v[i - 1]);
                }
            }
            assert forall|i: int| 0 <= i < u.len() && in_escape(u, i) implies hex_upper(
                #[trigger] u[i],
            ) == u[i] by {
                if i < m {
                    assert(u[i] == v[i]);
                    assert(in_escape(u, i) == in_escape(v, i));
                }
            }
        }
    }
}

/// A tidy sequence is what `squeeze` makes of it.
pub proof fn lemma_squeeze_fixed(c: Seq<u8>)
    requires
        tidy(c),
    ensures
        squeeze(c) == c,
    decreases c.len(),
{
    if c.len() > 0 {
        let d = c.drop_last();
        let n = c.len() - 1;
        assert forall|i: int| 0 <= i < d.len() && in_escape(d, i) implies hex_upper(
            #[trigger] d[i],
        ) == d[i] by {
            assert(d[i] == c[i]);
            assert(in_escape(d, i) == in_escape(c, i));
        }
        assert forall|i: int| 0 < i < d.len() implies !(#[trigger] d[i] == SLASH && d[i - 1]
            == SLASH) by {
            assert(d[i] == c[i]);
        }
        assert(tidy(d));
        lemma_squeeze_fixed(d);
        assert(c[n] != BACKSLASH);
        if n >= 1 {
            assert(c[n - 1] != BACKSLASH);
            assert(!(c[n] == SLASH && c[n - 1] == SLASH));
        }
        assert(!repeats_sep(c, n));
        assert(folded(c, n) == c[n]);
        assert(d.push(c[n]) =~= c);
    }
}

/// The canonical form of a reference is canonical.
pub proof fn law_reference_canonical(raw: Seq<u8>)
    requires
        canonical_reference(raw) is Some,
    ensures
        is_canonical(canonical_reference(raw)->Some_0),
{
    let t = trim(raw);
    lemma_well_formed_backward(t);
    lemma_squeeze_shape(t);
    let u = squeeze(t);
    let c = chop(u);
    let m = u.len() as int;
    // no escape is left open at the end of `u`
    if t.len() >= 1 {
        assert(u[m - 1] == folded(t, t.len() - 1));
        assert(u[m - 1] != PERCENT);
    }
    if m >= 2 && u[m - 2] == PERCENT {
        assert(in_escape(u, m - 1));
        assert(is_hex(u[m - 1]));
        assert(!is_sep(t.last()));
        assert(false);
    }
    if c.len() < m {
        // a closing separator was dropped
        assert(u[m - 1] == SLASH);
        assert(c =~= u.take(m - 1));
        if m >= 2 && u[m - 2] == SLASH {
            assert(!(u[m - 1] == SLASH && u[m - 1 - 1] == SLASH));
        }
        if m >= 3 && u[m - 3] == PERCENT {
            assert(in_escape(u, m - 1));
            assert(is_hex(u[m - 1]));
        }
        assert forall|i: int| 0 <= i < c.len() implies is_ref_byte(#[trigger] c[i]) && (in_escape(
            c,
            i,
        ) ==> is_hex(c[i])) by {
            assert(c[i] == u[i]);
            assert(is_ref_byte(u[i]));
            assert(in_escape(c, i) == in_escape(u, i));
        }
        assert forall|i: int| 0 <= i < c.len() && in_escape(c, i) implies hex_upper(
            #[trigger] c[i],
        ) == c[i] by {
            assert(c[i] == u[i]);
            assert(in_escape(c, i) == in_escape(u, i));
        }
        assert forall|i: int| 0 < i < c.len() implies !(#[trigger] c[i] == SLASH && c[i - 1]
            == SLASH) by {
            assert(c[i] == u[i]);
        }
        assert forall|i: int| 0 <= i < c.len() implies #[trigger] c[i] != BACKSLASH by {
            assert(c[i] == u[i]);
        }
    }
    lemma_well_formed_backward(c);
}

/// A canonical reference is its own canonical form.
pub proof fn law_canonical_reference_fixed(c: Seq<u8>)
    requires
        is_canonical(c),
    ensures
        canonical_reference(c) == Some(c),
{
    if c.len() > 0 {
        assert(is_ref_byte(c[0]));
        assert(is_ref_byte(c.last()));
    }
    lemma_trim_fixed(c);
    lemma_squeeze_fixed(c);
}

/// Normalizing a reference twice gives what normalizing it once gives.
pub proof fn law_reference_idempotent(raw: Seq<u8>)
    requires
        canonical_reference(raw) is Some,
    ensures
        canonical_reference(canonical_reference(raw)->Some_0) == canonical_reference(raw),
{
    law_reference_canonical(raw);
    law_canonical_reference_fixed(canonical_reference(raw)->Some_0);
}

/// The bytes at position `i` of `x` and `y` differ at most in separator
/// style or in the case of an escape digit.
pub open spec fn alike_at(x: Seq<u8>, y: Seq<u8>, i: int) -> bool {
    ||| x[i] == y[i]
    ||| is_sep(x[i]) && is_sep(y[i])
    ||| in_escape(x, i) && hex_upper(x[i]) == hex_upper(y[i])
}

/// `x` and `y` are equally long and differ at most in separator style and
/// in the case of escape digits.
pub open spec fn alike(x: Seq<u8>, y: Seq<u8>) -> bool {
    x.len() == y.len() && forall|i: int| 0 <= i < x.len() ==> #[trigger] alike_at(x, y, i)
}

/// What two alike sequences share, byte by byte.
proof fn lemma_alike_bytes(x: Seq<u8>, y: Seq<u8>, i: int)
    requires
        alike(x, y),
        0 <= i < x.len(),
    ensures
        is_ws(x[i]) == is_ws(y[i]),
        is_sep(x[i]) == is_sep(y[i]),
        is_ref_byte(x[i]) == is_ref_byte(y[i]),
        is_hex(x[i]) == is_hex(y[i]),
        (x[i] == PERCENT) == (y[i] == PERCENT),
        in_escape(x, i) == in_escape(y, i),
        folded(x, i) == folded(y, i),
        repeats_sep(x, i) == repeats_sep(y, i),
{
    assert(alike_at(x, y, i));
    if i >= 1 {
        assert(alike_at(x, y, i - 1));
    }
    if i >= 2 {
        assert(alike_at(x, y, i - 2));
    }
}

/// The parts of two alike sequences between the same bounds are alike,
/// where only whitespace comes before the part.
proof fn lemma_alike_part(x: Seq<u8>, y: Seq<u8>, a: int, b: int)
    requires
        alike(x, y),
        0 <= a <= b <= x.len(),
        forall|j: int| 0 <= j < a ==> is_ws(#[trigger] x[j]),
    ensures
        alike(x.subrange(a, b), y.subrange(a, b)),
{
    let p = x.subrange(a, b);
    let q = y.subrange(a, b);
    assert forall|i: int| 0 <= i < p.len() implies #[trigger] alike_at(p, q, i) by {
        assert(alike_at(x, y, a + i));
        assert(p[i] == x[a + i]);
        assert(q[i] == y[a + i]);
        if in_escape(x, a + i) {
            if a + i >= 1 && x[a + i - 1] == PERCENT {
                if i < 1 {
                    assert(is_ws(x[a + i - 1]));
                } else {
                    assert(p[i - 1] == x[a + i - 1]);
                }
            } else {
                if i < 2 {
                    assert(is_ws(x[a + i - 2]));
                } else {
                    assert(p[i - 2] == x[a + i - 2]);
                }
            }
            assert(in_escape(p, i));
        }
    }
}

/// Two alike sequences are squeezed to the same bytes.
proof fn lemma_alike_squeeze(x: Seq<u8>, y: Seq<u8>)
    requires
        alike(x, y),
    ensures
        squeeze(x) == squeeze(y),
    decreases x.len(),
{
    if x.len() > 0 {
        let n = x.len() - 1;
        let dx = x.drop_last();
        let dy = y.drop_last();
        assert forall|i: int| 0 <= i < dx.len() implies #[trigger] alike_at(dx, dy, i) by {
            assert(alike_at(x, y, i));
            assert(in_escape(dx, i) == in_escape(x, i));
        }
        lemma_alike_squeeze(dx, dy);
        lemma_alike_bytes(x, y, n);
    }
}

/// Two alike sequences are well formed together.
proof fn lemma_alike_well_formed(x: Seq<u8>, y: Seq<u8>)
    requires
        alike(x, y),
    ensures
        well_formed(x) == well_formed(y),
{
    lemma_well_formed_backward(x);
    lemma_well_formed_backward(y);
    assert forall|i: int| 0 <= i < x.len() implies (is_ref_byte(#[trigger] x[i]) && (in_escape(
        x,
        i,
    ) ==> is_hex(x[i]))) == (is_ref_byte(#[trigger] y[i]) && (in_escape(y, i) ==> is_hex(
        y[i],
    ))) by {
        lemma_alike_bytes(x, y, i);
    }
    if x.len() >= 1 {
        lemma_alike_bytes(x, y, x.len() - 1);
    }
    if x.len() >= 2 {
        lemma_alike_bytes(x, y, x.len() - 2);
    }
    assert(escapes_closed(x) == escapes_closed(y));
    assert(well_formed_upto(x, x.len() as int) == well_formed_upto(y, y.len() as int)) by {
        if well_formed_upto(x, x.len() as int) {
            assert forall|i: int| 0 <= i < y.len() implies is_ref_byte(#[trigger] y[i]) && (
            in_escape(y, i) ==> is_hex(y[i])) by {
                assert(is_ref_byte(x[i]));
            }
        }
        if well_formed_upto(y, y.len() as int) {
            assert forall|i: int| 0 <= i < x.len() implies is_ref_byte(#[trigger] x[i]) && (
            in_escape(x, i) ==> is_hex(x[i])) by {
                assert(is_ref_byte(y[i]));
            }
        }
    }
}

/// Separator style and the case of escape digits do not matter: two
/// references that differ in nothing else have the same canonical form.
pub proof fn law_reference_ignores_style(x: Seq<u8>, y: Seq<u8>)
    requires
        alike(x, y),
    ensures
        canonical_reference(x) == canonical_reference(y),
{
    let (a, b) = lemma_trim_shape(x);
    assert forall|j: int| 0 <= j < a implies is_ws(#[trigger] y[j]) by {
        lemma_alike_bytes(x, y, j);
        assert(is_ws(x[j]));
    }
    assert forall|j: int| b <= j < y.len() implies is_ws(#[trigger] y[j]) by {
        lemma_alike_bytes(x, y, j);
        assert(is_ws(x[j]));
    }
    if a < b {
        assert(trim(x)[0] == x[a]);
        assert(trim(x).last() == x[b - 1]);
        lemma_alike_bytes(x, y, a);
        lemma_alike_bytes(x, y, b - 1);
    }
    lemma_trim_is_subrange(y, a, b);
    lemma_alike_part(x, y, a, b);
    lemma_alike_well_formed(trim(x), trim(y));
    lemma_alike_squeeze(trim(x), trim(y));
}

/// What follows two sequences is squeezed alike after both, where the two
/// are squeezed to the same bytes and end alike: in a separator or not,
/// and with a `%` in the same of their last two places.
proof fn lemma_squeeze_suffix(p: Seq<u8>, q: Seq<u8>, y: Seq<u8>)
    requires
        p.len() >= 1,
        q.len() >= 1,
        squeeze(p) == squeeze(q),
        is_sep(p.last()) == is_sep(q.last()),
        (p.last() == PERCENT) == (q.last() == PERCENT),
        (p.len() >= 2 && p[p.len() - 2] == PERCENT) == (q.len() >= 2 && q[q.len() - 2]
            == PERCENT),
    ensures
        squeeze(p + y) == squeeze(q + y),
    decreases y.len(),
{
    if y.len() == 0 {
        assert(p + y =~= p);
        assert(q + y =~= q);
    } else {
        let d = y.drop_last();
        lemma_squeeze_suffix(p, q, d);
        let u = p + y;
        let v = q + y;
        assert(u.drop_last() =~= p + d);
        assert(v.drop_last() =~= q + d);
        let n = u.len() - 1;
        let m = v.len() - 1;
        let k = y.len() as int;
        assert(u[n] == y[k - 1] && v[m] == y[k - 1]);
        if k >= 2 {
            assert(u[n - 1] == y[k - 2] && v[m - 1] == y[k - 2]);
        } else {
            assert(u[n - 1] == p.last() && v[m - 1] == q.last());
        }
        if k >= 3 {
            assert(u[n - 2] == y[k - 3] && v[m - 2] == y[k - 3]);
        } else if k == 2 {
            assert(u[n - 2] == p.last() && v[m - 2] == q.last());
        } else {
            if p.len() >= 2 {
                assert(u[n - 2] == p[p.len() - 2]);
            }
            if q.len() >= 2 {
                assert(v[m - 2] == q[q.len() - 2]);
            }
        }
        assert(repeats_sep(u, n) == repeats_sep(v, m));
        assert(in_escape(u, n) == in_escape(v, m));
        assert(folded(u, n) == folded(v, m));
    }
}

/// A second separator after a separator changes neither whether a trimmed
/// reference is well formed nor what it is squeezed to.
proof fn lemma_repeated_separator(x: Seq<u8>, s1: u8, s2: u8, y: Seq<u8>)
    requires
        is_sep(s1),
        is_sep(s2),
    ensures
        well_formed(x + seq![s1] + y) == well_formed(x + seq![s1, s2] + y),
        well_formed(x + seq![s1] + y) ==> squeeze(x + seq![s1] + y) == squeeze(
            x + seq![s1, s2] + y,
        ),
{
    let t = x + seq![s1] + y;
    let w = x + seq![s1, s2] + y;
    let n = x.len() as int;
    assert forall|i: int| 0 <= i < w.len() implies w[i] == (if i <= n {
        t[i]
    } else if i == n + 1 {
        s2
    } else {
        t[i - 1]
    }) by {}
    assert(t[n] == s1);
    lemma_well_formed_backward(t);
    lemma_well_formed_backward(w);
    // a `%` just before the separator leaves both ill formed
    if n >= 1 && x[n - 1] == PERCENT {
        assert(t[n - 1] == PERCENT && w[n - 1] == PERCENT);
        assert(in_escape(t, n) && !is_hex(t[n]));
        assert(in_escape(w, n) && !is_hex(w[n]));
        assert(!well_formed_upto(t, t.len() as int));
        assert(!well_formed_upto(w, w.len() as int));
    } else {
        if n >= 1 {
            assert(t[n - 1] == x[n - 1]);
        }
        if well_formed(t) {
            assert forall|i: int| 0 <= i < w.len() implies is_ref_byte(#[trigger] w[i]) && (
            in_escape(w, i) ==> is_hex(w[i])) by {
                if i <= n {
                    assert(is_ref_byte(t[i]));
                    assert(in_escape(w, i) == in_escape(t, i));
                } else if i == n + 1 {
                    assert(!in_escape(w, i));
                } else {
                    assert(is_ref_byte(t[i - 1]));
                    assert(in_escape(w, i) ==> in_escape(t, i - 1));
                }
            }
            assert(escapes_closed(w));
        }
        if well_formed(w) {
            assert forall|i: int| 0 <= i < t.len() implies is_ref_byte(#[trigger] t[i]) && (
            in_escape(t, i) ==> is_hex(t[i])) by {
                if i <= n {
                    assert(is_ref_byte(w[i]));
                    assert(in_escape(w, i) == in_escape(t, i));
                } else {
                    assert(is_ref_byte(w[i + 1]));
                    assert(in_escape(t, i) ==> in_escape(w, i + 1));
                }
            }
            assert(escapes_closed(t));
        }
        let p = x + seq![s1];
        let q = x + seq![s1, s2];
        assert(q.drop_last() =~= p);
        assert(repeats_sep(q, q.len() - 1));
        assert(squeeze(q) == squeeze(p));
        if n >= 1 {
            assert(p[p.len() - 2] == x[n - 1]);
        }
        lemma_squeeze_suffix(p, q, y);
    }
}

/// Separator repetition does not matter: a reference with a second
/// separator put after one of its separators has the same canonical form.
pub proof fn law_reference_ignores_repetition(x: Seq<u8>, s1: u8, s2: u8, y: Seq<u8>)
    requires
        is_sep(s1),
        is_sep(s2),
    ensures
        canonical_reference(x + seq![s1] + y) == canonical_reference(x + seq![s1, s2] + y),
{
    let raw = x + seq![s1] + y;
    let more = x + seq![s1, s2] + y;
    let n = x.len() as int;
    let (a, b) = lemma_trim_shape(raw);
    assert(raw[n] == s1);
    assert(!is_ws(raw[n]));
    assert(a <= n < b);
    assert(trim(raw)[0] == raw[a]);
    assert(trim(raw).last() == raw[b - 1]);
    assert forall|i: int| 0 <= i < more.len() implies more[i] == (if i <= n {
        raw[i]
    } else if i == n + 1 {
        s2
    } else {
        raw[i - 1]
    }) by {}
    assert forall|j: int| 0 <= j < a implies is_ws(#[trigger] more[j]) by {
        assert(is_ws(raw[j]));
    }
    assert forall|j: int| b + 1 <= j < more.len() implies is_ws(#[trigger] more[j]) by {
        assert(is_ws(raw[j - 1]));
    }
    lemma_trim_is_subrange(more, a, b + 1);
    let head = x.skip(a);
    let tail = y.take(b - n - 1);
    assert(trim(raw) =~= head + seq![s1] + tail);
    assert(trim(more) =~= head + seq![s1, s2] + tail);
    lemma_repeated_separator(head, s1, s2, tail);
}

/// A closing separator does not matter: a reference that is not empty and
/// does not end in whitespace has the same canonical form with a separator
/// put after it.
pub proof fn law_reference_ignores_closing_separator(x: Seq<u8>, s: u8)
    requires
        is_sep(s),
        x.len() > 0,
        !is_ws(x.last()),
    ensures
        canonical_reference(x + seq![s]) == canonical_reference(x),
{
    let raw = x + seq![s];
    let n = x.len() as int;
    let (a, b) = lemma_trim_shape(x);
    assert(b == n) by {
        if b < n {
            assert(is_ws(x[n - 1]));
        }
    }
    assert(a < b) by {
        if a == b {
            assert(is_ws(x[n - 1]));
        }
    }
    assert(trim(x)[0] == x[a]);
    assert forall|j: int| 0 <= j < a implies is_ws(#[trigger] raw[j]) by {
        assert(raw[j] == x[j]);
    }
    assert(raw[a] == x[a]);
    assert(raw[n] == s);
    lemma_trim_is_subrange(raw, a, n + 1);
    let t = trim(x);
    let w = trim(raw);
    assert(w =~= t.push(s));
    assert(w.drop_last() =~= t);
    let m = t.len() as int;
    lemma_well_formed_backward(t);
    lemma_well_formed_backward(w);
    assert forall|i: int| 0 <= i < m implies in_escape(w, i) == in_escape(t, i) by {}
    if is_sep(t.last()) {
        // the new separator repeats the last one
        assert(repeats_sep(w, m));
        assert(squeeze(w) == squeeze(t));
        if well_formed(t) {
            assert forall|i: int| 0 <= i < w.len() implies is_ref_byte(#[trigger] w[i]) && (
            in_escape(w, i) ==> is_hex(w[i])) by {
                if i < m {
                    assert(is_ref_byte(t[i]));
                    assert(in_escape(w, i) == in_escape(t, i));
                } else {
                    if m >= 2 && t[m - 2] == PERCENT {
                        assert(in_escape(t, m - 1));
                        assert(is_ref_byte(t[m - 1]));
                    }
                }
            }
        }
        if well_formed(w) {
            assert forall|i: int| 0 <= i < t.len() implies is_ref_byte(#[trigger] t[i]) && (
            in_escape(t, i) ==> is_hex(t[i])) by {
                assert(is_ref_byte(w[i]));
                assert(in_escape(w, i) == in_escape(t, i));
            }
            if m >= 2 && t[m - 2] == PERCENT {
                assert(in_escape(w, m - 1));
                assert(is_ref_byte(w[m - 1]));
            }
        }
    } else {
        assert(!repeats_sep(w, m));
        assert(squeeze(w) == squeeze(t).push(SLASH));
        if well_formed(t) {
            lemma_squeeze_shape(t);
            assert(squeeze(t).last() == folded(t, m - 1));
            assert(squeeze(t).last() != SLASH);
            assert(squeeze(w).drop_last() =~= squeeze(t));
            assert forall|i: int| 0 <= i < w.len() implies is_ref_byte(#[trigger] w[i]) && (
            in_escape(w, i) ==> is_hex(w[i])) by {
                if i < m {
                    assert(is_ref_byte(t[i]));
                    assert(in_escape(w, i) == in_escape(t, i));
                }
            }
        }
        if well_formed(w) {
            assert forall|i: int| 0 <= i < t.len() implies is_ref_byte(#[trigger] t[i]) && (
            in_escape(t, i) ==> is_hex(t[i])) by {
                assert(is_ref_byte(w[i]));
                assert(in_escape(w, i) == in_escape(t, i));
            }
            if t[m - 1] == PERCENT || (m >= 2 && t[m - 2] == PERCENT) {
                assert(in_escape(w, m));
                assert(is_ref_byte(w[m]));
            }
        }
    }
}

/// The canonical form of a reference is no longer than the reference.
pub proof fn lemma_canonical_reference_length(raw: Seq<u8>)
    requires
        canonical_reference(raw) is Some,
    ensures
        canonical_reference(raw)->Some_0.len() <= raw.len(),
{
    let _ = lemma_trim_shape(raw);
    lemma_well_formed_backward(trim(raw));
    lemma_squeeze_shape(trim(raw));
}

} // verus!
