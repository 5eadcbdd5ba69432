//! Removal of the whitespace that surrounds a component.

use vstd::prelude::*;
use crate::bytes::{is_ws, ws_bit, ws_byte_std};
use crate::ct::{not_bit, or_bit, select_index};
use crate::mode::CONSTANT_TIME;

verus! {

/// `s` without its leading spaces and tabs.
pub open spec fn trim_start(s: Seq<u8>) -> Seq<u8>
    decreases s.len(),
{
    if s.len() > 0 && is_ws(s[0]) {
        trim_start(s.drop_first())
    } else {
        s
    }
}

/// `s` without its trailing spaces and tabs.
pub open spec fn trim_end(s: Seq<u8>) -> Seq<u8>
    decreases s.len(),
{
    if s.len() > 0 && is_ws(s.last()) {
        trim_end(s.drop_last())
    } else {
        s
    }
}

/// `s` without the spaces and tabs at either end.
pub open spec fn trim(s: Seq<u8>) -> Seq<u8> {
    trim_end(trim_start(s))
}

/// Every byte of `s` is a space or a tab.
pub open spec fn all_ws(s: Seq<u8>) -> bool {
    forall|i: int| 0 <= i < s.len() ==> is_ws(#[trigger] s[i])
}

/// Where the leading whitespace of `s` ends, `trim_start` begins.
pub proof fn lemma_trim_start_is_skip(s: Seq<u8>, a: int)
    requires
        0 <= a <= s.len(),
        forall|j: int| 0 <= j < a ==> is_ws(#[trigger] s[j]),
        a == s.len() || !is_ws(s[a]),
    ensures
        trim_start(s) == s.skip(a),
    decreases a,
{
    if a == 0 {
        assert(s.skip(0) =~= s);
    } else {
        assert(is_ws(s[0]));
        let r = s.drop_first();
        assert forall|j: int| 0 <= j < a - 1 implies is_ws(#[trigger] r[j]) by {
            assert(r[j] == s[j + 1]);
        }
        lemma_trim_start_is_skip(r, a - 1);
        assert(r.skip(a - 1) =~= s.skip(a));
    }
}

/// Where the trailing whitespace of `s` begins, `trim_end` ends.
pub proof fn lemma_trim_end_is_take(s: Seq<u8>, b: int)
    requires
        0 <= b <= s.len(),
        forall|j: int| b <= j < s.len() ==> is_ws(#[trigger] s[j]),
        b == 0 || !is_ws(s[b - 1]),
    ensures
        trim_end(s) == s.take(b),
    decreases s.len() - b,
{
    if b == s.len() {
        assert(s.take(b) =~= s);
    } else {
        assert(is_ws(s.last()));
        let r = s.drop_last();
        lemma_trim_end_is_take(r, b);
        assert(r.take(b) =~= s.take(b));
    }
}

/// What is left after trimming neither starts nor ends with whitespace, and
/// is a contiguous part of the input.
pub proof fn lemma_trim_shape(s: Seq<u8>) -> (bounds: (int, int))
    ensures
        0 <= bounds.0 <= bounds.1 <= s.len(),
        trim(s) == s.subrange(bounds.0, bounds.1),
        trim(s).len() > 0 ==> !is_ws(trim(s)[0]) && !is_ws(trim(s).last()),
        forall|j: int| 0 <= j < bounds.0 ==> is_ws(#[trigger] s[j]),
        forall|j: int| bounds.1 <= j < s.len() ==> is_ws(#[trigger] s[j]),
{
    let a = leading_ws(s);
    lemma_leading_ws(s);
    lemma_trim_start_is_skip(s, a);
    let m = s.skip(a);
    let k = trailing_ws(m);
    lemma_trailing_ws(m);
    let b = m.len() - k;
    lemma_trim_end_is_take(m, b);
    assert(m.take(b) =~= s.subrange(a, a + b));
    assert forall|j: int| a + b <= j < s.len() implies is_ws(#[trigger] s[j]) by {
        assert(m[j - a] == s[j]);
    }
    (a, a + b)
}

/// What neither starts nor ends with whitespace is its own trimmed form.
pub proof fn lemma_trim_fixed(c: Seq<u8>)
    requires
        c.len() > 0 ==> !is_ws(c[0]) && !is_ws(c.last()),
    ensures
        trim(c) == c,
{
}

/// Number of leading spaces and tabs.
pub open spec fn leading_ws(s: Seq<u8>) -> int
    decreases s.len(),
{
    if s.len() > 0 && is_ws(s[0]) {
        1 + leading_ws(s.drop_first())
    } else {
        0
    }
}

/// Number of trailing spaces and tabs.
pub open spec fn trailing_ws(s: Seq<u8>) -> int
    decreases s.len(),
{
    if s.len() > 0 && is_ws(s.last()) {
        1 + trailing_ws(s.drop_last())
    } else {
        0
    }
}

pub proof fn lemma_leading_ws(s: Seq<u8>)
    ensures
        0 <= leading_ws(s) <= s.len(),
        forall|j: int| 0 <= j < leading_ws(s) ==> is_ws(#[trigger] s[j]),
        leading_ws(s) == s.len() || !is_ws(s[leading_ws(s)]),
    decreases s.len(),
{
    if s.len() > 0 && is_ws(s[0]) {
        let r = s.drop_first();
        lemma_leading_ws(r);
        assert forall|j: int| 0 <= j < leading_ws(s) implies is_ws(#[trigger] s[j]) by {
            if j > 0 {
                assert(s[j] == r[j - 1]);
            }
        }
        if leading_ws(s) < s.len() {
            assert(s[leading_ws(s)] == r[leading_ws(r)]);
        }
    }
}

pub proof fn lemma_trailing_ws(s: Seq<u8>)
    ensures
        0 <= trailing_ws(s) <= s.len(),
        forall|j: int| s.len() - trailing_ws(s) <= j < s.len() ==> is_ws(#[trigger] s[j]),
        trailing_ws(s) == s.len() || !is_ws(s[s.len() - trailing_ws(s) - 1]),
    decreases s.len(),
{
    if s.len() > 0 && is_ws(s.last()) {
        let r = s.drop_last();
        lemma_trailing_ws(r);
        assert forall|j: int| s.len() - trailing_ws(s) <= j < s.len() implies is_ws(
            #[trigger] s[j],
        ) by {
            if j < s.len() - 1 {
                assert(s[j] == r[j]);
            }
        }
        if trailing_ws(s) < s.len() {
            assert(s[s.len() - trailing_ws(s) - 1] == r[r.len() - trailing_ws(r) - 1]);
        }
    }
}

/// The leading whitespace ends at the first byte that is neither a space
/// nor a tab.
pub proof fn lemma_leading_ws_is(s: Seq<u8>, k: int)
    requires
        0 <= k <= s.len(),
        forall|j: int| 0 <= j < k ==> is_ws(#[trigger] s[j]),
        k == s.len() || !is_ws(s[k]),
    ensures
        leading_ws(s) == k,
    decreases k,
{
    if k > 0 {
        assert(is_ws(s[0]));
        let r = s.drop_first();
        assert forall|j: int| 0 <= j < k - 1 implies is_ws(#[trigger] r[j]) by {
            assert(r[j] == s[j + 1]);
        }
        lemma_leading_ws_is(r, k - 1);
    }
}

/// The part between the leading and the trailing whitespace is what `trim`
/// keeps.
pub proof fn lemma_trim_is_subrange(s: Seq<u8>, a: int, b: int)
    requires
        0 <= a <= b <= s.len(),
        forall|j: int| 0 <= j < a ==> is_ws(#[trigger] s[j]),
        forall|j: int| b <= j < s.len() ==> is_ws(#[trigger] s[j]),
        a < b ==> !is_ws(s[a]) && !is_ws(s[b - 1]),
    ensures
        trim(s) == s.subrange(a, b),
{
    if a < b {
        lemma_trim_start_is_skip(s, a);
        let m = s.skip(a);
        assert forall|j: int| b - a <= j < m.len() implies is_ws(#[trigger] m[j]) by {
            assert(m[j] == s[j + a]);
        }
        assert(m[b - a - 1] == s[b - 1]);
        lemma_trim_end_is_take(m, b - a);
        assert(m.take(b - a) =~= s.subrange(a, b));
    } else {
        assert forall|j: int| 0 <= j < s.len() implies is_ws(#[trigger] s[j]) by {
            if j < a {
            } else {
            }
        }
        lemma_trim_start_is_skip(s, s.len() as int);
        assert(s.skip(s.len() as int) =~= Seq::<u8>::empty());
        assert(s.subrange(a, b) =~= Seq::<u8>::empty());
    }
}

/// Whitespace around a component does not matter: with spaces and tabs
/// put before and after it, `s` is trimmed to what it is trimmed to alone.
pub proof fn law_trim_ignores_surrounding_ws(before: Seq<u8>, s: Seq<u8>, after: Seq<u8>)
    requires
        all_ws(before),
        all_ws(after),
    ensures
        trim(before + s + after) == trim(s),
{
    let (a, b) = lemma_trim_shape(s);
    let raw = before + s + after;
    let n = before.len() as int;
    assert forall|j: int| 0 <= j < raw.len() implies raw[j] == (if j < n {
        before[j]
    } else if j < n + s.len() {
        s[j - n]
    } else {
        after[j - n - s.len()]
    }) by {}
    let t = trim(s);
    if a < b {
        assert(t[0] == s[a]);
        assert(t.last() == s[b - 1]);
        assert forall|j: int| 0 <= j < n + a implies is_ws(#[trigger] raw[j]) by {
            if j < n {
                assert(is_ws(before[j]));
            } else {
                assert(is_ws(s[j - n]));
            }
        }
        assert forall|j: int| n + b <= j < raw.len() implies is_ws(#[trigger] raw[j]) by {
            if j < n + s.len() {
                assert(is_ws(s[j - n]));
            } else {
                assert(is_ws(after[j - n - s.len()]));
            }
        }
        lemma_trim_is_subrange(raw, n + a, n + b);
        assert(raw.subrange(n + a, n + b) =~= s.subrange(a, b));
    } else {
        assert forall|j: int| 0 <= j < raw.len() implies is_ws(#[trigger] raw[j]) by {
            if j < n {
                assert(is_ws(before[j]));
            } else if j < n + s.len() {
                assert(is_ws(s[j - n]));
            } else {
                assert(is_ws(after[j - n - s.len()]));
            }
        }
        lemma_trim_is_subrange(raw, raw.len() as int, raw.len() as int);
        assert(raw.subrange(raw.len() as int, raw.len() as int) =~= s.subrange(a, b));
    }
}

/// Finds the part of `data` that `trim` keeps, as the execution mode asks.
pub fn trim_bounds(data: &[u8]) -> (r: (usize, usize))
    ensures
        r.0 <= r.1 <= data@.len(),
        data@.subrange(r.0 as int, r.1 as int) == trim(data@),
        forall|j: int| 0 <= j < r.0 ==> is_ws(#[trigger] data@[j]),
        forall|j: int| r.1 <= j < data@.len() ==> is_ws(#[trigger] data@[j]),
        r.0 == r.1 ==> r.0 == data@.len(),
{
    if CONSTANT_TIME {
        trim_bounds_ct(data)
    } else {
        trim_bounds_std(data)
    }
}

/// Finds the part of `data` that `trim` keeps.
///
/// Every byte is looked at once, whatever the bytes are: the bounds are
/// kept up to date with selections, not with branches.
pub fn trim_bounds_ct(data: &[u8]) -> (r: (usize, usize))
    ensures
        r.0 <= r.1 <= data@.len(),
        data@.subrange(r.0 as int, r.1 as int) == trim(data@),
        forall|j: int| 0 <= j < r.0 ==> is_ws(#[trigger] data@[j]),
        forall|j: int| r.1 <= j < data@.len() ==> is_ws(#[trigger] data@[j]),
        r.0 == r.1 ==> r.0 == data@.len(),
{
    let n: usize = data.len();
    let mut seen: u8 = 0;
    let mut start: usize = 0;
    let mut end: usize = 0;
    let mut i: usize = 0;
    while i < n
        invariant
            i <= n,
            n == data@.len(),
            seen == 0 || seen == 1,
            seen == 0 ==> start == i && end == 0 && forall|j: int|
                0 <= j < i ==> is_ws(#[trigger] data@[j]),
            seen == 1 ==> start < end <= i && !is_ws(data@[start as int]) && !is_ws(
                data@[end - 1],
            ) && (forall|j: int| 0 <= j < start ==> is_ws(#[trigger] data@[j])) && (forall|j: int|
                end <= j < i ==> is_ws(#[trigger] data@[j])),
        decreases n - i,
    {
        let solid: u8 = not_bit(ws_bit(data[i]));
        seen = or_bit(seen, solid);
        start = start + (1 - seen) as usize;
        end = select_index(solid, i + 1, end);
        i = i + 1;
    }
    let end: usize = select_index(seen, end, start);
    proof {
        lemma_trim_is_subrange(data@, start as int, end as int);
    }
    (start, end)
}

/// Finds the part of `data` that `trim` keeps.
///
/// The whitespace is walked over from either end, up to the first byte
/// that is none.
pub fn trim_bounds_std(data: &[u8]) -> (r: (usize, usize))
    ensures
        r.0 <= r.1 <= data@.len(),
        data@.subrange(r.0 as int, r.1 as int) == trim(data@),
        forall|j: int| 0 <= j < r.0 ==> is_ws(#[trigger] data@[j]),
        forall|j: int| r.1 <= j < data@.len() ==> is_ws(#[trigger] data@[j]),
        r.0 == r.1 ==> r.0 == data@.len(),
{
    let n: usize = data.len();
    let mut start: usize = 0;
    while start < n && ws_byte_std(data[start])
        invariant
            start <= n,
            n == data@.len(),
            forall|j: int| 0 <= j < start ==> is_ws(#[trigger] data@[j]),
        decreases n - start,
    {
        start = start + 1;
    }
    let mut end: usize = n;
    while end > start && ws_byte_std(data[end - 1])
        invariant
            start <= end <= n,
            n == data@.len(),
            forall|j: int| end <= j < n ==> is_ws(#[trigger] data@[j]),
        decreases end,
    {
        end = end - 1;
    }
    proof {
        lemma_trim_is_subrange(data@, start as int, end as int);
    }
    (start, end)
}

} // verus!
