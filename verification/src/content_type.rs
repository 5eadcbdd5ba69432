//! The content-type normalizer.
//!
//! A content type is `type "/" subtype` followed by any number of
//! parameters, each written `";" name "=" value`. Spaces and tabs may
//! surround the whole and either side of a `;`. Type, subtype and names are
//! tokens; a value is a token or a quoted string, in which `\` makes the
//! next byte literal.
//!
//! The canonical form is reached by these rules, and by no others:
//!
//! * the optional whitespace is dropped;
//! * type and subtype are written in lower case, being case-insensitive;
//!   names and values keep their case;
//! * parameters are written in order of name, then value, byte by byte;
//! * a value is written bare where it is a token, and otherwise in quotes
//!   with only `"` and `\` escaped.
//!
//! A content type that does not follow the grammar has no canonical form.
//!
//! Bytes are classified, folded and compared as the execution mode asks.
//! In either mode, where one token ends and the next begins steers the
//! control flow of the parser, and the order of the parameters that of
//! the sorting.

use vstd::prelude::*;
use crate::bytes::{
    is_qchar, is_tchar, is_ws, lower, lower_byte, quoted_byte, token_byte, ws_byte, BACKSLASH,
    EQUALS, QUOTE, SEMICOLON, SLASH,
};
use crate::error::HashError;
use crate::order::{insert_sorted, sort, views, Param, Parameter};
use crate::trim::{lemma_leading_ws_is, leading_ws, trim, trim_bounds};

verus! {

/// A parsed content type.
pub struct MediaType {
    pub kind: Seq<u8>,
    pub subtype: Seq<u8>,
    pub params: Seq<Parameter>,
}

/// Number of token bytes that `s` starts with.
pub open spec fn token_len(s: Seq<u8>) -> int
    decreases s.len(),
{
    if s.len() > 0 && is_tchar(s[0]) {
        1 + token_len(s.drop_first())
    } else {
        0
    }
}

/// A non-empty sequence of token bytes.
pub open spec fn is_token(s: Seq<u8>) -> bool {
    s.len() > 0 && forall|i: int| 0 <= i < s.len() ==> is_tchar(#[trigger] s[i])
}

/// The rest of a quoted string whose opening quote was read: its content
/// with the escapes resolved, and the number of bytes up to and including
/// the closing quote.
pub open spec fn parse_quoted(s: Seq<u8>) -> Option<(Seq<u8>, int)>
    decreases s.len(),
{
    if s.len() == 0 {
        None
    } else if s[0] == QUOTE {
        Some((Seq::empty(), 1))
    } else if s[0] == BACKSLASH {
        if s.len() >= 2 && is_qchar(s[1]) {
            match parse_quoted(s.skip(2)) {
                Some((v, k)) => Some((seq![s[1]] + v, k + 2)),
                None => None,
            }
        } else {
            None
        }
    } else if is_qchar(s[0]) {
        match parse_quoted(s.skip(1)) {
            Some((v, k)) => Some((seq![s[0]] + v, k + 1)),
            None => None,
        }
    } else {
        None
    }
}

/// A parameter value at the start of `s`, and the number of bytes it takes.
pub open spec fn parse_value(s: Seq<u8>) -> Option<(Seq<u8>, int)> {
    if s.len() > 0 && s[0] == QUOTE {
        match parse_quoted(s.skip(1)) {
            Some((v, k)) => Some((v, k + 1)),
            None => None,
        }
    } else if token_len(s) > 0 {
        Some((s.take(token_len(s)), token_len(s)))
    } else {
        None
    }
}

/// A parameter at the start of `s`, with the `;` that introduces it and
/// the optional whitespace on either side of that, and the number of bytes
/// it takes.
pub open spec fn parse_param(s: Seq<u8>) -> Option<(Parameter, int)> {
    let a = leading_ws(s);
    if a < s.len() && s[a] == SEMICOLON {
        let b = a + 1 + leading_ws(s.skip(a + 1));
        let n = token_len(s.skip(b));
        if n > 0 && b + n < s.len() && s[b + n] == EQUALS {
            match parse_value(s.skip(b + n + 1)) {
                Some((v, k)) => Some(
                    (Parameter { name: s.subrange(b, b + n), value: v }, b + n + 1 + k),
                ),
                None => None,
            }
        } else {
            None
        }
    } else {
        None
    }
}

/// The parameters that make up all of `s`, in the order written.
pub open spec fn parse_params(s: Seq<u8>) -> Option<Seq<Parameter>>
    decreases s.len(),
{
    if s.len() == 0 {
        Some(Seq::empty())
    } else {
        match parse_param(s) {
            Some((p, k)) => if 0 < k <= s.len() {
                match parse_params(s.skip(k)) {
                    Some(ps) => Some(seq![p] + ps),
                    None => None,
                }
            } else {
                None
            },
            None => None,
        }
    }
}

/// The content type that a trimmed byte sequence spells, if it spells one.
pub open spec fn parse_media_type(t: Seq<u8>) -> Option<MediaType> {
    let n = token_len(t);
    if n > 0 && n < t.len() && t[n] == SLASH {
        let m = token_len(t.skip(n + 1));
        if m > 0 {
            match parse_params(t.skip(n + 1 + m)) {
                Some(ps) => Some(
                    MediaType { kind: t.take(n), subtype: t.subrange(n + 1, n + 1 + m), params: ps },
                ),
                None => None,
            }
        } else {
            None
        }
    } else {
        None
    }
}

/// `s` with every ASCII letter in lower case.
pub open spec fn lower_all(s: Seq<u8>) -> Seq<u8> {
    Seq::new(s.len(), |i: int| lower(s[i]))
}

/// How one byte of a value is written inside quotes: `"` and `\` are
/// preceded by `\`, every other byte stands for itself.
pub open spec fn escaped_byte(b: u8) -> Seq<u8> {
    if b == QUOTE || b == BACKSLASH {
        seq![BACKSLASH, b]
    } else {
        seq![b]
    }
}

/// The content of a quoted string that stands for `v`.
pub open spec fn escaped(v: Seq<u8>) -> Seq<u8>
    decreases v.len(),
{
    if v.len() == 0 {
        Seq::empty()
    } else {
        escaped(v.drop_last()) + escaped_byte(v.last())
    }
}

/// How a value is written: bare where it is a token, quoted otherwise.
pub open spec fn value_text(v: Seq<u8>) -> Seq<u8> {
    if is_token(v) {
        v
    } else {
        seq![QUOTE] + escaped(v) + seq![QUOTE]
    }
}

/// How one parameter is written.
pub open spec fn param_text(p: Parameter) -> Seq<u8> {
    seq![SEMICOLON] + p.name + seq![EQUALS] + value_text(p.value)
}

/// How a sequence of parameters is written, in the order given.
pub open spec fn params_text(ps: Seq<Parameter>) -> Seq<u8>
    decreases ps.len(),
{
    if ps.len() == 0 {
        Seq::empty()
    } else {
        params_text(ps.drop_last()) + param_text(ps.last())
    }
}

/// How a content type is written as it stands: no optional whitespace, and
/// quotes only around values that need them.
pub open spec fn spelled(m: MediaType) -> Seq<u8> {
    m.kind + seq![SLASH] + m.subtype + params_text(m.params)
}

/// The content type with type and subtype in lower case and the
/// parameters in order.
pub open spec fn canonical_media_type(m: MediaType) -> MediaType {
    MediaType { kind: lower_all(m.kind), subtype: lower_all(m.subtype), params: sort(m.params) }
}

/// The canonical spelling of a content type.
pub open spec fn media_type_text(m: MediaType) -> Seq<u8> {
    spelled(canonical_media_type(m))
}

/// The canonical form of a raw content type, or `None` where it has none.
pub open spec fn canonical_content_type(raw: Seq<u8>) -> Option<Seq<u8>> {
    match parse_media_type(trim(raw)) {
        Some(m) => Some(media_type_text(m)),
        None => None,
    }
}

/// The token at the start of `s` ends at the first byte that is no token
/// byte.
pub proof fn lemma_token_len_is(s: Seq<u8>, k: int)
    requires
        0 <= k <= s.len(),
        forall|j: int| 0 <= j < k ==> is_tchar(#[trigger] s[j]),
        k == s.len() || !is_tchar(s[k]),
    ensures
        token_len(s) == k,
    decreases k,
{
    if k > 0 {
        assert(is_tchar(s[0]));
        let r = s.drop_first();
        assert forall|j: int| 0 <= j < k - 1 implies is_tchar(#[trigger] r[j]) by {
            assert(r[j] == s[j + 1]);
        }
        lemma_token_len_is(r, k - 1);
    }
}

/// What `token_len` counts: token bytes, up to the first byte that is none.
pub proof fn lemma_token_len(s: Seq<u8>)
    ensures
        0 <= token_len(s) <= s.len(),
        forall|j: int| 0 <= j < token_len(s) ==> is_tchar(#[trigger] s[j]),
        token_len(s) == s.len() || !is_tchar(s[token_len(s)]),
    decreases s.len(),
{
    if s.len() > 0 && is_tchar(s[0]) {
        let r = s.drop_first();
        lemma_token_len(r);
        assert forall|j: int| 0 <= j < token_len(s) implies is_tchar(#[trigger] s[j]) by {
            if j > 0 {
                assert(s[j] == r[j - 1]);
            }
        }
        if token_len(s) < s.len() {
            assert(s[token_len(s)] == r[token_len(r)]);
        }
    }
}

/// Where the token that starts at `at` ends.
fn scan_token(t: &[u8], at: usize) -> (end: usize)
    requires
        at <= t@.len(),
    ensures
        at <= end <= t@.len(),
        end - at == token_len(t@.skip(at as int)),
{
    let n: usize = t.len();
    let mut i: usize = at;
    while i < n && token_byte(t[i])
        invariant
            at <= i <= n,
            n == t@.len(),
            forall|j: int| at <= j < i ==> is_tchar(#[trigger] t@[j]),
        decreases n - i,
    {
        i = i + 1;
    }
    proof {
        let s = t@.skip(at as int);
        assert forall|j: int| 0 <= j < i - at implies is_tchar(#[trigger] s[j]) by {
            assert(s[j] == t@[at + j]);
        }
        lemma_token_len_is(s, i - at);
    }
    i
}

/// Where the whitespace that starts at `at` ends.
fn scan_ws(t: &[u8], at: usize) -> (end: usize)
    requires
        at <= t@.len(),
    ensures
        at <= end <= t@.len(),
        end - at == leading_ws(t@.skip(at as int)),
{
    let n: usize = t.len();
    let mut i: usize = at;
    while i < n && ws_byte(t[i])
        invariant
            at <= i <= n,
            n == t@.len(),
            forall|j: int| at <= j < i ==> is_ws(#[trigger] t@[j]),
        decreases n - i,
    {
        i = i + 1;
    }
    proof {
        let s = t@.skip(at as int);
        assert forall|j: int| 0 <= j < i - at implies is_ws(#[trigger] s[j]) by {
            assert(s[j] == t@[at + j]);
        }
        lemma_leading_ws_is(s, i - at);
    }
    i
}

/// A copy of `t[from..to]`.
fn copy_range(t: &[u8], from: usize, to: usize) -> (v: Vec<u8>)
    requires
        from <= to <= t@.len(),
    ensures
        v@ == t@.subrange(from as int, to as int),
{
    let mut v: Vec<u8> = Vec::new();
    let mut i: usize = from;
    while i < to
        invariant
            from <= i <= to <= t@.len(),
            v@ == t@.subrange(from as int, i as int),
        decreases to - i,
    {
        v.push(t[i]);
        i = i + 1;
        assert(v@ =~= t@.subrange(from as int, i as int));
    }
    v
}

/// Reads the rest of a quoted string whose opening quote stands just
/// before `at`: its content, and where the text after its closing quote
/// starts.
fn read_quoted(t: &[u8], at: usize) -> (r: Option<(Vec<u8>, usize)>)
    requires
        at <= t@.len(),
    ensures
        match r {
            Some((v, end)) => at < end <= t@.len() && parse_quoted(t@.skip(at as int)) == Some(
                (v@, end - at),
            ),
            None => parse_quoted(t@.skip(at as int)) is None,
        },
{
    let n: usize = t.len();
    let mut v: Vec<u8> = Vec::new();
    let mut i: usize = at;
    loop
        invariant
            at <= i <= n,
            n == t@.len(),
            parse_quoted(t@.skip(at as int)) == (match parse_quoted(t@.skip(i as int)) {
                Some((w, k)) => Some((v@ + w, k + (i - at))),
                None => None,
            }),
        decreases n - i,
    {
        let ghost s = t@.skip(i as int);
        if i >= n {
            return None;
        }
        let c: u8 = t[i];
        assert(s[0] == c);
        if c == QUOTE {
            assert(v@ + Seq::<u8>::empty() =~= v@);
            return Some((v, i + 1));
        }
        if c == BACKSLASH {
            if i + 1 >= n {
                return None;
            }
            let d: u8 = t[i + 1];
            assert(s[1] == d);
            if !quoted_byte(d) {
                return None;
            }
            proof {
                assert(s.skip(2) =~= t@.skip(i + 2));
                let ghost old_v = v@;
                assert forall|w: Seq<u8>| old_v + (seq![d] + w) =~= old_v.push(d) + w by {}
            }
            v.push(d);
            i = i + 2;
        } else {
            if !quoted_byte(c) {
                return None;
            }
            proof {
                assert(s.skip(1) =~= t@.skip(i + 1));
                let ghost old_v = v@;
                assert forall|w: Seq<u8>| old_v + (seq![c] + w) =~= old_v.push(c) + w by {}
            }
            v.push(c);
            i = i + 1;
        }
    }
}

/// Reads the parameter value that starts at `at`: the value, and where the
/// text after it starts.
fn read_value(t: &[u8], at: usize) -> (r: Option<(Vec<u8>, usize)>)
    requires
        at <= t@.len(),
    ensures
        match r {
            Some((v, end)) => at < end <= t@.len() && parse_value(t@.skip(at as int)) == Some(
                (v@, end - at),
            ),
            None => parse_value(t@.skip(at as int)) is None,
        },
{
    let ghost s = t@.skip(at as int);
    if at < t.len() && t[at] == QUOTE {
        assert(s[0] == t@[at as int]);
        assert(s.skip(1) =~= t@.skip(at + 1));
        match read_quoted(t, at + 1) {
            Some((v, end)) => Some((v, end)),
            None => None,
        }
    } else {
        if at < t.len() {
            assert(s[0] == t@[at as int]);
        }
        let end: usize = scan_token(t, at);
        if end == at {
            None
        } else {
            let v: Vec<u8> = copy_range(t, at, end);
            assert(s.take(end - at) =~= t@.subrange(at as int, end as int));
            Some((v, end))
        }
    }
}

/// Reads the parameter that starts at `at`, with the `;` before it: the
/// parameter, and where the text after it starts.
fn read_param(t: &[u8], at: usize) -> (r: Option<(Param, usize)>)
    requires
        at <= t@.len(),
    ensures
        match r {
            Some((p, end)) => at < end <= t@.len() && parse_param(t@.skip(at as int)) == Some(
                (p@, end - at),
            ),
            None => parse_param(t@.skip(at as int)) is None,
        },
{
    let ghost s = t@.skip(at as int);
    let n: usize = t.len();
    let semi: usize = scan_ws(t, at);
    if semi >= n || t[semi] != SEMICOLON {
        if semi < n {
            assert(s[semi - at] == t@[semi as int]);
        }
        return None;
    }
    assert(s[semi - at] == t@[semi as int]);
    assert(s.skip(semi - at + 1) =~= t@.skip(semi + 1));
    let start: usize = scan_ws(t, semi + 1);
    assert(s.skip(start - at) =~= t@.skip(start as int));
    let stop: usize = scan_token(t, start);
    if stop == start || stop >= n || t[stop] != EQUALS {
        if stop < n {
            assert(s[stop - at] == t@[stop as int]);
        }
        return None;
    }
    assert(s[stop - at] == t@[stop as int]);
    assert(s.skip(stop - at + 1) =~= t@.skip(stop + 1));
    match read_value(t, stop + 1) {
        Some((value, end)) => {
            let name: Vec<u8> = copy_range(t, start, stop);
            assert(s.subrange(start - at, stop - at) =~= t@.subrange(start as int, stop as int));
            Some((Param { name, value }, end))
        },
        None => None,
    }
}

/// A token is what `token_len` counts in full.
pub proof fn lemma_is_token(s: Seq<u8>)
    ensures
        is_token(s) <==> s.len() > 0 && token_len(s) == s.len(),
{
    lemma_token_len(s);
    if is_token(s) {
        lemma_token_len_is(s, s.len() as int);
    }
}

/// Appends `v` to `out`.
fn push_all(out: &mut Vec<u8>, v: &[u8])
    ensures
        final(out)@ == old(out)@ + v@,
{
    let mut i: usize = 0;
    assert(out@ =~= old(out)@ + v@.take(0));
    while i < v.len()
        invariant
            i <= v@.len(),
            out@ == old(out)@ + v@.take(i as int),
        decreases v@.len() - i,
    {
        out.push(v[i]);
        i = i + 1;
        assert(out@ =~= old(out)@ + v@.take(i as int));
    }
    assert(v@.take(v@.len() as int) =~= v@);
}

/// Appends `t[from..to]` to `out`, in lower case.
fn push_lower(out: &mut Vec<u8>, t: &[u8], from: usize, to: usize)
    requires
        from <= to <= t@.len(),
    ensures
        final(out)@ == old(out)@ + lower_all(t@.subrange(from as int, to as int)),
{
    let mut i: usize = from;
    assert(out@ =~= old(out)@ + lower_all(t@.subrange(from as int, from as int)));
    while i < to
        invariant
            from <= i <= to <= t@.len(),
            out@ == old(out)@ + lower_all(t@.subrange(from as int, i as int)),
        decreases to - i,
    {
        out.push(lower_byte(t[i]));
        i = i + 1;
        assert(out@ =~= old(out)@ + lower_all(t@.subrange(from as int, i as int)));
    }
}

/// Appends the written form of the value `v` to `out`.
fn push_value(out: &mut Vec<u8>, v: &[u8])
    ensures
        final(out)@ == old(out)@ + value_text(v@),
{
    proof {
        lemma_is_token(v@);
        assert(v@.skip(0) =~= v@);
    }
    if v.len() > 0 && scan_token(v, 0) == v.len() {
        push_all(out, v);
    } else {
        out.push(QUOTE);
        let ghost base = out@;
        let mut i: usize = 0;
        assert(out@ =~= base + escaped(v@.take(0)));
        while i < v.len()
            invariant
                i <= v@.len(),
                out@ == base + escaped(v@.take(i as int)),
            decreases v@.len() - i,
        {
            let c: u8 = v[i];
            proof {
                assert(v@.take(i + 1).drop_last() =~= v@.take(i as int));
            }
            if c == QUOTE || c == BACKSLASH {
                out.push(BACKSLASH);
            }
            out.push(c);
            i = i + 1;
            assert(out@ =~= base + escaped(v@.take(i as int)));
        }
        assert(v@.take(v@.len() as int) =~= v@);
        out.push(QUOTE);
        assert(out@ =~= old(out)@ + value_text(v@));
    }
}

/// Appends the written form of the parameters `ps`, in the order given.
fn push_params(out: &mut Vec<u8>, ps: &Vec<Param>)
    ensures
        final(out)@ == old(out)@ + params_text(views(ps@)),
{
    let mut i: usize = 0;
    assert(out@ =~= old(out)@ + params_text(views(ps@).take(0)));
    while i < ps.len()
        invariant
            i <= ps@.len(),
            out@ == old(out)@ + params_text(views(ps@).take(i as int)),
        decreases ps@.len() - i,
    {
        let ghost before = out@;
        let p: &Param = &ps[i];
        out.push(SEMICOLON);
        push_all(out, p.name.as_slice());
        out.push(EQUALS);
        push_value(out, p.value.as_slice());
        proof {
            let now = views(ps@).take(i + 1);
            assert(now.drop_last() =~= views(ps@).take(i as int));
            assert(now.last() == p@);
            assert(out@ =~= before + param_text(p@));
        }
        i = i + 1;
        assert(out@ =~= old(out)@ + params_text(views(ps@).take(i as int)));
    }
    assert(views(ps@).take(ps@.len() as int) =~= views(ps@));
}

/// Reads the parameters that make up the rest of `t` from `at` on, and
/// hands them back in order.
fn read_params(t: &[u8], at: usize) -> (r: Option<Vec<Param>>)
    requires
        at <= t@.len(),
    ensures
        match r {
            Some(v) => match parse_params(t@.skip(at as int)) {
                Some(ps) => views(v@) == sort(ps),
                None => false,
            },
            None => parse_params(t@.skip(at as int)) is None,
        },
{
    let n: usize = t.len();
    let ghost tail = t@.skip(at as int);
    let ghost mut seen: Seq<Parameter> = Seq::empty();
    let mut sorted: Vec<Param> = Vec::new();
    let mut i: usize = at;
    assert(views(sorted@) =~= sort(seen));
    while i < n
        invariant
            at <= i <= n,
            n == t@.len(),
            tail == t@.skip(at as int),
            views(sorted@) == sort(seen),
            parse_params(tail) == (match parse_params(t@.skip(i as int)) {
                Some(rest) => Some(seen + rest),
                None => None,
            }),
        decreases n - i,
    {
        match read_param(t, i) {
            Some((p, end)) => {
                proof {
                    let s = t@.skip(i as int);
                    assert(s.skip(end - i) =~= t@.skip(end as int));
                    lemma_push_front(seen, p@);
                    assert(seen.push(p@).drop_last() =~= seen);
                    seen = seen.push(p@);
                }
                insert_sorted(&mut sorted, p);
                i = end;
            },
            None => {
                return None;
            },
        }
    }
    proof {
        assert(seen + Seq::<Parameter>::empty() =~= seen);
    }
    Some(sorted)
}

/// Moving the head of the second part to the end of the first does not
/// change a concatenation.
proof fn lemma_push_front(seen: Seq<Parameter>, p: Parameter)
    ensures
        forall|rest: Seq<Parameter>| seen + (#[trigger] (seq![p] + rest)) == seen.push(p) + rest,
{
    assert forall|rest: Seq<Parameter>| seen + (#[trigger] (seq![p] + rest)) == seen.push(p)
        + rest by {
        assert(seen + (seq![p] + rest) =~= seen.push(p) + rest);
    }
}

/// The canonical form of `raw`, or `InvalidContentType` where it has none.
pub fn normalize_content_type(raw: &[u8]) -> (r: Result<Vec<u8>, HashError>)
    ensures
        match r {
            Ok(v) => canonical_content_type(raw@) == Some(v@),
            Err(e) => e == HashError::InvalidContentType && canonical_content_type(raw@) is None,
        },
{
    let (a, b) = trim_bounds(raw);
    let t: &[u8] = &raw[a..b];
    let n: usize = t.len();
    assert(t@.skip(0) =~= t@);
    let slash: usize = scan_token(t, 0);
    if slash == 0 || slash >= n || t[slash] != SLASH {
        return Err(HashError::InvalidContentType);
    }
    let sub_end: usize = scan_token(t, slash + 1);
    if sub_end == slash + 1 {
        return Err(HashError::InvalidContentType);
    }
    match read_params(t, sub_end) {
        None => Err(HashError::InvalidContentType),
        Some(sorted) => {
            let mut out: Vec<u8> = Vec::new();
            push_lower(&mut out, t, 0, slash);
            out.push(SLASH);
            push_lower(&mut out, t, slash + 1, sub_end);
            push_params(&mut out, &sorted);
            proof {
                let ps = parse_params(t@.skip(sub_end as int))->Some_0;
                let m = MediaType {
                    kind: t@.take(slash as int),
                    subtype: t@.subrange(slash + 1, sub_end as int),
                    params: ps,
                };
                assert(t@.subrange(0, slash as int) =~= t@.take(slash as int));
                assert(parse_media_type(t@) == Some(m));
                assert(out@ =~= media_type_text(m));
            }
            Ok(out)
        },
    }
}

} // verus!
