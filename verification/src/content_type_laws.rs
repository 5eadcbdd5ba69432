//! What holds of the canonical form of a content type: it parses back to
//! what it was written from, and so is its own canonical form.

use vstd::prelude::*;
use crate::bytes::{is_qchar, is_tchar, is_ws, BACKSLASH, EQUALS, QUOTE, SEMICOLON, SLASH};
use crate::content_type::{
    canonical_content_type, escaped, escaped_byte, is_token, lemma_token_len, lemma_token_len_is,
    canonical_media_type, lower_all, media_type_text, param_text, params_text, parse_media_type,
    parse_param, parse_params, parse_quoted, parse_value, spelled, token_len, value_text,
    MediaType,
};
use crate::order::{
    insert, law_sort_ignores_order, lemma_sort, lemma_sort_ordered, ordered, param_le, sort,
    Parameter,
};
use crate::trim::{
    all_ws, law_trim_ignores_surrounding_ws, lemma_leading_ws, lemma_leading_ws_is,
    lemma_trim_fixed, lemma_trim_shape, leading_ws, trim,
};

verus! {

/// Every byte of `v` may stand inside a quoted string.
pub open spec fn all_qchar(v: Seq<u8>) -> bool {
    forall|i: int| 0 <= i < v.len() ==> is_qchar(#[trigger] v[i])
}

/// A parameter that the grammar can spell.
pub open spec fn valid_param(p: Parameter) -> bool {
    is_token(p.name) && all_qchar(p.value)
}

/// Every parameter of `ps` can be spelled.
pub open spec fn valid_params(ps: Seq<Parameter>) -> bool {
    forall|i: int| 0 <= i < ps.len() ==> valid_param(#[trigger] ps[i])
}

/// A content type that the grammar can spell.
pub open spec fn valid_media_type(m: MediaType) -> bool {
    is_token(m.kind) && is_token(m.subtype) && valid_params(m.params)
}

/// `text` ends here, or goes on with a byte that no token holds.
pub open spec fn ends_token(text: Seq<u8>) -> bool {
    text.len() == 0 || !is_tchar(text[0])
}

/// A token followed by a byte that no token holds is read in full.
pub proof fn lemma_token_then(tok: Seq<u8>, rest: Seq<u8>)
    requires
        forall|i: int| 0 <= i < tok.len() ==> is_tchar(#[trigger] tok[i]),
        ends_token(rest),
    ensures
        token_len(tok + rest) == tok.len(),
{
    let s = tok + rest;
    assert forall|j: int| 0 <= j < tok.len() implies is_tchar(#[trigger] s[j]) by {
        assert(s[j] == tok[j]);
    }
    if rest.len() > 0 {
        assert(s[tok.len() as int] == rest[0]);
    }
    lemma_token_len_is(s, tok.len() as int);
}

/// What a quoted string holds may stand inside a quoted string.
pub proof fn lemma_parse_quoted_valid(s: Seq<u8>)
    requires
        parse_quoted(s) is Some,
    ensures
        all_qchar(parse_quoted(s)->Some_0.0),
        0 < parse_quoted(s)->Some_0.1 <= s.len(),
    decreases s.len(),
{
    if s[0] == QUOTE {
    } else if s[0] == BACKSLASH {
        lemma_parse_quoted_valid(s.skip(2));
    } else {
        lemma_parse_quoted_valid(s.skip(1));
    }
}

/// What a value holds may stand inside a quoted string.
pub proof fn lemma_parse_value_valid(s: Seq<u8>)
    requires
        parse_value(s) is Some,
    ensures
        all_qchar(parse_value(s)->Some_0.0),
        0 < parse_value(s)->Some_0.1 <= s.len(),
{
    if s.len() > 0 && s[0] == QUOTE {
        lemma_parse_quoted_valid(s.skip(1));
    } else {
        lemma_token_len(s);
    }
}

/// A parameter that was read can be spelled.
pub proof fn lemma_parse_param_valid(s: Seq<u8>)
    requires
        parse_param(s) is Some,
    ensures
        valid_param(parse_param(s)->Some_0.0),
        0 < parse_param(s)->Some_0.1 <= s.len(),
{
    let a = leading_ws(s);
    let b = a + 1 + leading_ws(s.skip(a + 1));
    lemma_leading_ws(s);
    lemma_leading_ws(s.skip(a + 1));
    let n = token_len(s.skip(b));
    lemma_token_len(s.skip(b));
    let name = s.subrange(b, b + n);
    assert forall|i: int| 0 <= i < name.len() implies is_tchar(#[trigger] name[i]) by {
        assert(name[i] == s.skip(b)[i]);
    }
    lemma_parse_value_valid(s.skip(b + n + 1));
}

/// Parameters that were read can be spelled.
pub proof fn lemma_parse_params_valid(s: Seq<u8>)
    requires
        parse_params(s) is Some,
    ensures
        valid_params(parse_params(s)->Some_0),
    decreases s.len(),
{
    if s.len() > 0 {
        let (p, k) = parse_param(s)->Some_0;
        lemma_parse_param_valid(s);
        lemma_parse_params_valid(s.skip(k));
        let rest = parse_params(s.skip(k))->Some_0;
        let ps = seq![p] + rest;
        assert forall|i: int| 0 <= i < ps.len() implies valid_param(#[trigger] ps[i]) by {
            if i > 0 {
                assert(ps[i] == rest[i - 1]);
            }
        }
    }
}

/// A content type that was read can be spelled.
pub proof fn lemma_parse_media_type_valid(t: Seq<u8>)
    requires
        parse_media_type(t) is Some,
    ensures
        valid_media_type(parse_media_type(t)->Some_0),
{
    let n = token_len(t);
    lemma_token_len(t);
    let m = token_len(t.skip(n + 1));
    lemma_token_len(t.skip(n + 1));
    let sub = t.subrange(n + 1, n + 1 + m);
    assert forall|i: int| 0 <= i < sub.len() implies is_tchar(#[trigger] sub[i]) by {
        assert(sub[i] == t.skip(n + 1)[i]);
    }
    lemma_parse_params_valid(t.skip(n + 1 + m));
}

/// The quoted content of a value can be written byte by byte from the
/// front.
pub proof fn lemma_escaped_front(x: u8, w: Seq<u8>)
    ensures
        escaped(seq![x] + w) == escaped_byte(x) + escaped(w),
    decreases w.len(),
{
    let v = seq![x] + w;
    if w.len() == 0 {
        assert(v.drop_last() =~= Seq::<u8>::empty());
        assert(escaped(v.drop_last()) =~= Seq::<u8>::empty());
        assert(escaped(v) =~= escaped_byte(x) + escaped(w));
    } else {
        assert(v.drop_last() =~= seq![x] + w.drop_last());
        lemma_escaped_front(x, w.drop_last());
        assert(escaped(v) =~= escaped_byte(x) + escaped(w));
    }
}

/// A quoted string that was written from `v` is read back as `v`.
pub proof fn lemma_quoted_reads_back(v: Seq<u8>, rest: Seq<u8>)
    requires
        all_qchar(v),
    ensures
        parse_quoted(escaped(v) + seq![QUOTE] + rest) == Some((v, escaped(v).len() as int + 1)),
    decreases v.len(),
{
    let s = escaped(v) + seq![QUOTE] + rest;
    if v.len() == 0 {
        assert(s[0] == QUOTE);
        assert(v =~= Seq::<u8>::empty());
    } else {
        let x = v[0];
        let w = v.drop_first();
        assert(v =~= seq![x] + w);
        lemma_escaped_front(x, w);
        assert(is_qchar(v[0]));
        assert forall|i: int| 0 <= i < w.len() implies is_qchar(#[trigger] w[i]) by {
            assert(w[i] == v[i + 1]);
        }
        lemma_quoted_reads_back(w, rest);
        let tail = escaped(w) + seq![QUOTE] + rest;
        if x == QUOTE || x == BACKSLASH {
            assert(s =~= seq![BACKSLASH, x] + tail);
            assert(s[0] == BACKSLASH);
            assert(s[1] == x);
            assert(s.skip(2) =~= tail);
        } else {
            assert(s =~= seq![x] + tail);
            assert(s[0] == x);
            assert(s.skip(1) =~= tail);
        }
    }
}

/// Parameters can be written one by one from the front.
pub proof fn lemma_params_text_front(p: Parameter, ps: Seq<Parameter>)
    ensures
        params_text(seq![p] + ps) == param_text(p) + params_text(ps),
    decreases ps.len(),
{
    let all = seq![p] + ps;
    if ps.len() == 0 {
        assert(all.drop_last() =~= Seq::<Parameter>::empty());
        assert(params_text(all.drop_last()) =~= Seq::<u8>::empty());
        assert(params_text(all) =~= param_text(p) + params_text(ps));
    } else {
        assert(all.drop_last() =~= seq![p] + ps.drop_last());
        lemma_params_text_front(p, ps.drop_last());
        assert(params_text(all) =~= param_text(p) + params_text(ps));
    }
}

/// Sorting parameters that can be spelled yields parameters that can be
/// spelled.
pub proof fn lemma_sort_valid(ps: Seq<Parameter>)
    requires
        valid_params(ps),
    ensures
        valid_params(sort(ps)),
{
    broadcast use vstd::seq_lib::group_to_multiset_ensures;

    lemma_sort(ps);
    let sorted = sort(ps);
    assert forall|i: int| 0 <= i < sorted.len() implies valid_param(#[trigger] sorted[i]) by {
        let x = sorted[i];
        assert(sorted.contains(x));
        assert(sorted.to_multiset().count(x) > 0);
        assert(ps.to_multiset().count(x) > 0);
        assert(ps.contains(x));
        let j = choose|j: int| 0 <= j < ps.len() && ps[j] == x;
        assert(valid_param(ps[j]));
    }
}

/// Lower-casing keeps a token a token, and changes nothing when done
/// again.
pub proof fn lemma_lower_all(s: Seq<u8>)
    ensures
        is_token(s) ==> is_token(lower_all(s)),
        lower_all(lower_all(s)) == lower_all(s),
{
    let l = lower_all(s);
    if is_token(s) {
        assert forall|i: int| 0 <= i < l.len() implies is_tchar(#[trigger] l[i]) by {
            assert(is_tchar(s[i]));
        }
    }
    assert(lower_all(l) =~= l);
}

/// A type and a subtype followed by parameters are read back with them,
/// and the whole has no whitespace around it.
proof fn lemma_head_reads_back(kind: Seq<u8>, subtype: Seq<u8>, tail: Seq<u8>)
    requires
        is_token(kind),
        is_token(subtype),
        ends_token(tail),
        parse_params(tail) is Some,
        tail.len() > 0 ==> !is_ws(tail.last()),
    ensures
        parse_media_type(kind + seq![SLASH] + subtype + tail) == Some(
            MediaType { kind, subtype, params: parse_params(tail)->Some_0 },
        ),
        trim(kind + seq![SLASH] + subtype + tail) == kind + seq![SLASH] + subtype + tail,
{
    let t = kind + seq![SLASH] + subtype + tail;
    let n = kind.len() as int;
    let k = subtype.len() as int;
    assert(t =~= kind + (seq![SLASH] + (subtype + tail)));
    lemma_token_then(kind, seq![SLASH] + (subtype + tail));
    assert(t[n] == SLASH);
    assert(t.skip(n + 1) =~= subtype + tail);
    lemma_token_then(subtype, tail);
    assert(t.take(n) =~= kind);
    assert(t.subrange(n + 1, n + 1 + k) =~= subtype);
    assert(t.skip(n + 1 + k) =~= tail);
    assert(t[0] == kind[0]);
    assert(is_tchar(kind[0]));
    if tail.len() == 0 {
        assert(t.last() == subtype.last());
        assert(is_tchar(subtype.last()));
    } else {
        assert(t.last() == tail.last());
    }
    lemma_trim_fixed(t);
}

/// Two content types that mean the same have the same canonical form.
///
/// What a content type means is its type and subtype without regard to
/// case, and its parameters without regard to their order. How it was
/// spelled beyond that (the optional whitespace, the quoting of a value
/// that needs none, an escape before a byte that needs none) is already
/// gone from what was parsed.
pub proof fn law_same_meaning_same_form(raw1: Seq<u8>, raw2: Seq<u8>)
    requires
        parse_media_type(trim(raw1)) is Some,
        parse_media_type(trim(raw2)) is Some,
        lower_all(parse_media_type(trim(raw1))->Some_0.kind) == lower_all(
            parse_media_type(trim(raw2))->Some_0.kind,
        ),
        lower_all(parse_media_type(trim(raw1))->Some_0.subtype) == lower_all(
            parse_media_type(trim(raw2))->Some_0.subtype,
        ),
        parse_media_type(trim(raw1))->Some_0.params.to_multiset() == parse_media_type(
            trim(raw2),
        )->Some_0.params.to_multiset(),
    ensures
        canonical_content_type(raw1) == canonical_content_type(raw2),
{
    law_sort_ignores_order(
        parse_media_type(trim(raw1))->Some_0.params,
        parse_media_type(trim(raw2))->Some_0.params,
    );
}

/// The quoted content of a value is at most twice as long as the value.
proof fn lemma_escaped_length(v: Seq<u8>)
    ensures
        escaped(v).len() <= 2 * v.len(),
    decreases v.len(),
{
    if v.len() > 0 {
        lemma_escaped_length(v.drop_last());
    }
}

/// Putting a parameter in its place adds its text to the text of the
/// others, whatever the place.
proof fn lemma_insert_text_length(s: Seq<Parameter>, x: Parameter)
    ensures
        params_text(insert(s, x)).len() == params_text(s).len() + param_text(x).len(),
    decreases s.len(),
{
    if s.len() == 0 || param_le(s.last(), x) {
        assert(s.push(x).drop_last() =~= s);
    } else {
        lemma_insert_text_length(s.drop_last(), x);
        let r = insert(s.drop_last(), x).push(s.last());
        assert(r.drop_last() =~= insert(s.drop_last(), x));
    }
}

/// Parameters take as many bytes in order as in the order given.
proof fn lemma_sort_text_length(ps: Seq<Parameter>)
    ensures
        params_text(sort(ps)).len() == params_text(ps).len(),
    decreases ps.len(),
{
    if ps.len() > 0 {
        lemma_sort_text_length(ps.drop_last());
        lemma_insert_text_length(sort(ps.drop_last()), ps.last());
    }
}

/// What is written for parameters that were read is at most twice as long
/// as what they were read from.
proof fn lemma_params_text_length(s: Seq<u8>)
    requires
        parse_params(s) is Some,
    ensures
        params_text(parse_params(s)->Some_0).len() <= 2 * s.len(),
    decreases s.len(),
{
    if s.len() > 0 {
        let (p, k) = parse_param(s)->Some_0;
        let rest = parse_params(s.skip(k))->Some_0;
        lemma_params_text_length(s.skip(k));
        lemma_params_text_front(p, rest);
        // the parameter itself
        let a = leading_ws(s);
        lemma_leading_ws(s);
        lemma_leading_ws(s.skip(a + 1));
        let b = a + 1 + leading_ws(s.skip(a + 1));
        let n = token_len(s.skip(b));
        lemma_token_len(s.skip(b));
        let sv = s.skip(b + n + 1);
        let (v, kv) = parse_value(sv)->Some_0;
        lemma_value_length(sv);
        lemma_escaped_length(v);
        assert(p.name.len() == n);
        assert(param_text(p).len() == 2 + n + value_text(v).len());
        assert(k == b + n + 1 + kv);
    }
}

/// A value that was read is no longer than what it was read from.
proof fn lemma_value_length(s: Seq<u8>)
    requires
        parse_value(s) is Some,
    ensures
        parse_value(s)->Some_0.0.len() <= parse_value(s)->Some_0.1,
        parse_value(s)->Some_0.1 <= s.len(),
{
    if s.len() > 0 && s[0] == QUOTE {
        lemma_quoted_length(s.skip(1));
    } else {
        lemma_token_len(s);
    }
}

/// A quoted string holds fewer bytes than it takes.
proof fn lemma_quoted_length(s: Seq<u8>)
    requires
        parse_quoted(s) is Some,
    ensures
        parse_quoted(s)->Some_0.0.len() < parse_quoted(s)->Some_0.1,
        parse_quoted(s)->Some_0.1 <= s.len(),
    decreases s.len(),
{
    if s[0] == QUOTE {
    } else if s[0] == BACKSLASH {
        lemma_quoted_length(s.skip(2));
    } else {
        lemma_quoted_length(s.skip(1));
    }
}

/// The canonical form of a content type is at most twice as long as the
/// content type.
pub proof fn lemma_canonical_content_type_length(raw: Seq<u8>)
    requires
        canonical_content_type(raw) is Some,
    ensures
        canonical_content_type(raw)->Some_0.len() <= 2 * raw.len(),
{
    let _ = lemma_trim_shape(raw);
    let t = trim(raw);
    let m = parse_media_type(t)->Some_0;
    let n = token_len(t);
    lemma_token_len(t);
    let k = token_len(t.skip(n + 1));
    lemma_token_len(t.skip(n + 1));
    lemma_params_text_length(t.skip(n + 1 + k));
    lemma_sort_text_length(m.params);
}

/// The choices that the grammar leaves open in writing one parameter: the
/// whitespace before and after its `;`, and whether a value that needs no
/// quotes is quoted all the same.
pub struct Style {
    pub before: Seq<u8>,
    pub after: Seq<u8>,
    pub quoted: bool,
}

/// A value written with or without quotes, as chosen; one that needs
/// quotes has them anyway.
pub open spec fn styled_value(v: Seq<u8>, quoted: bool) -> Seq<u8> {
    if quoted || !is_token(v) {
        seq![QUOTE] + escaped(v) + seq![QUOTE]
    } else {
        v
    }
}

/// A parameter written in a style.
pub open spec fn styled_param(p: Parameter, style: Style) -> Seq<u8> {
    style.before + seq![SEMICOLON] + style.after + p.name + seq![EQUALS] + styled_value(
        p.value,
        style.quoted,
    )
}

/// Parameters written each in its style.
pub open spec fn styled_params(ps: Seq<Parameter>, styles: Seq<Style>) -> Seq<u8>
    decreases ps.len(),
{
    if ps.len() == 0 {
        Seq::empty()
    } else {
        styled_params(ps.drop_last(), styles.drop_last()) + styled_param(ps.last(), styles.last())
    }
}

/// A content type written with its parameters each in its style.
pub open spec fn styled(m: MediaType, styles: Seq<Style>) -> Seq<u8> {
    m.kind + seq![SLASH] + m.subtype + styled_params(m.params, styles)
}

/// One style for each of `n` parameters, each with nothing but spaces and
/// tabs for whitespace.
pub open spec fn valid_styles(styles: Seq<Style>, n: nat) -> bool {
    styles.len() == n && forall|i: int|
        0 <= i < styles.len() ==> all_ws((#[trigger] styles[i]).before) && all_ws(styles[i].after)
}

/// A parameter written in a style is read back, where what follows it is
/// the end or a byte that no token holds.
proof fn lemma_styled_param_reads_back(p: Parameter, style: Style, rest: Seq<u8>)
    requires
        valid_param(p),
        all_ws(style.before),
        all_ws(style.after),
        ends_token(rest),
    ensures
        parse_param(styled_param(p, style) + rest) == Some(
            (p, styled_param(p, style).len() as int),
        ),
{
    let s = styled_param(p, style) + rest;
    let a = style.before.len() as int;
    let c = style.after.len() as int;
    let n = p.name.len() as int;
    let val = styled_value(p.value, style.quoted);
    let after_eq = val + rest;
    let from_name = p.name + (seq![EQUALS] + after_eq);
    let from_semi = seq![SEMICOLON] + (style.after + from_name);
    assert(s =~= style.before + from_semi);
    assert forall|j: int| 0 <= j < a implies is_ws(#[trigger] s[j]) by {
        assert(s[j] == style.before[j]);
    }
    assert(s[a] == SEMICOLON);
    lemma_leading_ws_is(s, a);
    let s1 = s.skip(a + 1);
    assert(s1 =~= style.after + from_name);
    assert forall|j: int| 0 <= j < c implies is_ws(#[trigger] s1[j]) by {
        assert(s1[j] == style.after[j]);
    }
    assert(s1[c] == p.name[0]);
    assert(is_tchar(p.name[0]));
    lemma_leading_ws_is(s1, c);
    let b = a + 1 + c;
    assert(s.skip(b) =~= from_name);
    lemma_token_then(p.name, seq![EQUALS] + after_eq);
    assert(s[b + n] == from_name[n]);
    assert(from_name[n] == EQUALS);
    assert(s.subrange(b, b + n) =~= p.name);
    assert(s.skip(b + n + 1) =~= after_eq);
    if style.quoted || !is_token(p.value) {
        assert(after_eq[0] == QUOTE);
        assert(after_eq.skip(1) =~= escaped(p.value) + seq![QUOTE] + rest);
        lemma_quoted_reads_back(p.value, rest);
    } else {
        lemma_token_then(p.value, rest);
        assert(after_eq[0] == p.value[0]);
        assert(after_eq.take(p.value.len() as int) =~= p.value);
    }
}

/// Styled parameters can be written one by one from the front.
proof fn lemma_styled_params_front(p: Parameter, style: Style, ps: Seq<Parameter>, styles: Seq<Style>)
    requires
        ps.len() == styles.len(),
    ensures
        styled_params(seq![p] + ps, seq![style] + styles) == styled_param(p, style)
            + styled_params(ps, styles),
    decreases ps.len(),
{
    let all = seq![p] + ps;
    let all_styles = seq![style] + styles;
    if ps.len() == 0 {
        assert(all.drop_last() =~= Seq::<Parameter>::empty());
        assert(styled_params(all.drop_last(), all_styles.drop_last()) =~= Seq::<u8>::empty());
        assert(styled_params(all, all_styles) =~= styled_param(p, style) + styled_params(
            ps,
            styles,
        ));
    } else {
        assert(all.drop_last() =~= seq![p] + ps.drop_last());
        assert(all_styles.drop_last() =~= seq![style] + styles.drop_last());
        lemma_styled_params_front(p, style, ps.drop_last(), styles.drop_last());
        assert(styled_params(all, all_styles) =~= styled_param(p, style) + styled_params(
            ps,
            styles,
        ));
    }
}

/// What is written for styled parameters is empty or starts with a byte
/// that no token holds, and does not end in whitespace.
proof fn lemma_styled_params_ends(ps: Seq<Parameter>, styles: Seq<Style>)
    requires
        valid_params(ps),
        valid_styles(styles, ps.len()),
    ensures
        ends_token(styled_params(ps, styles)),
        ps.len() == 0 ==> styled_params(ps, styles).len() == 0,
        ps.len() > 0 ==> styled_params(ps, styles).len() > 0 && !is_ws(
            styled_params(ps, styles).last(),
        ),
    decreases ps.len(),
{
    if ps.len() > 0 {
        let dp = ps.drop_last();
        let ds = styles.drop_last();
        assert forall|i: int| 0 <= i < dp.len() implies valid_param(#[trigger] dp[i]) by {
            assert(dp[i] == ps[i]);
        }
        assert forall|i: int| 0 <= i < ds.len() implies all_ws((#[trigger] ds[i]).before)
            && all_ws(ds[i].after) by {
            assert(ds[i] == styles[i]);
        }
        lemma_styled_params_ends(dp, ds);
        let head = styled_params(dp, ds);
        let p = ps.last();
        let style = styles.last();
        assert(valid_param(p));
        assert(all_ws(style.before) && all_ws(style.after));
        let last = styled_param(p, style);
        let val = styled_value(p.value, style.quoted);
        assert(val.len() > 0);
        assert(!is_ws(val.last())) by {
            if !(style.quoted || !is_token(p.value)) {
                assert(is_tchar(p.value.last()));
            }
        }
        assert(last.last() == val.last());
        assert((head + last).last() == last.last());
        // the first byte is whitespace or the `;`
        let first = (head + last)[0];
        if head.len() > 0 {
            assert(first == head[0]);
        } else {
            assert(first == last[0]);
            if style.before.len() > 0 {
                assert(last[0] == style.before[0]);
                assert(is_ws(style.before[0]));
            } else {
                assert(last[0] == SEMICOLON);
            }
        }
    }
}

/// Styled parameters are read back.
proof fn lemma_styled_params_read_back(ps: Seq<Parameter>, styles: Seq<Style>)
    requires
        valid_params(ps),
        valid_styles(styles, ps.len()),
    ensures
        parse_params(styled_params(ps, styles)) == Some(ps),
    decreases ps.len(),
{
    if ps.len() == 0 {
        assert(ps =~= Seq::<Parameter>::empty());
    } else {
        let p = ps[0];
        let style = styles[0];
        let rest = ps.drop_first();
        let rest_styles = styles.drop_first();
        assert(ps =~= seq![p] + rest);
        assert(styles =~= seq![style] + rest_styles);
        lemma_styled_params_front(p, style, rest, rest_styles);
        assert forall|i: int| 0 <= i < rest.len() implies valid_param(#[trigger] rest[i]) by {
            assert(rest[i] == ps[i + 1]);
        }
        assert forall|i: int| 0 <= i < rest_styles.len() implies all_ws(
            (#[trigger] rest_styles[i]).before,
        ) && all_ws(rest_styles[i].after) by {
            assert(rest_styles[i] == styles[i + 1]);
        }
        assert(valid_param(ps[0]));
        assert(all_ws(styles[0].before) && all_ws(styles[0].after));
        lemma_styled_params_ends(rest, rest_styles);
        lemma_styled_param_reads_back(p, style, styled_params(rest, rest_styles));
        lemma_styled_params_read_back(rest, rest_styles);
        let s = styled_params(ps, styles);
        let k = styled_param(p, style).len() as int;
        assert(k > 0);
        assert(s.skip(k) =~= styled_params(rest, rest_styles));
    }
}

/// A content type is read back from any spelling of it: whatever the
/// whitespace around each `;` and whichever values are quoted.
pub proof fn law_styled_reads_back(m: MediaType, styles: Seq<Style>)
    requires
        valid_media_type(m),
        valid_styles(styles, m.params.len()),
    ensures
        parse_media_type(styled(m, styles)) == Some(m),
        trim(styled(m, styles)) == styled(m, styles),
{
    lemma_styled_params_ends(m.params, styles);
    lemma_styled_params_read_back(m.params, styles);
    lemma_head_reads_back(m.kind, m.subtype, styled_params(m.params, styles));
}

/// The style that uses none of the freedom: no whitespace, and quotes
/// only where they are needed.
pub open spec fn plain_style() -> Style {
    Style { before: Seq::empty(), after: Seq::empty(), quoted: false }
}

/// The plain style for each of `n` parameters.
pub open spec fn plain_styles(n: nat) -> Seq<Style> {
    Seq::new(n, |i: int| plain_style())
}

/// Written in the plain style, parameters are written as they stand.
proof fn lemma_plain_styled_params(ps: Seq<Parameter>)
    ensures
        styled_params(ps, plain_styles(ps.len())) == params_text(ps),
        valid_styles(plain_styles(ps.len()), ps.len()),
    decreases ps.len(),
{
    if ps.len() > 0 {
        let d = ps.drop_last();
        lemma_plain_styled_params(d);
        assert(plain_styles(ps.len()).drop_last() =~= plain_styles(d.len()));
        let p = ps.last();
        assert(styled_param(p, plain_style()) =~= param_text(p));
    }
}

/// A content type that was written as it stands is read back, and its
/// spelling has no whitespace around it.
pub proof fn law_spelling_reads_back(m: MediaType)
    requires
        valid_media_type(m),
    ensures
        parse_media_type(spelled(m)) == Some(m),
        trim(spelled(m)) == spelled(m),
{
    lemma_plain_styled_params(m.params);
    law_styled_reads_back(m, plain_styles(m.params.len()));
}

/// Bringing a content type to canonical form keeps it spellable, and
/// changes nothing when done again.
pub proof fn lemma_canonical_media_type(m: MediaType)
    requires
        valid_media_type(m),
    ensures
        valid_media_type(canonical_media_type(m)),
        canonical_media_type(canonical_media_type(m)) == canonical_media_type(m),
{
    lemma_lower_all(m.kind);
    lemma_lower_all(m.subtype);
    lemma_sort_valid(m.params);
    lemma_sort(m.params);
    lemma_sort_ordered(sort(m.params));
}

/// A content type in canonical form: spellable, with type and subtype in
/// lower case and the parameters in order.
pub open spec fn is_canonical_media_type(m: MediaType) -> bool {
    &&& valid_media_type(m)
    &&& lower_all(m.kind) == m.kind
    &&& lower_all(m.subtype) == m.subtype
    &&& ordered(m.params)
}

/// The canonical form of a content type spells, as it stands, a content
/// type in canonical form: the one that is handed back.
pub proof fn law_content_type_canonical(raw: Seq<u8>) -> (m: MediaType)
    requires
        canonical_content_type(raw) is Some,
    ensures
        is_canonical_media_type(m),
        canonical_content_type(raw) == Some(spelled(m)),
{
    let parsed = parse_media_type(trim(raw))->Some_0;
    lemma_parse_media_type_valid(trim(raw));
    lemma_canonical_media_type(parsed);
    lemma_lower_all(parsed.kind);
    lemma_lower_all(parsed.subtype);
    lemma_sort(parsed.params);
    canonical_media_type(parsed)
}

/// The spelling of a content type in canonical form is its own canonical
/// form.
pub proof fn law_canonical_content_type_fixed(m: MediaType)
    requires
        is_canonical_media_type(m),
    ensures
        canonical_content_type(spelled(m)) == Some(spelled(m)),
{
    law_spelling_reads_back(m);
    lemma_sort_ordered(m.params);
}

/// Normalizing a content type twice gives what normalizing it once gives.
pub proof fn law_content_type_idempotent(raw: Seq<u8>)
    requires
        canonical_content_type(raw) is Some,
    ensures
        canonical_content_type(canonical_content_type(raw)->Some_0) == canonical_content_type(
            raw,
        ),
{
    let m = law_content_type_canonical(raw);
    law_canonical_content_type_fixed(m);
}

/// Spelling does not matter: however a content type is written (with
/// whatever whitespace around it and around each `;`, and with quotes
/// around whichever values), its canonical form is the same.
pub proof fn law_spelling_does_not_matter(
    m: MediaType,
    styles: Seq<Style>,
    before: Seq<u8>,
    after: Seq<u8>,
)
    requires
        valid_media_type(m),
        valid_styles(styles, m.params.len()),
        all_ws(before),
        all_ws(after),
    ensures
        canonical_content_type(before + styled(m, styles) + after) == Some(media_type_text(m)),
{
    law_trim_ignores_surrounding_ws(before, styled(m, styles), after);
    law_styled_reads_back(m, styles);
}

/// Case and order do not matter: two content types that differ only in
/// the case of type and subtype and in the order of their parameters have
/// the same canonical form, however each is written.
pub proof fn law_case_and_order_do_not_matter(
    m1: MediaType,
    styles1: Seq<Style>,
    m2: MediaType,
    styles2: Seq<Style>,
)
    requires
        valid_media_type(m1),
        valid_media_type(m2),
        valid_styles(styles1, m1.params.len()),
        valid_styles(styles2, m2.params.len()),
        lower_all(m1.kind) == lower_all(m2.kind),
        lower_all(m1.subtype) == lower_all(m2.subtype),
        m1.params.to_multiset() == m2.params.to_multiset(),
    ensures
        canonical_content_type(styled(m1, styles1)) == canonical_content_type(
            styled(m2, styles2),
        ),
{
    law_styled_reads_back(m1, styles1);
    law_styled_reads_back(m2, styles2);
    law_sort_ignores_order(m1.params, m2.params);
}

} // verus!
