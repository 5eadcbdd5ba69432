//! The order in which parameters are written: by name, then by value, each
//! compared byte by byte.

use vstd::prelude::*;
use crate::ct::{and_bit, bit, eq_bit, ge_bit, not_bit, or_bit, select};
use crate::mode::CONSTANT_TIME;

verus! {

/// A parameter of a media type: its name, and its value with any quoting
/// removed.
pub struct Parameter {
    pub name: Seq<u8>,
    pub value: Seq<u8>,
}

/// `a` comes no later than `b` in lexicographic order.
pub open spec fn bytes_le(a: Seq<u8>, b: Seq<u8>) -> bool
    decreases a.len(),
{
    if a.len() == 0 {
        true
    } else if b.len() == 0 {
        false
    } else if a[0] != b[0] {
        a[0] < b[0]
    } else {
        bytes_le(a.drop_first(), b.drop_first())
    }
}

/// `p` comes no later than `q`: by name first, by value among equal names.
pub open spec fn param_le(p: Parameter, q: Parameter) -> bool {
    if p.name == q.name {
        bytes_le(p.value, q.value)
    } else {
        bytes_le(p.name, q.name)
    }
}

/// Each parameter comes no later than the one after it.
pub open spec fn ordered(ps: Seq<Parameter>) -> bool {
    forall|i: int| 0 < i < ps.len() ==> param_le(#[trigger] ps[i - 1], ps[i])
}

/// The ordered sequence `s` with `x` put in its place, after every
/// parameter that comes no later than it.
pub open spec fn insert(s: Seq<Parameter>, x: Parameter) -> Seq<Parameter>
    decreases s.len(),
{
    if s.len() == 0 || param_le(s.last(), x) {
        s.push(x)
    } else {
        insert(s.drop_last(), x).push(s.last())
    }
}

/// The parameters of `ps` in order.
pub open spec fn sort(ps: Seq<Parameter>) -> Seq<Parameter>
    decreases ps.len(),
{
    if ps.len() == 0 {
        Seq::empty()
    } else {
        insert(sort(ps.drop_last()), ps.last())
    }
}

pub proof fn lemma_bytes_le_reflexive(a: Seq<u8>)
    ensures
        bytes_le(a, a),
    decreases a.len(),
{
    if a.len() > 0 {
        lemma_bytes_le_reflexive(a.drop_first());
    }
}

pub proof fn lemma_bytes_le_total(a: Seq<u8>, b: Seq<u8>)
    ensures
        bytes_le(a, b) || bytes_le(b, a),
    decreases a.len(),
{
    if a.len() > 0 && b.len() > 0 && a[0] == b[0] {
        lemma_bytes_le_total(a.drop_first(), b.drop_first());
    }
}

pub proof fn lemma_bytes_le_antisymmetric(a: Seq<u8>, b: Seq<u8>)
    requires
        bytes_le(a, b),
        bytes_le(b, a),
    ensures
        a == b,
    decreases a.len(),
{
    if a.len() == 0 || b.len() == 0 {
        assert(a =~= b);
    } else {
        lemma_bytes_le_antisymmetric(a.drop_first(), b.drop_first());
        assert(a =~= seq![a[0]] + a.drop_first());
        assert(b =~= seq![b[0]] + b.drop_first());
    }
}

pub proof fn lemma_bytes_le_transitive(a: Seq<u8>, b: Seq<u8>, c: Seq<u8>)
    requires
        bytes_le(a, b),
        bytes_le(b, c),
    ensures
        bytes_le(a, c),
    decreases a.len(),
{
    if a.len() > 0 && b.len() > 0 && c.len() > 0 && a[0] == b[0] && b[0] == c[0] {
        lemma_bytes_le_transitive(a.drop_first(), b.drop_first(), c.drop_first());
    }
}

pub proof fn lemma_param_le_total(p: Parameter, q: Parameter)
    ensures
        param_le(p, q) || param_le(q, p),
{
    lemma_bytes_le_total(p.name, q.name);
    lemma_bytes_le_total(p.value, q.value);
}

pub proof fn lemma_param_le_antisymmetric(p: Parameter, q: Parameter)
    requires
        param_le(p, q),
        param_le(q, p),
    ensures
        p == q,
{
    if p.name == q.name {
        lemma_bytes_le_antisymmetric(p.value, q.value);
    } else {
        lemma_bytes_le_antisymmetric(p.name, q.name);
    }
}

pub proof fn lemma_param_le_transitive(p: Parameter, q: Parameter, r: Parameter)
    requires
        param_le(p, q),
        param_le(q, r),
    ensures
        param_le(p, r),
{
    if p.name == q.name {
        if q.name == r.name {
            lemma_bytes_le_transitive(p.value, q.value, r.value);
        }
    } else {
        if q.name == r.name {
        } else {
            lemma_bytes_le_transitive(p.name, q.name, r.name);
            if p.name == r.name {
                lemma_bytes_le_antisymmetric(p.name, q.name);
            }
        }
    }
}

/// Inserting into an ordered sequence keeps it ordered, adds exactly the
/// new parameter, and leaves `x` directly after the last parameter that
/// comes no later than it.
pub proof fn lemma_insert(s: Seq<Parameter>, x: Parameter)
    requires
        ordered(s),
    ensures
        ordered(insert(s, x)),
        insert(s, x).len() == s.len() + 1,
        insert(s, x).to_multiset() == s.to_multiset().insert(x),
        s.len() > 0 ==> insert(s, x).last() == x || insert(s, x).last() == s.last(),
    decreases s.len(),
{
    broadcast use vstd::seq_lib::group_to_multiset_ensures;

    if s.len() == 0 || param_le(s.last(), x) {
        let r = s.push(x);
        assert forall|i: int| 0 < i < r.len() implies param_le(#[trigger] r[i - 1], r[i]) by {
            if i < s.len() {
                assert(param_le(s[i - 1], s[i]));
            }
        }
    } else {
        let d = s.drop_last();
        assert forall|i: int| 0 < i < d.len() implies param_le(#[trigger] d[i - 1], d[i]) by {
            assert(param_le(s[i - 1], s[i]));
        }
        lemma_insert(d, x);
        let m = insert(d, x);
        let r = m.push(s.last());
        lemma_param_le_total(s.last(), x);
        assert(param_le(m.last(), s.last())) by {
            if d.len() > 0 && m.last() == d.last() {
                assert(param_le(s[s.len() - 1 - 1], s[s.len() - 1]));
            }
        }
        assert forall|i: int| 0 < i < r.len() implies param_le(#[trigger] r[i - 1], r[i]) by {
            if i < m.len() {
                assert(param_le(m[i - 1], m[i]));
            }
        }
        assert(s =~= d.push(s.last()));
    }
}

/// Sorting yields an ordered rearrangement of its input.
pub proof fn lemma_sort(ps: Seq<Parameter>)
    ensures
        ordered(sort(ps)),
        sort(ps).len() == ps.len(),
        sort(ps).to_multiset() == ps.to_multiset(),
    decreases ps.len(),
{
    broadcast use vstd::seq_lib::group_to_multiset_ensures;

    if ps.len() > 0 {
        lemma_sort(ps.drop_last());
        lemma_insert(sort(ps.drop_last()), ps.last());
        assert(ps =~= ps.drop_last().push(ps.last()));
    }
}

/// An ordered sequence is its own sorted form.
pub proof fn lemma_sort_ordered(ps: Seq<Parameter>)
    requires
        ordered(ps),
    ensures
        sort(ps) == ps,
    decreases ps.len(),
{
    if ps.len() > 0 {
        let d = ps.drop_last();
        assert forall|i: int| 0 < i < d.len() implies param_le(#[trigger] d[i - 1], d[i]) by {
            assert(param_le(ps[i - 1], ps[i]));
        }
        lemma_sort_ordered(d);
        if d.len() > 0 {
            assert(param_le(ps[ps.len() - 1 - 1], ps[ps.len() - 1]));
        }
        assert(ps =~= d.push(ps.last()));
    }
}

/// A parameter as the normalizer holds it.
pub struct Param {
    pub name: Vec<u8>,
    pub value: Vec<u8>,
}

impl View for Param {
    type V = Parameter;

    open spec fn view(&self) -> Parameter {
        Parameter { name: self.name@, value: self.value@ }
    }
}

/// The parameters that a sequence of `Param` stands for.
pub open spec fn views(v: Seq<Param>) -> Seq<Parameter> {
    Seq::new(v.len(), |i: int| v[i]@)
}

/// Where `x` goes in an ordered sequence: after the last parameter that
/// comes no later than it.
pub proof fn lemma_insert_at(s: Seq<Parameter>, x: Parameter, pos: int)
    requires
        0 <= pos <= s.len(),
        forall|j: int| pos <= j < s.len() ==> !param_le(#[trigger] s[j], x),
        pos == 0 || param_le(s[pos - 1], x),
    ensures
        insert(s, x) == s.insert(pos, x),
    decreases s.len() - pos,
{
    if pos == s.len() {
        assert(s.push(x) =~= s.insert(pos, x));
    } else {
        assert(!param_le(s[s.len() - 1], x));
        let d = s.drop_last();
        assert forall|j: int| pos <= j < d.len() implies !param_le(#[trigger] d[j], x) by {
            assert(d[j] == s[j]);
        }
        lemma_insert_at(d, x, pos);
        assert(d.insert(pos, x).push(s.last()) =~= s.insert(pos, x));
    }
}

/// The first place at which `a` and `b` differ, or the length of the
/// shorter where one starts with the other.
pub open spec fn first_difference(a: Seq<u8>, b: Seq<u8>) -> int
    decreases a.len(),
{
    if a.len() == 0 || b.len() == 0 || a[0] != b[0] {
        0
    } else {
        1 + first_difference(a.drop_first(), b.drop_first())
    }
}

/// The order of two sequences is decided at their first difference.
pub proof fn lemma_first_difference(a: Seq<u8>, b: Seq<u8>)
    ensures
        0 <= first_difference(a, b) <= a.len(),
        first_difference(a, b) <= b.len(),
        forall|j: int| 0 <= j < first_difference(a, b) ==> a[j] == b[j],
        first_difference(a, b) < a.len() && first_difference(a, b) < b.len() ==> a[first_difference(
            a,
            b,
        )] != b[first_difference(a, b)],
        bytes_le(a, b) == (if first_difference(a, b) == a.len() {
            true
        } else if first_difference(a, b) == b.len() {
            false
        } else {
            a[first_difference(a, b)] < b[first_difference(a, b)]
        }),
    decreases a.len(),
{
    if a.len() == 0 || b.len() == 0 || a[0] != b[0] {
    } else {
        let x = a.drop_first();
        let y = b.drop_first();
        lemma_first_difference(x, y);
        let k = first_difference(x, y);
        assert forall|j: int| 0 <= j < k + 1 implies a[j] == b[j] by {
            if j > 0 {
                assert(a[j] == x[j - 1]);
                assert(b[j] == y[j - 1]);
            }
        }
        if k < x.len() {
            assert(a[k + 1] == x[k]);
        }
        if k < y.len() {
            assert(b[k + 1] == y[k]);
        }
    }
}

/// The first difference is the first place at which the bytes differ.
pub proof fn lemma_first_difference_is(a: Seq<u8>, b: Seq<u8>, k: int)
    requires
        0 <= k <= a.len(),
        k <= b.len(),
        forall|j: int| 0 <= j < k ==> a[j] == b[j],
        k < a.len() && k < b.len() ==> a[k] != b[k],
    ensures
        first_difference(a, b) == k,
{
    lemma_first_difference(a, b);
    let d = first_difference(a, b);
    if d < k {
        assert(a[d] == b[d]);
    }
}

/// Whether `a` comes no later than `b` in lexicographic order, decided
/// as the execution mode asks.
pub fn lex_le(a: &[u8], b: &[u8]) -> (r: bool)
    ensures
        r == bytes_le(a@, b@),
{
    if CONSTANT_TIME {
        lex_le_ct(a, b)
    } else {
        lex_le_std(a, b)
    }
}

/// Whether `a` and `b` hold the same bytes, decided as the execution mode
/// asks.
pub fn same_bytes(a: &[u8], b: &[u8]) -> (r: bool)
    ensures
        r == (a@ == b@),
{
    if CONSTANT_TIME {
        same_bytes_ct(a, b)
    } else {
        same_bytes_std(a, b)
    }
}

/// Whether `a` comes no later than `b` in lexicographic order. The
/// comparison ends at the first difference.
pub fn lex_le_std(a: &[u8], b: &[u8]) -> (r: bool)
    ensures
        r == bytes_le(a@, b@),
{
    let mut i: usize = 0;
    while i < a.len() && i < b.len() && a[i] == b[i]
        invariant
            i <= a@.len(),
            i <= b@.len(),
            forall|j: int| 0 <= j < i ==> a@[j] == b@[j],
        decreases a@.len() - i,
    {
        i = i + 1;
    }
    proof {
        lemma_first_difference(a@, b@);
        lemma_first_difference_is(a@, b@, i as int);
    }
    if i >= a.len() {
        true
    } else if i >= b.len() {
        false
    } else {
        a[i] < b[i]
    }
}

/// Whether `a` and `b` hold the same bytes. The comparison ends at the
/// first difference.
pub fn same_bytes_std(a: &[u8], b: &[u8]) -> (r: bool)
    ensures
        r == (a@ == b@),
{
    if a.len() != b.len() {
        return false;
    }
    let mut i: usize = 0;
    while i < a.len()
        invariant
            i <= a@.len(),
            a@.len() == b@.len(),
            forall|j: int| 0 <= j < i ==> a@[j] == b@[j],
        decreases a@.len() - i,
    {
        if a[i] != b[i] {
            return false;
        }
        i = i + 1;
    }
    assert(a@ =~= b@);
    true
}

/// Whether `a` comes no later than `b` in lexicographic order.
///
/// The bytes that both hold are all looked at, wherever the first
/// difference is; what was decided is kept with selections.
pub fn lex_le_ct(a: &[u8], b: &[u8]) -> (r: bool)
    ensures
        r == bytes_le(a@, b@),
{
    let shorter: usize = if a.len() <= b.len() {
        a.len()
    } else {
        b.len()
    };
    let mut decided: u8 = 0;
    let mut less: u8 = 0;
    let ghost mut at: int = 0;
    let mut i: usize = 0;
    while i < shorter
        invariant
            i <= shorter,
            shorter <= a@.len(),
            shorter <= b@.len(),
            decided == 0 || decided == 1,
            less == 0 || less == 1,
            decided == 0 ==> forall|j: int| 0 <= j < i ==> a@[j] == b@[j],
            decided == 1 ==> 0 <= at < i && a@[at] != b@[at] && less == bit(a@[at] < b@[at]) && (
            forall|j: int| 0 <= j < at ==> a@[j] == b@[j]),
        decreases shorter - i,
    {
        let differ: u8 = not_bit(eq_bit(a[i], b[i]));
        let first: u8 = and_bit(differ, not_bit(decided));
        proof {
            if first == 1 {
                at = i as int;
            }
        }
        less = select(first, not_bit(ge_bit(a[i], b[i])), less);
        decided = or_bit(decided, differ);
        i = i + 1;
    }
    proof {
        lemma_first_difference(a@, b@);
        if decided == 1 {
            lemma_first_difference_is(a@, b@, at);
        } else {
            lemma_first_difference_is(a@, b@, shorter as int);
        }
    }
    if decided == 1 {
        less == 1
    } else {
        a.len() <= b.len()
    }
}

/// Whether `a` and `b` hold the same bytes.
///
/// Sequences of one length are compared in full, wherever they differ.
pub fn same_bytes_ct(a: &[u8], b: &[u8]) -> (r: bool)
    ensures
        r == (a@ == b@),
{
    if a.len() != b.len() {
        return false;
    }
    let mut differ: u8 = 0;
    let ghost mut at: int = 0;
    let mut i: usize = 0;
    while i < a.len()
        invariant
            i <= a@.len(),
            a@.len() == b@.len(),
            differ == 0 || differ == 1,
            differ == 0 ==> forall|j: int| 0 <= j < i ==> a@[j] == b@[j],
            differ == 1 ==> 0 <= at < i && a@[at] != b@[at],
        decreases a@.len() - i,
    {
        let here: u8 = not_bit(eq_bit(a[i], b[i]));
        proof {
            if here == 1 {
                at = i as int;
            }
        }
        differ = or_bit(differ, here);
        i = i + 1;
    }
    if differ == 0 {
        assert(a@ =~= b@);
    }
    differ == 0
}

/// Whether `p` comes no later than `q`.
pub fn no_later(p: &Param, q: &Param) -> (r: bool)
    ensures
        r == param_le(p@, q@),
{
    if same_bytes(p.name.as_slice(), q.name.as_slice()) {
        lex_le(p.value.as_slice(), q.value.as_slice())
    } else {
        lex_le(p.name.as_slice(), q.name.as_slice())
    }
}

/// Puts `p` in its place in an ordered vector.
pub fn insert_sorted(v: &mut Vec<Param>, p: Param)
    ensures
        views(final(v)@) == insert(views(old(v)@), p@),
{
    let mut pos: usize = v.len();
    while pos > 0 && !no_later(&v[pos - 1], &p)
        invariant
            pos <= v@.len(),
            v@ == old(v)@,
            forall|j: int| pos <= j < v@.len() ==> !param_le(#[trigger] views(v@)[j], p@),
        decreases pos,
    {
        pos = pos - 1;
    }
    proof {
        lemma_insert_at(views(v@), p@, pos as int);
        assert(views(v@.insert(pos as int, p)) =~= views(v@).insert(pos as int, p@));
    }
    v.insert(pos, p);
}

/// In an ordered sequence every parameter comes no later than each one
/// after it.
pub proof fn lemma_ordered_pairwise(ps: Seq<Parameter>, i: int, j: int)
    requires
        ordered(ps),
        0 <= i < j < ps.len(),
    ensures
        param_le(ps[i], ps[j]),
    decreases j - i,
{
    assert(param_le(ps[j - 1], ps[j]));
    if i < j - 1 {
        lemma_ordered_pairwise(ps, i, j - 1);
        lemma_param_le_transitive(ps[i], ps[j - 1], ps[j]);
    }
}

/// The order of parameters does not matter: two sequences that hold the
/// same parameters, each as often as the other, have the same sorted form.
pub proof fn law_sort_ignores_order(a: Seq<Parameter>, b: Seq<Parameter>)
    requires
        a.to_multiset() == b.to_multiset(),
    ensures
        sort(a) == sort(b),
{
    let le = |p: Parameter, q: Parameter| param_le(p, q);
    assert(vstd::relations::total_ordering(le)) by {
        assert forall|x: Parameter| #[trigger] le(x, x) by {
            lemma_bytes_le_reflexive(x.value);
        }
        assert forall|x: Parameter, y: Parameter| #[trigger] le(x, y) && #[trigger] le(
            y,
            x,
        ) implies x == y by {
            lemma_param_le_antisymmetric(x, y);
        }
        assert forall|x: Parameter, y: Parameter, z: Parameter| #[trigger] le(x, y)
            && #[trigger] le(y, z) implies le(x, z) by {
            lemma_param_le_transitive(x, y, z);
        }
        assert forall|x: Parameter, y: Parameter| #[trigger] le(x, y) || #[trigger] le(y, x) by {
            lemma_param_le_total(x, y);
        }
    }
    lemma_sort(a);
    lemma_sort(b);
    let x = sort(a);
    let y = sort(b);
    assert forall|i: int, j: int| 0 <= i < j < x.len() implies #[trigger] le(x[i], x[j]) by {
        lemma_ordered_pairwise(x, i, j);
    }
    assert forall|i: int, j: int| 0 <= i < j < y.len() implies #[trigger] le(y[i], y[j]) by {
        lemma_ordered_pairwise(y, i, j);
    }
    vstd::seq_lib::lemma_sorted_unique(x, y, le);
}

} // verus!
