//! Deterministic sorting.
//!
//! Every ordering step of the pipeline is an insertion sort against an
//! explicit spec-level comparator, so each sorted result is a pure function
//! of its input — grouping or iteration order can never leak into a result.

use vstd::prelude::*;
use crate::strutil::lex_lt;
use crate::strutil::str_lt;

verus! {

/// `x` inserted into `s` after every element `e` with `leq(e, x)`.
pub open spec fn insert_ord<T>(leq: spec_fn(T, T) -> bool, s: Seq<T>, x: T) -> Seq<T>
    decreases s.len(),
{
    if s.len() == 0 {
        seq![x]
    } else if !leq(s[0], x) {
        seq![x] + s
    } else {
        seq![s[0]] + insert_ord(leq, s.drop_first(), x)
    }
}

/// Insertion sort of `s` under `leq`: stable, total on any input.
pub open spec fn isort_by<T>(leq: spec_fn(T, T) -> bool, s: Seq<T>) -> Seq<T>
    decreases s.len(),
{
    if s.len() == 0 {
        Seq::empty()
    } else {
        insert_ord(leq, isort_by(leq, s.drop_last()), s.last())
    }
}

/// Every pair of positions in `s` is ordered by `leq`.
pub open spec fn ord_sorted<T>(leq: spec_fn(T, T) -> bool, s: Seq<T>) -> bool {
    forall|i: int, j: int| 0 <= i < j < s.len() ==> leq(#[trigger] s[i], #[trigger] s[j])
}

pub proof fn lemma_insert_ord_multiset<T>(leq: spec_fn(T, T) -> bool, s: Seq<T>, x: T)
    ensures
        insert_ord(leq, s, x).to_multiset() =~= s.to_multiset().insert(x),
        insert_ord(leq, s, x).len() == s.len() + 1,
    decreases s.len(),
{
    broadcast use vstd::seq_lib::group_to_multiset_ensures;

    if s.len() == 0 {
        assert(seq![x] =~= Seq::<T>::empty().push(x));
    } else if !leq(s[0], x) {
        assert(seq![x] + s =~= (seq![x] + s.drop_last()).push(s.last()));
        lemma_cons_multiset(s, x);
    } else {
        lemma_insert_ord_multiset(leq, s.drop_first(), x);
        let t = insert_ord(leq, s.drop_first(), x);
        lemma_cons_multiset(t, s[0]);
        lemma_cons_multiset(s.drop_first(), s[0]);
        assert(seq![s[0]] + s.drop_first() =~= s);
    }
}

proof fn lemma_cons_multiset<T>(s: Seq<T>, x: T)
    ensures
        (seq![x] + s).to_multiset() =~= s.to_multiset().insert(x),
    decreases s.len(),
{
    broadcast use vstd::seq_lib::group_to_multiset_ensures;

    if s.len() == 0 {
        assert(seq![x] + s =~= Seq::<T>::empty().push(x));
    } else {
        lemma_cons_multiset(s.drop_last(), x);
        assert(seq![x] + s =~= (seq![x] + s.drop_last()).push(s.last()));
        assert(s =~= s.drop_last().push(s.last()));
    }
}

/// A sorted sequence holds exactly the elements of its source.
pub proof fn lemma_isort_multiset<T>(leq: spec_fn(T, T) -> bool, s: Seq<T>)
    ensures
        isort_by(leq, s).to_multiset() =~= s.to_multiset(),
        isort_by(leq, s).len() == s.len(),
    decreases s.len(),
{
    broadcast use vstd::seq_lib::group_to_multiset_ensures;

    if s.len() > 0 {
        lemma_isort_multiset(leq, s.drop_last());
        lemma_insert_ord_multiset(leq, isort_by(leq, s.drop_last()), s.last());
        assert(s =~= s.drop_last().push(s.last()));
    }
}

/// Where the insertion lands when the first `i` elements precede `x`.
pub proof fn lemma_insert_ord_split<T>(leq: spec_fn(T, T) -> bool, s: Seq<T>, x: T, i: int)
    requires
        0 <= i <= s.len(),
        forall|k: int| 0 <= k < i ==> leq(#[trigger] s[k], x),
        i < s.len() ==> !leq(s[i], x),
    ensures
        insert_ord(leq, s, x) =~= s.take(i) + seq![x] + s.skip(i),
    decreases s.len(),
{
    if s.len() == 0 {
    } else if i == 0 {
        assert(!leq(s[0], x));
    } else {
        let t = s.drop_first();
        assert forall|k: int| 0 <= k < i - 1 implies leq(#[trigger] t[k], x) by {
            assert(t[k] == s[k + 1]);
        }
        lemma_insert_ord_split(leq, t, x, i - 1);
    }
}

/// Insertion keeps sortedness when `leq` is total and transitive.
pub proof fn lemma_insert_ord_sorted<T>(leq: spec_fn(T, T) -> bool, s: Seq<T>, x: T)
    requires
        forall|a: T, b: T| #[trigger] leq(a, b) || #[trigger] leq(b, a),
        forall|a: T, b: T, c: T| #[trigger] leq(a, b) && #[trigger] leq(b, c) ==> leq(a, c),
        ord_sorted(leq, s),
    ensures
        ord_sorted(leq, insert_ord(leq, s, x)),
    decreases s.len(),
{
    if s.len() == 0 {
    } else if !leq(s[0], x) {
        let r = seq![x] + s;
        assert forall|i: int, j: int| 0 <= i < j < r.len() implies leq(
            #[trigger] r[i],
            #[trigger] r[j],
        ) by {
            if i == 0 {
                assert(leq(x, s[0]));
                if j > 1 {
                    assert(leq(s[0], s[j - 1]));
                }
            } else {
                assert(leq(s[i - 1], s[j - 1]));
            }
        }
    } else {
        let t = s.drop_first();
        assert forall|i: int, j: int| 0 <= i < j < t.len() implies leq(
            #[trigger] t[i],
            #[trigger] t[j],
        ) by {
            assert(s[i + 1] == t[i]);
            assert(s[j + 1] == t[j]);
        }
        lemma_insert_ord_sorted(leq, t, x);
        let r = seq![s[0]] + insert_ord(leq, t, x);
        let u = insert_ord(leq, t, x);
        assert forall|i: int, j: int| 0 <= i < j < r.len() implies leq(
            #[trigger] r[i],
            #[trigger] r[j],
        ) by {
            if i == 0 {
                // s[0] precedes x and every element of t
                broadcast use vstd::seq_lib::group_to_multiset_ensures;

                lemma_insert_ord_multiset(leq, t, x);
                assert(u.to_multiset().count(u[j - 1]) > 0);
                assert(u.contains(u[j - 1]));
                if u[j - 1] == x {
                    assert(leq(s[0], x));
                } else {
                    assert(t.to_multiset().insert(x).count(u[j - 1]) > 0);
                    assert(t.to_multiset().count(u[j - 1]) > 0);
                    assert(t.contains(u[j - 1]));
                    let w = choose|w: int| 0 <= w < t.len() && t[w] == u[j - 1];
                    assert(leq(s[0], s[w + 1]));
                }
            } else {
                assert(leq(u[i - 1], u[j - 1]));
            }
        }
    }
}

/// The result of an insertion sort is sorted when `leq` is total and
/// transitive.
pub proof fn lemma_isort_sorted<T>(leq: spec_fn(T, T) -> bool, s: Seq<T>)
    requires
        forall|a: T, b: T| #[trigger] leq(a, b) || #[trigger] leq(b, a),
        forall|a: T, b: T, c: T| #[trigger] leq(a, b) && #[trigger] leq(b, c) ==> leq(a, c),
    ensures
        ord_sorted(leq, isort_by(leq, s)),
    decreases s.len(),
{
    if s.len() > 0 {
        lemma_isort_sorted(leq, s.drop_last());
        lemma_insert_ord_sorted(leq, isort_by(leq, s.drop_last()), s.last());
    }
}

/// Sorting keeps every element property.
pub proof fn lemma_isort_elems<T>(leq: spec_fn(T, T) -> bool, s: Seq<T>, pred: spec_fn(T) -> bool)
    requires
        forall|i: int| 0 <= i < s.len() ==> pred(#[trigger] s[i]),
    ensures
        forall|i: int|
            0 <= i < isort_by(leq, s).len() ==> pred(#[trigger] isort_by(leq, s)[i]),
{
    broadcast use vstd::seq_lib::group_to_multiset_ensures;

    lemma_isort_multiset(leq, s);
    let r = isort_by(leq, s);
    assert forall|i: int| 0 <= i < r.len() implies pred(#[trigger] r[i]) by {
        assert(r.to_multiset().count(r[i]) > 0);
        assert(s.to_multiset().count(r[i]) > 0);
        assert(s.contains(r[i]));
        let w = choose|w: int| 0 <= w < s.len() && s[w] == r[i];
        assert(pred(s[w]));
    }
}

/// Name order on owned strings: `a` before or equal to `b`.
pub open spec fn string_le_fn() -> spec_fn(String, String) -> bool {
    |a: String, b: String| !lex_lt(b@, a@)
}

/// Sorts strings by character order, keeping duplicates.
pub fn sort_strings(v: Vec<String>) -> (r: Vec<String>)
    ensures
        r@ == isort_by(string_le_fn(), v@),
{
    let ghost orig = v@;
    let ghost leq = string_le_fn();
    let mut rest = v;
    let mut out: Vec<String> = Vec::new();
    let ghost mut done: int = 0;
    proof {
        assert(orig.take(0) =~= Seq::<String>::empty());
        assert(rest@ =~= orig.skip(0));
    }
    while rest.len() > 0
        invariant
            0 <= done <= orig.len(),
            rest@ == orig.skip(done),
            out@ == isort_by(leq, orig.take(done)),
            leq == string_le_fn(),
        decreases rest@.len(),
    {
        let x = rest.remove(0);
        proof {
            assert(x == orig[done]);
            assert(orig.skip(done).drop_first() =~= orig.skip(done + 1));
        }
        let mut idx: usize = 0;
        while idx < out.len() && !str_lt(x.as_str(), out[idx].as_str())
            invariant
                idx <= out@.len(),
                leq == string_le_fn(),
                forall|k: int| 0 <= k < idx ==> leq(#[trigger] out@[k], x),
            decreases out@.len() - idx,
        {
            idx = idx + 1;
        }
        proof {
            lemma_insert_ord_split(leq, out@, x, idx as int);
            assert(orig.take(done + 1).drop_last() =~= orig.take(done));
            assert(orig.take(done + 1).last() == orig[done]);
        }
        out.insert(idx, x);
        proof {
            assert(out@ =~= isort_by(leq, orig.take(done + 1)));
            done = done + 1;
        }
    }
    proof {
        assert(orig.take(done) =~= orig);
    }
    out
}

/// Name order on character sequences.
pub open spec fn seqchar_le_fn() -> spec_fn(Seq<char>, Seq<char>) -> bool {
    |a: Seq<char>, b: Seq<char>| !lex_lt(b, a)
}

/// `lex_lt` never holds both ways.
pub proof fn lemma_lex_asym(a: Seq<char>, b: Seq<char>)
    ensures
        !(lex_lt(a, b) && lex_lt(b, a)),
    decreases a.len(),
{
    if a.len() > 0 && b.len() > 0 && a[0] == b[0] {
        lemma_lex_asym(a.drop_first(), b.drop_first());
    }
}

/// When `lex_lt` holds neither way the sequences are equal.
pub proof fn lemma_lex_connected(a: Seq<char>, b: Seq<char>)
    requires
        !lex_lt(a, b),
        !lex_lt(b, a),
    ensures
        a == b,
    decreases a.len(),
{
    if a.len() == 0 && b.len() == 0 {
        assert(a =~= b);
    } else if a.len() > 0 && b.len() > 0 {
        if a[0] != b[0] {
            assert(!((a[0] as u32) < (b[0] as u32)));
            assert(!((b[0] as u32) < (a[0] as u32)));
            assert(a[0] as u32 == b[0] as u32);
            vstd::utf8::char_u32_cast(a[0], a[0] as u32);
            vstd::utf8::char_u32_cast(b[0], b[0] as u32);
            assert(a[0] == b[0]);
        }
        assert(a[0] == b[0]);
        lemma_lex_connected(a.drop_first(), b.drop_first());
        assert(a =~= seq![a[0]] + a.drop_first());
        assert(b =~= seq![b[0]] + b.drop_first());
    }
}

/// `lex_lt` is transitive.
pub proof fn lemma_lex_trans(a: Seq<char>, b: Seq<char>, c: Seq<char>)
    requires
        lex_lt(a, b),
        lex_lt(b, c),
    ensures
        lex_lt(a, c),
    decreases a.len() + b.len() + c.len(),
{
    if a.len() > 0 && b.len() > 0 && c.len() > 0 && a[0] == b[0] && b[0] == c[0] {
        lemma_lex_trans(a.drop_first(), b.drop_first(), c.drop_first());
    }
}

/// Name order on character sequences is total and transitive.
pub proof fn lemma_seqchar_le_total()
    ensures
        forall|a: Seq<char>, b: Seq<char>| #[trigger]
            seqchar_le_fn()(a, b) || #[trigger] seqchar_le_fn()(b, a),
        forall|a: Seq<char>, b: Seq<char>, c: Seq<char>| #[trigger]
            seqchar_le_fn()(a, b) && #[trigger] seqchar_le_fn()(b, c) ==> seqchar_le_fn()(a, c),
{
    assert forall|a: Seq<char>, b: Seq<char>| #[trigger]
        seqchar_le_fn()(a, b) || #[trigger] seqchar_le_fn()(b, a) by {
        lemma_lex_asym(a, b);
    }
    assert forall|a: Seq<char>, b: Seq<char>, c: Seq<char>| #[trigger]
        seqchar_le_fn()(a, b) && #[trigger] seqchar_le_fn()(b, c) implies seqchar_le_fn()(
        a,
        c,
    ) by {
        if lex_lt(c, a) {
            if lex_lt(b, c) {
                lemma_lex_trans(b, c, a);
            } else {
                lemma_lex_connected(b, c);
            }
        }
    }
}

/// The views of a string sequence.
pub open spec fn views_of(s: Seq<String>) -> Seq<Seq<char>> {
    s.map_values(|x: String| x@)
}

proof fn lemma_insert_strings_view(s: Seq<String>, x: String)
    ensures
        views_of(insert_ord(string_le_fn(), s, x)) =~= insert_ord(
            seqchar_le_fn(),
            views_of(s),
            x@,
        ),
    decreases s.len(),
{
    let sv = views_of(s);
    if s.len() == 0 {
    } else if !string_le_fn()(s[0], x) {
        assert(views_of(seq![x] + s) =~= seq![x@] + sv);
    } else {
        lemma_insert_strings_view(s.drop_first(), x);
        assert(views_of(s.drop_first()) =~= sv.drop_first());
        assert(views_of(seq![s[0]] + insert_ord(string_le_fn(), s.drop_first(), x)) =~= seq![
            s[0]@,
        ] + views_of(insert_ord(string_le_fn(), s.drop_first(), x)));
    }
}

/// Sorting strings and taking views is the same as sorting the views.
pub proof fn lemma_isort_strings_view(s: Seq<String>)
    ensures
        views_of(isort_by(string_le_fn(), s)) =~= isort_by(seqchar_le_fn(), views_of(s)),
    decreases s.len(),
{
    if s.len() > 0 {
        lemma_isort_strings_view(s.drop_last());
        lemma_insert_strings_view(isort_by(string_le_fn(), s.drop_last()), s.last());
        assert(views_of(s.drop_last()) =~= views_of(s).drop_last());
        assert(views_of(s).drop_last().push(s.last()@) =~= views_of(s));
    }
}

/// Adjacent duplicates removed; on a sorted sequence this removes all
/// duplicates.
pub open spec fn dedup_sorted(s: Seq<Seq<char>>) -> Seq<Seq<char>>
    decreases s.len(),
{
    if s.len() == 0 {
        Seq::empty()
    } else if s.len() == 1 {
        s
    } else if s[0] == s[1] {
        dedup_sorted(s.drop_first())
    } else {
        seq![s[0]] + dedup_sorted(s.drop_first())
    }
}

/// On a sorted sequence, removing adjacent duplicates leaves a strictly
/// increasing sequence, so all names are distinct.
pub proof fn lemma_dedup_sorted_strict(s: Seq<Seq<char>>)
    requires
        ord_sorted(seqchar_le_fn(), s),
    ensures
        forall|i: int, j: int|
            0 <= i < j < dedup_sorted(s).len() ==> lex_lt(
                #[trigger] dedup_sorted(s)[i],
                #[trigger] dedup_sorted(s)[j],
            ),
        forall|x: Seq<char>| #[trigger] dedup_sorted(s).contains(x) <==> s.contains(x),
    decreases s.len(),
{
    let d = dedup_sorted(s);
    if s.len() <= 1 {
        if s.len() == 1 {
            assert forall|x: Seq<char>| #[trigger] d.contains(x) <==> s.contains(x) by {
                assert(d =~= s);
            }
        }
    } else {
        let t = s.drop_first();
        assert forall|i: int, j: int| 0 <= i < j < t.len() implies seqchar_le_fn()(
            #[trigger] t[i],
            #[trigger] t[j],
        ) by {
            assert(s[i + 1] == t[i]);
            assert(s[j + 1] == t[j]);
        }
        lemma_dedup_sorted_strict(t);
        let dt = dedup_sorted(t);
        if s[0] == s[1] {
            assert forall|x: Seq<char>| #[trigger] d.contains(x) <==> s.contains(x) by {
                if s.contains(x) {
                    let w = choose|w: int| 0 <= w < s.len() && s[w] == x;
                    if w == 0 {
                        assert(t[0] == s[1]);
                        assert(t.contains(x));
                    } else {
                        assert(t[w - 1] == x);
                        assert(t.contains(x));
                    }
                }
                if t.contains(x) {
                    let w = choose|w: int| 0 <= w < t.len() && t[w] == x;
                    assert(s[w + 1] == x);
                }
            }
        } else {
            // every element of dt is at least t[0], and s[0] is strictly
            // below t[0]
            assert forall|i: int, j: int| 0 <= i < j < d.len() implies lex_lt(
                #[trigger] d[i],
                #[trigger] d[j],
            ) by {
                if i == 0 {
                    assert(d[j] == dt[j - 1]);
                    assert(dt.contains(dt[j - 1]));
                    assert(t.contains(dt[j - 1]));
                    let w = choose|w: int| 0 <= w < t.len() && t[w] == dt[j - 1];
                    // s[0] < t[0] <= t[w]
                    assert(seqchar_le_fn()(s[0], s[w + 1]));
                    lemma_lex_asym(s[0], s[1]);
                    lemma_lex_connected_or(s[0], t[w]);
                    if w > 0 {
                        assert(seqchar_le_fn()(t[0], t[w]));
                    }
                    if !lex_lt(s[0], t[w]) {
                        lemma_lex_connected(t[w], s[0]);
                        assert(s[0] == t[w]);
                        assert(!lex_lt(s[0], s[1]));
                        assert(seqchar_le_fn()(s[1], s[w + 1]) || w == 0);
                        if w > 0 {
                            lemma_lex_connected(s[1], s[0]);
                        } else {
                            lemma_lex_connected(s[1], s[0]);
                        }
                    }
                } else {
                    assert(d[i] == dt[i - 1]);
                    assert(d[j] == dt[j - 1]);
                }
            }
            assert forall|x: Seq<char>| #[trigger] d.contains(x) <==> s.contains(x) by {
                if s.contains(x) {
                    let w = choose|w: int| 0 <= w < s.len() && s[w] == x;
                    if w == 0 {
                        assert(d[0] == x);
                        assert(d.contains(x));
                    } else {
                        assert(t[w - 1] == x);
                        assert(t.contains(x));
                        assert(dt.contains(x));
                        let u = choose|u: int| 0 <= u < dt.len() && dt[u] == x;
                        assert(d[u + 1] == x);
                        assert(d.contains(x));
                    }
                }
                if d.contains(x) {
                    let w = choose|w: int| 0 <= w < d.len() && d[w] == x;
                    if w == 0 {
                        assert(s[0] == x);
                    } else {
                        assert(dt.contains(dt[w - 1]));
                        assert(t.contains(x));
                        let u = choose|u: int| 0 <= u < t.len() && t[u] == x;
                        assert(s[u + 1] == x);
                    }
                }
            }
        }
    }
}

proof fn lemma_lex_connected_or(a: Seq<char>, b: Seq<char>)
    ensures
        lex_lt(a, b) || lex_lt(b, a) || a == b,
{
    if !lex_lt(a, b) && !lex_lt(b, a) {
        lemma_lex_connected(a, b);
    }
}

/// Removes adjacent duplicate names from a sorted list of strings.
pub fn dedup_strings(v: &Vec<String>) -> (r: Vec<String>)
    ensures
        views_of(r@) == dedup_sorted(views_of(v@)),
{
    let ghost sv = views_of(v@);
    let mut out: Vec<String> = Vec::new();
    let mut i: usize = 0;
    proof {
        assert(sv.skip(0) =~= sv);
        assert(views_of(out@) + dedup_sorted(sv.skip(0)) =~= dedup_sorted(sv));
    }
    while i < v.len()
        invariant
            i <= v@.len(),
            sv == views_of(v@),
            sv.len() == v@.len(),
            dedup_sorted(sv) == views_of(out@) + dedup_sorted(sv.skip(i as int)),
        decreases v@.len() - i,
    {
        proof {
            assert(sv.skip(i as int)[0] == sv[i as int]);
            assert(sv.skip(i as int).drop_first() =~= sv.skip(i + 1));
            assert(sv[i as int] == v@[i as int]@);
        }
        if i + 1 < v.len() && crate::strutil::str_eq(v[i].as_str(), v[i + 1].as_str()) {
            proof {
                assert(sv.skip(i as int)[1] == sv[i + 1]);
                assert(sv.skip(i as int).len() >= 2);
            }
        } else {
            let x = String::from_str(v[i].as_str());
            let ghost out0 = out@;
            out.push(x);
            proof {
                assert(views_of(out@) =~= views_of(out0).push(v@[i as int]@));
                if i + 1 < v@.len() {
                    assert(sv.skip(i as int).len() >= 2);
                    assert(sv.skip(i as int)[1] == sv[i + 1]);
                    assert(sv[i as int] != sv[i + 1]);
                    assert(dedup_sorted(sv.skip(i as int)) =~= seq![sv[i as int]] + dedup_sorted(
                        sv.skip(i + 1),
                    ));
                } else {
                    assert(sv.skip(i as int).len() == 1);
                    assert(dedup_sorted(sv.skip(i as int)) =~= seq![sv[i as int]]);
                    assert(sv.skip(i + 1) =~= Seq::<Seq<char>>::empty());
                }
                assert(views_of(out0).push(sv[i as int]) + dedup_sorted(sv.skip(i + 1)) =~= views_of(
                    out0,
                ) + (seq![sv[i as int]] + dedup_sorted(sv.skip(i + 1))));
            }
        }
        i = i + 1;
    }
    proof {
        assert(sv.skip(i as int) =~= Seq::<Seq<char>>::empty());
        assert(views_of(out@) + Seq::<Seq<char>>::empty() =~= views_of(out@));
    }
    out
}

/// A sorting key: three numeric components compared in order, then the
/// index of the element, so that ties always resolve the same way.
#[derive(Clone, Copy, PartialEq, Eq, Structural, Debug)]
pub struct SortKey {
    pub k1: i64,
    pub k2: i64,
    pub k3: i64,
    pub idx: usize,
}

/// Lexicographic order on sorting keys.
pub open spec fn key_le(a: SortKey, b: SortKey) -> bool {
    if a.k1 != b.k1 {
        a.k1 < b.k1
    } else if a.k2 != b.k2 {
        a.k2 < b.k2
    } else if a.k3 != b.k3 {
        a.k3 < b.k3
    } else {
        a.idx <= b.idx
    }
}

/// Key order as a comparator value.
pub open spec fn key_le_fn() -> spec_fn(SortKey, SortKey) -> bool {
    |a: SortKey, b: SortKey| key_le(a, b)
}

/// Decides `key_le`.
pub fn key_le_exec(a: &SortKey, b: &SortKey) -> (r: bool)
    ensures
        r == key_le(*a, *b),
{
    if a.k1 != b.k1 {
        a.k1 < b.k1
    } else if a.k2 != b.k2 {
        a.k2 < b.k2
    } else if a.k3 != b.k3 {
        a.k3 < b.k3
    } else {
        a.idx <= b.idx
    }
}

/// Sorts keys lexicographically.
pub fn sort_keys(v: Vec<SortKey>) -> (r: Vec<SortKey>)
    ensures
        r@ == isort_by(key_le_fn(), v@),
{
    let ghost orig = v@;
    let ghost leq = key_le_fn();
    let mut rest = v;
    let mut out: Vec<SortKey> = Vec::new();
    let ghost mut done: int = 0;
    proof {
        assert(orig.take(0) =~= Seq::<SortKey>::empty());
        assert(rest@ =~= orig.skip(0));
    }
    while rest.len() > 0
        invariant
            0 <= done <= orig.len(),
            rest@ == orig.skip(done),
            out@ == isort_by(leq, orig.take(done)),
            leq == key_le_fn(),
        decreases rest@.len(),
    {
        let x = rest.remove(0);
        proof {
            assert(x == orig[done]);
            assert(orig.skip(done).drop_first() =~= orig.skip(done + 1));
        }
        let mut idx: usize = 0;
        while idx < out.len() && key_le_exec(&out[idx], &x)
            invariant
                idx <= out@.len(),
                leq == key_le_fn(),
                forall|k: int| 0 <= k < idx ==> leq(#[trigger] out@[k], x),
            decreases out@.len() - idx,
        {
            idx = idx + 1;
        }
        proof {
            lemma_insert_ord_split(leq, out@, x, idx as int);
            assert(orig.take(done + 1).drop_last() =~= orig.take(done));
            assert(orig.take(done + 1).last() == orig[done]);
        }
        out.insert(idx, x);
        proof {
            assert(out@ =~= isort_by(leq, orig.take(done + 1)));
            done = done + 1;
        }
    }
    proof {
        assert(orig.take(done) =~= orig);
    }
    out
}

} // verus!
