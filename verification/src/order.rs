//! Lexicographic ordering of text and a stable insertion sort, the basis of
//! the canonical label, sample and series orders of the wire protocol.

use vstd::prelude::*;

verus! {

/// Lexicographic order on character sequences by code point, the order in
/// which label names and series names are compared.
pub open spec fn lex_leq(a: Seq<char>, b: Seq<char>) -> bool
    decreases a.len(),
{
    if a.len() == 0 {
        true
    } else if b.len() == 0 {
        false
    } else if (a[0] as u32) < (b[0] as u32) {
        true
    } else if (b[0] as u32) < (a[0] as u32) {
        false
    } else {
        lex_leq(a.drop_first(), b.drop_first())
    }
}

pub proof fn lemma_lex_leq_total(a: Seq<char>, b: Seq<char>)
    ensures
        lex_leq(a, b) || lex_leq(b, a),
        lex_leq(a, b) && lex_leq(b, a) ==> a == b,
    decreases a.len(),
{
    if a.len() == 0 {
        if b.len() == 0 && lex_leq(b, a) {
            assert(a =~= b);
        }
    } else if b.len() == 0 {
    } else if (a[0] as u32) == (b[0] as u32) {
        lemma_lex_leq_total(a.drop_first(), b.drop_first());
        if lex_leq(a, b) && lex_leq(b, a) {
            vstd::utf8::char_u32_cast(a[0], a[0] as u32);
            vstd::utf8::char_u32_cast(b[0], b[0] as u32);
            assert(a[0] == b[0]);
            assert(a =~= seq![a[0]] + a.drop_first());
            assert(b =~= seq![b[0]] + b.drop_first());
        }
    }
}

pub proof fn lemma_lex_leq_transitive(a: Seq<char>, b: Seq<char>, c: Seq<char>)
    requires
        lex_leq(a, b),
        lex_leq(b, c),
    ensures
        lex_leq(a, c),
    decreases a.len(),
{
    if a.len() == 0 {
    } else if b.len() == 0 {
    } else if c.len() == 0 {
    } else {
        if (a[0] as u32) == (b[0] as u32) && (b[0] as u32) == (c[0] as u32) {
            lemma_lex_leq_transitive(a.drop_first(), b.drop_first(), c.drop_first());
        }
    }
}

/// A total, transitive ordering relation; what the sorting routines require.
pub open spec fn total_leq<T>(leq: spec_fn(T, T) -> bool) -> bool {
    &&& forall|a: T, b: T| #[trigger] leq(a, b) || #[trigger] leq(b, a)
    &&& forall|a: T, b: T, c: T| #[trigger] leq(a, b) && #[trigger] leq(b, c) ==> leq(a, c)
}

/// Pairwise sortedness under `leq`.
pub open spec fn sorted_by<T>(leq: spec_fn(T, T) -> bool, s: Seq<T>) -> bool {
    forall|i: int, j: int| 0 <= i < j < s.len() ==> leq(#[trigger] s[i], #[trigger] s[j])
}

/// Insert `x` after every element `leq`-below-or-tied with it: the insertion
/// step of a stable sort.
pub open spec fn insert_sorted<T>(leq: spec_fn(T, T) -> bool, s: Seq<T>, x: T) -> Seq<T>
    decreases s.len(),
{
    if s.len() > 0 && leq(s[0], x) {
        seq![s[0]] + insert_sorted(leq, s.drop_first(), x)
    } else {
        seq![x] + s
    }
}

/// Stable insertion sort: elements tied under `leq` keep their input order.
pub open spec fn sort_by_leq<T>(leq: spec_fn(T, T) -> bool, s: Seq<T>) -> Seq<T>
    decreases s.len(),
{
    if s.len() == 0 {
        Seq::empty()
    } else {
        insert_sorted(leq, sort_by_leq(leq, s.drop_last()), s.last())
    }
}

pub proof fn lemma_insert_sorted_props<T>(leq: spec_fn(T, T) -> bool, s: Seq<T>, x: T)
    requires
        total_leq(leq),
    ensures
        insert_sorted(leq, s, x).len() == s.len() + 1,
        insert_sorted(leq, s, x).to_multiset() == s.to_multiset().insert(x),
        sorted_by(leq, s) ==> sorted_by(leq, insert_sorted(leq, s, x)),
        forall|k: int|
            0 <= k < insert_sorted(leq, s, x).len() ==> (#[trigger] insert_sorted(leq, s, x)[k]
                == x || s.contains(insert_sorted(leq, s, x)[k])),
    decreases s.len(),
{
    broadcast use vstd::seq_lib::group_seq_properties;

    let r = insert_sorted(leq, s, x);
    if s.len() > 0 && leq(s[0], x) {
        let t = s.drop_first();
        lemma_insert_sorted_props(leq, t, x);
        let rt = insert_sorted(leq, t, x);
        assert(r =~= seq![s[0]] + rt);
        assert(r.drop_first() =~= rt);
        // multiset
        t.to_multiset_ensures();
        s.to_multiset_ensures();
        rt.to_multiset_ensures();
        r.to_multiset_ensures();
        assert(s =~= seq![s[0]] + t);
        assert(r.to_multiset() =~= s.to_multiset().insert(x)) by {
            assert forall|y: T| r.to_multiset().count(y) == s.to_multiset().insert(x).count(y) by {
                lemma_concat_multiset_count(seq![s[0]], rt, y);
                lemma_concat_multiset_count(seq![s[0]], t, y);
                seq![s[0]].to_multiset_ensures();
            }
        }
        // sortedness
        if sorted_by(leq, s) {
            assert(sorted_by(leq, t));
            assert forall|i: int, j: int| 0 <= i < j < r.len() implies leq(r[i], r[j]) by {
                if i == 0 {
                    let y = r[j];
                    assert(rt[j - 1] == y);
                    if y == x {
                        assert(leq(s[0], x));
                    } else {
                        assert(t.contains(y));
                        let w = choose|w: int| 0 <= w < t.len() && t[w] == y;
                        assert(leq(s[0], s[w + 1]));
                    }
                }
            }
        }
        // membership
        assert forall|k: int| 0 <= k < r.len() implies (r[k] == x || s.contains(r[k])) by {
            if k > 0 {
                if rt[k - 1] != x {
                    assert(t.contains(rt[k - 1]));
                    let w = choose|w: int| 0 <= w < t.len() && t[w] == rt[k - 1];
                    assert(s[w + 1] == t[w]);
                }
            }
        }
    } else {
        assert(r =~= seq![x] + s);
        s.to_multiset_ensures();
        r.to_multiset_ensures();
        assert(r.to_multiset() =~= s.to_multiset().insert(x)) by {
            assert forall|y: T| r.to_multiset().count(y) == s.to_multiset().insert(x).count(y) by {
                lemma_concat_multiset_count(seq![x], s, y);
                seq![x].to_multiset_ensures();
            }
        }
        if sorted_by(leq, s) {
            assert forall|i: int, j: int| 0 <= i < j < r.len() implies leq(r[i], r[j]) by {
                if i == 0 {
                    if s.len() > 0 {
                        // here !leq(s[0], x), so leq(x, s[0]) by totality
                        assert(leq(x, s[0]));
                        if j > 1 {
                            assert(leq(s[0], s[j - 1]));
                        }
                    }
                }
            }
        }
    }
}

/// Counting occurrences through concatenation.
pub proof fn lemma_concat_multiset_count<T>(a: Seq<T>, b: Seq<T>, y: T)
    ensures
        (a + b).to_multiset().count(y) == a.to_multiset().count(y) + b.to_multiset().count(y),
    decreases b.len(),
{
    broadcast use vstd::multiset::group_multiset_axioms;

    a.to_multiset_ensures();
    b.to_multiset_ensures();
    (a + b).to_multiset_ensures();
    if b.len() == 0 {
        assert(a + b =~= a);
        assert(!b.contains(y));
        assert(b.to_multiset().count(y) == 0);
    } else {
        let c = b.drop_last();
        let x = b.last();
        lemma_concat_multiset_count(a, c, y);
        c.to_multiset_ensures();
        (a + c).to_multiset_ensures();
        assert(b =~= c.push(x));
        assert(a + b =~= (a + c).push(x));
        assert((a + b).to_multiset() =~= (a + c).to_multiset().insert(x));
        assert(b.to_multiset() =~= c.to_multiset().insert(x));
    }
}

pub proof fn lemma_sort_by_leq_props<T>(leq: spec_fn(T, T) -> bool, s: Seq<T>)
    requires
        total_leq(leq),
    ensures
        sort_by_leq(leq, s).len() == s.len(),
        sort_by_leq(leq, s).to_multiset() == s.to_multiset(),
        sorted_by(leq, sort_by_leq(leq, s)),
        forall|k: int|
            0 <= k < s.len() ==> s.contains(#[trigger] sort_by_leq(leq, s)[k]),
    decreases s.len(),
{
    broadcast use vstd::seq_lib::group_seq_properties;

    let r = sort_by_leq(leq, s);
    if s.len() > 0 {
        let d = s.drop_last();
        lemma_sort_by_leq_props(leq, d);
        lemma_insert_sorted_props(leq, sort_by_leq(leq, d), s.last());
        d.to_multiset_ensures();
        s.to_multiset_ensures();
        sort_by_leq(leq, d).to_multiset_ensures();
        r.to_multiset_ensures();
        assert(s =~= d.push(s.last()));
        assert(s.to_multiset() =~= d.to_multiset().insert(s.last()));
        assert forall|k: int| 0 <= k < s.len() implies s.contains(#[trigger] r[k]) by {
            if r[k] == s.last() {
                assert(s[s.len() - 1] == s.last());
            } else {
                assert(sort_by_leq(leq, d).contains(r[k]));
                let w = choose|w: int| 0 <= w < d.len() && sort_by_leq(leq, d)[w] == r[k];
                assert(d.contains(sort_by_leq(leq, d)[w]));
                let v = choose|v: int| 0 <= v < d.len() && d[v] == r[k];
                assert(s[v] == d[v]);
            }
        }
    }
}

/// Sorting a sorted sequence returns it unchanged: sorting is idempotent.
pub proof fn lemma_sort_of_sorted_id<T>(leq: spec_fn(T, T) -> bool, s: Seq<T>)
    requires
        total_leq(leq),
        sorted_by(leq, s),
    ensures
        sort_by_leq(leq, s) == s,
    decreases s.len(),
{
    if s.len() > 0 {
        let d = s.drop_last();
        assert(sorted_by(leq, d));
        lemma_sort_of_sorted_id(leq, d);
        lemma_insert_sorted_end(leq, d, s.last());
        assert(d.push(s.last()) =~= s);
    }
}

/// When every element is `leq` the new one, insertion appends at the end.
pub proof fn lemma_insert_sorted_end<T>(leq: spec_fn(T, T) -> bool, s: Seq<T>, x: T)
    requires
        forall|i: int| 0 <= i < s.len() ==> leq(#[trigger] s[i], x),
    ensures
        insert_sorted(leq, s, x) == s.push(x),
    decreases s.len(),
{
    if s.len() > 0 {
        lemma_insert_sorted_end(leq, s.drop_first(), x);
        assert(seq![s[0]] + s.drop_first().push(x) =~= s.push(x));
    } else {
        assert(seq![x] + s =~= s.push(x));
    }
}

/// Sorting is idempotent.
pub proof fn lemma_sort_idempotent<T>(leq: spec_fn(T, T) -> bool, s: Seq<T>)
    requires
        total_leq(leq),
    ensures
        sort_by_leq(leq, sort_by_leq(leq, s)) == sort_by_leq(leq, s),
{
    lemma_sort_by_leq_props(leq, s);
    lemma_sort_of_sorted_id(leq, sort_by_leq(leq, s));
}

/// Where `insert_sorted` lands: the first position whose element is not
/// `leq`-below-or-tied with the new one.
pub proof fn lemma_insert_sorted_position<T>(leq: spec_fn(T, T) -> bool, s: Seq<T>, x: T, p: int)
    requires
        0 <= p <= s.len(),
        forall|i: int| 0 <= i < p ==> leq(#[trigger] s[i], x),
        p < s.len() ==> !leq(s[p], x),
    ensures
        insert_sorted(leq, s, x) == s.insert(p, x),
    decreases s.len(),
{
    if p == 0 {
        if s.len() == 0 || !leq(s[0], x) {
            assert(seq![x] + s =~= s.insert(0, x));
        }
    } else {
        lemma_insert_sorted_position(leq, s.drop_first(), x, p - 1);
        assert(seq![s[0]] + s.drop_first().insert(p - 1, x) =~= s.insert(p, x));
    }
}

/// Two sorted sequences holding the same elements, none of them tied with
/// another, are equal: the canonical order is unique.
pub proof fn lemma_sorted_unique<T>(leq: spec_fn(T, T) -> bool, s1: Seq<T>, s2: Seq<T>)
    requires
        total_leq(leq),
        sorted_by(leq, s1),
        sorted_by(leq, s2),
        s1.to_multiset() == s2.to_multiset(),
        forall|i: int, j: int|
            0 <= i < j < s1.len() ==> !(leq(#[trigger] s1[i], #[trigger] s1[j]) && leq(
                s1[j],
                s1[i],
            )),
    ensures
        s1 == s2,
    decreases s1.len(),
{
    broadcast use vstd::seq_lib::group_seq_properties;

    s1.to_multiset_ensures();
    s2.to_multiset_ensures();
    if s1.len() == 0 {
        assert(s2.len() == 0);
        assert(s1 =~= s2);
    } else {
        assert(s2.len() == s1.len());
        // each head is an element of the other sequence
        assert(s1.contains(s1[0]));
        assert(s1.to_multiset().count(s1[0]) > 0);
        assert(s2.contains(s1[0]));
        assert(s2.contains(s2[0]));
        assert(s1.to_multiset().count(s2[0]) > 0);
        assert(s1.contains(s2[0]));
        let i1 = choose|i: int| 0 <= i < s1.len() && s1[i] == s2[0];
        let i2 = choose|i: int| 0 <= i < s2.len() && s2[i] == s1[0];
        // heads are mutually leq
        assert(leq(s1[0], s2[0])) by {
            if i1 > 0 {
                assert(leq(s1[0], s1[i1]));
            } else {
                assert(leq(s1[0], s1[0]) || leq(s1[0], s1[0]));
            }
        }
        assert(leq(s2[0], s1[0])) by {
            if i2 > 0 {
                assert(leq(s2[0], s2[i2]));
            }
        }
        // ties are equalities under the distinctness hypothesis
        assert(s1[0] == s2[0]) by {
            if i1 > 0 {
                assert(leq(s1[0], s1[i1]) && leq(s1[i1], s1[0]));
                assert(false);
            }
        }
        let t1 = s1.drop_first();
        let t2 = s2.drop_first();
        assert(t1 =~= s1.remove(0));
        assert(t2 =~= s2.remove(0));
        assert(t1.to_multiset() =~= t2.to_multiset()) by {
            assert(s1.remove(0).to_multiset() =~= s1.to_multiset().remove(s1[0]));
            assert(s2.remove(0).to_multiset() =~= s2.to_multiset().remove(s2[0]));
        }
        assert(sorted_by(leq, t1));
        assert(sorted_by(leq, t2));
        assert(forall|i: int, j: int|
            0 <= i < j < t1.len() ==> !(leq(#[trigger] t1[i], #[trigger] t1[j]) && leq(
                t1[j],
                t1[i],
            ))) by {
            assert(forall|i: int| 0 <= i < t1.len() ==> t1[i] == s1[i + 1]);
        }
        lemma_sorted_unique(leq, t1, t2);
        assert forall|i: int| 0 <= i < s1.len() implies s1[i] == s2[i] by {
            if i > 0 {
                assert(t1[i - 1] == s1[i]);
                assert(t2[i - 1] == s2[i]);
            }
        }
        assert(s1 =~= s2);
    }
}

/// Concatenation adds the element counts.
pub proof fn lemma_concat_multiset<T>(a: Seq<T>, b: Seq<T>)
    ensures
        (a + b).to_multiset() == a.to_multiset().add(b.to_multiset()),
{
    broadcast use vstd::multiset::group_multiset_axioms;

    assert((a + b).to_multiset() =~= a.to_multiset().add(b.to_multiset())) by {
        assert forall|y: T|
            (a + b).to_multiset().count(y) == a.to_multiset().add(b.to_multiset()).count(y) by {
            lemma_concat_multiset_count(a, b, y);
        }
    }
}

/// A value sitting at two positions counts at least twice.
pub proof fn lemma_two_positions_count<T>(s: Seq<T>, i: int, j: int)
    requires
        0 <= i < j < s.len(),
        s[i] == s[j],
    ensures
        s.to_multiset().count(s[i]) >= 2,
{
    broadcast use vstd::multiset::group_multiset_axioms;

    s.to_multiset_ensures();
    let r = s.remove(i);
    s.remove_ensures(i);
    assert(r.to_multiset() =~= s.to_multiset().remove(s[i]));
    assert(r[j - 1] == s[j]);
    assert(r.contains(s[i]));
    r.to_multiset_ensures();
    assert(r.to_multiset().count(s[i]) > 0);
}

/// A value counting at least twice sits at two positions.
pub proof fn lemma_count_two_positions<T>(s: Seq<T>, v: T)
    requires
        s.to_multiset().count(v) >= 2,
    ensures
        exists|i: int, j: int| 0 <= i < j < s.len() && s[i] == v && s[j] == v,
{
    broadcast use vstd::multiset::group_multiset_axioms;

    s.to_multiset_ensures();
    assert(s.contains(v));
    let i = choose|i: int| 0 <= i < s.len() && s[i] == v;
    let r = s.remove(i);
    s.remove_ensures(i);
    assert(r.to_multiset() =~= s.to_multiset().remove(v));
    r.to_multiset_ensures();
    assert(r.to_multiset().count(v) > 0);
    assert(r.contains(v));
    let k = choose|k: int| 0 <= k < r.len() && r[k] == v;
    if k < i {
        assert(s[k] == r[k]);
        assert(0 <= k < i < s.len() && s[k] == v && s[i] == v);
    } else {
        assert(s[k + 1] == r[k]);
        assert(0 <= i < k + 1 < s.len() && s[i] == v && s[k + 1] == v);
    }
}

} // verus!
