//! A verified lexicographic sort for lists of strings, pinned to the
//! mathematical `sort_by` of the sequence library.

use vstd::prelude::*;
use vstd::relations::{sorted_by, total_ordering};
use vstd::seq_lib::lemma_sorted_unique;

use crate::strings::{lex_le, str_le};

verus! {

/// Lexicographic order as a relation value, for the sequence library.
pub open spec fn lex_leq() -> spec_fn(Seq<char>, Seq<char>) -> bool {
    |a: Seq<char>, b: Seq<char>| lex_le(a, b)
}

pub proof fn lemma_lex_le_refl(a: Seq<char>)
    ensures
        lex_le(a, a),
    decreases a.len(),
{
    if a.len() > 0 {
        lemma_lex_le_refl(a.drop_first());
    }
}

pub proof fn lemma_lex_le_antisymmetric(a: Seq<char>, b: Seq<char>)
    requires
        lex_le(a, b),
        lex_le(b, a),
    ensures
        a == b,
    decreases a.len(),
{
    if a.len() == 0 {
        assert(b.len() == 0);
        assert(a =~= b);
    } else {
        assert(b.len() > 0);
        assert(a[0] as int == b[0] as int);
        assert(a[0] == b[0]);
        lemma_lex_le_antisymmetric(a.drop_first(), b.drop_first());
        assert forall|i: int| 1 <= i < a.len() implies a[i] == b[i] by {
            assert(a.drop_first()[i - 1] == b.drop_first()[i - 1]);
        }
        assert(a =~= b);
    }
}

pub proof fn lemma_lex_le_transitive(a: Seq<char>, b: Seq<char>, c: Seq<char>)
    requires
        lex_le(a, b),
        lex_le(b, c),
    ensures
        lex_le(a, c),
    decreases a.len(),
{
    if a.len() > 0 && c.len() > 0 {
        assert(b.len() > 0);
        if a[0] as int == b[0] as int && b[0] as int == c[0] as int {
            lemma_lex_le_transitive(a.drop_first(), b.drop_first(), c.drop_first());
        }
    }
}

pub proof fn lemma_lex_le_connected(a: Seq<char>, b: Seq<char>)
    ensures
        lex_le(a, b) || lex_le(b, a),
    decreases a.len(),
{
    if a.len() > 0 && b.len() > 0 && a[0] as int == b[0] as int {
        lemma_lex_le_connected(a.drop_first(), b.drop_first());
    }
}

/// A shared leading piece does not affect the comparison.
pub proof fn lemma_lex_le_cancel_prefix(p: Seq<char>, a: Seq<char>, b: Seq<char>)
    ensures
        lex_le(p + a, p + b) == lex_le(a, b),
    decreases p.len(),
{
    if p.len() == 0 {
        assert(p + a =~= a);
        assert(p + b =~= b);
    } else {
        assert((p + a).len() > 0 && (p + b).len() > 0);
        assert((p + a)[0] == p[0] && (p + b)[0] == p[0]);
        assert((p + a).drop_first() =~= p.drop_first() + a);
        assert((p + b).drop_first() =~= p.drop_first() + b);
        lemma_lex_le_cancel_prefix(p.drop_first(), a, b);
    }
}

/// When neither side is a prefix of the other, whatever follows them does
/// not affect the comparison.
pub proof fn lemma_lex_le_concat_incomparable(a: Seq<char>, b: Seq<char>, s: Seq<char>, t: Seq<char>)
    requires
        !crate::strings::starts_with(b, a),
        !crate::strings::starts_with(a, b),
    ensures
        lex_le(a + s, b + t) == lex_le(a, b),
    decreases a.len(),
{
    if a.len() == 0 {
        assert(b.take(0) =~= a);
        assert(false);
    } else if b.len() == 0 {
        assert(a.take(0) =~= b);
        assert(false);
    } else {
        assert((a + s)[0] == a[0] && (b + t)[0] == b[0]);
        if a[0] as int == b[0] as int {
            let ta = a.drop_first();
            let tb = b.drop_first();
            assert(a[0] == b[0]);
            assert(!crate::strings::starts_with(tb, ta)) by {
                if crate::strings::starts_with(tb, ta) {
                    assert forall|i: int| 1 <= i < a.len() implies b[i] == a[i] by {
                        assert(tb.take(ta.len() as int)[i - 1] == ta[i - 1]);
                    }
                    assert(b.take(a.len() as int) =~= a);
                }
            }
            assert(!crate::strings::starts_with(ta, tb)) by {
                if crate::strings::starts_with(ta, tb) {
                    assert forall|i: int| 1 <= i < b.len() implies a[i] == b[i] by {
                        assert(ta.take(tb.len() as int)[i - 1] == tb[i - 1]);
                    }
                    assert(a.take(b.len() as int) =~= b);
                }
            }
            assert((a + s).drop_first() =~= ta + s);
            assert((b + t).drop_first() =~= tb + t);
            lemma_lex_le_concat_incomparable(ta, tb, s, t);
        }
    }
}

/// Lexicographic order on character sequences is a total order.
pub proof fn lemma_lex_total_ordering()
    ensures
        total_ordering(lex_leq()),
{
    let leq = lex_leq();
    assert forall|a: Seq<char>| #[trigger] leq(a, a) by {
        lemma_lex_le_refl(a);
    }
    assert forall|a: Seq<char>, b: Seq<char>| #[trigger] leq(a, b) && #[trigger] leq(b, a)
        implies a == b by {
        lemma_lex_le_antisymmetric(a, b);
    }
    assert forall|a: Seq<char>, b: Seq<char>, c: Seq<char>|
        #[trigger] leq(a, b) && #[trigger] leq(b, c) implies leq(a, c) by {
        lemma_lex_le_transitive(a, b, c);
    }
    assert forall|a: Seq<char>, b: Seq<char>| #[trigger] leq(a, b) || #[trigger] leq(b, a) by {
        lemma_lex_le_connected(a, b);
    }
}

/// The list sorted into non-decreasing lexicographic order.
pub open spec fn sort_lex(s: Seq<Seq<char>>) -> Seq<Seq<char>> {
    s.sort_by(lex_leq())
}

/// The sorted list is non-decreasing and holds the same elements.
pub proof fn lemma_sort_lex_ensures(s: Seq<Seq<char>>)
    ensures
        sorted_by(sort_lex(s), lex_leq()),
        sort_lex(s).to_multiset() == s.to_multiset(),
        sort_lex(s).len() == s.len(),
{
    lemma_lex_total_ordering();
    s.lemma_sort_by_ensures(lex_leq());
    assert(sort_lex(s).to_multiset() =~= s.to_multiset());
    s.to_multiset_ensures();
    sort_lex(s).to_multiset_ensures();
}

/// Sorts the strings into non-decreasing lexicographic order.
pub fn sort_strings(v: &Vec<String>) -> (r: Vec<String>)
    ensures
        r.deep_view() == sort_lex(v.deep_view()),
{
    let n = v.len();
    let mut out: Vec<String> = Vec::new();
    let mut i: usize = 0;
    proof {
        lemma_lex_total_ordering();
        assert(v.deep_view().take(0) =~= Seq::<Seq<char>>::empty());
        out.deep_view().to_multiset_ensures();
        Seq::<Seq<char>>::empty().to_multiset_ensures();
        assert(out.deep_view().to_multiset() =~= Seq::<Seq<char>>::empty().to_multiset());
    }
    while i < n
        invariant
            0 <= i <= n,
            n == v@.len(),
            sorted_by(out.deep_view(), lex_leq()),
            out.deep_view().to_multiset() == v.deep_view().take(i as int).to_multiset(),
        decreases n - i,
    {
        let x = v[i].clone();
        assert(x@ == v.deep_view()[i as int]);
        insert_sorted(&mut out, x);
        proof {
            let pre = v.deep_view().take(i as int);
            let post = v.deep_view().take(i + 1);
            assert(post.drop_last() =~= pre);
            assert(post.last() == v.deep_view()[i as int]);
            pre.to_multiset_ensures();
            post.to_multiset_ensures();
            assert(post =~= pre.push(v.deep_view()[i as int]));
        }
        i = i + 1;
    }
    proof {
        assert(v.deep_view().take(n as int) =~= v.deep_view());
        lemma_sort_lex_ensures(v.deep_view());
        lemma_sorted_unique(out.deep_view(), sort_lex(v.deep_view()), lex_leq());
    }
    out
}

/// Inserts `x` into the sorted list `v`, keeping it sorted and adding `x`
/// to its elements.
fn insert_sorted(v: &mut Vec<String>, x: String)
    requires
        sorted_by(old(v).deep_view(), lex_leq()),
    ensures
        sorted_by(final(v).deep_view(), lex_leq()),
        final(v).deep_view().to_multiset() == old(v).deep_view().to_multiset().insert(x@),
{
    let ghost s = v.deep_view();
    let ghost leq = lex_leq();
    let ghost xv = x@;
    let n = v.len();
    let mut j: usize = 0;
    while j < n && str_le(v[j].as_str(), x.as_str())
        invariant
            0 <= j <= n,
            n == v@.len(),
            v.deep_view() == s,
            xv == x@,
            forall|k: int| 0 <= k < j ==> lex_le(#[trigger] s[k], xv),
        decreases n - j,
    {
        j = j + 1;
    }
    proof {
        if j < s.len() {
            lemma_lex_le_connected(s[j as int], xv);
            assert(lex_le(xv, s[j as int]));
        }
    }
    v.insert(j, x);
    proof {
        let s2 = v.deep_view();
        assert(s2 =~= s.take(j as int).push(xv) + s.skip(j as int));
        assert forall|p: int, q: int| 0 <= p < q < s2.len() implies #[trigger] leq(
            s2[p],
            s2[q],
        ) by {
            lemma_lex_le_refl(xv);
            if q < j {
                assert(s2[p] == s[p] && s2[q] == s[q]);
                assert(leq(s[p], s[q]));
            } else if q == j {
                assert(s2[p] == s[p] && s2[q] == xv);
                assert(lex_le(s[p], xv));
                assert(leq(s[p], xv));
            } else {
                assert(s2[q] == s[q - 1] && j <= q - 1 < s.len());
                if p < j {
                    assert(s2[p] == s[p]);
                    assert(p < q - 1);
                    assert(leq(s[p], s[q - 1]));
                } else if p == j {
                    assert(s2[p] == xv);
                    assert(lex_le(xv, s[j as int]));
                    if j < q - 1 {
                        assert(leq(s[j as int], s[q - 1]));
                        lemma_lex_le_transitive(xv, s[j as int], s[q - 1]);
                    }
                    assert(leq(xv, s[q - 1]));
                } else {
                    assert(s2[p] == s[p - 1]);
                    assert(leq(s[p - 1], s[q - 1]));
                }
            }
        }
        lemma_multiset_of_insert(s, xv, j as int);
    }
}

proof fn lemma_multiset_of_insert(s: Seq<Seq<char>>, x: Seq<char>, j: int)
    requires
        0 <= j <= s.len(),
    ensures
        (s.take(j).push(x) + s.skip(j)).to_multiset() == s.to_multiset().insert(x),
{
    let a = s.take(j);
    let b = s.skip(j);
    a.to_multiset_ensures();
    a.push(x).to_multiset_ensures();
    vstd::seq_lib::lemma_multiset_commutative(a.push(x), b);
    vstd::seq_lib::lemma_multiset_commutative(a, b);
    assert(a + b =~= s);
    assert((a.push(x) + b).to_multiset() =~= s.to_multiset().insert(x));
}

} // verus!
