//! Lexicographic ordering of paths by their characters, and a verified sort.
//! The unused-file report is sorted with this order so that every run of the
//! engine prints its findings the same way.

use vstd::prelude::*;
use vstd::relations::{sorted_by, total_ordering};
use vstd::seq_lib::lemma_sorted_unique;
use vstd::seq_lib::lemma_multiset_commutative;
use vstd::multiset::Multiset;

verus! {

/// Lexicographic "less or equal" on character sequences, by code point.
pub open spec fn lex_le(a: Seq<char>, b: Seq<char>) -> bool
    decreases a.len(),
{
    if a.len() == 0 {
        true
    } else if b.len() == 0 {
        false
    } else if (a[0] as u32) < (b[0] as u32) {
        true
    } else if (b[0] as u32) < (a[0] as u32) {
        false
    } else {
        lex_le(a.drop_first(), b.drop_first())
    }
}

/// The same order as a relation value, the shape vstd's sorting specs expect.
pub open spec fn lex_leq() -> spec_fn(Seq<char>, Seq<char>) -> bool {
    |a: Seq<char>, b: Seq<char>| lex_le(a, b)
}

proof fn lemma_char_cast_injective(c: char, d: char)
    requires
        c as u32 == d as u32,
    ensures
        c == d,
{
}

proof fn lemma_lex_le_reflexive(a: Seq<char>)
    ensures
        lex_le(a, a),
    decreases a.len(),
{
    if a.len() > 0 {
        lemma_lex_le_reflexive(a.drop_first());
    }
}

proof fn lemma_lex_le_connected(a: Seq<char>, b: Seq<char>)
    ensures
        lex_le(a, b) || lex_le(b, a),
    decreases a.len(),
{
    if a.len() == 0 {
        assert(lex_le(a, b));
    } else if b.len() == 0 {
        assert(lex_le(b, a));
    } else if (a[0] as u32) < (b[0] as u32) {
        assert(lex_le(a, b));
    } else if (b[0] as u32) < (a[0] as u32) {
        assert(lex_le(b, a));
    } else {
        lemma_char_cast_injective(a[0], b[0]);
        lemma_lex_le_connected(a.drop_first(), b.drop_first());
        assert(lex_le(a, b) == lex_le(a.drop_first(), b.drop_first()));
        assert(lex_le(b, a) == lex_le(b.drop_first(), a.drop_first()));
    }
}

proof fn lemma_lex_le_antisymmetric(a: Seq<char>, b: Seq<char>)
    requires
        lex_le(a, b),
        lex_le(b, a),
    ensures
        a == b,
    decreases a.len(),
{
    if a.len() > 0 && b.len() > 0 {
        lemma_char_cast_injective(a[0], b[0]);
        lemma_lex_le_antisymmetric(a.drop_first(), b.drop_first());
        assert(a =~= seq![a[0]] + a.drop_first());
        assert(b =~= seq![b[0]] + b.drop_first());
    } else {
        assert(a =~= b);
    }
}

proof fn lemma_lex_le_transitive(a: Seq<char>, b: Seq<char>, c: Seq<char>)
    requires
        lex_le(a, b),
        lex_le(b, c),
    ensures
        lex_le(a, c),
    decreases a.len(),
{
    if a.len() > 0 && b.len() > 0 && c.len() > 0 && (a[0] as u32) == (b[0] as u32) && (
    b[0] as u32) == (c[0] as u32) {
        lemma_char_cast_injective(a[0], b[0]);
        lemma_char_cast_injective(b[0], c[0]);
        lemma_lex_le_transitive(a.drop_first(), b.drop_first(), c.drop_first());
    }
}

/// The lexicographic order is a total ordering, so sorting by it pins the
/// report down to exactly one arrangement.
pub proof fn lemma_lex_total_ordering()
    ensures
        total_ordering(lex_leq()),
{
    assert forall|x: Seq<char>| #[trigger] lex_leq()(x, x) by {
        lemma_lex_le_reflexive(x);
    }
    assert forall|x: Seq<char>, y: Seq<char>|
        #[trigger] lex_leq()(x, y) && #[trigger] lex_leq()(y, x) implies x == y by {
        lemma_lex_le_antisymmetric(x, y);
    }
    assert forall|x: Seq<char>, y: Seq<char>, z: Seq<char>|
        #[trigger] lex_leq()(x, y) && #[trigger] lex_leq()(y, z) implies lex_leq()(x, z) by {
        lemma_lex_le_transitive(x, y, z);
    }
    assert forall|x: Seq<char>, y: Seq<char>|
        #[trigger] lex_leq()(x, y) || #[trigger] lex_leq()(y, x) by {
        lemma_lex_le_connected(x, y);
    }
}

/// Compares two paths in the lexicographic order.
pub fn str_lex_le(a: &String, b: &String) -> (r: bool)
    ensures
        r == lex_le(a@, b@),
{
    let s = a.as_str();
    let t = b.as_str();
    let n = s.unicode_len();
    let m = t.unicode_len();
    let mut i: usize = 0;
    proof {
        assert(a@.subrange(0, n as int) =~= a@);
        assert(b@.subrange(0, m as int) =~= b@);
    }
    while i < n && i < m
        invariant
            i <= n,
            i <= m,
            n == a@.len(),
            m == b@.len(),
            s@ == a@,
            t@ == b@,
            lex_le(a@, b@) == lex_le(
                a@.subrange(i as int, n as int),
                b@.subrange(i as int, m as int),
            ),
        decreases n - i,
    {
        let ghost sa = a@.subrange(i as int, n as int);
        let ghost sb = b@.subrange(i as int, m as int);
        let ca = s.get_char(i);
        let cb = t.get_char(i);
        proof {
            assert(sa[0] == a@[i as int]);
            assert(sb[0] == b@[i as int]);
            assert(sa.drop_first() =~= a@.subrange(i + 1, n as int));
            assert(sb.drop_first() =~= b@.subrange(i + 1, m as int));
        }
        if (ca as u32) < (cb as u32) {
            return true;
        }
        if (cb as u32) < (ca as u32) {
            return false;
        }
        i = i + 1;
    }
    proof {
        if i >= n {
            assert(a@.subrange(i as int, n as int) =~= Seq::<char>::empty());
        } else {
            assert(b@.subrange(i as int, m as int) =~= Seq::<char>::empty());
            assert(a@.subrange(i as int, n as int).len() > 0);
        }
    }
    i >= n
}

proof fn lemma_insert_to_multiset(s: Seq<Seq<char>>, j: int, x: Seq<char>)
    requires
        0 <= j <= s.len(),
    ensures
        s.insert(j, x).to_multiset() == s.to_multiset().insert(x),
{
    broadcast use vstd::seq_lib::group_to_multiset_ensures;

    let left = s.subrange(0, j);
    let right = s.subrange(j, s.len() as int);
    assert(s =~= left + right);
    assert(s.insert(j, x) =~= left + (seq![x] + right));
    lemma_multiset_commutative(left, right);
    lemma_multiset_commutative(left, seq![x] + right);
    lemma_multiset_commutative(seq![x], right);
    assert(seq![x].to_multiset() =~= Multiset::<Seq<char>>::empty().insert(x)) by {
        assert(seq![x] =~= Seq::<Seq<char>>::empty().push(x));
    }
    assert(s.insert(j, x).to_multiset() =~= s.to_multiset().insert(x));
}

/// Sorts paths lexicographically; the result is exactly vstd's `sort_by`.
pub fn sort_paths(v: &Vec<String>) -> (r: Vec<String>)
    ensures
        r.deep_view() == v.deep_view().sort_by(lex_leq()),
{
    let ghost all = v.deep_view();
    let mut out: Vec<String> = Vec::new();
    let mut idx: usize = 0;
    proof {
        assert(out.deep_view() =~= all.subrange(0, 0));
    }
    while idx < v.len()
        invariant
            idx <= v.len(),
            all == v.deep_view(),
            all.len() == v.len(),
            sorted_by(out.deep_view(), lex_leq()),
            out.deep_view().to_multiset() == all.subrange(0, idx as int).to_multiset(),
        decreases v.len() - idx,
    {
        broadcast use vstd::seq_lib::group_to_multiset_ensures;

        let x = v[idx].clone();
        proof {
            assert(x@ == all[idx as int]);
        }
        let ghost pre = out.deep_view();
        let mut j: usize = 0;
        while j < out.len() && !str_lex_le(&x, &out[j])
            invariant
                j <= out.len(),
                pre == out.deep_view(),
                pre.len() == out.len(),
                forall|k: int| 0 <= k < j ==> !lex_le(x@, #[trigger] pre[k]),
            decreases out.len() - j,
        {
            j = j + 1;
        }
        proof {
            assert forall|k: int| 0 <= k < j implies lex_le(#[trigger] pre[k], x@) by {
                lemma_lex_le_connected(pre[k], x@);
            }
        }
        out.insert(j, x);
        proof {
            let post = out.deep_view();
            assert(post =~= pre.insert(j as int, x@));
            assert forall|p: int, q: int| 0 <= p < q < post.len() implies #[trigger] lex_leq()(
                post[p],
                post[q],
            ) by {
                if q < j {
                    assert(lex_leq()(pre[p], pre[q]));
                } else if p < j && q == j {
                    assert(lex_le(pre[p], x@));
                } else if p < j && q > j {
                    assert(lex_leq()(pre[p], pre[q - 1]));
                } else if p == j && q > j {
                    // x sits right before the first kept element it precedes
                    assert((j as int) < pre.len());
                    assert(lex_le(x@, pre[j as int]));
                    if q - 1 > j {
                        assert(lex_leq()(pre[j as int], pre[q - 1]));
                        lemma_lex_le_transitive(x@, pre[j as int], pre[q - 1]);
                    }
                } else {
                    assert(lex_leq()(pre[p - 1], pre[q - 1]));
                }
            }
            lemma_insert_to_multiset(pre, j as int, x@);
            assert(all.subrange(0, idx + 1) =~= all.subrange(0, idx as int).push(
                all[idx as int],
            ));
            assert(all.subrange(0, idx + 1).to_multiset() =~= all.subrange(
                0,
                idx as int,
            ).to_multiset().insert(all[idx as int]));
        }
        idx = idx + 1;
    }
    proof {
        assert(all.subrange(0, all.len() as int) =~= all);
        lemma_lex_total_ordering();
        all.lemma_sort_by_ensures(lex_leq());
        lemma_sorted_unique(out.deep_view(), all.sort_by(lex_leq()), lex_leq());
    }
    out
}

} // verus!
