use vstd::prelude::*;
use crate::node::{lemma_sorted_of, sorted, sorted_of};

verus! {

/// Building a tree from a sequence keeps one value for each value of the
/// sequence: the sorted arrangement of a sequence is exactly as long.
pub proof fn lemma_len_is_insertion_count(s: Seq<i64>)
    ensures
        sorted_of(s).len() == s.len(),
{
    broadcast use vstd::seq_lib::group_to_multiset_ensures;

    lemma_sorted_of(s);
    assert(sorted_of(s).to_multiset().len() == s.len());
}

/// Of a non-empty sequence, the first of its sorted arrangement is a value of
/// the sequence and no greater than any, and the last is a value of the
/// sequence and no smaller than any.
pub proof fn lemma_first_is_min_last_is_max(s: Seq<i64>)
    requires
        s.len() > 0,
    ensures
        s.contains(sorted_of(s)[0]),
        s.contains(sorted_of(s).last()),
        forall|j: int| 0 <= j < s.len() ==> sorted_of(s)[0] <= #[trigger] s[j],
        forall|j: int| 0 <= j < s.len() ==> #[trigger] s[j] <= sorted_of(s).last(),
{
    broadcast use vstd::seq_lib::group_to_multiset_ensures;

    let t = sorted_of(s);
    lemma_sorted_of(s);
    lemma_len_is_insertion_count(s);
    assert(t.contains(t[0]));
    assert(t.to_multiset().count(t[0]) > 0);
    assert(t.contains(t.last()));
    assert(t.to_multiset().count(t.last()) > 0);
    assert forall|j: int| 0 <= j < s.len() implies sorted_of(s)[0] <= #[trigger] s[j] && s[j]
        <= sorted_of(s).last() by {
        assert(s.contains(s[j]));
        assert(s.to_multiset().count(s[j]) > 0);
        assert(t.contains(s[j]));
        let k = choose|k: int| 0 <= k < t.len() && t[k] == s[j];
        assert(t[0] <= t[k]);
        assert(t[k] <= t[t.len() - 1]);
    }
}

/// How many values of `s` satisfy `p`, each counted as often as it occurs.
pub open spec fn count_where(s: Seq<i64>, p: spec_fn(i64) -> bool) -> nat
    decreases s.len(),
{
    if s.len() == 0 {
        0
    } else {
        count_where(s.drop_last(), p) + if p(s.last()) {
            1nat
        } else {
            0nat
        }
    }
}

proof fn lemma_count_concat(a: Seq<i64>, b: Seq<i64>, p: spec_fn(i64) -> bool)
    ensures
        count_where(a + b, p) == count_where(a, p) + count_where(b, p),
    decreases b.len(),
{
    if b.len() == 0 {
        assert(a + b =~= a);
    } else {
        lemma_count_concat(a, b.drop_last(), p);
        assert((a + b).drop_last() =~= a + b.drop_last());
    }
}

proof fn lemma_count_bounds(s: Seq<i64>, p: spec_fn(i64) -> bool)
    ensures
        count_where(s, p) <= s.len(),
        (forall|j: int| 0 <= j < s.len() ==> !p(#[trigger] s[j])) ==> count_where(s, p) == 0,
        (forall|j: int| 0 <= j < s.len() ==> p(#[trigger] s[j])) ==> count_where(s, p) == s.len(),
    decreases s.len(),
{
    if s.len() > 0 {
        lemma_count_bounds(s.drop_last(), p);
        assert(s.last() == s[s.len() - 1]);
        if forall|j: int| 0 <= j < s.len() ==> !p(#[trigger] s[j]) {
            assert forall|j: int| 0 <= j < s.drop_last().len() implies !p(
                #[trigger] s.drop_last()[j],
            ) by {
                assert(s.drop_last()[j] == s[j]);
            }
        }
        if forall|j: int| 0 <= j < s.len() ==> p(#[trigger] s[j]) {
            assert forall|j: int| 0 <= j < s.drop_last().len() implies p(
                #[trigger] s.drop_last()[j],
            ) by {
                assert(s.drop_last()[j] == s[j]);
            }
        }
    }
}

proof fn lemma_count_multiset(s: Seq<i64>, t: Seq<i64>, p: spec_fn(i64) -> bool)
    requires
        s.to_multiset() == t.to_multiset(),
    ensures
        count_where(s, p) == count_where(t, p),
    decreases s.len(),
{
    broadcast use vstd::seq_lib::group_to_multiset_ensures;
    broadcast use vstd::multiset::group_multiset_axioms;

    if s.len() == 0 {
        assert(t.to_multiset().len() == 0);
        assert(t.len() == 0);
    } else {
        let x = s.last();
        let rest = s.drop_last();
        assert(s =~= rest.push(x));
        assert(s.to_multiset() == rest.to_multiset().insert(x));
        assert(t.to_multiset().count(x) > 0);
        assert(t.contains(x));
        let k = choose|k: int| 0 <= k < t.len() && t[k] == x;
        let u = t.remove(k);
        assert(u.to_multiset() == t.to_multiset().remove(x));
        assert(u.to_multiset() =~= rest.to_multiset());
        lemma_count_multiset(rest, u, p);
        let a = t.subrange(0, k);
        let b = t.subrange(k + 1, t.len() as int);
        assert(t =~= a + seq![x] + b);
        assert(u =~= a + b);
        lemma_count_concat(a, seq![x], p);
        lemma_count_concat(a + seq![x], b, p);
        lemma_count_concat(a, b, p);
        assert(seq![x].drop_last() =~= Seq::<i64>::empty());
        assert(count_where(Seq::<i64>::empty(), p) == 0);
        assert(count_where(seq![x], p) == count_where(s, p) - count_where(rest, p));
    }
}

/// Of the sorted arrangement of `s`, the value of rank `r` is the `r`-th
/// smallest value of `s`, counting from zero and counting equal values as
/// often as they occur: at most `r` values of `s` lie below it, and more than
/// `r` lie at or below it.
pub proof fn lemma_rank_is_rth_smallest(s: Seq<i64>, r: int)
    requires
        0 <= r < s.len(),
    ensures
        count_where(s, |x: i64| x < sorted_of(s)[r]) <= r,
        r < count_where(s, |x: i64| x <= sorted_of(s)[r]),
{
    let t = sorted_of(s);
    lemma_sorted_of(s);
    lemma_len_is_insertion_count(s);
    let v = t[r];
    let below = |x: i64| x < v;
    let at_most = |x: i64| x <= v;
    lemma_count_multiset(s, t, below);
    lemma_count_multiset(s, t, at_most);
    let head = t.subrange(0, r);
    let tail = t.subrange(r, t.len() as int);
    assert(t =~= head + tail);
    lemma_count_concat(head, tail, below);
    lemma_count_bounds(head, below);
    assert forall|j: int| 0 <= j < tail.len() implies !below(#[trigger] tail[j]) by {
        assert(tail[j] == t[r + j]);
    }
    lemma_count_bounds(tail, below);
    let upto = t.subrange(0, r + 1);
    let after = t.subrange(r + 1, t.len() as int);
    assert(t =~= upto + after);
    lemma_count_concat(upto, after, at_most);
    assert forall|j: int| 0 <= j < upto.len() implies at_most(#[trigger] upto[j]) by {
        assert(upto[j] == t[j]);
    }
    lemma_count_bounds(upto, at_most);
}

/// The order of insertion does not matter: two sequences that hold the same
/// values, each as often, give the same sorted arrangement.
pub proof fn lemma_insertion_order_irrelevant(s1: Seq<i64>, s2: Seq<i64>)
    requires
        s1.to_multiset() == s2.to_multiset(),
    ensures
        sorted_of(s1) == sorted_of(s2),
{
    lemma_sorted_of(s1);
    lemma_sorted_of(s2);
    assert(sorted(sorted_of(s1)));
}

/// Adding values one at a time gives what adding them all at once gives:
/// sorting `s`, appending `v` and sorting again gives the same sequence as
/// sorting `s` with `v` appended.
pub proof fn lemma_insert_one_at_a_time(s: Seq<i64>, v: i64)
    ensures
        sorted_of(sorted_of(s).push(v)) == sorted_of(s.push(v)),
{
    broadcast use vstd::seq_lib::group_to_multiset_ensures;

    lemma_sorted_of(s);
    assert(sorted_of(s).push(v).to_multiset() == s.push(v).to_multiset());
    lemma_insertion_order_irrelevant(sorted_of(s).push(v), s.push(v));
}

} // verus!
