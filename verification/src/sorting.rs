//! Insertion sort at the specification level, tied to `Seq::sort_by`: the
//! executable sorts mirror `insertion_sort`, and `insertion_sort` equals
//! `sort_by` for any total ordering.

use vstd::prelude::*;
use vstd::relations::{sorted_by, total_ordering};
use vstd::seq_lib::lemma_sorted_unique;

verus! {

/// `x` placed into the sorted sequence `s`, after every element ordered at
/// or before it.
pub open spec fn insert_sorted<T>(s: Seq<T>, x: T, leq: spec_fn(T, T) -> bool) -> Seq<T>
    decreases s.len(),
{
    if s.len() == 0 {
        seq![x]
    } else if leq(s.last(), x) {
        s.push(x)
    } else {
        insert_sorted(s.drop_last(), x, leq).push(s.last())
    }
}

/// One element inserted at a time, from the left.
pub open spec fn insertion_sort<T>(s: Seq<T>, leq: spec_fn(T, T) -> bool) -> Seq<T>
    decreases s.len(),
{
    if s.len() == 0 {
        Seq::empty()
    } else {
        insert_sorted(insertion_sort(s.drop_last(), leq), s.last(), leq)
    }
}

/// Inserting keeps a sequence sorted, adds exactly the new element, and
/// invents no others.
proof fn lemma_insert_sorted_props<T>(s: Seq<T>, x: T, leq: spec_fn(T, T) -> bool)
    requires
        total_ordering(leq),
        sorted_by(s, leq),
    ensures
        sorted_by(insert_sorted(s, x, leq), leq),
        insert_sorted(s, x, leq).to_multiset() == s.to_multiset().insert(x),
        insert_sorted(s, x, leq).len() == s.len() + 1,
        forall|i: int|
            0 <= i < insert_sorted(s, x, leq).len() ==> #[trigger] insert_sorted(s, x, leq)[i] == x
                || s.contains(insert_sorted(s, x, leq)[i]),
    decreases s.len(),
{
    broadcast use vstd::seq_lib::group_to_multiset_ensures;
    broadcast use vstd::multiset::group_multiset_axioms;

    let out = insert_sorted(s, x, leq);
    if s.len() == 0 {
        assert(out =~= Seq::empty().push(x));
        assert(out.to_multiset() =~= s.to_multiset().insert(x));
    } else if leq(s.last(), x) {
        assert forall|i: int, j: int| 0 <= i < j < out.len() implies leq(out[i], out[j]) by {
            if j == out.len() - 1 {
                if i < s.len() - 1 {
                    assert(leq(s[i], s[s.len() - 1]));
                }
                assert(leq(out[i], x));
            }
        }
        assert(forall|i: int| 0 <= i < s.len() ==> s[i] == #[trigger] out[i] && s.contains(out[i]));
    } else {
        let s1 = s.drop_last();
        assert(sorted_by(s1, leq));
        lemma_insert_sorted_props(s1, x, leq);
        let r1 = insert_sorted(s1, x, leq);
        assert(out =~= r1.push(s.last()));
        // every element of r1 orders at or before the reinstated last element
        assert forall|i: int| 0 <= i < r1.len() implies leq(r1[i], s.last()) by {
            if r1[i] == x {
                assert(leq(x, s.last()));
            } else {
                assert(s1.contains(r1[i]));
                let k = choose|k: int| 0 <= k < s1.len() && s1[k] == r1[i];
                if k < s.len() - 1 {
                    assert(leq(s[k], s[s.len() - 1]));
                }
            }
        }
        assert(sorted_by(out, leq));
        // multiset: the two inserts commute
        assert(s1.push(s.last()) =~= s);
        assert(s1.push(s.last()).to_multiset() =~= s1.to_multiset().insert(s.last()));
        assert(r1.push(s.last()).to_multiset() =~= r1.to_multiset().insert(s.last()));
        assert(out.to_multiset() =~= s.to_multiset().insert(x));
        assert forall|i: int| 0 <= i < out.len() implies #[trigger] out[i] == x || s.contains(
            out[i],
        ) by {
            if i < r1.len() {
                if r1[i] != x {
                    assert(s1.contains(r1[i]));
                    let k = choose|k: int| 0 <= k < s1.len() && s1[k] == r1[i];
                    assert(s[k] == out[i]);
                }
            } else {
                assert(s[s.len() - 1] == out[i]);
            }
        }
    }
}

/// Insertion sort sorts: the result is ordered and is a rearrangement.
proof fn lemma_insertion_sort_props<T>(s: Seq<T>, leq: spec_fn(T, T) -> bool)
    requires
        total_ordering(leq),
    ensures
        sorted_by(insertion_sort(s, leq), leq),
        insertion_sort(s, leq).to_multiset() == s.to_multiset(),
    decreases s.len(),
{
    broadcast use vstd::seq_lib::group_to_multiset_ensures;
    broadcast use vstd::multiset::group_multiset_axioms;

    if s.len() > 0 {
        lemma_insertion_sort_props(s.drop_last(), leq);
        lemma_insert_sorted_props(insertion_sort(s.drop_last(), leq), s.last(), leq);
        assert(s.drop_last().push(s.last()) =~= s);
        assert(s.to_multiset() =~= s.drop_last().to_multiset().insert(s.last()));
    }
}

/// Insertion sort computes exactly `Seq::sort_by`: both are sorted
/// rearrangements, and under a total ordering that pins the sequence down.
pub proof fn lemma_insertion_sort_is_sort_by<T>(s: Seq<T>, leq: spec_fn(T, T) -> bool)
    requires
        total_ordering(leq),
    ensures
        insertion_sort(s, leq) == s.sort_by(leq),
{
    lemma_insertion_sort_props(s, leq);
    s.lemma_sort_by_ensures(leq);
    lemma_sorted_unique(insertion_sort(s, leq), s.sort_by(leq), leq);
}

} // verus!
