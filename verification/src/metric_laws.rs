//! Laws of the similarity scorers: what the recursive specifications mean
//! (common runs, common subsequences), self-similarity, symmetry of the edit
//! distance, and the empty-string boundaries.

use vstd::prelude::*;
use crate::metrics::{
    common_suffix_len, lcs_spec, lcsub_spec, lemma_csl_le, lemma_lcsub_le, lemma_row_max_le,
    lev_spec, row_max,
};

verus! {

/// Some `n` characters run contiguously through both `a` and `b`.
pub open spec fn has_common_run(a: Seq<char>, b: Seq<char>, n: int) -> bool {
    exists|i: int, j: int|
        #![trigger a.subrange(i, i + n), b.subrange(j, j + n)]
        0 <= i && 0 <= j && 0 <= n && i + n <= a.len() && j + n <= b.len() && a.subrange(i, i + n)
            == b.subrange(j, j + n)
}

/// `x` embeds into `y` in order: `x` is a subsequence of `y`.
pub open spec fn is_subseq_of(x: Seq<char>, y: Seq<char>) -> bool
    decreases x.len() + y.len(),
{
    if x.len() == 0 {
        true
    } else if y.len() == 0 {
        false
    } else {
        (x.last() == y.last() && is_subseq_of(x.drop_last(), y.drop_last())) || is_subseq_of(
            x,
            y.drop_last(),
        )
    }
}

/// A witness pair of positions establishes a common run.
pub proof fn lemma_run_intro(a: Seq<char>, b: Seq<char>, n: int, i: int, j: int)
    requires
        0 <= i,
        0 <= j,
        0 <= n,
        i + n <= a.len(),
        j + n <= b.len(),
        a.subrange(i, i + n) == b.subrange(j, j + n),
    ensures
        has_common_run(a, b, n),
{
    assert(a.subrange(i, i + n) == b.subrange(j, j + n));
}

/// The longest common suffix really is a common suffix.
proof fn lemma_csl_is_run(a: Seq<char>, b: Seq<char>)
    ensures
        common_suffix_len(a, b) <= a.len(),
        common_suffix_len(a, b) <= b.len(),
        a.subrange(a.len() - common_suffix_len(a, b), a.len() as int) == b.subrange(
            b.len() - common_suffix_len(a, b),
            b.len() as int,
        ),
    decreases a.len(),
{
    lemma_csl_le(a, b);
    let c = common_suffix_len(a, b) as int;
    if a.len() > 0 && b.len() > 0 && a.last() == b.last() {
        lemma_csl_is_run(a.drop_last(), b.drop_last());
        let c1 = common_suffix_len(a.drop_last(), b.drop_last()) as int;
        assert(a.subrange(a.len() - c, a.len() as int) =~= a.drop_last().subrange(
            a.len() - 1 - c1,
            a.len() - 1,
        ).push(a.last()));
        assert(b.subrange(b.len() - c, b.len() as int) =~= b.drop_last().subrange(
            b.len() - 1 - c1,
            b.len() - 1,
        ).push(b.last()));
    } else {
        assert(a.subrange(a.len() - c, a.len() as int) =~= b.subrange(b.len() - c, b.len() as int));
    }
}

/// A common suffix of length `n` forces the longest common suffix up to `n`.
proof fn lemma_run_at_end_le_csl(a: Seq<char>, b: Seq<char>, n: int)
    requires
        0 <= n <= a.len(),
        n <= b.len(),
        a.subrange(a.len() - n, a.len() as int) == b.subrange(b.len() - n, b.len() as int),
    ensures
        n <= common_suffix_len(a, b),
    decreases n,
{
    if n > 0 {
        let sa = a.subrange(a.len() - n, a.len() as int);
        let sb = b.subrange(b.len() - n, b.len() as int);
        assert(sa[n - 1] == a.last());
        assert(sb[n - 1] == b.last());
        assert(a.last() == b.last());
        assert(a.drop_last().subrange(a.len() - n, a.len() - 1) =~= sa.drop_last());
        assert(b.drop_last().subrange(b.len() - n, b.len() - 1) =~= sb.drop_last());
        lemma_run_at_end_le_csl(a.drop_last(), b.drop_last(), n - 1);
    }
}

/// Every prefix's common suffix length is bounded by the row maximum.
proof fn lemma_row_max_ge(a: Seq<char>, b: Seq<char>, j: int)
    requires
        0 <= j <= b.len(),
    ensures
        common_suffix_len(a, b.take(j)) <= row_max(a, b),
    decreases b.len(),
{
    if j == b.len() {
        assert(b.take(j) =~= b);
        if b.len() == 0 {
            lemma_csl_le(a, b);
        }
    } else {
        lemma_row_max_ge(a, b.drop_last(), j);
        assert(b.drop_last().take(j) =~= b.take(j));
    }
}

/// The row maximum is attained by some prefix.
proof fn lemma_row_max_attained(a: Seq<char>, b: Seq<char>)
    ensures
        exists|j: int|
            0 <= j <= b.len() && common_suffix_len(a, #[trigger] b.take(j)) == row_max(a, b),
    decreases b.len(),
{
    if b.len() == 0 {
        assert(b.take(0) =~= b);
        lemma_csl_le(a, b);
        assert(common_suffix_len(a, b.take(0)) == row_max(a, b));
    } else if common_suffix_len(a, b) >= row_max(a, b.drop_last()) {
        assert(b.take(b.len() as int) =~= b);
        assert(common_suffix_len(a, b.take(b.len() as int)) == row_max(a, b));
    } else {
        lemma_row_max_attained(a, b.drop_last());
        let j = choose|j: int|
            0 <= j <= b.drop_last().len() && common_suffix_len(a, #[trigger] b.drop_last().take(j))
                == row_max(a, b.drop_last());
        assert(b.drop_last().take(j) =~= b.take(j));
        assert(common_suffix_len(a, b.take(j)) == row_max(a, b));
    }
}

/// Every prefix's row maximum is bounded by the common-run length.
proof fn lemma_lcsub_ge_row_max(a: Seq<char>, b: Seq<char>, k: int)
    requires
        0 <= k <= a.len(),
    ensures
        row_max(a.take(k), b) <= lcsub_spec(a, b),
    decreases a.len(),
{
    if k == a.len() {
        assert(a.take(k) =~= a);
        if a.len() == 0 {
            lemma_row_max_le(a, b);
        }
    } else {
        lemma_lcsub_ge_row_max(a.drop_last(), b, k);
        assert(a.drop_last().take(k) =~= a.take(k));
    }
}

/// The longest-common-substring length is witnessed by an actual common run.
pub proof fn lemma_substring_run_exists(a: Seq<char>, b: Seq<char>)
    ensures
        has_common_run(a, b, lcsub_spec(a, b) as int),
    decreases a.len(),
{
    if a.len() == 0 {
        assert(a.subrange(0, 0) =~= b.subrange(0, 0));
        lemma_run_intro(a, b, 0, 0, 0);
    } else if row_max(a, b) >= lcsub_spec(a.drop_last(), b) {
        let n = row_max(a, b) as int;
        lemma_row_max_attained(a, b);
        let j = choose|j: int|
            0 <= j <= b.len() && common_suffix_len(a, #[trigger] b.take(j)) == row_max(a, b);
        lemma_csl_is_run(a, b.take(j));
        assert(b.take(j).subrange(j - n, j) =~= b.subrange(j - n, j));
        assert(a.subrange(a.len() - n, a.len() as int) == b.subrange(j - n, j));
        lemma_run_intro(a, b, n, a.len() - n, j - n);
    } else {
        lemma_substring_run_exists(a.drop_last(), b);
        let n = lcsub_spec(a.drop_last(), b) as int;
        let (i, j) = choose|i: int, j: int|
            #![trigger a.drop_last().subrange(i, i + n), b.subrange(j, j + n)]
            0 <= i && 0 <= j && 0 <= n && i + n <= a.drop_last().len() && j + n <= b.len()
                && a.drop_last().subrange(i, i + n) == b.subrange(j, j + n);
        assert(a.drop_last().subrange(i, i + n) =~= a.subrange(i, i + n));
        lemma_run_intro(a, b, n, i, j);
    }
}

/// No common run is longer than the longest-common-substring length.
pub proof fn lemma_substring_run_maximal(a: Seq<char>, b: Seq<char>, n: int)
    requires
        has_common_run(a, b, n),
    ensures
        n <= lcsub_spec(a, b),
{
    let (i, j) = choose|i: int, j: int|
        #![trigger a.subrange(i, i + n), b.subrange(j, j + n)]
        0 <= i && 0 <= j && 0 <= n && i + n <= a.len() && j + n <= b.len() && a.subrange(i, i + n)
            == b.subrange(j, j + n);
    let pa = a.take(i + n);
    let pb = b.take(j + n);
    assert(pa.subrange(pa.len() - n, pa.len() as int) =~= a.subrange(i, i + n));
    assert(pb.subrange(pb.len() - n, pb.len() as int) =~= b.subrange(j, j + n));
    lemma_run_at_end_le_csl(pa, pb, n);
    lemma_row_max_ge(pa, b, j + n);
    assert(b.take(j + n) == pb);
    lemma_lcsub_ge_row_max(a, b, i + n);
    assert(a.take(i + n) == pa);
}

/// A sequence's longest common substring with itself is the whole sequence.
pub proof fn lemma_substring_self(a: Seq<char>)
    ensures
        lcsub_spec(a, a) == a.len(),
{
    assert(a.subrange(0, a.len() as int) =~= a);
    lemma_run_intro(a, a, a.len() as int, 0, 0);
    lemma_substring_run_maximal(a, a, a.len() as int);
    lemma_lcsub_le(a, a);
}

/// Every sequence is a subsequence of itself.
pub proof fn lemma_subseq_refl(a: Seq<char>)
    ensures
        is_subseq_of(a, a),
    decreases a.len(),
{
    if a.len() > 0 {
        lemma_subseq_refl(a.drop_last());
    }
}

/// Dropping the last element keeps a subsequence a subsequence.
proof fn lemma_subseq_drop_x(x: Seq<char>, y: Seq<char>)
    requires
        is_subseq_of(x, y),
        x.len() > 0,
    ensures
        is_subseq_of(x.drop_last(), y),
    decreases y.len(),
{
    if x.last() == y.last() && is_subseq_of(x.drop_last(), y.drop_last()) {
        if x.len() > 1 {
            lemma_subseq_drop_x(x.drop_last(), y.drop_last());
        }
    } else {
        lemma_subseq_drop_x(x, y.drop_last());
    }
}

/// A contiguous slice is a subsequence.
pub proof fn lemma_subrange_is_subseq(a: Seq<char>, i: int, n: int)
    requires
        0 <= i,
        0 <= n,
        i + n <= a.len(),
    ensures
        is_subseq_of(a.subrange(i, i + n), a),
    decreases a.len(),
{
    let x = a.subrange(i, i + n);
    if i + n == a.len() {
        if n == 0 {
            assert(x.len() == 0);
        } else {
            assert(x.last() == a.last());
            assert(x.drop_last() =~= a.drop_last().subrange(i, i + (n - 1)));
            lemma_subrange_is_subseq(a.drop_last(), i, n - 1);
        }
    } else {
        assert(a.drop_last().subrange(i, i + n) =~= x);
        lemma_subrange_is_subseq(a.drop_last(), i, n);
        if x.len() > 0 {
            assert(is_subseq_of(x, a.drop_last()));
        }
    }
}

/// No common subsequence is longer than the longest-common-subsequence
/// length.
pub proof fn lemma_subsequence_maximal(x: Seq<char>, a: Seq<char>, b: Seq<char>)
    requires
        is_subseq_of(x, a),
        is_subseq_of(x, b),
    ensures
        x.len() <= lcs_spec(a, b),
    decreases a.len() + b.len(),
{
    if x.len() == 0 {
    } else {
        assert(a.len() > 0 && b.len() > 0);
        if a.last() == b.last() {
            if is_subseq_of(x, a.drop_last()) && is_subseq_of(x, b.drop_last()) {
                lemma_subsequence_maximal(x, a.drop_last(), b.drop_last());
            } else if is_subseq_of(x, a.drop_last()) {
                lemma_subseq_drop_x(x, a.drop_last());
                assert(x.last() == b.last() && is_subseq_of(x.drop_last(), b.drop_last()));
                lemma_subsequence_maximal(x.drop_last(), a.drop_last(), b.drop_last());
            } else if is_subseq_of(x, b.drop_last()) {
                lemma_subseq_drop_x(x, b.drop_last());
                assert(x.last() == a.last() && is_subseq_of(x.drop_last(), a.drop_last()));
                lemma_subsequence_maximal(x.drop_last(), a.drop_last(), b.drop_last());
            } else {
                assert(x.last() == a.last() && is_subseq_of(x.drop_last(), a.drop_last()));
                assert(x.last() == b.last() && is_subseq_of(x.drop_last(), b.drop_last()));
                lemma_subsequence_maximal(x.drop_last(), a.drop_last(), b.drop_last());
            }
        } else {
            if x.last() != a.last() {
                assert(is_subseq_of(x, a.drop_last()));
                lemma_subsequence_maximal(x, a.drop_last(), b);
            } else {
                assert(x.last() != b.last());
                assert(is_subseq_of(x, b.drop_last()));
                lemma_subsequence_maximal(x, a, b.drop_last());
            }
        }
    }
}

/// The longest-common-subsequence length is witnessed by an actual common
/// subsequence.
pub proof fn lemma_subsequence_witness(a: Seq<char>, b: Seq<char>)
    ensures
        exists|x: Seq<char>|
            is_subseq_of(x, a) && is_subseq_of(x, b) && x.len() == lcs_spec(a, b),
    decreases a.len() + b.len(),
{
    if a.len() == 0 || b.len() == 0 {
        let x = Seq::<char>::empty();
        assert(is_subseq_of(x, a) && is_subseq_of(x, b) && x.len() == lcs_spec(a, b));
    } else if a.last() == b.last() {
        lemma_subsequence_witness(a.drop_last(), b.drop_last());
        let w = choose|w: Seq<char>|
            is_subseq_of(w, a.drop_last()) && is_subseq_of(w, b.drop_last()) && w.len() == lcs_spec(
                a.drop_last(),
                b.drop_last(),
            );
        let x = w.push(a.last());
        assert(x.drop_last() =~= w);
        assert(x.last() == a.last() && x.last() == b.last());
        assert(is_subseq_of(x, a) && is_subseq_of(x, b) && x.len() == lcs_spec(a, b));
    } else if lcs_spec(a.drop_last(), b) >= lcs_spec(a, b.drop_last()) {
        lemma_subsequence_witness(a.drop_last(), b);
        let w = choose|w: Seq<char>|
            is_subseq_of(w, a.drop_last()) && is_subseq_of(w, b) && w.len() == lcs_spec(
                a.drop_last(),
                b,
            );
        assert(is_subseq_of(w, a) && is_subseq_of(w, b) && w.len() == lcs_spec(a, b));
    } else {
        lemma_subsequence_witness(a, b.drop_last());
        let w = choose|w: Seq<char>|
            is_subseq_of(w, a) && is_subseq_of(w, b.drop_last()) && w.len() == lcs_spec(
                a,
                b.drop_last(),
            );
        assert(is_subseq_of(w, a) && is_subseq_of(w, b) && w.len() == lcs_spec(a, b));
    }
}

/// A sequence's longest common subsequence with itself is the whole sequence.
pub proof fn lemma_subsequence_self(a: Seq<char>)
    ensures
        lcs_spec(a, a) == a.len(),
    decreases a.len(),
{
    if a.len() > 0 {
        lemma_subsequence_self(a.drop_last());
    }
}

/// A common contiguous run is in particular a common subsequence, so the
/// subsequence length dominates the substring length.
pub proof fn lemma_subsequence_dominates_substring(a: Seq<char>, b: Seq<char>)
    ensures
        lcsub_spec(a, b) <= lcs_spec(a, b),
{
    let n = lcsub_spec(a, b) as int;
    lemma_substring_run_exists(a, b);
    let (i, j) = choose|i: int, j: int|
        #![trigger a.subrange(i, i + n), b.subrange(j, j + n)]
        0 <= i && 0 <= j && 0 <= n && i + n <= a.len() && j + n <= b.len() && a.subrange(i, i + n)
            == b.subrange(j, j + n);
    let x = a.subrange(i, i + n);
    lemma_subrange_is_subseq(a, i, n);
    lemma_subrange_is_subseq(b, j, n);
    lemma_subsequence_maximal(x, a, b);
}

/// The edit distance of a sequence to itself is zero.
pub proof fn lemma_distance_self(a: Seq<char>)
    ensures
        lev_spec(a, a) == 0,
    decreases a.len(),
{
    if a.len() > 0 {
        lemma_distance_self(a.drop_last());
    }
}

/// The edit distance is symmetric: every edit reverses.
pub proof fn lemma_distance_symmetric(a: Seq<char>, b: Seq<char>)
    ensures
        lev_spec(a, b) == lev_spec(b, a),
    decreases a.len() + b.len(),
{
    if a.len() > 0 && b.len() > 0 {
        lemma_distance_symmetric(a.drop_last(), b);
        lemma_distance_symmetric(a, b.drop_last());
        lemma_distance_symmetric(a.drop_last(), b.drop_last());
    }
}

/// The empty-string boundary of all three scorers: no common substring or
/// subsequence, and an edit distance equal to the other length.
pub proof fn lemma_scorer_empty_boundary(a: Seq<char>)
    ensures
        lcsub_spec(a, Seq::<char>::empty()) == 0,
        lcsub_spec(Seq::<char>::empty(), a) == 0,
        lcs_spec(a, Seq::<char>::empty()) == 0,
        lcs_spec(Seq::<char>::empty(), a) == 0,
        lev_spec(a, Seq::<char>::empty()) == a.len(),
        lev_spec(Seq::<char>::empty(), a) == a.len(),
{
    lemma_lcsub_le(a, Seq::<char>::empty());
    lemma_lcsub_le(Seq::<char>::empty(), a);
}

} // verus!
