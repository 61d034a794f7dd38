//! The three similarity scorers: longest common substring, longest common
//! subsequence, and edit distance, each over characters (code points), each
//! computed with a rolling-row dynamic program against a recursive
//! specification.

use vstd::prelude::*;
use crate::strutil::to_char_vec;

verus! {

pub open spec fn max_nat(x: nat, y: nat) -> nat {
    if x >= y {
        x
    } else {
        y
    }
}

pub open spec fn min_nat(x: nat, y: nat) -> nat {
    if x <= y {
        x
    } else {
        y
    }
}

pub open spec fn min3_nat(x: nat, y: nat, z: nat) -> nat {
    min_nat(x, min_nat(y, z))
}

/// Length of the longest common suffix of `a` and `b`.
pub open spec fn common_suffix_len(a: Seq<char>, b: Seq<char>) -> nat
    decreases a.len(),
{
    if a.len() == 0 || b.len() == 0 {
        0
    } else if a.last() == b.last() {
        1 + common_suffix_len(a.drop_last(), b.drop_last())
    } else {
        0
    }
}

/// The largest common suffix length of `a` with any prefix of `b`: the best
/// contiguous run that ends exactly at the end of `a`.
pub open spec fn row_max(a: Seq<char>, b: Seq<char>) -> nat
    decreases b.len(),
{
    if b.len() == 0 {
        0
    } else {
        max_nat(common_suffix_len(a, b), row_max(a, b.drop_last()))
    }
}

/// Length of the longest contiguous run of characters common to `a` and `b`:
/// the best run ending at any pair of prefixes.
pub open spec fn lcsub_spec(a: Seq<char>, b: Seq<char>) -> nat
    decreases a.len(),
{
    if a.len() == 0 {
        0
    } else {
        max_nat(row_max(a, b), lcsub_spec(a.drop_last(), b))
    }
}

/// Length of the longest (not necessarily contiguous) common subsequence of
/// `a` and `b`, by the standard recurrence.
pub open spec fn lcs_spec(a: Seq<char>, b: Seq<char>) -> nat
    decreases a.len() + b.len(),
{
    if a.len() == 0 || b.len() == 0 {
        0
    } else if a.last() == b.last() {
        lcs_spec(a.drop_last(), b.drop_last()) + 1
    } else {
        max_nat(lcs_spec(a.drop_last(), b), lcs_spec(a, b.drop_last()))
    }
}

/// The edit distance: the fewest single-character insertions, deletions and
/// substitutions (each of cost 1) that turn `a` into `b`, by the standard
/// recurrence.
pub open spec fn lev_spec(a: Seq<char>, b: Seq<char>) -> nat
    decreases a.len() + b.len(),
{
    if a.len() == 0 {
        b.len()
    } else if b.len() == 0 {
        a.len()
    } else {
        let cost: nat = if a.last() == b.last() {
            0
        } else {
            1
        };
        min3_nat(
            lev_spec(a.drop_last(), b) + 1,
            lev_spec(a, b.drop_last()) + 1,
            lev_spec(a.drop_last(), b.drop_last()) + cost,
        )
    }
}

/// A common suffix is no longer than either sequence.
pub proof fn lemma_csl_le(a: Seq<char>, b: Seq<char>)
    ensures
        common_suffix_len(a, b) <= a.len(),
        common_suffix_len(a, b) <= b.len(),
    decreases a.len(),
{
    if a.len() > 0 && b.len() > 0 && a.last() == b.last() {
        lemma_csl_le(a.drop_last(), b.drop_last());
    }
}

/// A run ending at the end of `a` is no longer than either sequence.
pub proof fn lemma_row_max_le(a: Seq<char>, b: Seq<char>)
    ensures
        row_max(a, b) <= a.len(),
        row_max(a, b) <= b.len(),
    decreases b.len(),
{
    if b.len() > 0 {
        lemma_csl_le(a, b);
        lemma_row_max_le(a, b.drop_last());
    }
}

/// A common run is no longer than either sequence.
pub proof fn lemma_lcsub_le(a: Seq<char>, b: Seq<char>)
    ensures
        lcsub_spec(a, b) <= a.len(),
        lcsub_spec(a, b) <= b.len(),
    decreases a.len(),
{
    if a.len() > 0 {
        lemma_row_max_le(a, b);
        lemma_lcsub_le(a.drop_last(), b);
    }
}

/// A common subsequence is no longer than either sequence.
pub proof fn lemma_lcs_le(a: Seq<char>, b: Seq<char>)
    ensures
        lcs_spec(a, b) <= a.len(),
        lcs_spec(a, b) <= b.len(),
    decreases a.len() + b.len(),
{
    if a.len() > 0 && b.len() > 0 {
        if a.last() == b.last() {
            lemma_lcs_le(a.drop_last(), b.drop_last());
        } else {
            lemma_lcs_le(a.drop_last(), b);
            lemma_lcs_le(a, b.drop_last());
        }
    }
}

/// The edit distance never exceeds the longer length: substituting along the
/// shorter sequence and inserting the rest always suffices.
pub proof fn lemma_lev_le(a: Seq<char>, b: Seq<char>)
    ensures
        lev_spec(a, b) <= max_nat(a.len(), b.len()),
    decreases a.len() + b.len(),
{
    if a.len() > 0 && b.len() > 0 {
        lemma_lev_le(a.drop_last(), b.drop_last());
    }
}

/// Length of the longest contiguous run of characters common to `a` and `b`.
/// Either argument empty gives 0.
pub fn longest_common_substring_len(a: &str, b: &str) -> (r: usize)
    ensures
        r == lcsub_spec(a@, b@),
{
    let ac: Vec<char> = to_char_vec(a);
    let bc: Vec<char> = to_char_vec(b);
    let n: usize = ac.len();
    let m: usize = bc.len();
    if n == 0 || m == 0 {
        proof {
            lemma_lcsub_le(a@, b@);
        }
        return 0;
    }
    // After row i, prev[k] is the longest common suffix length of a[..i]
    // and b[..k]; best is the longest run seen within a[..i] and b.
    let mut prev: Vec<usize> = Vec::new();
    prev.push(0);
    let mut j0: usize = 0;
    while j0 < m
        invariant
            j0 <= m,
            prev@.len() == j0 + 1,
            forall|k: int| 0 <= k <= j0 ==> prev@[k] == 0,
        decreases m - j0,
    {
        prev.push(0);
        j0 += 1;
    }
    let mut best: usize = 0;
    let mut i: usize = 0;
    proof {
        assert(a@.take(0).len() == 0);
        assert(forall|k: int|
            0 <= k <= m ==> common_suffix_len(a@.take(0), #[trigger] b@.take(k)) == 0);
        assert(lcsub_spec(a@.take(0), b@) == 0);
    }
    while i < n
        invariant
            i <= n,
            n == a@.len(),
            m == b@.len(),
            ac@ == a@,
            bc@ == b@,
            prev@.len() == m + 1,
            forall|k: int|
                0 <= k <= m ==> prev@[k] == common_suffix_len(
                    a@.take(i as int),
                    #[trigger] b@.take(k),
                ),
            best == lcsub_spec(a@.take(i as int), b@),
        decreases n - i,
    {
        let mut curr: Vec<usize> = Vec::new();
        curr.push(0);
        proof {
            assert(common_suffix_len(a@.take(i + 1), b@.take(0)) == 0);
            assert(row_max(a@.take(i + 1), b@.take(0)) == 0);
        }
        let mut j: usize = 0;
        while j < m
            invariant
                i < n,
                j <= m,
                n == a@.len(),
                m == b@.len(),
                ac@ == a@,
                bc@ == b@,
                prev@.len() == m + 1,
                forall|k: int|
                    0 <= k <= m ==> prev@[k] == common_suffix_len(
                        a@.take(i as int),
                        #[trigger] b@.take(k),
                    ),
                curr@.len() == j + 1,
                forall|k: int|
                    0 <= k <= j ==> curr@[k] == common_suffix_len(
                        a@.take(i + 1),
                        #[trigger] b@.take(k),
                    ),
                best == max_nat(
                    lcsub_spec(a@.take(i as int), b@),
                    row_max(a@.take(i + 1), b@.take(j as int)),
                ),
            decreases m - j,
        {
            proof {
                assert(a@.take(i + 1).drop_last() =~= a@.take(i as int));
                assert(b@.take(j + 1).drop_last() =~= b@.take(j as int));
                assert(a@.take(i + 1).last() == a@[i as int]);
                assert(b@.take(j + 1).last() == b@[j as int]);
                lemma_csl_le(a@.take(i as int), b@.take(j as int));
            }
            let v: usize = if ac[i] == bc[j] {
                prev[j] + 1
            } else {
                0
            };
            proof {
                assert(v == common_suffix_len(a@.take(i + 1), b@.take(j + 1)));
            }
            if v > best {
                best = v;
            }
            curr.push(v);
            j += 1;
        }
        proof {
            assert(b@.take(m as int) =~= b@);
            assert(a@.take(i + 1).drop_last() =~= a@.take(i as int));
            assert(best == lcsub_spec(a@.take(i + 1), b@));
        }
        prev = curr;
        i += 1;
    }
    proof {
        assert(a@.take(n as int) =~= a@);
    }
    best
}

/// Length of the longest common subsequence of `a` and `b`.  Either argument
/// empty gives 0.
pub fn longest_common_subsequence_len(a: &str, b: &str) -> (r: usize)
    ensures
        r == lcs_spec(a@, b@),
{
    let ac: Vec<char> = to_char_vec(a);
    let bc: Vec<char> = to_char_vec(b);
    let n: usize = ac.len();
    let m: usize = bc.len();
    if n == 0 || m == 0 {
        return 0;
    }
    // After row i, prev[k] is the subsequence length for a[..i] against b[..k].
    let mut prev: Vec<usize> = Vec::new();
    prev.push(0);
    let mut j0: usize = 0;
    while j0 < m
        invariant
            j0 <= m,
            prev@.len() == j0 + 1,
            forall|k: int| 0 <= k <= j0 ==> prev@[k] == 0,
        decreases m - j0,
    {
        prev.push(0);
        j0 += 1;
    }
    proof {
        assert(a@.take(0).len() == 0);
        assert(forall|k: int| 0 <= k <= m ==> lcs_spec(a@.take(0), #[trigger] b@.take(k)) == 0);
    }
    let mut i: usize = 0;
    while i < n
        invariant
            i <= n,
            n == a@.len(),
            m == b@.len(),
            ac@ == a@,
            bc@ == b@,
            prev@.len() == m + 1,
            forall|k: int|
                0 <= k <= m ==> prev@[k] == lcs_spec(a@.take(i as int), #[trigger] b@.take(k)),
        decreases n - i,
    {
        let mut curr: Vec<usize> = Vec::new();
        curr.push(0);
        proof {
            assert(b@.take(0).len() == 0);
            assert(lcs_spec(a@.take(i + 1), b@.take(0)) == 0);
        }
        let mut j: usize = 0;
        while j < m
            invariant
                i < n,
                j <= m,
                n == a@.len(),
                m == b@.len(),
                ac@ == a@,
                bc@ == b@,
                prev@.len() == m + 1,
                forall|k: int|
                    0 <= k <= m ==> prev@[k] == lcs_spec(a@.take(i as int), #[trigger] b@.take(k)),
                curr@.len() == j + 1,
                forall|k: int|
                    0 <= k <= j ==> curr@[k] == lcs_spec(a@.take(i + 1), #[trigger] b@.take(k)),
            decreases m - j,
        {
            proof {
                assert(a@.take(i + 1).drop_last() =~= a@.take(i as int));
                assert(b@.take(j + 1).drop_last() =~= b@.take(j as int));
                assert(a@.take(i + 1).last() == a@[i as int]);
                assert(b@.take(j + 1).last() == b@[j as int]);
                lemma_lcs_le(a@.take(i as int), b@.take(j as int));
            }
            let v: usize = if ac[i] == bc[j] {
                prev[j] + 1
            } else {
                let x: usize = prev[j + 1];
                let y: usize = curr[j];
                if x >= y {
                    x
                } else {
                    y
                }
            };
            proof {
                assert(v == lcs_spec(a@.take(i + 1), b@.take(j + 1)));
            }
            curr.push(v);
            j += 1;
        }
        prev = curr;
        i += 1;
    }
    let r = prev[m];
    proof {
        assert(a@.take(n as int) =~= a@);
        assert(b@.take(m as int) =~= b@);
    }
    r
}

/// One more than `x`, capped at the top of `usize`.
fn saturating_inc(x: usize) -> (r: usize)
    ensures
        r == min_nat(x as nat + 1, usize::MAX as nat),
{
    if x < usize::MAX {
        x + 1
    } else {
        x
    }
}

/// The edit distance between `a` and `b`.  Either argument empty gives the
/// length of the other.
pub fn levenshtein_distance(a: &str, b: &str) -> (r: usize)
    ensures
        r == lev_spec(a@, b@),
{
    let ac: Vec<char> = to_char_vec(a);
    let bc: Vec<char> = to_char_vec(b);
    let n: usize = ac.len();
    let m: usize = bc.len();
    if n == 0 {
        return m;
    }
    if m == 0 {
        return n;
    }
    // After row i, prev[k] is the distance from a[..i] to b[..k].
    let mut prev: Vec<usize> = Vec::new();
    prev.push(0);
    let mut j0: usize = 0;
    while j0 < m
        invariant
            j0 <= m,
            prev@.len() == j0 + 1,
            forall|k: int| 0 <= k <= j0 ==> prev@[k] == k,
        decreases m - j0,
    {
        prev.push(j0 + 1);
        j0 += 1;
    }
    proof {
        assert(a@.take(0).len() == 0);
        assert(forall|k: int|
            0 <= k <= m ==> lev_spec(a@.take(0), #[trigger] b@.take(k)) == b@.take(k).len());
    }
    let mut i: usize = 0;
    while i < n
        invariant
            i <= n,
            n == a@.len(),
            m == b@.len(),
            ac@ == a@,
            bc@ == b@,
            prev@.len() == m + 1,
            forall|k: int|
                0 <= k <= m ==> prev@[k] == lev_spec(a@.take(i as int), #[trigger] b@.take(k)),
        decreases n - i,
    {
        let mut curr: Vec<usize> = Vec::new();
        curr.push(i + 1);
        proof {
            assert(b@.take(0).len() == 0);
            assert(lev_spec(a@.take(i + 1), b@.take(0)) == a@.take(i + 1).len());
        }
        let mut j: usize = 0;
        while j < m
            invariant
                i < n,
                j <= m,
                n == a@.len(),
                m == b@.len(),
                ac@ == a@,
                bc@ == b@,
                prev@.len() == m + 1,
                forall|k: int|
                    0 <= k <= m ==> prev@[k] == lev_spec(a@.take(i as int), #[trigger] b@.take(k)),
                curr@.len() == j + 1,
                forall|k: int|
                    0 <= k <= j ==> curr@[k] == lev_spec(a@.take(i + 1), #[trigger] b@.take(k)),
            decreases m - j,
        {
            proof {
                assert(a@.take(i + 1).drop_last() =~= a@.take(i as int));
                assert(b@.take(j + 1).drop_last() =~= b@.take(j as int));
                assert(a@.take(i + 1).last() == a@[i as int]);
                assert(b@.take(j + 1).last() == b@[j as int]);
                lemma_lev_le(a@.take(i as int), b@.take(j as int));
                lemma_lev_le(a@.take(i as int), b@.take(j + 1));
                lemma_lev_le(a@.take(i + 1), b@.take(j as int));
                lemma_lev_le(a@.take(i + 1), b@.take(j + 1));
            }
            let cost: usize = if ac[i] == bc[j] {
                0
            } else {
                1
            };
            let del: usize = saturating_inc(prev[j + 1]);
            let ins: usize = saturating_inc(curr[j]);
            let sub: usize = prev[j] + cost;
            let mut v: usize = del;
            if ins < v {
                v = ins;
            }
            if sub < v {
                v = sub;
            }
            proof {
                assert(v == lev_spec(a@.take(i + 1), b@.take(j + 1)));
            }
            curr.push(v);
            j += 1;
        }
        prev = curr;
        i += 1;
    }
    let r = prev[m];
    proof {
        assert(a@.take(n as int) =~= a@);
        assert(b@.take(m as int) =~= b@);
    }
    r
}

} // verus!
