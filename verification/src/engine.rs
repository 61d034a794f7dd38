//! The matching engine: containment-first, fuzzy-fallback ranking of
//! candidate names against a query.
//!
//! A non-empty query first selects every candidate one of whose forms
//! (lowercase literal, normalized, pinyin full spellings, pinyin initials)
//! contains it; any hit suppresses the fuzzy phase entirely.  Only when
//! nothing contains the query is every candidate scored by the three
//! similarity metrics, best across all its forms, and the top five returned.

use vstd::prelude::*;
use vstd::relations::{sorted_by, total_ordering};
use crate::metrics::{
    lcs_spec, lcsub_spec, lev_spec, levenshtein_distance, longest_common_subsequence_len,
    longest_common_substring_len, max_nat, min_nat,
};
use crate::normalize::{normalize, normalize_spec};
use crate::sorting::{insert_sorted, insertion_sort, lemma_insertion_sort_is_sort_by};
use crate::strutil::{
    contains_seq, lemma_lex_le_antisymmetric, lemma_lex_le_connected, lemma_lex_le_refl,
    lemma_lex_le_transitive, lemma_lex_total_ordering, lex_le, lex_leq, lower_of, lowercase,
    str_contains, str_lex_le,
};
use crate::translit::{
    full_variants, initial_variants, to_pinyin_full_multi, to_pinyin_initials_multi,
};

verus! {

/// A candidate's name with its three best similarity scores against the
/// query, as the fallback ranking weighs them.
pub type ScoreTuple = (Seq<char>, nat, nat, nat);

/// Whether any rendering among `vs` contains `q`.
pub open spec fn any_variant_contains(vs: Seq<Seq<char>>, q: Seq<char>) -> bool {
    exists|i: int| 0 <= i < vs.len() && contains_seq(#[trigger] vs[i], q)
}

/// Whether the containment phase accepts candidate `name` for the non-empty
/// query `q`: some form of the name contains the corresponding form of the
/// query.
pub open spec fn accepted_spec(name: Seq<char>, q: Seq<char>) -> bool {
    let ql = lower_of(q);
    let qn = normalize_spec(ql);
    ||| contains_seq(lower_of(name), ql)
    ||| (qn.len() > 0 && contains_seq(normalize_spec(lower_of(name)), qn))
    ||| any_variant_contains(full_variants(name), ql)
    ||| any_variant_contains(initial_variants(name), ql)
}

/// The candidates the containment phase accepts, in their given order.
pub open spec fn accepted_of(cands: Seq<Seq<char>>, q: Seq<char>) -> Seq<Seq<char>>
    decreases cands.len(),
{
    if cands.len() == 0 {
        Seq::empty()
    } else if accepted_spec(cands.last(), q) {
        accepted_of(cands.drop_last(), q).push(cands.last())
    } else {
        accepted_of(cands.drop_last(), q)
    }
}

/// The largest substring score among the renderings `vs` against `q`.
pub open spec fn best_sub(vs: Seq<Seq<char>>, q: Seq<char>) -> nat
    decreases vs.len(),
{
    if vs.len() == 0 {
        0
    } else {
        max_nat(best_sub(vs.drop_last(), q), lcsub_spec(vs.last(), q))
    }
}

/// The largest subsequence score among the renderings `vs` against `q`.
pub open spec fn best_seq(vs: Seq<Seq<char>>, q: Seq<char>) -> nat
    decreases vs.len(),
{
    if vs.len() == 0 {
        0
    } else {
        max_nat(best_seq(vs.drop_last(), q), lcs_spec(vs.last(), q))
    }
}

/// The smallest edit distance among the renderings `vs` against `q`,
/// starting from the largest `usize` when there are none.
pub open spec fn best_edit(vs: Seq<Seq<char>>, q: Seq<char>) -> nat
    decreases vs.len(),
{
    if vs.len() == 0 {
        usize::MAX as nat
    } else {
        min_nat(best_edit(vs.drop_last(), q), lev_spec(vs.last(), q))
    }
}

/// The score of one candidate: its name, then the best longest-common-
/// substring length, the best longest-common-subsequence length, and the
/// best (smallest) edit distance, each taken independently across the
/// normalized literal form (against the normalized query) and every pinyin
/// rendering (against the lowercased query).
pub open spec fn score_of(name: Seq<char>, q: Seq<char>) -> ScoreTuple {
    let ql = lower_of(q);
    let qn = normalize_spec(ql);
    let nn = normalize_spec(lower_of(name));
    let fv = full_variants(name);
    let iv = initial_variants(name);
    (
        name,
        max_nat(lcsub_spec(nn, qn), max_nat(best_sub(fv, ql), best_sub(iv, ql))),
        max_nat(lcs_spec(nn, qn), max_nat(best_seq(fv, ql), best_seq(iv, ql))),
        min_nat(lev_spec(nn, qn), min_nat(best_edit(fv, ql), best_edit(iv, ql))),
    )
}

/// The scores of all candidates, in their given order.
pub open spec fn scores_of(cands: Seq<Seq<char>>, q: Seq<char>) -> Seq<ScoreTuple>
    decreases cands.len(),
{
    if cands.len() == 0 {
        Seq::empty()
    } else {
        scores_of(cands.drop_last(), q).push(score_of(cands.last(), q))
    }
}

/// The rank order of the fallback phase: longer common substring first, then
/// longer common subsequence, then smaller edit distance, then the name's
/// lexicographic order as the final tie-break.
pub open spec fn rank_le(x: ScoreTuple, y: ScoreTuple) -> bool {
    ||| x.1 > y.1
    ||| (x.1 == y.1 && x.2 > y.2)
    ||| (x.1 == y.1 && x.2 == y.2 && x.3 < y.3)
    ||| (x.1 == y.1 && x.2 == y.2 && x.3 == y.3 && lex_le(x.0, y.0))
}

/// `rank_le` as a function value, for ordering lemmas and `sort_by`.
pub open spec fn rank_leq() -> spec_fn(ScoreTuple, ScoreTuple) -> bool {
    |x: ScoreTuple, y: ScoreTuple| rank_le(x, y)
}

/// The rank order is total: the name tie-break leaves no two entries
/// incomparable.
pub proof fn lemma_rank_total_ordering()
    ensures
        total_ordering(rank_leq()),
{
    let leq = rank_leq();
    assert forall|x: ScoreTuple| #[trigger] leq(x, x) by {
        lemma_lex_le_refl(x.0);
    }
    assert forall|x: ScoreTuple, y: ScoreTuple| #[trigger] leq(x, y) && #[trigger] leq(y, x)
        implies x == y by {
        lemma_lex_le_antisymmetric(x.0, y.0);
    }
    assert forall|x: ScoreTuple, y: ScoreTuple, z: ScoreTuple|
        #[trigger] leq(x, y) && #[trigger] leq(y, z) implies leq(x, z) by {
        if x.1 == y.1 && x.2 == y.2 && x.3 == y.3 && y.1 == z.1 && y.2 == z.2 && y.3 == z.3 {
            lemma_lex_le_transitive(x.0, y.0, z.0);
        }
    }
    assert forall|x: ScoreTuple, y: ScoreTuple| #[trigger] leq(x, y) || #[trigger] leq(y, x) by {
        lemma_lex_le_connected(x.0, y.0);
    }
}

/// The names of the ranked entries, in order.
pub open spec fn names_of(s: Seq<ScoreTuple>) -> Seq<Seq<char>>
    decreases s.len(),
{
    if s.len() == 0 {
        Seq::empty()
    } else {
        names_of(s.drop_last()).push(s.last().0)
    }
}

/// The fallback ranking: every candidate scored, the scores sorted by rank,
/// and the names of the first five entries returned.
pub open spec fn ranked_spec(cands: Seq<Seq<char>>, q: Seq<char>) -> Seq<Seq<char>> {
    let sorted = scores_of(cands, q).sort_by(rank_leq());
    if sorted.len() <= 5 {
        names_of(sorted)
    } else {
        names_of(sorted.take(5))
    }
}

/// What a search returns.  An empty query lists every candidate in
/// lexicographic order.  A non-empty query returns the containment hits,
/// sorted lexicographically, whenever there is at least one; only a query
/// nothing contains falls back to the fuzzy ranking.
pub open spec fn search_spec(q: Seq<char>, cands: Seq<Seq<char>>) -> Seq<Seq<char>> {
    if q.len() == 0 {
        cands.sort_by(lex_leq())
    } else {
        let hits = accepted_of(cands, q);
        if hits.len() > 0 {
            hits.sort_by(lex_leq())
        } else {
            ranked_spec(cands, q)
        }
    }
}

/// One scored candidate, as the fallback phase carries it.
struct ScoreEnt {
    name: String,
    sub: usize,
    sq: usize,
    ed: usize,
}

impl View for ScoreEnt {
    type V = ScoreTuple;

    closed spec fn view(&self) -> ScoreTuple {
        (self.name@, self.sub as nat, self.sq as nat, self.ed as nat)
    }
}

/// The views of a sequence of scored candidates.
spec fn score_views(s: Seq<ScoreEnt>) -> Seq<ScoreTuple> {
    Seq::new(s.len(), |i: int| s[i]@)
}

/// The executable rank comparison.
fn rank_le_exec(a: &ScoreEnt, b: &ScoreEnt) -> (r: bool)
    ensures
        r == rank_le(a@, b@),
{
    if a.sub != b.sub {
        a.sub > b.sub
    } else if a.sq != b.sq {
        a.sq > b.sq
    } else if a.ed != b.ed {
        a.ed < b.ed
    } else {
        str_lex_le(a.name.as_str(), b.name.as_str())
    }
}

/// Places `x` into the lexicographically sorted vector `v`.
fn insert_sorted_str(v: Vec<String>, x: String) -> (res: Vec<String>)
    ensures
        res.deep_view() == insert_sorted(v.deep_view(), x@, lex_leq()),
    decreases v.len(),
{
    let mut v = v;
    let n: usize = v.len();
    if n == 0 {
        v.push(x);
        proof {
            assert(v.deep_view() =~= seq![x@]);
        }
        v
    } else if str_lex_le(v[n - 1].as_str(), x.as_str()) {
        let ghost dv0 = v.deep_view();
        proof {
            assert(dv0.last() == v@[n - 1]@);
        }
        v.push(x);
        proof {
            assert(v.deep_view() =~= dv0.push(x@));
        }
        v
    } else {
        let ghost dv = v.deep_view();
        let last = v.pop().unwrap();
        proof {
            assert(v.deep_view() =~= dv.drop_last());
            assert(last@ == dv.last());
        }
        let mut r = insert_sorted_str(v, x);
        r.push(last);
        proof {
            assert(r.deep_view() =~= insert_sorted(dv.drop_last(), x@, lex_leq()).push(dv.last()));
        }
        r
    }
}

/// Places `x` into the rank-sorted vector `v`.
fn insert_sorted_score(v: Vec<ScoreEnt>, x: ScoreEnt) -> (res: Vec<ScoreEnt>)
    ensures
        score_views(res@) == insert_sorted(score_views(v@), x@, rank_leq()),
    decreases v.len(),
{
    let mut v = v;
    let n: usize = v.len();
    if n == 0 {
        v.push(x);
        proof {
            assert(score_views(v@) =~= seq![v@[0]@]);
        }
        v
    } else if rank_le_exec(&v[n - 1], &x) {
        let ghost dv0 = score_views(v@);
        proof {
            assert(dv0.last() == v@[n - 1]@);
        }
        let ghost xv = x@;
        v.push(x);
        proof {
            assert(score_views(v@) =~= dv0.push(xv));
        }
        v
    } else {
        let ghost dv = score_views(v@);
        let last = v.pop().unwrap();
        proof {
            assert(score_views(v@) =~= dv.drop_last());
            assert(last@ == dv.last());
        }
        let mut r = insert_sorted_score(v, x);
        r.push(last);
        proof {
            assert(score_views(r@) =~= insert_sorted(dv.drop_last(), x@, rank_leq()).push(
                dv.last(),
            ));
        }
        r
    }
}

/// Sorts the names lexicographically.
fn sort_strings(v: Vec<String>) -> (res: Vec<String>)
    ensures
        res.deep_view() == v.deep_view().sort_by(lex_leq()),
{
    let ghost dv = v.deep_view();
    let n: usize = v.len();
    let mut out: Vec<String> = Vec::new();
    let mut i: usize = 0;
    proof {
        assert(out.deep_view() =~= insertion_sort(dv.take(0), lex_leq()));
    }
    while i < n
        invariant
            i <= n,
            n == v.len(),
            v.deep_view() == dv,
            out.deep_view() == insertion_sort(dv.take(i as int), lex_leq()),
        decreases n - i,
    {
        let x = v[i].clone();
        proof {
            assert(x@ == dv[i as int]);
            assert(dv.take(i + 1).drop_last() =~= dv.take(i as int));
            assert(dv.take(i + 1).last() == dv[i as int]);
        }
        out = insert_sorted_str(out, x);
        i += 1;
    }
    proof {
        assert(dv.take(n as int) =~= dv);
        lemma_lex_total_ordering();
        lemma_insertion_sort_is_sort_by(dv, lex_leq());
    }
    out
}

/// Sorts the scored candidates by rank.
fn sort_scores(v: Vec<ScoreEnt>) -> (res: Vec<ScoreEnt>)
    ensures
        score_views(res@) == score_views(v@).sort_by(rank_leq()),
{
    let ghost dv = score_views(v@);
    let n: usize = v.len();
    let mut out: Vec<ScoreEnt> = Vec::new();
    proof {
        assert(score_views(out@) =~= insertion_sort(dv.take(0), rank_leq()));
    }
    let mut rest = v;
    let mut taken: usize = 0;
    proof {
        assert(score_views(rest@) =~= dv.skip(0));
    }
    while rest.len() > 0
        invariant
            taken + rest.len() == n,
            n == dv.len(),
            score_views(rest@) == dv.skip(taken as int),
            score_views(out@) == insertion_sort(dv.take(taken as int), rank_leq()),
        decreases rest.len(),
    {
        let ghost before = score_views(rest@);
        let ghost bv = rest@;
        let x = rest.remove(0);
        proof {
            assert(x@ == bv[0]@);
            assert(bv[0]@ == before[0]);
            assert(before[0] == dv.skip(taken as int)[0]);
            assert(x@ == dv[taken as int]);
            assert(rest@ =~= bv.remove(0));
            assert(score_views(rest@) =~= before.drop_first());
            assert(before.drop_first() =~= dv.skip(taken + 1));
            assert(dv.take(taken + 1).drop_last() =~= dv.take(taken as int));
            assert(dv.take(taken + 1).last() == dv[taken as int]);
        }
        out = insert_sorted_score(out, x);
        taken += 1;
    }
    proof {
        assert(dv.take(n as int) =~= dv);
        lemma_rank_total_ordering();
        lemma_insertion_sort_is_sort_by(dv, rank_leq());
    }
    out
}

/// Whether any rendering in `vs` contains `q`.
fn any_contains(vs: &Vec<String>, q: &str) -> (r: bool)
    ensures
        r == any_variant_contains(vs.deep_view(), q@),
{
    let n: usize = vs.len();
    let mut i: usize = 0;
    while i < n
        invariant
            i <= n,
            n == vs.len(),
            forall|k: int| 0 <= k < i ==> !contains_seq(#[trigger] vs.deep_view()[k], q@),
        decreases n - i,
    {
        if str_contains(vs[i].as_str(), q) {
            proof {
                assert(contains_seq(vs.deep_view()[i as int], q@));
            }
            return true;
        }
        i += 1;
    }
    false
}

/// The containment test for one candidate, against the prepared forms of the
/// query.
fn is_accepted(name: &String, q_lower: &String, q_norm: &String, Ghost(q): Ghost<Seq<char>>) -> (r:
    bool)
    requires
        q_lower@ == lower_of(q),
        q_norm@ == normalize_spec(lower_of(q)),
    ensures
        r == accepted_spec(name@, q),
{
    let name_lower = lowercase(name.as_str());
    if str_contains(name_lower.as_str(), q_lower.as_str()) {
        return true;
    }
    if !q_norm.as_str().is_empty() {
        let name_norm = normalize(name_lower.as_str());
        if str_contains(name_norm.as_str(), q_norm.as_str()) {
            return true;
        }
    }
    let fv = to_pinyin_full_multi(name.as_str());
    if any_contains(&fv, q_lower.as_str()) {
        return true;
    }
    let iv = to_pinyin_initials_multi(name.as_str());
    any_contains(&iv, q_lower.as_str())
}

/// The best three scores across a set of renderings: largest substring and
/// subsequence lengths, smallest edit distance.
fn best_scores(vs: &Vec<String>, q: &str) -> (r: (usize, usize, usize))
    ensures
        r.0 == best_sub(vs.deep_view(), q@),
        r.1 == best_seq(vs.deep_view(), q@),
        r.2 == best_edit(vs.deep_view(), q@),
{
    let n: usize = vs.len();
    let mut bsub: usize = 0;
    let mut bseq: usize = 0;
    let mut bedit: usize = usize::MAX;
    let mut i: usize = 0;
    proof {
        assert(vs.deep_view().take(0).len() == 0);
    }
    while i < n
        invariant
            i <= n,
            n == vs.len(),
            bsub == best_sub(vs.deep_view().take(i as int), q@),
            bseq == best_seq(vs.deep_view().take(i as int), q@),
            bedit == best_edit(vs.deep_view().take(i as int), q@),
        decreases n - i,
    {
        let s = longest_common_substring_len(vs[i].as_str(), q);
        let c = longest_common_subsequence_len(vs[i].as_str(), q);
        let e = levenshtein_distance(vs[i].as_str(), q);
        proof {
            let dv = vs.deep_view();
            assert(dv.take(i + 1).drop_last() =~= dv.take(i as int));
            assert(dv.take(i + 1).last() == dv[i as int]);
        }
        if s > bsub {
            bsub = s;
        }
        if c > bseq {
            bseq = c;
        }
        if e < bedit {
            bedit = e;
        }
        i += 1;
    }
    proof {
        assert(vs.deep_view().take(n as int) =~= vs.deep_view());
    }
    (bsub, bseq, bedit)
}

/// Scores one candidate against the prepared forms of the query.
fn score_one(name: &String, q_lower: &String, q_norm: &String, Ghost(q): Ghost<Seq<char>>) -> (sc:
    ScoreEnt)
    requires
        q_lower@ == lower_of(q),
        q_norm@ == normalize_spec(lower_of(q)),
    ensures
        sc@ == score_of(name@, q),
{
    let name_lower = lowercase(name.as_str());
    let name_norm = normalize(name_lower.as_str());
    let lsub = longest_common_substring_len(name_norm.as_str(), q_norm.as_str());
    let lseq = longest_common_subsequence_len(name_norm.as_str(), q_norm.as_str());
    let led = levenshtein_distance(name_norm.as_str(), q_norm.as_str());
    let fv = to_pinyin_full_multi(name.as_str());
    let iv = to_pinyin_initials_multi(name.as_str());
    let fbest = best_scores(&fv, q_lower.as_str());
    let ibest = best_scores(&iv, q_lower.as_str());
    let mut sub = lsub;
    if fbest.0 > sub {
        sub = fbest.0;
    }
    if ibest.0 > sub {
        sub = ibest.0;
    }
    let mut sq = lseq;
    if fbest.1 > sq {
        sq = fbest.1;
    }
    if ibest.1 > sq {
        sq = ibest.1;
    }
    let mut ed = led;
    if fbest.2 < ed {
        ed = fbest.2;
    }
    if ibest.2 < ed {
        ed = ibest.2;
    }
    ScoreEnt { name: name.clone(), sub, sq, ed }
}

/// Searches the candidate names for the query.
///
/// An empty query returns every candidate, sorted.  Otherwise the containment
/// phase collects every candidate one of whose forms (lowercase literal,
/// normalized, pinyin full spelling, pinyin initials) contains the matching
/// form of the query, and returns them sorted, suppressing the fuzzy phase.
/// Only when nothing contains the query is every candidate scored and the
/// best five returned, in rank order.
pub fn search_workspaces(query: &str, candidates: Vec<String>) -> (r: Vec<String>)
    ensures
        r.deep_view() == search_spec(query@, candidates.deep_view()),
{
    if query.is_empty() {
        return sort_strings(candidates);
    }
    let ghost q = query@;
    let ghost cdv = candidates.deep_view();
    let query_lower = lowercase(query);
    let query_norm = normalize(query_lower.as_str());
    let n: usize = candidates.len();
    let mut hits: Vec<String> = Vec::new();
    let mut i: usize = 0;
    proof {
        assert(hits.deep_view() =~= accepted_of(cdv.take(0), q));
    }
    while i < n
        invariant
            i <= n,
            n == candidates.len(),
            candidates.deep_view() == cdv,
            q == query@,
            query_lower@ == lower_of(q),
            query_norm@ == normalize_spec(lower_of(q)),
            hits.deep_view() == accepted_of(cdv.take(i as int), q),
        decreases n - i,
    {
        let ghost hv = hits.deep_view();
        let accept = is_accepted(&candidates[i], &query_lower, &query_norm, Ghost(q));
        proof {
            assert(candidates@[i as int]@ == cdv[i as int]);
            assert(cdv.take(i + 1).drop_last() =~= cdv.take(i as int));
            assert(cdv.take(i + 1).last() == cdv[i as int]);
        }
        if accept {
            hits.push(candidates[i].clone());
            proof {
                assert(hits.deep_view() =~= hv.push(cdv[i as int]));
            }
        }
        i += 1;
    }
    proof {
        assert(cdv.take(n as int) =~= cdv);
    }
    if hits.len() > 0 {
        return sort_strings(hits);
    }
    // Nothing contained the query: score every candidate and rank.
    let mut scored: Vec<ScoreEnt> = Vec::new();
    let mut k: usize = 0;
    proof {
        assert(score_views(scored@) =~= scores_of(cdv.take(0), q));
    }
    while k < n
        invariant
            k <= n,
            n == candidates.len(),
            candidates.deep_view() == cdv,
            q == query@,
            query_lower@ == lower_of(q),
            query_norm@ == normalize_spec(lower_of(q)),
            score_views(scored@) == scores_of(cdv.take(k as int), q),
        decreases n - k,
    {
        let ghost sv = score_views(scored@);
        let sc = score_one(&candidates[k], &query_lower, &query_norm, Ghost(q));
        let ghost scv = sc@;
        scored.push(sc);
        proof {
            assert(candidates@[k as int]@ == cdv[k as int]);
            assert(cdv.take(k + 1).drop_last() =~= cdv.take(k as int));
            assert(cdv.take(k + 1).last() == cdv[k as int]);
            assert(score_views(scored@) =~= sv.push(scv));
        }
        k += 1;
    }
    proof {
        assert(cdv.take(n as int) =~= cdv);
    }
    let sorted = sort_scores(scored);
    let ghost sortedv = score_views(sorted@);
    let m: usize = sorted.len();
    let limit: usize = if m <= 5 {
        m
    } else {
        5
    };
    let mut res: Vec<String> = Vec::new();
    let mut t: usize = 0;
    proof {
        assert(res.deep_view() =~= names_of(sortedv.take(0)));
    }
    while t < limit
        invariant
            t <= limit,
            limit <= m,
            m == sorted.len(),
            score_views(sorted@) == sortedv,
            res.deep_view() == names_of(sortedv.take(t as int)),
        decreases limit - t,
    {
        let ghost rv = res.deep_view();
        res.push(sorted[t].name.clone());
        proof {
            assert(sorted@[t as int]@.0 == sortedv[t as int].0);
            assert(sortedv.take(t + 1).drop_last() =~= sortedv.take(t as int));
            assert(sortedv.take(t + 1).last() == sortedv[t as int]);
            assert(res.deep_view() =~= rv.push(sortedv[t as int].0));
        }
        t += 1;
    }
    proof {
        if m <= 5 {
            assert(sortedv.take(m as int) =~= sortedv);
        }
    }
    res
}


/// The names are one per ranked entry.
proof fn lemma_names_of_len(s: Seq<ScoreTuple>)
    ensures
        names_of(s).len() == s.len(),
    decreases s.len(),
{
    if s.len() > 0 {
        lemma_names_of_len(s.drop_last());
    }
}

/// An empty query lists the whole candidate set, in lexicographic order,
/// whatever the candidates hold.
pub proof fn lemma_search_empty_query(cands: Seq<Seq<char>>)
    ensures
        sorted_by(search_spec(Seq::<char>::empty(), cands), lex_leq()),
        search_spec(Seq::<char>::empty(), cands).to_multiset() == cands.to_multiset(),
{
    lemma_lex_total_ordering();
    cands.lemma_sort_by_ensures(lex_leq());
}

/// With at least one containment hit for a non-empty query, the result is
/// exactly the hits in lexicographic order: the fuzzy phase never runs.
pub proof fn lemma_search_containment_wins(q: Seq<char>, cands: Seq<Seq<char>>)
    requires
        q.len() > 0,
        accepted_of(cands, q).len() > 0,
    ensures
        sorted_by(search_spec(q, cands), lex_leq()),
        search_spec(q, cands).to_multiset() == accepted_of(cands, q).to_multiset(),
{
    lemma_lex_total_ordering();
    accepted_of(cands, q).lemma_sort_by_ensures(lex_leq());
}

/// The fuzzy fallback runs only when a non-empty query has no containment
/// hit, and then it returns at most five names, drawn in order from the
/// scores sorted by rank.
pub proof fn lemma_search_fallback(q: Seq<char>, cands: Seq<Seq<char>>)
    requires
        q.len() > 0,
        accepted_of(cands, q).len() == 0,
    ensures
        search_spec(q, cands) == ranked_spec(cands, q),
        search_spec(q, cands).len() <= 5,
        sorted_by(scores_of(cands, q).sort_by(rank_leq()), rank_leq()),
        scores_of(cands, q).sort_by(rank_leq()).to_multiset() == scores_of(cands, q).to_multiset(),
{
    lemma_rank_total_ordering();
    scores_of(cands, q).lemma_sort_by_ensures(rank_leq());
    let sorted = scores_of(cands, q).sort_by(rank_leq());
    if sorted.len() <= 5 {
        lemma_names_of_len(sorted);
    } else {
        lemma_names_of_len(sorted.take(5));
    }
}

} // verus!


