//! The transliterator: expands a name into all plausible pinyin renderings,
//! branching on characters that have more than one recognized reading.
//!
//! The expansion walks the text once, keeping a growing set of partial
//! renderings.  An ASCII letter appends its lowercase form to every partial;
//! another ASCII character passes through verbatim into full spellings and is
//! skipped for initials; a non-ASCII character multiplies the partials by its
//! readings (full spelling, or first letter only).  A character with many
//! readings multiplies the set, so the result can grow as the product of the
//! per-character reading counts.

use vstd::prelude::*;
use crate::chars::{
    ascii_alpha_char, ascii_char, is_ascii_alpha_char, is_ascii_char, lower_char, to_lower_char,
};
use crate::strutil::{push_char, to_char_vec};
use pinyin::ToPinyinMulti;

verus! {

/// The plain (tone-free) readings that the pinyin table assigns to one
/// character: a fixed function of the character, empty when the table does
/// not know it.
pub uninterp spec fn readings_of(c: char) -> Seq<Seq<char>>;

/// Relies on pinyin's `ToPinyinMulti for char` and `Pinyin::plain`: the
/// readings of a character come from a built-in table, a function of the
/// character alone; a character outside the table yields none.
#[verifier::external_body]
fn char_readings(c: char) -> (r: Vec<String>)
    ensures
        r.deep_view() == readings_of(c),
{
    match c.to_pinyin_multi() {
        Some(multi) => multi.into_iter().map(|p| p.plain().to_string()).collect(),
        None => Vec::new(),
    }
}

/// Every partial rendering, extended by the one character `c`.
pub open spec fn push_all(partials: Seq<Seq<char>>, c: char) -> Seq<Seq<char>>
    decreases partials.len(),
{
    if partials.len() == 0 {
        Seq::empty()
    } else {
        push_all(partials.drop_last(), c).push(partials.last().push(c))
    }
}

/// Every partial rendering, extended by the full reading `r`.
pub open spec fn append_all(partials: Seq<Seq<char>>, r: Seq<char>) -> Seq<Seq<char>>
    decreases partials.len(),
{
    if partials.len() == 0 {
        Seq::empty()
    } else {
        append_all(partials.drop_last(), r).push(partials.last() + r)
    }
}

/// The Cartesian product of the partial renderings with the full spellings
/// of the readings `rs`, reading-major.
pub open spec fn cross_full(partials: Seq<Seq<char>>, rs: Seq<Seq<char>>) -> Seq<Seq<char>>
    decreases rs.len(),
{
    if rs.len() == 0 {
        Seq::empty()
    } else {
        cross_full(partials, rs.drop_last()) + append_all(partials, rs.last())
    }
}

/// The Cartesian product of the partial renderings with the first letters of
/// the readings `rs`, reading-major; a reading without characters
/// contributes nothing.
pub open spec fn cross_initials(partials: Seq<Seq<char>>, rs: Seq<Seq<char>>) -> Seq<Seq<char>>
    decreases rs.len(),
{
    if rs.len() == 0 {
        Seq::empty()
    } else {
        cross_initials(partials, rs.drop_last()) + if rs.last().len() > 0 {
            push_all(partials, rs.last()[0])
        } else {
            Seq::empty()
        }
    }
}

/// One step of the full-spelling expansion: how one character of the input
/// transforms the set of partial renderings.  When a character's readings
/// would produce an empty set, the partials are kept unchanged.
pub open spec fn step_full(partials: Seq<Seq<char>>, c: char) -> Seq<Seq<char>> {
    if is_ascii_alpha_char(c) {
        push_all(partials, lower_char(c))
    } else if is_ascii_char(c) {
        push_all(partials, c)
    } else {
        let combined = cross_full(partials, readings_of(c));
        if combined.len() > 0 {
            combined
        } else {
            partials
        }
    }
}

/// One step of the initials expansion: ASCII letters pass through lowercased,
/// other ASCII characters are skipped, and a non-ASCII character contributes
/// the first letter of each reading.
pub open spec fn step_initials(partials: Seq<Seq<char>>, c: char) -> Seq<Seq<char>> {
    if is_ascii_alpha_char(c) {
        push_all(partials, lower_char(c))
    } else if is_ascii_char(c) {
        partials
    } else {
        let combined = cross_initials(partials, readings_of(c));
        if combined.len() > 0 {
            combined
        } else {
            partials
        }
    }
}

/// All full-spelling renderings of `text`, starting from one empty partial.
pub open spec fn full_variants(text: Seq<char>) -> Seq<Seq<char>>
    decreases text.len(),
{
    if text.len() == 0 {
        seq![Seq::<char>::empty()]
    } else {
        step_full(full_variants(text.drop_last()), text.last())
    }
}

/// All initials renderings of `text`, starting from one empty partial.
pub open spec fn initial_variants(text: Seq<char>) -> Seq<Seq<char>>
    decreases text.len(),
{
    if text.len() == 0 {
        seq![Seq::<char>::empty()]
    } else {
        step_initials(initial_variants(text.drop_last()), text.last())
    }
}

/// Extending every partial keeps their number.
pub proof fn lemma_push_all_len(partials: Seq<Seq<char>>, c: char)
    ensures
        push_all(partials, c).len() == partials.len(),
    decreases partials.len(),
{
    if partials.len() > 0 {
        lemma_push_all_len(partials.drop_last(), c);
    }
}

/// The variant set is never empty: expansion starts from one empty partial
/// and no step discards them all.
pub proof fn lemma_full_variants_nonempty(text: Seq<char>)
    ensures
        full_variants(text).len() >= 1,
    decreases text.len(),
{
    if text.len() > 0 {
        lemma_full_variants_nonempty(text.drop_last());
        let p = full_variants(text.drop_last());
        let c = text.last();
        if is_ascii_alpha_char(c) {
            lemma_push_all_len(p, lower_char(c));
        } else if is_ascii_char(c) {
            lemma_push_all_len(p, c);
        }
    }
}

/// The initials variant set is never empty either.
pub proof fn lemma_initial_variants_nonempty(text: Seq<char>)
    ensures
        initial_variants(text).len() >= 1,
    decreases text.len(),
{
    if text.len() > 0 {
        lemma_initial_variants_nonempty(text.drop_last());
        let p = initial_variants(text.drop_last());
        let c = text.last();
        if is_ascii_alpha_char(c) {
            lemma_push_all_len(p, lower_char(c));
        }
    }
}

/// Crossing a single empty partial with readings yields the readings.
proof fn lemma_cross_full_unit(rs: Seq<Seq<char>>)
    ensures
        cross_full(seq![Seq::<char>::empty()], rs) == rs,
    decreases rs.len(),
{
    let unit = seq![Seq::<char>::empty()];
    if rs.len() == 0 {
        assert(cross_full(unit, rs) =~= rs);
    } else {
        lemma_cross_full_unit(rs.drop_last());
        assert(unit.drop_last() =~= Seq::<Seq<char>>::empty());
        assert(append_all(Seq::<Seq<char>>::empty(), rs.last()) =~= Seq::<Seq<char>>::empty());
        assert(unit.last() + rs.last() =~= rs.last());
        assert(append_all(unit, rs.last()) =~= seq![rs.last()]);
        assert(cross_full(unit, rs) =~= rs);
    }
}

/// The first letters of the readings, one single-letter rendering for each
/// reading that has characters.
pub open spec fn initial_letters(rs: Seq<Seq<char>>) -> Seq<Seq<char>>
    decreases rs.len(),
{
    if rs.len() == 0 {
        Seq::empty()
    } else {
        initial_letters(rs.drop_last()) + if rs.last().len() > 0 {
            seq![seq![rs.last()[0]]]
        } else {
            Seq::empty()
        }
    }
}

/// Crossing a single empty partial with readings yields their first letters.
proof fn lemma_cross_initials_unit(rs: Seq<Seq<char>>)
    ensures
        cross_initials(seq![Seq::<char>::empty()], rs) == initial_letters(rs),
    decreases rs.len(),
{
    let unit = seq![Seq::<char>::empty()];
    if rs.len() == 0 {
        assert(cross_initials(unit, rs) =~= initial_letters(rs));
    } else {
        lemma_cross_initials_unit(rs.drop_last());
        assert(unit.drop_last() =~= Seq::<Seq<char>>::empty());
        if rs.last().len() > 0 {
            assert(push_all(Seq::<Seq<char>>::empty(), rs.last()[0]) =~= Seq::<Seq<char>>::empty());
            assert(unit.last().push(rs.last()[0]) =~= seq![rs.last()[0]]);
            assert(push_all(unit, rs.last()[0]) =~= seq![seq![rs.last()[0]]]);
        }
        assert(cross_initials(unit, rs) =~= initial_letters(rs));
    }
}

/// A single non-ASCII character with recognized readings expands to exactly
/// one full-spelling variant per reading: a character with N readings fans
/// out into N variants.
pub proof fn lemma_full_variants_single(c: char)
    requires
        !is_ascii_char(c),
        readings_of(c).len() > 0,
    ensures
        full_variants(seq![c]) == readings_of(c),
{
    let text = seq![c];
    assert(full_variants(Seq::<char>::empty()) == seq![Seq::<char>::empty()]);
    assert(text.drop_last() =~= Seq::<char>::empty());
    assert(text.last() == c);
    lemma_cross_full_unit(readings_of(c));
}

/// A single non-ASCII character expands to one initials variant per reading
/// that has characters; if none has, the single empty rendering remains.
pub proof fn lemma_initial_variants_single(c: char)
    requires
        !is_ascii_char(c),
    ensures
        initial_letters(readings_of(c)).len() > 0 ==> initial_variants(seq![c])
            == initial_letters(readings_of(c)),
        initial_letters(readings_of(c)).len() == 0 ==> initial_variants(seq![c]) == seq![
            Seq::<char>::empty(),
        ],
{
    let text = seq![c];
    assert(initial_variants(Seq::<char>::empty()) == seq![Seq::<char>::empty()]);
    assert(text.drop_last() =~= Seq::<char>::empty());
    assert(text.last() == c);
    lemma_cross_initials_unit(readings_of(c));
}

/// Every partial extended by `c`, as executable code over strings.
fn push_all_exec(cur: &Vec<String>, c: char) -> (nv: Vec<String>)
    ensures
        nv.deep_view() == push_all(cur.deep_view(), c),
{
    let n: usize = cur.len();
    let mut nv: Vec<String> = Vec::new();
    let mut k: usize = 0;
    while k < n
        invariant
            k <= n,
            n == cur.len(),
            nv.deep_view() == push_all(cur.deep_view().take(k as int), c),
        decreases n - k,
    {
        let mut s2 = cur[k].clone();
        push_char(&mut s2, c);
        nv.push(s2);
        proof {
            let dv = cur.deep_view();
            assert(dv.take(k + 1).drop_last() =~= dv.take(k as int));
            assert(dv.take(k + 1).last() == dv[k as int]);
            assert(nv.deep_view() =~= push_all(dv.take(k as int), c).push(dv[k as int].push(c)));
        }
        k += 1;
    }
    proof {
        assert(cur.deep_view().take(n as int) =~= cur.deep_view());
    }
    nv
}

/// The Cartesian product with full readings, as executable code.
fn cross_full_exec(cur: &Vec<String>, readings: &Vec<String>) -> (nv: Vec<String>)
    ensures
        nv.deep_view() == cross_full(cur.deep_view(), readings.deep_view()),
{
    let rn: usize = readings.len();
    let n: usize = cur.len();
    let mut nv: Vec<String> = Vec::new();
    let mut ri: usize = 0;
    while ri < rn
        invariant
            ri <= rn,
            rn == readings.len(),
            n == cur.len(),
            nv.deep_view() == cross_full(cur.deep_view(), readings.deep_view().take(ri as int)),
        decreases rn - ri,
    {
        let mut k: usize = 0;
        while k < n
            invariant
                ri < rn,
                k <= n,
                rn == readings.len(),
                n == cur.len(),
                nv.deep_view() == cross_full(cur.deep_view(), readings.deep_view().take(ri as int))
                    + append_all(cur.deep_view().take(k as int), readings.deep_view()[ri as int]),
            decreases n - k,
        {
            let mut s2 = cur[k].clone();
            s2.append(readings[ri].as_str());
            nv.push(s2);
            proof {
                let dv = cur.deep_view();
                let rvt = readings.deep_view().take(ri as int);
                let r = readings.deep_view()[ri as int];
                let before = cross_full(dv, rvt) + append_all(dv.take(k as int), r);
                assert(s2@ == dv[k as int] + r);
                assert(dv.take(k + 1).drop_last() =~= dv.take(k as int));
                assert(dv.take(k + 1).last() == dv[k as int]);
                assert(append_all(dv.take(k + 1), r) == append_all(dv.take(k as int), r).push(
                    dv[k as int] + r,
                ));
                assert(nv.deep_view() =~= before.push(s2@));
                assert(before.push(s2@) =~= cross_full(dv, rvt) + append_all(dv.take(k + 1), r));
            }
            k += 1;
        }
        proof {
            let dv = cur.deep_view();
            let rv = readings.deep_view();
            assert(dv.take(n as int) =~= dv);
            assert(rv.take(ri + 1).drop_last() =~= rv.take(ri as int));
            assert(rv.take(ri + 1).last() == rv[ri as int]);
            assert(nv.deep_view() =~= cross_full(dv, rv.take(ri + 1)));
        }
        ri += 1;
    }
    proof {
        assert(readings.deep_view().take(rn as int) =~= readings.deep_view());
        assert(nv.deep_view() =~= cross_full(cur.deep_view(), readings.deep_view()));
    }
    nv
}

/// The Cartesian product with reading first letters, as executable code.
fn cross_initials_exec(cur: &Vec<String>, readings: &Vec<String>) -> (nv: Vec<String>)
    ensures
        nv.deep_view() == cross_initials(cur.deep_view(), readings.deep_view()),
{
    let rn: usize = readings.len();
    let n: usize = cur.len();
    let mut nv: Vec<String> = Vec::new();
    let mut ri: usize = 0;
    while ri < rn
        invariant
            ri <= rn,
            rn == readings.len(),
            n == cur.len(),
            nv.deep_view() == cross_initials(
                cur.deep_view(),
                readings.deep_view().take(ri as int),
            ),
        decreases rn - ri,
    {
        let rchars: Vec<char> = to_char_vec(readings[ri].as_str());
        if rchars.len() > 0 {
            let first: char = rchars[0];
            let mut k: usize = 0;
            while k < n
                invariant
                    ri < rn,
                    k <= n,
                    rn == readings.len(),
                    n == cur.len(),
                    first == readings.deep_view()[ri as int][0],
                    readings.deep_view()[ri as int].len() > 0,
                    nv.deep_view() == cross_initials(
                        cur.deep_view(),
                        readings.deep_view().take(ri as int),
                    ) + push_all(cur.deep_view().take(k as int), first),
                decreases n - k,
            {
                let mut s2 = cur[k].clone();
                push_char(&mut s2, first);
                nv.push(s2);
                proof {
                    let dv = cur.deep_view();
                    let rvt = readings.deep_view().take(ri as int);
                    let before = cross_initials(dv, rvt) + push_all(dv.take(k as int), first);
                    assert(s2@ == dv[k as int].push(first));
                    assert(dv.take(k + 1).drop_last() =~= dv.take(k as int));
                    assert(dv.take(k + 1).last() == dv[k as int]);
                    assert(push_all(dv.take(k + 1), first) == push_all(dv.take(k as int), first)
                        .push(dv[k as int].push(first)));
                    assert(nv.deep_view() =~= before.push(s2@));
                    assert(before.push(s2@) =~= cross_initials(dv, rvt) + push_all(
                        dv.take(k + 1),
                        first,
                    ));
                }
                k += 1;
            }
            proof {
                let dv = cur.deep_view();
                let rv = readings.deep_view();
                assert(dv.take(n as int) =~= dv);
                assert(rv.take(ri + 1).drop_last() =~= rv.take(ri as int));
                assert(rv.take(ri + 1).last() == rv[ri as int]);
                assert(nv.deep_view() =~= cross_initials(dv, rv.take(ri + 1)));
            }
        } else {
            proof {
                let dv = cur.deep_view();
                let rv = readings.deep_view();
                assert(rv.take(ri + 1).drop_last() =~= rv.take(ri as int));
                assert(rv.take(ri + 1).last() == rv[ri as int]);
                assert(nv.deep_view() =~= cross_initials(dv, rv.take(ri + 1)));
            }
        }
        ri += 1;
    }
    proof {
        assert(readings.deep_view().take(rn as int) =~= readings.deep_view());
        assert(nv.deep_view() =~= cross_initials(cur.deep_view(), readings.deep_view()));
    }
    nv
}

/// All plausible full-spelling pinyin renderings of `text`, lowercase.
///
/// ASCII letters pass through lowercased and other ASCII characters pass
/// through verbatim; each non-ASCII character multiplies the set by its
/// recognized readings, so a name with several multi-reading characters
/// produces a set as large as the product of its per-character reading
/// counts.  Unrecognized non-ASCII characters vanish from the renderings.
pub fn to_pinyin_full_multi(text: &str) -> (r: Vec<String>)
    ensures
        r.deep_view() == full_variants(text@),
{
    let chars: Vec<char> = to_char_vec(text);
    let n: usize = chars.len();
    let mut cur: Vec<String> = Vec::new();
    cur.push(String::new());
    proof {
        assert(cur.deep_view() =~= full_variants(text@.take(0)));
    }
    let mut i: usize = 0;
    while i < n
        invariant
            i <= n,
            n == text@.len(),
            chars@ == text@,
            cur.deep_view() == full_variants(text@.take(i as int)),
        decreases n - i,
    {
        let c = chars[i];
        proof {
            assert(text@.take(i + 1).drop_last() =~= text@.take(i as int));
            assert(text@.take(i + 1).last() == text@[i as int]);
        }
        if ascii_alpha_char(c) {
            let lc = to_lower_char(c);
            cur = push_all_exec(&cur, lc);
        } else if ascii_char(c) {
            cur = push_all_exec(&cur, c);
        } else {
            let readings = char_readings(c);
            let nv = cross_full_exec(&cur, &readings);
            if nv.len() > 0 {
                cur = nv;
            } else {
                proof {
                    assert(cross_full(full_variants(text@.take(i as int)), readings_of(c)).len()
                        == 0);
                }
            }
        }
        i += 1;
    }
    proof {
        assert(text@.take(n as int) =~= text@);
    }
    cur
}

/// All plausible pinyin initials renderings of `text`, lowercase.
///
/// ASCII letters pass through lowercased; other ASCII characters are
/// skipped; each non-ASCII character contributes the first letter of each of
/// its recognized readings, multiplying the set as the full spellings do.
pub fn to_pinyin_initials_multi(text: &str) -> (r: Vec<String>)
    ensures
        r.deep_view() == initial_variants(text@),
{
    let chars: Vec<char> = to_char_vec(text);
    let n: usize = chars.len();
    let mut cur: Vec<String> = Vec::new();
    cur.push(String::new());
    proof {
        assert(cur.deep_view() =~= initial_variants(text@.take(0)));
    }
    let mut i: usize = 0;
    while i < n
        invariant
            i <= n,
            n == text@.len(),
            chars@ == text@,
            cur.deep_view() == initial_variants(text@.take(i as int)),
        decreases n - i,
    {
        let c = chars[i];
        proof {
            assert(text@.take(i + 1).drop_last() =~= text@.take(i as int));
            assert(text@.take(i + 1).last() == text@[i as int]);
        }
        if ascii_alpha_char(c) {
            let lc = to_lower_char(c);
            cur = push_all_exec(&cur, lc);
        } else if ascii_char(c) {
            // Other ASCII characters contribute nothing to initials.
        } else {
            let readings = char_readings(c);
            let nv = cross_initials_exec(&cur, &readings);
            if nv.len() > 0 {
                cur = nv;
            } else {
                proof {
                    assert(cross_initials(
                        initial_variants(text@.take(i as int)),
                        readings_of(c),
                    ).len() == 0);
                }
            }
        }
        i += 1;
    }
    proof {
        assert(text@.take(n as int) =~= text@);
    }
    cur
}

} // verus!
