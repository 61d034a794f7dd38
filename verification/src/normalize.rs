//! The normalizer: strips a name down to a separator- and punctuation-
//! insensitive comparison key.

use vstd::prelude::*;
use crate::chars::{ascii_alnum_char, is_ascii_alnum_char};
use crate::strutil::{chars_to_string, to_char_vec};

verus! {

/// The comparison key of a string: its ASCII letters and digits, in their
/// original order.  Every other character, Chinese ideographs included, is
/// dropped; no case folding happens here.
pub open spec fn normalize_spec(s: Seq<char>) -> Seq<char> {
    s.filter(|c: char| is_ascii_alnum_char(c))
}

/// Appending one character extends the key by that character exactly when it
/// is ASCII alphanumeric.
pub proof fn lemma_normalize_push(s: Seq<char>, c: char)
    ensures
        normalize_spec(s.push(c)) == if is_ascii_alnum_char(c) {
            normalize_spec(s).push(c)
        } else {
            normalize_spec(s)
        },
{
    reveal(Seq::filter);
    assert(s.push(c).drop_last() =~= s);
    assert(s.push(c).last() == c);
}

/// A sequence of ASCII alphanumeric characters is its own key.
proof fn lemma_normalize_all_kept(s: Seq<char>)
    requires
        forall|i: int| 0 <= i < s.len() ==> is_ascii_alnum_char(#[trigger] s[i]),
    ensures
        normalize_spec(s) == s,
    decreases s.len(),
{
    if s.len() > 0 {
        lemma_normalize_all_kept(s.drop_last());
        lemma_normalize_push(s.drop_last(), s.last());
        assert(s.drop_last().push(s.last()) =~= s);
    }
}

/// Every character of a key is ASCII alphanumeric.
proof fn lemma_normalize_elements(s: Seq<char>)
    ensures
        forall|i: int|
            0 <= i < normalize_spec(s).len() ==> is_ascii_alnum_char(#[trigger] normalize_spec(s)[i]),
    decreases s.len(),
{
    if s.len() > 0 {
        lemma_normalize_elements(s.drop_last());
        lemma_normalize_push(s.drop_last(), s.last());
        assert(s.drop_last().push(s.last()) =~= s);
    }
}

/// Normalizing is idempotent: a key is its own key.
pub proof fn lemma_normalize_idempotent(s: Seq<char>)
    ensures
        normalize_spec(normalize_spec(s)) == normalize_spec(s),
{
    lemma_normalize_elements(s);
    lemma_normalize_all_kept(normalize_spec(s));
}

/// Retains only the ASCII alphanumeric characters of `input`, in order.
///
/// Non-ASCII characters are dropped entirely: this key serves separator- and
/// punctuation-insensitive Latin matching, not ideograph comparison.  Callers
/// that want case insensitivity lowercase first.
pub fn normalize(input: &str) -> (r: String)
    ensures
        r@ == normalize_spec(input@),
{
    let chars: Vec<char> = to_char_vec(input);
    let n: usize = chars.len();
    let mut kept: Vec<char> = Vec::new();
    let mut i: usize = 0;
    while i < n
        invariant
            i <= n,
            n == input@.len(),
            chars@ == input@,
            kept@ == normalize_spec(input@.take(i as int)),
        decreases n - i,
    {
        let c = chars[i];
        proof {
            assert(input@.take(i + 1).drop_last() =~= input@.take(i as int));
            assert(input@.take(i as int).push(input@[i as int]) =~= input@.take(i + 1));
            lemma_normalize_push(input@.take(i as int), input@[i as int]);
        }
        if ascii_alnum_char(c) {
            kept.push(c);
        }
        i += 1;
    }
    proof {
        assert(input@.take(n as int) =~= input@);
    }
    chars_to_string(&kept)
}

} // verus!
