//! Executable scanning primitives over `&str`: leftmost-occurrence search,
//! take-until splitting, and delimited capture. Each returns slices of its
//! input; the contracts tie the slices to the models in [`crate::text`].

use vstd::prelude::*;
use vstd::string::StrSliceExecFns;
use crate::text::contains_at;
use crate::text::spec_find;
use crate::text::lemma_find_first_at;
use crate::text::lemma_find_none;

verus! {

/// The remainder from the leftmost occurrence of `pat` on, and the text
/// before it; `None` when `pat` does not occur in `s`.
pub open spec fn spec_take_until(s: Seq<char>, pat: Seq<char>) -> Option<(Seq<char>, Seq<char>)> {
    match spec_find(s, pat) {
        Some(i) => Some((s.subrange(i, s.len() as int), s.subrange(0, i))),
        None => None,
    }
}

/// The newline character as a one-character pattern.
pub open spec fn newline_seq() -> Seq<char> {
    seq!['\n']
}

/// Like [`spec_take_until`] on `sep`, falling back to a newline when
/// `sep` does not occur.
pub open spec fn spec_until_seperator(s: Seq<char>, sep: Seq<char>) -> Option<
    (Seq<char>, Seq<char>),
> {
    match spec_take_until(s, sep) {
        Some(p) => Some(p),
        None => spec_take_until(s, newline_seq()),
    }
}

/// Require `pre` at the front of `s`, then split the rest at the leftmost
/// occurrence of `term`: the remainder (beginning with `term`) and the
/// captured text between the two delimiters.
pub open spec fn spec_get_delimited(s: Seq<char>, pre: Seq<char>, term: Seq<char>) -> Option<
    (Seq<char>, Seq<char>),
> {
    if contains_at(s, pre, 0) {
        spec_take_until(s.subrange(pre.len() as int, s.len() as int), term)
    } else {
        None
    }
}

/// Whether `pat` occurs in `s` starting at position `i`.
pub(crate) fn matches_at(s: &str, i: usize, pat: &str) -> (r: bool)
    requires
        i + pat@.len() <= s@.len(),
        s@.len() <= usize::MAX,
    ensures
        r == contains_at(s@, pat@, i as int),
{
    let m = pat.unicode_len();
    let mut j: usize = 0;
    while j < m
        invariant
            j <= m,
            m == pat@.len(),
            i + m <= s@.len() <= usize::MAX,
            forall|t: int| 0 <= t < j ==> s@[i + t] == pat@[t],
        decreases m - j,
    {
        if s.get_char(i + j) != pat.get_char(j) {
            proof {
                let sub = s@.subrange(i as int, i + pat@.len());
                assert(sub[j as int] == s@[i + j]);
                assert(sub != pat@);
            }
            return false;
        }
        j = j + 1;
    }
    proof {
        assert(s@.subrange(i as int, i + pat@.len()) =~= pat@);
    }
    true
}

/// The position of the leftmost occurrence of `pat` in `s`, if any.
pub(crate) fn find_sub(s: &str, pat: &str) -> (r: Option<usize>)
    ensures
        match r {
            Some(i) => spec_find(s@, pat@) == Some(i as int) && i + pat@.len() <= s@.len(),
            None => spec_find(s@, pat@) is None,
        },
{
    let n = s.unicode_len();
    let m = pat.unicode_len();
    if m > n {
        proof {
            lemma_find_none(s@, pat@);
        }
        return None;
    }
    if m == 0 {
        proof {
            assert(s@.subrange(0, 0) =~= pat@);
            lemma_find_first_at(s@, pat@, 0);
        }
        return Some(0);
    }
    let mut i: usize = 0;
    while i <= n - m
        invariant
            1 <= m <= n,
            n == s@.len(),
            m == pat@.len(),
            i <= n - m + 1,
            forall|k: int| 0 <= k < i ==> !contains_at(s@, pat@, k),
        decreases n - m + 1 - i,
    {
        if matches_at(s, i, pat) {
            proof {
                lemma_find_first_at(s@, pat@, i as int);
            }
            return Some(i);
        }
        i = i + 1;
    }
    proof {
        assert forall|k: int| 0 <= k implies !contains_at(s@, pat@, k) by {
            if k >= i {
                assert(k + pat@.len() > s@.len());
            }
        }
        lemma_find_none(s@, pat@);
    }
    None
}

/// Split `input` at the leftmost occurrence of `delimiter`: the remainder
/// beginning with the delimiter, and the text before it.
pub fn until_delimiter<'a>(input: &'a str, delimiter: &str) -> (r: Option<(&'a str, &'a str)>)
    ensures
        r is None <==> spec_take_until(input@, delimiter@) is None,
        r matches Some(p) ==> spec_take_until(input@, delimiter@) == Some((p.0@, p.1@)),
{
    match find_sub(input, delimiter) {
        Some(i) => {
            let n = input.unicode_len();
            let taken = input.substring_char(0, i);
            let rest = input.substring_char(i, n);
            Some((rest, taken))
        },
        None => None,
    }
}

/// Split `input` at the leftmost occurrence of `seperator`, falling back
/// to a newline when the separator does not occur.
pub fn until_seperator<'a>(input: &'a str, seperator: &str) -> (r: Option<(&'a str, &'a str)>)
    ensures
        r is None <==> spec_until_seperator(input@, seperator@) is None,
        r matches Some(p) ==> spec_until_seperator(input@, seperator@) == Some((p.0@, p.1@)),
{
    match until_delimiter(input, seperator) {
        Some(p) => Some(p),
        None => {
            proof {
                reveal_strlit("\n");
                assert("\n"@ =~= newline_seq());
            }
            until_delimiter(input, "\n")
        },
    }
}

/// [`until_seperator`] with a single space as the separator.
pub fn until_space<'a>(input: &'a str) -> (r: Option<(&'a str, &'a str)>)
    ensures
        r is None <==> spec_until_seperator(input@, seq![' ']) is None,
        r matches Some(p) ==> spec_until_seperator(input@, seq![' ']) == Some((p.0@, p.1@)),
{
    proof {
        reveal_strlit(" ");
        assert(" "@ =~= seq![' ']);
    }
    until_seperator(input, " ")
}

/// Consume the whole input: an empty remainder and all of `input`.
pub fn until_end<'a>(input: &'a str) -> (r: (&'a str, &'a str))
    ensures
        r.0@ == Seq::<char>::empty(),
        r.1@ == input@,
{
    let n = input.unicode_len();
    let rest = input.substring_char(n, n);
    proof {
        assert(rest@ =~= Seq::<char>::empty());
    }
    (rest, input)
}

/// Require `preceded_by` at the front of `input`, then capture up to the
/// leftmost occurrence of `terminated_by`: the remainder beginning with
/// `terminated_by`, and the captured text.
pub fn get_delimited<'a>(input: &'a str, preceded_by: &str, terminated_by: &str) -> (r: Option<
    (&'a str, &'a str),
>)
    ensures
        r is None <==> spec_get_delimited(input@, preceded_by@, terminated_by@) is None,
        r matches Some(p) ==> spec_get_delimited(input@, preceded_by@, terminated_by@) == Some(
            (p.0@, p.1@),
        ),
{
    let n = input.unicode_len();
    let m = preceded_by.unicode_len();
    if m > n {
        return None;
    }
    if !matches_at(input, 0, preceded_by) {
        return None;
    }
    let rest = input.substring_char(m, n);
    until_delimiter(rest, terminated_by)
}

} // verus!
