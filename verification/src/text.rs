//! Mathematical model of the text operations the library is built on:
//! substring occurrence, leftmost-match search, splitting on a separator,
//! pattern removal, and decimal rendering of numbers.

use vstd::prelude::*;

verus! {

/// `pat` occurs in `s` starting at position `i`.
pub open spec fn contains_at(s: Seq<char>, pat: Seq<char>, i: int) -> bool {
    &&& 0 <= i
    &&& i + pat.len() <= s.len()
    &&& s.subrange(i, i + pat.len()) == pat
}

/// The position of the leftmost occurrence of `pat` in `s` at or after
/// position `i`, if any.
pub open spec fn find_at(s: Seq<char>, pat: Seq<char>, i: int) -> Option<int>
    decreases s.len() + 1 - i,
{
    if i < 0 || i + pat.len() > s.len() {
        None
    } else if s.subrange(i, i + pat.len()) == pat {
        Some(i)
    } else {
        find_at(s, pat, i + 1)
    }
}

/// The position of the leftmost occurrence of `pat` in `s`, if any.
pub open spec fn spec_find(s: Seq<char>, pat: Seq<char>) -> Option<int> {
    find_at(s, pat, 0)
}

/// `find_at` returns exactly the leftmost occurrence at or after `start`.
pub proof fn lemma_find_at_characterize(s: Seq<char>, pat: Seq<char>, start: int)
    requires
        0 <= start,
    ensures
        match find_at(s, pat, start) {
            Some(i) => {
                &&& start <= i
                &&& contains_at(s, pat, i)
                &&& forall|k: int| start <= k < i ==> !contains_at(s, pat, k)
            },
            None => forall|k: int| k >= start ==> !contains_at(s, pat, k),
        },
    decreases s.len() + 1 - start,
{
    if start + pat.len() > s.len() {
        assert forall|k: int| k >= start implies !contains_at(s, pat, k) by {
            assert(k + pat.len() > s.len());
        }
    } else if s.subrange(start, start + pat.len()) == pat {
    } else {
        lemma_find_at_characterize(s, pat, start + 1);
        assert(!contains_at(s, pat, start));
    }
}

/// If `pat` occurs at `i` and nowhere earlier, the search finds `i`.
pub proof fn lemma_find_first_at(s: Seq<char>, pat: Seq<char>, i: int)
    requires
        contains_at(s, pat, i),
        forall|k: int| 0 <= k < i ==> !contains_at(s, pat, k),
    ensures
        spec_find(s, pat) == Some(i),
{
    lemma_find_at_characterize(s, pat, 0);
    match spec_find(s, pat) {
        Some(j) => {
            if j < i {
                assert(!contains_at(s, pat, j));
            } else if i < j {
                assert(!contains_at(s, pat, i));
            }
        },
        None => {
            assert(!contains_at(s, pat, i));
        },
    }
}

/// If `pat` occurs nowhere in `s`, the search fails.
pub proof fn lemma_find_none(s: Seq<char>, pat: Seq<char>)
    requires
        forall|k: int| 0 <= k ==> !contains_at(s, pat, k),
    ensures
        spec_find(s, pat) is None,
{
    lemma_find_at_characterize(s, pat, 0);
}

/// A pattern at the very front of `s` is its leftmost occurrence.
pub proof fn lemma_find_prefix(s: Seq<char>, pat: Seq<char>)
    requires
        pat.len() <= s.len(),
        s.subrange(0, pat.len() as int) == pat,
    ensures
        spec_find(s, pat) == Some(0int),
{
    lemma_find_first_at(s, pat, 0);
}

/// A one-character pattern whose character first appears at `t` is found
/// exactly there.
pub proof fn lemma_find_char_at(s: Seq<char>, pat: Seq<char>, t: int)
    requires
        pat.len() == 1,
        0 <= t,
        t + 1 <= s.len(),
        s[t] == pat[0],
        forall|p: int| 0 <= p < t ==> s[p] != pat[0],
    ensures
        spec_find(s, pat) == Some(t),
{
    assert(s.subrange(t, t + 1) =~= pat);
    assert forall|p: int| 0 <= p < t implies !contains_at(s, pat, p) by {
        if contains_at(s, pat, p) {
            assert(s.subrange(p, p + 1)[0] == s[p]);
        }
    }
    lemma_find_first_at(s, pat, t);
}

/// When `pat` neither occurs in `v` nor straddles the boundary where it
/// follows `v`, its leftmost occurrence in `v + pat + rest` is right
/// after `v`.
pub proof fn lemma_find_after_value(v: Seq<char>, pat: Seq<char>, rest: Seq<char>)
    requires
        pat.len() > 0,
        forall|p: int| 0 <= p < v.len() ==> !contains_at(v + pat, pat, p),
    ensures
        spec_find(v + pat + rest, pat) == Some(v.len() as int),
{
    let s = v + pat + rest;
    assert(s.subrange(v.len() as int, v.len() + pat.len() as int) =~= pat);
    assert forall|p: int| 0 <= p < v.len() implies !contains_at(s, pat, p) by {
        if contains_at(s, pat, p) {
            assert(s.subrange(p, p + pat.len()) =~= (v + pat).subrange(p, p + pat.len()));
            assert(contains_at(v + pat, pat, p));
        }
    }
    lemma_find_first_at(s, pat, v.len() as int);
}

/// `s` split on `sep` into the segments between occurrences of `sep`,
/// leftmost occurrence first; a string without `sep` is one segment.
pub open spec fn split_on(s: Seq<char>, sep: Seq<char>) -> Seq<Seq<char>>
    decreases s.len(),
        when sep.len() > 0
        via split_on_decreases
{
    match spec_find(s, sep) {
        Some(i) => seq![s.subrange(0, i)] + split_on(
            s.subrange(i + sep.len(), s.len() as int),
            sep,
        ),
        None => seq![s],
    }
}

#[via_fn]
proof fn split_on_decreases(s: Seq<char>, sep: Seq<char>) {
    lemma_find_at_characterize(s, sep, 0);
}

/// Splitting never yields more segments than characters plus one.
pub proof fn lemma_split_on_len(s: Seq<char>, sep: Seq<char>)
    requires
        sep.len() > 0,
    ensures
        1 <= split_on(s, sep).len() <= s.len() + 1,
    decreases s.len(),
{
    lemma_find_at_characterize(s, sep, 0);
    match spec_find(s, sep) {
        Some(i) => {
            lemma_split_on_len(s.subrange(i + sep.len() as int, s.len() as int), sep);
        },
        None => {},
    }
}

/// `s` with every occurrence of `pat` removed, scanning left to right
/// without overlap (the semantics of replacing `pat` by nothing).
pub open spec fn remove_all(s: Seq<char>, pat: Seq<char>) -> Seq<char>
    decreases s.len(),
{
    if pat.len() == 0 || s.len() < pat.len() {
        s
    } else if s.subrange(0, pat.len() as int) == pat {
        remove_all(s.subrange(pat.len() as int, s.len() as int), pat)
    } else {
        seq![s[0]] + remove_all(s.subrange(1, s.len() as int), pat)
    }
}

/// The decimal digit character for `d`.
pub open spec fn decimal_digit(d: int) -> char
    recommends
        0 <= d < 10,
{
    if d == 0 {
        '0'
    } else if d == 1 {
        '1'
    } else if d == 2 {
        '2'
    } else if d == 3 {
        '3'
    } else if d == 4 {
        '4'
    } else if d == 5 {
        '5'
    } else if d == 6 {
        '6'
    } else if d == 7 {
        '7'
    } else if d == 8 {
        '8'
    } else {
        '9'
    }
}

/// The decimal rendering of `n` (without leading zeros, `0` for zero).
pub open spec fn spec_decimal(n: int) -> Seq<char>
    recommends
        n >= 0,
    decreases n,
{
    if n < 10 {
        seq![decimal_digit(n)]
    } else {
        spec_decimal(n / 10) + seq![decimal_digit(n % 10)]
    }
}

} // verus!
