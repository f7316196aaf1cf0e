//! Small scanning helpers: skipping runs of a character class and finding
//! the leftmost position that satisfies a condition.

use vstd::prelude::*;
use crate::text::{is_digit, is_ws, is_ws_char};

verus! {

/// The leftmost position in `[from, to]` where `p` holds.
pub open spec fn leftmost(p: spec_fn(int) -> bool, from: int, to: int) -> Option<int>
    decreases to + 1 - from,
{
    if from > to {
        None
    } else if p(from) {
        Some(from)
    } else {
        leftmost(p, from + 1, to)
    }
}

pub proof fn lemma_leftmost_skip(p: spec_fn(int) -> bool, from: int, j: int, to: int)
    requires
        from <= j <= to + 1,
        forall|m: int| from <= m < j ==> !#[trigger] p(m),
    ensures
        leftmost(p, from, to) == leftmost(p, j, to),
    decreases j - from,
{
    if from < j {
        lemma_leftmost_skip(p, from + 1, j, to);
    }
}

pub proof fn lemma_leftmost_found(p: spec_fn(int) -> bool, from: int, j: int, to: int)
    requires
        from <= j <= to,
        forall|m: int| from <= m < j ==> !#[trigger] p(m),
        p(j),
    ensures
        leftmost(p, from, to) == Some(j),
{
    lemma_leftmost_skip(p, from, j, to);
}

pub proof fn lemma_leftmost_none(p: spec_fn(int) -> bool, from: int, to: int)
    requires
        from <= to + 1,
        forall|m: int| from <= m <= to ==> !#[trigger] p(m),
    ensures
        leftmost(p, from, to) is None,
{
    lemma_leftmost_skip(p, from, to + 1, to);
}

pub proof fn lemma_leftmost_props(p: spec_fn(int) -> bool, from: int, to: int)
    ensures
        leftmost(p, from, to) matches Some(j) ==> from <= j <= to && p(j) && forall|m: int|
            from <= m < j ==> !#[trigger] p(m),
        leftmost(p, from, to) is None ==> forall|m: int| from <= m <= to ==> !#[trigger] p(m),
    decreases to + 1 - from,
{
    if from <= to && !p(from) {
        lemma_leftmost_props(p, from + 1, to);
    }
}

/// First index at or after `i` that is not whitespace (or the length).
pub open spec fn skip_ws(s: Seq<char>, i: int) -> int
    decreases s.len() - i,
{
    if 0 <= i < s.len() && is_ws(s[i]) {
        skip_ws(s, i + 1)
    } else {
        i
    }
}

/// First index at or after `i` that is not a `0` (or the length).
pub open spec fn skip_zeros(s: Seq<char>, i: int) -> int
    decreases s.len() - i,
{
    if 0 <= i < s.len() && s[i] == '0' {
        skip_zeros(s, i + 1)
    } else {
        i
    }
}

/// First index at or after `i` that is not an ASCII digit (or the length).
pub open spec fn skip_digits(s: Seq<char>, i: int) -> int
    decreases s.len() - i,
{
    if 0 <= i < s.len() && is_digit(s[i]) {
        skip_digits(s, i + 1)
    } else {
        i
    }
}

pub proof fn lemma_skip_ws_props(s: Seq<char>, i: int)
    requires
        0 <= i <= s.len(),
    ensures
        i <= skip_ws(s, i) <= s.len(),
        forall|k: int| i <= k < skip_ws(s, i) ==> is_ws(#[trigger] s[k]),
        skip_ws(s, i) < s.len() ==> !is_ws(s[skip_ws(s, i)]),
    decreases s.len() - i,
{
    if i < s.len() && is_ws(s[i]) {
        lemma_skip_ws_props(s, i + 1);
    }
}

pub proof fn lemma_skip_digits_props(s: Seq<char>, i: int)
    requires
        0 <= i <= s.len(),
    ensures
        i <= skip_digits(s, i) <= s.len(),
        forall|k: int| i <= k < skip_digits(s, i) ==> is_digit(#[trigger] s[k]),
        skip_digits(s, i) < s.len() ==> !is_digit(s[skip_digits(s, i)]),
    decreases s.len() - i,
{
    if i < s.len() && is_digit(s[i]) {
        lemma_skip_digits_props(s, i + 1);
    }
}

pub fn skip_ws_exec(s: &Vec<char>, i: usize) -> (r: usize)
    requires
        i <= s.len(),
    ensures
        r == skip_ws(s@, i as int),
        i <= r <= s.len(),
{
    let mut j = i;
    while j < s.len() && is_ws_char(s[j])
        invariant
            i <= j <= s.len(),
            skip_ws(s@, i as int) == skip_ws(s@, j as int),
        decreases s.len() - j,
    {
        j = j + 1;
    }
    j
}

pub fn skip_zeros_exec(s: &Vec<char>, i: usize) -> (r: usize)
    requires
        i <= s.len(),
    ensures
        r == skip_zeros(s@, i as int),
        i <= r <= s.len(),
{
    let mut j = i;
    while j < s.len() && s[j] == '0'
        invariant
            i <= j <= s.len(),
            skip_zeros(s@, i as int) == skip_zeros(s@, j as int),
        decreases s.len() - j,
    {
        j = j + 1;
    }
    j
}

pub fn skip_digits_exec(s: &Vec<char>, i: usize) -> (r: usize)
    requires
        i <= s.len(),
    ensures
        r == skip_digits(s@, i as int),
        i <= r <= s.len(),
{
    let mut j = i;
    while j < s.len() && '0' <= s[j] && s[j] <= '9'
        invariant
            i <= j <= s.len(),
            skip_digits(s@, i as int) == skip_digits(s@, j as int),
        decreases s.len() - j,
    {
        j = j + 1;
    }
    j
}

} // verus!
