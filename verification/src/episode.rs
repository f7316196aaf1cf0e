//! Episode markers in TV release names: `S01E02`, a second episode
//! (`-E03`, `(1) and (2)`), a trailing bare number, `Season N` folders and
//! tokens, resolution tokens and trailing brackets.

use vstd::prelude::*;
use crate::pattern::{
    boundary, boundary_exec, digit_ranges, digit_table, fold_eq, fold_eq_exec, in_ranges, in_ranges_exec,
};
use crate::scan::{
    leftmost, lemma_leftmost_found, lemma_leftmost_none, lemma_skip_digits_props,
    lemma_skip_ws_props, skip_digits, skip_digits_exec, skip_ws, skip_ws_exec,
};
use crate::text::{all_digits, digits_value, is_digit, is_ws, is_ws_char, small_digits_value};

verus! {

/// Length of the run of ASCII digits starting at `i`.
pub open spec fn digit_run(s: Seq<char>, i: int) -> int {
    skip_digits(s, i) - i
}

pub open spec fn is_e(c: char) -> bool {
    c == 'E' || c == 'e'
}

pub open spec fn is_s(c: char) -> bool {
    c == 'S' || c == 's'
}

// ---------------------------------------------------------------------------
// S01E02
// ---------------------------------------------------------------------------

/// `[Ss]` + one or two digits + `[Ee]` + one or two digits at `i`, the
/// second number as long as it can be. Gives the two digit counts.
pub open spec fn se_at(s: Seq<char>, i: int) -> Option<(int, int)> {
    let r1 = digit_run(s, i + 1);
    let j = i + 2 + r1;
    let r2 = digit_run(s, j);
    if 0 <= i && i + 1 <= s.len() && is_s(s[i]) && 1 <= r1 <= 2 && i + 1 + r1 < s.len() && is_e(
        s[i + 1 + r1],
    ) && r2 >= 1 {
        Some((r1, if r2 >= 2 {
            2
        } else {
            1
        }))
    } else {
        None
    }
}

pub open spec fn se_find(s: Seq<char>) -> Option<int> {
    leftmost(|i: int| se_at(s, i) is Some, 0, s.len() as int)
}

proof fn lemma_digit_run(s: Seq<char>, i: int)
    requires
        0 <= i <= s.len(),
    ensures
        0 <= digit_run(s, i) <= s.len() - i,
        all_digits(s.subrange(i, i + digit_run(s, i))),
        forall|k: int| i <= k < i + digit_run(s, i) ==> is_digit(#[trigger] s[k]),
        i + digit_run(s, i) < s.len() ==> !is_digit(s[i + digit_run(s, i)]),
{
    lemma_skip_digits_props(s, i);
    assert forall|k: int| 0 <= k < digit_run(s, i) implies is_digit(
        #[trigger] s.subrange(i, i + digit_run(s, i))[k],
    ) by {
        assert(s.subrange(i, i + digit_run(s, i))[k] == s[i + k]);
    }
}

fn se_at_exec(s: &Vec<char>, i: usize) -> (r: Option<(usize, usize)>)
    requires
        i <= s.len(),
    ensures
        match r {
            Some((a, b)) => se_at(s@, i as int) == Some((a as int, b as int)),
            None => se_at(s@, i as int) is None,
        },
{
    if i >= s.len() || !(s[i] == 'S' || s[i] == 's') {
        return None;
    }
    let e1 = skip_digits_exec(s, i + 1);
    let r1 = e1 - (i + 1);
    if r1 < 1 || r1 > 2 || e1 >= s.len() || !(s[e1] == 'E' || s[e1] == 'e') {
        return None;
    }
    let j = e1 + 1;
    let e2 = skip_digits_exec(s, j);
    let r2 = e2 - j;
    if r2 < 1 {
        return None;
    }
    Some((r1, if r2 >= 2 {
        2
    } else {
        1
    }))
}

/// Leftmost `S01E02` marker: its start and the two digit counts.
pub fn se_find_exec(s: &Vec<char>) -> (r: Option<(usize, usize, usize)>)
    ensures
        match r {
            Some((i, a, b)) => se_find(s@) == Some(i as int) && se_at(s@, i as int) == Some(
                (a as int, b as int),
            ),
            None => se_find(s@) is None,
        },
{
    let ghost p = |i: int| se_at(s@, i) is Some;
    let mut i: usize = 0;
    while i <= s.len()
        invariant
            i <= s.len(),
            p == (|i: int| se_at(s@, i) is Some),
            forall|m: int| 0 <= m < i ==> !#[trigger] p(m),
        decreases s.len() - i,
    {
        match se_at_exec(s, i) {
            Some((a, b)) => {
                proof {
                    lemma_leftmost_found(p, 0, i as int, s.len() as int);
                }
                return Some((i, a, b));
            },
            None => {},
        }
        if i == s.len() {
            proof {
                lemma_leftmost_none(p, 0, s.len() as int);
            }
            return None;
        }
        i = i + 1;
    }
    None
}

// ---------------------------------------------------------------------------
// Second episode: `-E03`, `.e03`, `E03`
// ---------------------------------------------------------------------------

pub open spec fn is_sep_ws(c: char) -> bool {
    is_ws(c) || c == '.' || c == '_' || c == '-'
}

pub open spec fn skip_sep_ws(s: Seq<char>, i: int) -> int
    decreases s.len() - i,
{
    if 0 <= i < s.len() && is_sep_ws(s[i]) {
        skip_sep_ws(s, i + 1)
    } else {
        i
    }
}

/// At `i`: a run of separators/whitespace, `[eE]`, and a one- or two-digit
/// number ending a word. Gives the position of the number and its length.
pub open spec fn multi_ep_at(s: Seq<char>, i: int) -> Option<(int, int)> {
    let p = skip_sep_ws(s, i);
    let r = digit_run(s, p + 1);
    if 0 <= i <= s.len() && p < s.len() && is_e(s[p]) && 1 <= r <= 2 && boundary(s, p + 1 + r) {
        Some((p + 1, r))
    } else {
        None
    }
}

pub open spec fn multi_ep_find(s: Seq<char>) -> Option<int> {
    leftmost(|i: int| multi_ep_at(s, i) is Some, 0, s.len() as int)
}

fn skip_sep_ws_exec(s: &Vec<char>, i: usize) -> (r: usize)
    requires
        i <= s.len(),
    ensures
        r == skip_sep_ws(s@, i as int),
        i <= r <= s.len(),
{
    let mut j = i;
    while j < s.len() && (is_ws_char(s[j]) || s[j] == '.' || s[j] == '_' || s[j] == '-')
        invariant
            i <= j <= s.len(),
            skip_sep_ws(s@, i as int) == skip_sep_ws(s@, j as int),
        decreases s.len() - j,
    {
        j = j + 1;
    }
    j
}

fn multi_ep_at_exec(s: &Vec<char>, i: usize) -> (r: Option<(usize, usize)>)
    requires
        i <= s.len(),
    ensures
        match r {
            Some((a, b)) => multi_ep_at(s@, i as int) == Some((a as int, b as int)),
            None => multi_ep_at(s@, i as int) is None,
        },
{
    let p = skip_sep_ws_exec(s, i);
    if p >= s.len() || !(s[p] == 'E' || s[p] == 'e') {
        return None;
    }
    let e = skip_digits_exec(s, p + 1);
    let r = e - (p + 1);
    if r < 1 || r > 2 || !boundary_exec(s, e) {
        return None;
    }
    Some((p + 1, r))
}

/// Leftmost second-episode marker: its start, and its number's position and length.
pub fn multi_ep_find_exec(s: &Vec<char>) -> (r: Option<(usize, usize, usize)>)
    ensures
        match r {
            Some((i, a, b)) => multi_ep_find(s@) == Some(i as int) && multi_ep_at(s@, i as int)
                == Some((a as int, b as int)),
            None => multi_ep_find(s@) is None,
        },
{
    let ghost p = |i: int| multi_ep_at(s@, i) is Some;
    let mut i: usize = 0;
    while i <= s.len()
        invariant
            i <= s.len(),
            p == (|i: int| multi_ep_at(s@, i) is Some),
            forall|m: int| 0 <= m < i ==> !#[trigger] p(m),
        decreases s.len() - i,
    {
        match multi_ep_at_exec(s, i) {
            Some((a, b)) => {
                proof {
                    lemma_leftmost_found(p, 0, i as int, s.len() as int);
                }
                return Some((i, a, b));
            },
            None => {},
        }
        if i == s.len() {
            proof {
                lemma_leftmost_none(p, 0, s.len() as int);
            }
            return None;
        }
        i = i + 1;
    }
    None
}

// ---------------------------------------------------------------------------
// `(1) and (2)`
// ---------------------------------------------------------------------------

pub open spec fn is_dot_ws(c: char) -> bool {
    is_ws(c) || c == '.' || c == '_'
}

pub open spec fn skip_dot_ws(s: Seq<char>, i: int) -> int
    decreases s.len() - i,
{
    if 0 <= i < s.len() && is_dot_ws(s[i]) {
        skip_dot_ws(s, i + 1)
    } else {
        i
    }
}

/// `(digits)` at `i`; gives the position after the `)`.
pub open spec fn paren_num_at(s: Seq<char>, i: int) -> Option<int> {
    let r = digit_run(s, i + 1);
    if 0 <= i && i < s.len() && s[i] == '(' && r >= 1 && i + 1 + r < s.len() && s[i + 1 + r]
        == ')' {
        Some(i + 2 + r)
    } else {
        None
    }
}

/// `(N)`, separators, `and`, separators, `(M)` at `i`.
pub open spec fn multi_paren_at(s: Seq<char>, i: int) -> bool {
    match paren_num_at(s, i) {
        Some(k) => {
            let a = skip_dot_ws(s, k);
            &&& a + 3 <= s.len()
            &&& s[a] == 'a' && s[a + 1] == 'n' && s[a + 2] == 'd'
            &&& paren_num_at(s, skip_dot_ws(s, a + 3)) is Some
        },
        None => false,
    }
}

pub open spec fn multi_paren_find(s: Seq<char>) -> Option<int> {
    leftmost(|i: int| multi_paren_at(s, i), 0, s.len() as int)
}

fn skip_dot_ws_exec(s: &Vec<char>, i: usize) -> (r: usize)
    requires
        i <= s.len(),
    ensures
        r == skip_dot_ws(s@, i as int),
        i <= r <= s.len(),
{
    let mut j = i;
    while j < s.len() && (is_ws_char(s[j]) || s[j] == '.' || s[j] == '_')
        invariant
            i <= j <= s.len(),
            skip_dot_ws(s@, i as int) == skip_dot_ws(s@, j as int),
        decreases s.len() - j,
    {
        j = j + 1;
    }
    j
}

fn paren_num_at_exec(s: &Vec<char>, i: usize) -> (r: Option<usize>)
    requires
        i <= s.len(),
    ensures
        match r {
            Some(k) => paren_num_at(s@, i as int) == Some(k as int) && k <= s.len(),
            None => paren_num_at(s@, i as int) is None,
        },
{
    if i >= s.len() || s[i] != '(' {
        return None;
    }
    let e = skip_digits_exec(s, i + 1);
    if e == i + 1 || e >= s.len() || s[e] != ')' {
        return None;
    }
    Some(e + 1)
}

fn multi_paren_at_exec(s: &Vec<char>, i: usize) -> (r: bool)
    requires
        i <= s.len(),
    ensures
        r == multi_paren_at(s@, i as int),
{
    match paren_num_at_exec(s, i) {
        Some(k) => {
            let a = skip_dot_ws_exec(s, k);
            if s.len() < 3 || a > s.len() - 3 {
                return false;
            }
            if !(s[a] == 'a' && s[a + 1] == 'n' && s[a + 2] == 'd') {
                return false;
            }
            let b = skip_dot_ws_exec(s, a + 3);
            paren_num_at_exec(s, b).is_some()
        },
        None => false,
    }
}

pub fn multi_paren_find_exec(s: &Vec<char>) -> (r: Option<usize>)
    ensures
        match r {
            Some(i) => multi_paren_find(s@) == Some(i as int),
            None => multi_paren_find(s@) is None,
        },
{
    let ghost p = |i: int| multi_paren_at(s@, i);
    let mut i: usize = 0;
    while i <= s.len()
        invariant
            i <= s.len(),
            p == (|i: int| multi_paren_at(s@, i)),
            forall|m: int| 0 <= m < i ==> !#[trigger] p(m),
        decreases s.len() - i,
    {
        if multi_paren_at_exec(s, i) {
            proof {
                lemma_leftmost_found(p, 0, i as int, s.len() as int);
            }
            return Some(i);
        }
        if i == s.len() {
            proof {
                lemma_leftmost_none(p, 0, s.len() as int);
            }
            return None;
        }
        i = i + 1;
    }
    None
}

// ---------------------------------------------------------------------------
// A trailing bare number: `Show 12`
// ---------------------------------------------------------------------------

/// A one- or two-digit number at `d` followed only by whitespace.
pub open spec fn bare_digits_at(s: Seq<char>, d: int) -> bool {
    let r = digit_run(s, d);
    0 <= d <= s.len() && 1 <= r <= 2 && skip_ws(s, d + r) == s.len()
}

/// At `i`: either the start of the text and the number there, or one
/// separator/whitespace character and the number after it. Gives the
/// number's position.
pub open spec fn bare_at(s: Seq<char>, i: int) -> Option<int> {
    if i == 0 && bare_digits_at(s, 0) {
        Some(0)
    } else if 0 <= i < s.len() && is_sep_ws(s[i]) && bare_digits_at(s, i + 1) {
        Some(i + 1)
    } else {
        None
    }
}

pub open spec fn bare_find(s: Seq<char>) -> Option<int> {
    leftmost(|i: int| bare_at(s, i) is Some, 0, s.len() as int)
}

fn bare_digits_at_exec(s: &Vec<char>, d: usize) -> (r: bool)
    requires
        d <= s.len(),
    ensures
        r == bare_digits_at(s@, d as int),
{
    let e = skip_digits_exec(s, d);
    let r = e - d;
    1 <= r && r <= 2 && skip_ws_exec(s, e) == s.len()
}

fn bare_at_exec(s: &Vec<char>, i: usize) -> (r: Option<usize>)
    requires
        i <= s.len(),
    ensures
        match r {
            Some(d) => bare_at(s@, i as int) == Some(d as int),
            None => bare_at(s@, i as int) is None,
        },
{
    if i == 0 && bare_digits_at_exec(s, 0) {
        Some(0)
    } else if i < s.len() && (is_ws_char(s[i]) || s[i] == '.' || s[i] == '_' || s[i] == '-')
        && bare_digits_at_exec(s, i + 1) {
        Some(i + 1)
    } else {
        None
    }
}

/// Leftmost trailing bare number: the match start and the number's position.
pub fn bare_find_exec(s: &Vec<char>) -> (r: Option<(usize, usize)>)
    ensures
        match r {
            Some((i, d)) => bare_find(s@) == Some(i as int) && bare_at(s@, i as int) == Some(
                d as int,
            ),
            None => bare_find(s@) is None,
        },
{
    let ghost p = |i: int| bare_at(s@, i) is Some;
    let mut i: usize = 0;
    while i <= s.len()
        invariant
            i <= s.len(),
            p == (|i: int| bare_at(s@, i) is Some),
            forall|m: int| 0 <= m < i ==> !#[trigger] p(m),
        decreases s.len() - i,
    {
        match bare_at_exec(s, i) {
            Some(d) => {
                proof {
                    lemma_leftmost_found(p, 0, i as int, s.len() as int);
                }
                return Some((i, d));
            },
            None => {},
        }
        if i == s.len() {
            proof {
                lemma_leftmost_none(p, 0, s.len() as int);
            }
            return None;
        }
        i = i + 1;
    }
    None
}

/// Value of the trailing bare number at `d`.
pub open spec fn bare_value(s: Seq<char>, d: int) -> nat {
    digits_value(s.subrange(d, d + digit_run(s, d)))
}

pub fn bare_value_exec(s: &Vec<char>, d: usize) -> (r: u32)
    requires
        bare_digits_at(s@, d as int),
    ensures
        r == bare_value(s@, d as int),
{
    proof {
        lemma_digit_run(s@, d as int);
    }
    let e = skip_digits_exec(s, d);
    small_digits_value(s, d, e)
}

// ---------------------------------------------------------------------------
// `Season 2` in a folder name
// ---------------------------------------------------------------------------

/// `[Ss]eason`, optional whitespace and a number at `i`; gives the number's
/// position and length (at most two digits).
pub open spec fn season_dir_at(s: Seq<char>, i: int) -> Option<(int, int)> {
    let k = skip_ws(s, i + 6);
    let r = digit_run(s, k);
    if 0 <= i && i + 6 <= s.len() && is_s(s[i]) && s[i + 1] == 'e' && s[i + 2] == 'a' && s[i + 3]
        == 's' && s[i + 4] == 'o' && s[i + 5] == 'n' && r >= 1 {
        Some((k, if r >= 2 {
            2
        } else {
            1
        }))
    } else {
        None
    }
}

pub open spec fn season_dir_find(s: Seq<char>) -> Option<int> {
    leftmost(|i: int| season_dir_at(s, i) is Some, 0, s.len() as int)
}

fn season_dir_at_exec(s: &Vec<char>, i: usize) -> (r: Option<(usize, usize)>)
    requires
        i <= s.len(),
    ensures
        match r {
            Some((a, b)) => season_dir_at(s@, i as int) == Some((a as int, b as int)),
            None => season_dir_at(s@, i as int) is None,
        },
{
    if s.len() < 6 || i > s.len() - 6 {
        return None;
    }
    if !((s[i] == 'S' || s[i] == 's') && s[i + 1] == 'e' && s[i + 2] == 'a' && s[i + 3] == 's'
        && s[i + 4] == 'o' && s[i + 5] == 'n') {
        return None;
    }
    let k = skip_ws_exec(s, i + 6);
    let e = skip_digits_exec(s, k);
    let r = e - k;
    if r < 1 {
        return None;
    }
    Some((k, if r >= 2 {
        2
    } else {
        1
    }))
}

pub fn season_dir_find_exec(s: &Vec<char>) -> (r: Option<(usize, usize, usize)>)
    ensures
        match r {
            Some((i, a, b)) => season_dir_find(s@) == Some(i as int) && season_dir_at(s@, i as int)
                == Some((a as int, b as int)),
            None => season_dir_find(s@) is None,
        },
{
    let ghost p = |i: int| season_dir_at(s@, i) is Some;
    let mut i: usize = 0;
    while i <= s.len()
        invariant
            i <= s.len(),
            p == (|i: int| season_dir_at(s@, i) is Some),
            forall|m: int| 0 <= m < i ==> !#[trigger] p(m),
        decreases s.len() - i,
    {
        match season_dir_at_exec(s, i) {
            Some((a, b)) => {
                proof {
                    lemma_leftmost_found(p, 0, i as int, s.len() as int);
                }
                return Some((i, a, b));
            },
            None => {},
        }
        if i == s.len() {
            proof {
                lemma_leftmost_none(p, 0, s.len() as int);
            }
            return None;
        }
        i = i + 1;
    }
    None
}

// ---------------------------------------------------------------------------
// `S01` / `S01E02` as a whole word
// ---------------------------------------------------------------------------

/// A whole-word `[Ss]` + one or two digits, optionally followed by `[Ee]` +
/// one or two digits, at `i`.
pub open spec fn season_token_at(s: Seq<char>, i: int) -> bool {
    let r1 = digit_run(s, i + 1);
    let q = i + 1 + r1;
    let r2 = digit_run(s, q + 1);
    &&& 0 <= i < s.len()
    &&& boundary(s, i)
    &&& is_s(s[i])
    &&& 1 <= r1 <= 2
    &&& (boundary(s, q) || (q < s.len() && is_e(s[q]) && 1 <= r2 <= 2 && boundary(s, q + 1 + r2)))
}

pub open spec fn season_token_find(s: Seq<char>) -> Option<int> {
    leftmost(|i: int| season_token_at(s, i), 0, s.len() as int)
}

fn season_token_at_exec(s: &Vec<char>, i: usize) -> (r: bool)
    requires
        i <= s.len(),
    ensures
        r == season_token_at(s@, i as int),
{
    if i >= s.len() || !boundary_exec(s, i) || !(s[i] == 'S' || s[i] == 's') {
        return false;
    }
    let q = skip_digits_exec(s, i + 1);
    let r1 = q - (i + 1);
    if r1 < 1 || r1 > 2 {
        return false;
    }
    if boundary_exec(s, q) {
        return true;
    }
    if q < s.len() && (s[q] == 'E' || s[q] == 'e') {
        let e = skip_digits_exec(s, q + 1);
        let r2 = e - (q + 1);
        1 <= r2 && r2 <= 2 && boundary_exec(s, e)
    } else {
        false
    }
}

pub fn season_token_find_exec(s: &Vec<char>) -> (r: Option<usize>)
    ensures
        match r {
            Some(i) => season_token_find(s@) == Some(i as int),
            None => season_token_find(s@) is None,
        },
{
    let ghost p = |i: int| season_token_at(s@, i);
    let mut i: usize = 0;
    while i <= s.len()
        invariant
            i <= s.len(),
            p == (|i: int| season_token_at(s@, i)),
            forall|m: int| 0 <= m < i ==> !#[trigger] p(m),
        decreases s.len() - i,
    {
        if season_token_at_exec(s, i) {
            proof {
                lemma_leftmost_found(p, 0, i as int, s.len() as int);
            }
            return Some(i);
        }
        if i == s.len() {
            proof {
                lemma_leftmost_none(p, 0, s.len() as int);
            }
            return None;
        }
        i = i + 1;
    }
    None
}

// ---------------------------------------------------------------------------
// A trailing `Season N ...`
// ---------------------------------------------------------------------------

/// No line feed among the characters.
pub open spec fn no_newline(s: Seq<char>) -> bool {
    forall|k: int| 0 <= k < s.len() ==> s[k] != '\n'
}

/// At `i`: a whole word `season` (any case), optional whitespace, a one- or
/// two-digit number ending a word, and then no line feed up to the end.
pub open spec fn season_trail_at(s: Seq<char>, i: int) -> bool {
    let k = skip_ws(s, i + 6);
    let r = digit_run(s, k);
    &&& 0 <= i
    &&& i + 6 <= s.len()
    &&& boundary(s, i)
    &&& fold_eq('s', s[i]) && fold_eq('e', s[i + 1]) && fold_eq('a', s[i + 2]) && fold_eq(
        's',
        s[i + 3],
    ) && fold_eq('o', s[i + 4]) && fold_eq('n', s[i + 5])
    &&& 1 <= r <= 2
    &&& boundary(s, k + r)
    &&& no_newline(s.subrange(k + r, s.len() as int))
}

/// The text cut before its trailing `Season N ...`, if it has one.
pub open spec fn strip_season_trail(s: Seq<char>) -> Seq<char> {
    match leftmost(|i: int| season_trail_at(s, i), 0, s.len() as int) {
        Some(i) => s.subrange(0, i),
        None => s,
    }
}

fn no_newline_exec(s: &Vec<char>, a: usize) -> (r: bool)
    requires
        a <= s.len(),
    ensures
        r == no_newline(s@.subrange(a as int, s.len() as int)),
{
    let mut k = a;
    while k < s.len()
        invariant
            a <= k <= s.len(),
            forall|m: int| a <= m < k ==> s@[m] != '\n',
        decreases s.len() - k,
    {
        if s[k] == '\n' {
            assert(s@.subrange(a as int, s.len() as int)[k - a] == '\n');
            return false;
        }
        k = k + 1;
    }
    assert forall|m: int| 0 <= m < s.len() - a implies #[trigger] s@.subrange(
        a as int,
        s.len() as int,
    )[m] != '\n' by {
        assert(s@.subrange(a as int, s.len() as int)[m] == s@[a + m]);
    }
    true
}

fn season_trail_at_exec(s: &Vec<char>, i: usize) -> (r: bool)
    requires
        i <= s.len(),
    ensures
        r == season_trail_at(s@, i as int),
{
    if s.len() < 6 || i > s.len() - 6 {
        return false;
    }
    if !boundary_exec(s, i) {
        return false;
    }
    if !(fold_eq_exec('s', s[i]) && fold_eq_exec('e', s[i + 1]) && fold_eq_exec('a', s[i + 2])
        && fold_eq_exec('s', s[i + 3]) && fold_eq_exec('o', s[i + 4]) && fold_eq_exec('n', s[i + 5])) {
        return false;
    }
    let k = skip_ws_exec(s, i + 6);
    let e = skip_digits_exec(s, k);
    let r = e - k;
    1 <= r && r <= 2 && boundary_exec(s, e) && no_newline_exec(s, e)
}

pub fn strip_season_trail_vec(s: &Vec<char>) -> (r: Vec<char>)
    ensures
        r@ == strip_season_trail(s@),
{
    let ghost p = |i: int| season_trail_at(s@, i);
    let mut i: usize = 0;
    while i <= s.len()
        invariant
            i <= s.len(),
            p == (|i: int| season_trail_at(s@, i)),
            forall|m: int| 0 <= m < i ==> !#[trigger] p(m),
        decreases s.len() - i,
    {
        if season_trail_at_exec(s, i) {
            proof {
                lemma_leftmost_found(p, 0, i as int, s.len() as int);
            }
            return crate::text::slice_vec(s, 0, i);
        }
        if i == s.len() {
            proof {
                lemma_leftmost_none(p, 0, s.len() as int);
            }
            let r = crate::text::slice_vec(s, 0, s.len());
            assert(r@ =~= s@);
            return r;
        }
        i = i + 1;
    }
    Vec::new()
}

// ---------------------------------------------------------------------------
// Resolution tokens and trailing brackets
// ---------------------------------------------------------------------------

/// A whole token `\d{3,4}p` (any case), its digits Unicode decimal digits.
pub open spec fn is_res_token(t: Seq<char>) -> bool {
    &&& (t.len() == 4 || t.len() == 5)
    &&& forall|k: int| 0 <= k < t.len() - 1 ==> in_ranges(digit_ranges(), #[trigger] t[k])
    &&& fold_eq('p', t.last())
}

pub fn is_res_token_exec(t: &Vec<char>) -> (r: bool)
    ensures
        r == is_res_token(t@),
{
    let n = t.len();
    if n != 4 && n != 5 {
        return false;
    }
    let digits = digit_table();
    let mut k: usize = 0;
    while k < n - 1
        invariant
            n == t.len(),
            n == 4 || n == 5,
            k <= n - 1,
            digits@ == digit_ranges(),
            forall|m: int| 0 <= m < k ==> in_ranges(digit_ranges(), #[trigger] t@[m]),
        decreases n - 1 - k,
    {
        if !in_ranges_exec(&digits, t[k]) {
            return false;
        }
        k = k + 1;
    }
    fold_eq_exec('p', t[n - 1])
}

/// No `]` among the characters.
pub open spec fn no_close_bracket(s: Seq<char>) -> bool {
    forall|k: int| 0 <= k < s.len() ==> s[k] != ']'
}

/// At `i`: optional whitespace, `[`, and no `]` up to the end.
pub open spec fn bracket_tail_at(s: Seq<char>, i: int) -> bool {
    let j = skip_ws(s, i);
    0 <= i <= s.len() && j < s.len() && s[j] == '[' && no_close_bracket(
        s.subrange(j + 1, s.len() as int),
    )
}

/// The text cut before an unclosed trailing `[...`.
pub open spec fn strip_bracket_tail(s: Seq<char>) -> Seq<char> {
    match leftmost(|i: int| bracket_tail_at(s, i), 0, s.len() as int) {
        Some(i) => s.subrange(0, i),
        None => s,
    }
}

fn no_close_bracket_exec(s: &Vec<char>, a: usize) -> (r: bool)
    requires
        a <= s.len(),
    ensures
        r == no_close_bracket(s@.subrange(a as int, s.len() as int)),
{
    let mut k = a;
    while k < s.len()
        invariant
            a <= k <= s.len(),
            forall|m: int| a <= m < k ==> s@[m] != ']',
        decreases s.len() - k,
    {
        if s[k] == ']' {
            assert(s@.subrange(a as int, s.len() as int)[k - a] == ']');
            return false;
        }
        k = k + 1;
    }
    assert forall|m: int| 0 <= m < s.len() - a implies #[trigger] s@.subrange(
        a as int,
        s.len() as int,
    )[m] != ']' by {
        assert(s@.subrange(a as int, s.len() as int)[m] == s@[a + m]);
    }
    true
}

pub fn strip_bracket_tail_vec(s: &Vec<char>) -> (r: Vec<char>)
    ensures
        r@ == strip_bracket_tail(s@),
{
    let ghost p = |i: int| bracket_tail_at(s@, i);
    let mut i: usize = 0;
    while i <= s.len()
        invariant
            i <= s.len(),
            p == (|i: int| bracket_tail_at(s@, i)),
            forall|m: int| 0 <= m < i ==> !#[trigger] p(m),
        decreases s.len() - i,
    {
        let j = skip_ws_exec(s, i);
        if j < s.len() && s[j] == '[' && no_close_bracket_exec(s, j + 1) {
            proof {
                lemma_leftmost_found(p, 0, i as int, s.len() as int);
            }
            return crate::text::slice_vec(s, 0, i);
        }
        if i == s.len() {
            proof {
                lemma_leftmost_none(p, 0, s.len() as int);
            }
            let r = crate::text::slice_vec(s, 0, s.len());
            assert(r@ =~= s@);
            return r;
        }
        i = i + 1;
    }
    Vec::new()
}

} // verus!
