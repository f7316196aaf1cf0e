//! Token patterns: ordered lists of fixed-length alternatives, optionally
//! case-insensitive and guarded by word boundaries or the end of the text.
//!
//! A pattern matches at position `i` with the first alternative (in list
//! order) that fits there and satisfies the guards; a search returns the
//! leftmost position with a match. This is the leftmost-first semantics of
//! a backtracking regex restricted to alternations of fixed-width pieces, so
//! optional pieces are written out as separate alternatives in the order a
//! greedy `?` tries them.

use vstd::prelude::*;
use crate::text::{
    append_vec, ascii_lower, ascii_lower_char, chars_of, is_ascii_alnum, is_digit, is_ws, is_ws_char,
    slice_vec,
};

verus! {

/// One position of an alternative.
#[derive(Clone, Copy, PartialEq, Eq, Structural)]
pub enum Atom {
    /// This character (compared up to case folding in a case-insensitive pattern).
    Ch(char),
    /// A Unicode decimal digit (`\d`: the `Decimal_Number` category).
    Digit,
    /// A Unicode whitespace character.
    Ws,
    /// One of ` `, `.`, `_`, `-`.
    Sep,
}

pub struct Pattern {
    pub alts: Vec<Vec<Atom>>,
    pub ci: bool,
    pub word_start: bool,
    pub word_end: bool,
    pub at_end: bool,
    /// The ranges of characters that `Atom::Digit` accepts.
    pub digits: Vec<(char, char)>,
}

pub struct PatternSpec {
    pub alts: Seq<Seq<Atom>>,
    pub ci: bool,
    pub word_start: bool,
    pub word_end: bool,
    pub at_end: bool,
    pub digits: Seq<(char, char)>,
}

impl View for Pattern {
    type V = PatternSpec;

    open spec fn view(&self) -> PatternSpec {
        PatternSpec {
            alts: self.alts@.map_values(|a: Vec<Atom>| a@),
            ci: self.ci,
            word_start: self.word_start,
            word_end: self.word_end,
            at_end: self.at_end,
            digits: self.digits@,
        }
    }
}

/// Every alternative of the pattern is non-empty.
pub open spec fn wf_pattern(p: PatternSpec) -> bool {
    forall|k: int| 0 <= k < p.alts.len() ==> #[trigger] p.alts[k].len() > 0
}

// ---------------------------------------------------------------------------
// Word characters and boundaries
// ---------------------------------------------------------------------------

/// Whether a character is a Unicode word character (`\w`): Alphabetic,
/// Mark, Decimal_Number, Connector_Punctuation or Join_Control.
pub uninterp spec fn word_char(c: char) -> bool;

pub open spec fn ascii_word(c: char) -> bool {
    is_ascii_alnum(c) || c == '_'
}

/// Calls `regex_syntax::is_word_character`, the table that a Unicode `\b`
/// consults. Stated beyond the name: an ASCII character is a word character
/// exactly when it is a letter, a digit or `_` (the crate's ASCII fast path
/// and the head of its table). The Unicode tables for other characters are
/// not restated.
#[verifier::external_body]
pub(crate) fn is_word_char(c: char) -> (r: bool)
    ensures
        r == word_char(c),
        (c as u32) < 128 ==> (r == ascii_word(c)),
{
    regex_syntax::is_word_character(c)
}

pub open spec fn word_at(s: Seq<char>, k: int) -> bool {
    0 <= k < s.len() && word_char(s[k])
}

/// A Unicode word boundary (`\b`) at position `j` of `s`.
pub open spec fn boundary(s: Seq<char>, j: int) -> bool {
    word_at(s, j - 1) != word_at(s, j)
}

pub fn word_at_exec(s: &Vec<char>, k: usize) -> (r: bool)
    ensures
        r == word_at(s@, k as int),
{
    if k < s.len() {
        is_word_char(s[k])
    } else {
        false
    }
}

pub fn boundary_exec(s: &Vec<char>, j: usize) -> (r: bool)
    requires
        j <= s.len(),
    ensures
        r == boundary(s@, j as int),
{
    let before = if j == 0 {
        false
    } else {
        word_at_exec(s, j - 1)
    };
    before != word_at_exec(s, j)
}

// ---------------------------------------------------------------------------
// Matching one position
// ---------------------------------------------------------------------------

/// Case-insensitive equality with the pattern character `l` under Unicode
/// simple case folding, for ASCII `l`: the other ASCII case, plus KELVIN SIGN
/// for `k` and LATIN SMALL LETTER LONG S for `s`.
pub open spec fn fold_eq(l: char, c: char) -> bool {
    ||| ((c as u32) < 128 && ascii_lower(c) == ascii_lower(l))
    ||| (ascii_lower(l) == 'k' && c == '\u{212a}')
    ||| (ascii_lower(l) == 's' && c == '\u{17f}')
}

pub fn fold_eq_exec(l: char, c: char) -> (r: bool)
    ensures
        r == fold_eq(l, c),
{
    let ll = ascii_lower_char(l);
    ((c as u32) < 128 && ascii_lower_char(c) == ll) || (ll == 'k' && c == '\u{212a}') || (ll == 's'
        && c == '\u{17f}')
}

pub open spec fn is_sep(c: char) -> bool {
    c == ' ' || c == '.' || c == '_' || c == '-'
}

/// `c` lies in one of the ranges `r`.
pub open spec fn in_ranges(r: Seq<(char, char)>, c: char) -> bool {
    exists|k: int| 0 <= k < r.len() && r[k].0 <= c && c <= #[trigger] r[k].1
}

pub fn in_ranges_exec(r: &Vec<(char, char)>, c: char) -> (b: bool)
    ensures
        b == in_ranges(r@, c),
{
    let mut k: usize = 0;
    while k < r.len()
        invariant
            k <= r.len(),
            forall|m: int| 0 <= m < k ==> !(r@[m].0 <= c && c <= #[trigger] r@[m].1),
        decreases r.len() - k,
    {
        let (lo, hi) = r[k];
        if lo <= c && c <= hi {
            return true;
        }
        k = k + 1;
    }
    false
}

/// What `regex_syntax::parse` gives for `pattern` when that is a Unicode
/// class: its ranges, each as its first and last character.
pub uninterp spec fn unicode_class_of(pattern: Seq<char>) -> Option<Seq<(char, char)>>;

/// Calls `regex_syntax::parse` on `pattern` and, when the result is a Unicode
/// class, returns its ranges. Stated beyond the name: `\d` parses to such a
/// class (the `Decimal_Number` category), and its ASCII members are exactly
/// `0`-`9`; the Unicode table for other characters is not restated.
#[verifier::external_body]
pub(crate) fn unicode_class(pattern: &str) -> (r: Option<Vec<(char, char)>>)
    ensures
        match r {
            Some(v) => unicode_class_of(pattern@) == Some(v@),
            None => unicode_class_of(pattern@) is None,
        },
        pattern@ == seq!['\\', 'd'] ==> r is Some && forall|c: char|
            (c as u32) < 128 ==> (in_ranges(r->0@, c) == is_digit(c)),
{
    match regex_syntax::parse(pattern) {
        Ok(hir) => match hir.into_kind() {
            regex_syntax::hir::HirKind::Class(regex_syntax::hir::Class::Unicode(cls)) => Some(
                cls.ranges().iter().map(|r| (r.start(), r.end())).collect(),
            ),
            _ => None,
        },
        Err(_) => None,
    }
}

/// The ranges of the Unicode decimal digits (`\d`).
pub open spec fn digit_ranges() -> Seq<(char, char)> {
    match unicode_class_of(seq!['\\', 'd']) {
        Some(v) => v,
        None => seq![],
    }
}

/// The table of `\d`, read from `regex_syntax`.
pub fn digit_table() -> (r: Vec<(char, char)>)
    ensures
        r@ == digit_ranges(),
        forall|c: char| (c as u32) < 128 ==> (in_ranges(r@, c) == is_digit(c)),
{
    let d = "\\d";
    proof {
        reveal_strlit("\\d");
        assert(d@ =~= seq!['\\', 'd']);
    }
    match unicode_class(d) {
        Some(v) => v,
        None => Vec::new(),
    }
}

pub open spec fn atom_ok(a: Atom, ci: bool, digits: Seq<(char, char)>, c: char) -> bool {
    match a {
        Atom::Ch(l) => if ci {
            fold_eq(l, c)
        } else {
            l == c
        },
        Atom::Digit => in_ranges(digits, c),
        Atom::Ws => is_ws(c),
        Atom::Sep => is_sep(c),
    }
}

pub fn atom_ok_exec(a: Atom, ci: bool, digits: &Vec<(char, char)>, c: char) -> (r: bool)
    ensures
        r == atom_ok(a, ci, digits@, c),
{
    match a {
        Atom::Ch(l) => if ci {
            fold_eq_exec(l, c)
        } else {
            l == c
        },
        Atom::Digit => in_ranges_exec(digits, c),
        Atom::Ws => is_ws_char(c),
        Atom::Sep => c == ' ' || c == '.' || c == '_' || c == '-',
    }
}

/// The alternative `alt` fits the text at position `i`.
pub open spec fn alt_at(alt: Seq<Atom>, ci: bool, digits: Seq<(char, char)>, s: Seq<char>, i: int) -> bool {
    &&& 0 <= i
    &&& i + alt.len() <= s.len()
    &&& forall|k: int| 0 <= k < alt.len() ==> atom_ok(#[trigger] alt[k], ci, digits, s[i + k])
}

pub open spec fn alt_ok(p: PatternSpec, s: Seq<char>, i: int, k: int) -> bool {
    let e = i + p.alts[k].len();
    &&& alt_at(p.alts[k], p.ci, p.digits, s, i)
    &&& (p.word_start ==> boundary(s, i))
    &&& (p.word_end ==> boundary(s, e))
    &&& (p.at_end ==> e == s.len())
}

/// Index of the first alternative, from `k` on, that matches at `i`.
pub open spec fn first_alt(p: PatternSpec, s: Seq<char>, i: int, k: int) -> Option<int>
    decreases p.alts.len() - k,
{
    if k < 0 || k >= p.alts.len() {
        None
    } else if alt_ok(p, s, i, k) {
        Some(k)
    } else {
        first_alt(p, s, i, k + 1)
    }
}

/// End of the match at position `i`, if the pattern matches there.
pub open spec fn match_end(p: PatternSpec, s: Seq<char>, i: int) -> Option<int> {
    match first_alt(p, s, i, 0) {
        Some(k) => Some(i + p.alts[k].len()),
        None => None,
    }
}

/// The leftmost match starting at or after `from`, as `(start, end)`.
pub open spec fn find_from(p: PatternSpec, s: Seq<char>, from: int) -> Option<(int, int)>
    decreases s.len() + 1 - from,
{
    if from < 0 || from > s.len() {
        None
    } else {
        match match_end(p, s, from) {
            Some(e) => Some((from, e)),
            None => find_from(p, s, from + 1),
        }
    }
}

pub open spec fn find(p: PatternSpec, s: Seq<char>) -> Option<(int, int)> {
    find_from(p, s, 0)
}

/// All successive non-overlapping matches from `from` on.
pub open spec fn matches_from(p: PatternSpec, s: Seq<char>, from: int) -> Seq<(int, int)>
    decreases s.len() + 1 - from,
{
    match find_from(p, s, from) {
        Some((a, e)) => if from < e <= s.len() {
            seq![(a, e)] + matches_from(p, s, e)
        } else {
            seq![]
        },
        None => seq![],
    }
}

/// Every match replaced by `rep`, scanning from `from`.
pub open spec fn replace_all_from(p: PatternSpec, s: Seq<char>, from: int, rep: Seq<char>) -> Seq<
    char,
>
    decreases s.len() + 1 - from,
{
    match find_from(p, s, from) {
        Some((a, e)) => if from < e <= s.len() {
            s.subrange(from, a) + rep + replace_all_from(p, s, e, rep)
        } else {
            s.subrange(from, s.len() as int)
        },
        None => if 0 <= from <= s.len() {
            s.subrange(from, s.len() as int)
        } else {
            seq![]
        },
    }
}

pub open spec fn replace_all(p: PatternSpec, s: Seq<char>, rep: Seq<char>) -> Seq<char> {
    replace_all_from(p, s, 0, rep)
}

/// The first match replaced by `rep` (`Regex::replace`).
pub open spec fn replace_first(p: PatternSpec, s: Seq<char>, rep: Seq<char>) -> Seq<char> {
    match find(p, s) {
        Some((a, e)) => s.subrange(0, a) + rep + s.subrange(e, s.len() as int),
        None => s,
    }
}

// ---------------------------------------------------------------------------
// Executable matching
// ---------------------------------------------------------------------------

pub fn alt_at_exec(alt: &Vec<Atom>, ci: bool, digits: &Vec<(char, char)>, s: &Vec<char>, i: usize) -> (r: bool)
    ensures
        r == alt_at(alt@, ci, digits@, s@, i as int),
{
    if alt.len() > s.len() || i > s.len() - alt.len() {
        return false;
    }
    let mut k: usize = 0;
    while k < alt.len()
        invariant
            i + alt.len() <= s.len(),
            k <= alt.len(),
            forall|m: int| 0 <= m < k ==> atom_ok(#[trigger] alt@[m], ci, digits@, s@[i + m]),
        decreases alt.len() - k,
    {
        if !atom_ok_exec(alt[k], ci, digits, s[i + k]) {
            return false;
        }
        k = k + 1;
    }
    true
}

proof fn lemma_first_alt_skip(p: PatternSpec, s: Seq<char>, i: int, k: int)
    requires
        0 <= k <= p.alts.len(),
        forall|m: int| 0 <= m < k ==> !#[trigger] alt_ok(p, s, i, m),
    ensures
        first_alt(p, s, i, 0) == first_alt(p, s, i, k),
    decreases k,
{
    if k > 0 {
        lemma_first_alt_skip(p, s, i, k - 1);
    }
}

pub fn match_end_exec(p: &Pattern, s: &Vec<char>, i: usize) -> (r: Option<usize>)
    requires
        i <= s.len(),
    ensures
        r matches Some(e) ==> match_end(p@, s@, i as int) == Some(e as int),
        r is None ==> match_end(p@, s@, i as int) is None,
{
    let n = p.alts.len();
    let mut k: usize = 0;
    while k < n
        invariant
            n == p.alts.len(),
            i <= s.len(),
            k <= n,
            forall|m: int| 0 <= m < k ==> !#[trigger] alt_ok(p@, s@, i as int, m),
        decreases n - k,
    {
        let alt = &p.alts[k];
        assert(p@.alts[k as int] == alt@);
        if alt_at_exec(alt, p.ci, &p.digits, s, i) {
            let e = i + alt.len();
            let ok1 = !p.word_start || boundary_exec(s, i);
            let ok2 = !p.word_end || boundary_exec(s, e);
            let ok3 = !p.at_end || e == s.len();
            if ok1 && ok2 && ok3 {
                proof {
                    lemma_first_alt_skip(p@, s@, i as int, k as int);
                }
                return Some(e);
            }
        }
        k = k + 1;
    }
    proof {
        lemma_first_alt_skip(p@, s@, i as int, n as int);
    }
    None
}

proof fn lemma_find_skip(p: PatternSpec, s: Seq<char>, from: int, j: int)
    requires
        0 <= from <= j <= s.len() + 1,
        forall|m: int| from <= m < j ==> #[trigger] match_end(p, s, m) is None,
    ensures
        find_from(p, s, from) == find_from(p, s, j),
    decreases j - from,
{
    if from < j {
        lemma_find_skip(p, s, from + 1, j);
    }
}

/// Leftmost match at or after `from`.
pub fn find_from_exec(p: &Pattern, s: &Vec<char>, from: usize) -> (r: Option<(usize, usize)>)
    requires
        from <= s.len(),
    ensures
        r matches Some((a, e)) ==> find_from(p@, s@, from as int) == Some((a as int, e as int)),
        r is None ==> find_from(p@, s@, from as int) is None,
{
    let mut i = from;
    while i <= s.len()
        invariant
            from <= i <= s.len() + 1,
            forall|m: int| from <= m < i ==> #[trigger] match_end(p@, s@, m) is None,
        decreases s.len() + 1 - i,
    {
        match match_end_exec(p, s, i) {
            Some(e) => {
                proof {
                    lemma_find_skip(p@, s@, from as int, i as int);
                }
                return Some((i, e));
            },
            None => {},
        }
        if i == s.len() {
            proof {
                lemma_find_skip(p@, s@, from as int, i + 1);
            }
            return None;
        }
        i = i + 1;
    }
    proof {
        lemma_find_skip(p@, s@, from as int, i as int);
    }
    None
}

pub proof fn lemma_match_end_bounds(p: PatternSpec, s: Seq<char>, i: int)
    requires
        wf_pattern(p),
    ensures
        match_end(p, s, i) matches Some(e) ==> 0 <= i < e <= s.len(),
{
    lemma_first_alt_range(p, s, i, 0);
}

pub proof fn lemma_first_alt_range(p: PatternSpec, s: Seq<char>, i: int, k: int)
    ensures
        first_alt(p, s, i, k) matches Some(m) ==> 0 <= k <= m < p.alts.len() && alt_ok(p, s, i, m),
    decreases p.alts.len() - k,
{
    if 0 <= k < p.alts.len() && !alt_ok(p, s, i, k) {
        lemma_first_alt_range(p, s, i, k + 1);
    }
}

pub proof fn lemma_find_bounds(p: PatternSpec, s: Seq<char>, from: int)
    requires
        wf_pattern(p),
    ensures
        find_from(p, s, from) matches Some((a, e)) ==> 0 <= from <= a < e <= s.len()
            && match_end(p, s, a) == Some(e),
    decreases s.len() + 1 - from,
{
    if 0 <= from <= s.len() {
        lemma_match_end_bounds(p, s, from);
        if match_end(p, s, from) is None {
            lemma_find_bounds(p, s, from + 1);
        }
    }
}

/// Replacing matches keeps only characters of the text and of the
/// replacement.
pub proof fn lemma_replace_all_chars(
    p: PatternSpec,
    s: Seq<char>,
    from: int,
    rep: Seq<char>,
    q: spec_fn(char) -> bool,
)
    requires
        forall|k: int| 0 <= k < s.len() ==> q(#[trigger] s[k]),
        forall|k: int| 0 <= k < rep.len() ==> q(#[trigger] rep[k]),
    ensures
        forall|k: int|
            0 <= k < replace_all_from(p, s, from, rep).len() ==> q(#[trigger] replace_all_from(p, s, from, rep)[k]),
    decreases s.len() + 1 - from,
{
    lemma_find_bounds_weak(p, s, from);
    let out = replace_all_from(p, s, from, rep);
    match find_from(p, s, from) {
        Some((a, e)) => {
            if from < e <= s.len() {
                lemma_replace_all_chars(p, s, e, rep, q);
                let x = s.subrange(from, a);
                let y = replace_all_from(p, s, e, rep);
                assert forall|k: int| 0 <= k < out.len() implies q(#[trigger] out[k]) by {
                    assert(out == x + rep + y);
                    if k < x.len() {
                        assert(out[k] == s[from + k]);
                    } else if k < x.len() + rep.len() {
                        assert(out[k] == rep[k - x.len()]);
                    } else {
                        assert(out[k] == y[k - x.len() - rep.len()]);
                    }
                }
            } else {
                assert forall|k: int| 0 <= k < out.len() implies q(#[trigger] out[k]) by {
                    assert(out[k] == s[from + k]);
                }
            }
        },
        None => {
            if 0 <= from <= s.len() {
                assert forall|k: int| 0 <= k < out.len() implies q(#[trigger] out[k]) by {
                    assert(out[k] == s[from + k]);
                }
            }
        },
    }
}

pub proof fn lemma_find_bounds_weak(p: PatternSpec, s: Seq<char>, from: int)
    ensures
        find_from(p, s, from) matches Some((a, e)) ==> 0 <= from <= a <= e && match_end(p, s, a)
            == Some(e) && (e <= s.len() || !p.at_end) && a <= s.len(),
    decreases s.len() + 1 - from,
{
    if 0 <= from <= s.len() {
        lemma_first_alt_range(p, s, from, 0);
        if match_end(p, s, from) is None {
            lemma_find_bounds_weak(p, s, from + 1);
        }
    }
}

pub fn find_exec(p: &Pattern, s: &Vec<char>) -> (r: Option<(usize, usize)>)
    ensures
        r matches Some((a, e)) ==> find(p@, s@) == Some((a as int, e as int)),
        r is None ==> find(p@, s@) is None,
{
    find_from_exec(p, s, 0)
}

pub fn replace_all_exec(p: &Pattern, s: &Vec<char>, rep: &Vec<char>) -> (r: Vec<char>)
    requires
        wf_pattern(p@),
    ensures
        r@ == replace_all(p@, s@, rep@),
{
    let mut out: Vec<char> = Vec::new();
    let mut from: usize = 0;
    loop
        invariant
            from <= s.len(),
            wf_pattern(p@),
            out@ + replace_all_from(p@, s@, from as int, rep@) == replace_all(p@, s@, rep@),
        decreases s.len() - from,
    {
        proof {
            lemma_find_bounds(p@, s@, from as int);
        }
        match find_from_exec(p, s, from) {
            Some((a, e)) => {
                let piece = slice_vec(s, from, a);
                let ghost before = out@;
                append_vec(&mut out, &piece);
                append_vec(&mut out, rep);
                assert(out@ + replace_all_from(p@, s@, e as int, rep@) =~= before
                    + replace_all_from(p@, s@, from as int, rep@));
                from = e;
            },
            None => {
                let piece = slice_vec(s, from, s.len());
                let ghost before = out@;
                append_vec(&mut out, &piece);
                assert(out@ =~= before + replace_all_from(p@, s@, from as int, rep@));
                return out;
            },
        }
    }
}

pub fn replace_first_exec(p: &Pattern, s: &Vec<char>, rep: &Vec<char>) -> (r: Vec<char>)
    requires
        wf_pattern(p@),
    ensures
        r@ == replace_first(p@, s@, rep@),
{
    proof {
        lemma_find_bounds(p@, s@, 0);
    }
    match find_exec(p, s) {
        Some((a, e)) => {
            let mut out = slice_vec(s, 0, a);
            append_vec(&mut out, rep);
            let tail = slice_vec(s, e, s.len());
            append_vec(&mut out, &tail);
            out
        },
        None => {
            let out = slice_vec(s, 0, s.len());
            assert(out@ =~= s@);
            out
        },
    }
}

pub proof fn lemma_matches_from_elems(p: PatternSpec, s: Seq<char>, from: int)
    requires
        wf_pattern(p),
    ensures
        forall|i: int|
            0 <= i < matches_from(p, s, from).len() ==> {
                let m = #[trigger] matches_from(p, s, from)[i];
                &&& match_end(p, s, m.0) == Some(m.1)
                &&& 0 <= m.0 < m.1 <= s.len()
            },
    decreases s.len() + 1 - from,
{
    lemma_find_bounds(p, s, from);
    match find_from(p, s, from) {
        Some((a, e)) => {
            if from < e <= s.len() {
                lemma_matches_from_elems(p, s, e);
                let rest = matches_from(p, s, e);
                assert forall|i: int| 0 <= i < matches_from(p, s, from).len() implies {
                    let m = #[trigger] matches_from(p, s, from)[i];
                    &&& match_end(p, s, m.0) == Some(m.1)
                    &&& 0 <= m.0 < m.1 <= s.len()
                } by {
                    if i > 0 {
                        assert(matches_from(p, s, from)[i] == rest[i - 1]);
                    }
                }
            }
        },
        None => {},
    }
}

/// Start of the last of the successive matches, with its end.
pub open spec fn last_match(p: PatternSpec, s: Seq<char>) -> Option<(int, int)> {
    let ms = matches_from(p, s, 0);
    if ms.len() == 0 {
        None
    } else {
        Some(ms.last())
    }
}

pub fn last_match_exec(p: &Pattern, s: &Vec<char>) -> (r: Option<(usize, usize)>)
    requires
        wf_pattern(p@),
    ensures
        r matches Some((a, e)) ==> last_match(p@, s@) == Some((a as int, e as int)),
        r is None ==> last_match(p@, s@) is None,
{
    let mut last: Option<(usize, usize)> = None;
    let mut from: usize = 0;
    loop
        invariant
            from <= s.len(),
            wf_pattern(p@),
            ({
                let all = matches_from(p@, s@, 0);
                let rest = matches_from(p@, s@, from as int);
                &&& last matches Some((a, e)) ==> all == matches_from(p@, s@, 0)
                    && exists|pre: Seq<(int, int)>| #[trigger]
                    (pre + seq![(a as int, e as int)] + rest) == all
                &&& last is None ==> rest == all
            }),
        decreases s.len() - from,
    {
        proof {
            lemma_find_bounds(p@, s@, from as int);
        }
        match find_from_exec(p, s, from) {
            Some((a, e)) => {
                let ghost rest = matches_from(p@, s@, from as int);
                let ghost next = matches_from(p@, s@, e as int);
                assert(rest == seq![(a as int, e as int)] + next);
                proof {
                    let all = matches_from(p@, s@, 0);
                    match last {
                        Some((la, le)) => {
                            let pre = choose|pre: Seq<(int, int)>| #[trigger]
                                (pre + seq![(la as int, le as int)] + rest) == all;
                            let pre2 = pre + seq![(la as int, le as int)];
                            assert((pre2 + seq![(a as int, e as int)] + next) =~= (pre + seq![
                                (la as int, le as int),
                            ] + rest));
                        },
                        None => {
                            let pre2: Seq<(int, int)> = seq![];
                            assert((pre2 + seq![(a as int, e as int)] + next) =~= rest);
                        },
                    }
                }
                last = Some((a, e));
                from = e;
            },
            None => {
                proof {
                    let all = matches_from(p@, s@, 0);
                    let rest = matches_from(p@, s@, from as int);
                    assert(rest.len() == 0);
                    match last {
                        Some((la, le)) => {
                            let pre = choose|pre: Seq<(int, int)>| #[trigger]
                                (pre + seq![(la as int, le as int)] + rest) == all;
                            assert(all =~= pre + seq![(la as int, le as int)]);
                        },
                        None => {},
                    }
                }
                return last;
            },
        }
    }
}

// ---------------------------------------------------------------------------
// Building patterns
// ---------------------------------------------------------------------------

/// The literal characters of `s`, one atom each.
pub open spec fn lit(s: Seq<char>) -> Seq<Atom> {
    s.map_values(|c: char| ch_atom(c))
}

pub open spec fn ch_atom(c: char) -> Atom {
    Atom::Ch(c)
}

pub fn lit_exec(s: &str) -> (r: Vec<Atom>)
    ensures
        r@ == lit(s@),
{
    let cs = chars_of(s);
    let mut out: Vec<Atom> = Vec::new();
    let mut i: usize = 0;
    assert(lit(cs@.take(0)) =~= seq![]);
    while i < cs.len()
        invariant
            i <= cs.len(),
            cs@ == s@,
            out@ == lit(cs@.take(i as int)),
        decreases cs.len() - i,
    {
        out.push(Atom::Ch(cs[i]));
        let ghost t = cs@.take(i + 1);
        assert(t[i as int] == cs@[i as int]);
        assert(t.drop_last() =~= cs@.take(i as int));
        assert(lit(t) =~= lit(cs@.take(i as int)).push(ch_atom(cs@[i as int])));
        i = i + 1;
    }
    assert(cs@.take(cs.len() as int) =~= cs@);
    out
}

/// `prefix` followed by the literal characters of `s`.
pub fn prefixed_lit(prefix: Atom, s: &str) -> (r: Vec<Atom>)
    ensures
        r@ == seq![prefix] + lit(s@),
{
    let l = lit_exec(s);
    let mut out: Vec<Atom> = Vec::new();
    out.push(prefix);
    let mut i: usize = 0;
    while i < l.len()
        invariant
            i <= l.len(),
            out@ == seq![prefix] + l@.take(i as int),
        decreases l.len() - i,
    {
        out.push(l[i]);
        assert(l@.take(i + 1) =~= l@.take(i as int).push(l@[i as int]));
        i = i + 1;
    }
    assert(l@.take(l.len() as int) =~= l@);
    out
}

pub open spec fn alt_views(v: Seq<Vec<Atom>>) -> Seq<Seq<Atom>> {
    v.map_values(|a: Vec<Atom>| a@)
}

/// Appends one alternative, keeping track of the views.
pub fn push_alt(alts: &mut Vec<Vec<Atom>>, a: Vec<Atom>)
    ensures
        alt_views(final(alts)@) == alt_views(old(alts)@).push(a@),
{
    let ghost before = alt_views(alts@);
    alts.push(a);
    assert(alt_views(alts@) =~= before.push(a@));
}

} // verus!
