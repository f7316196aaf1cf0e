//! `acervo titles`: reading organized episode file names, answering the
//! interactive prompt, and naming the titled files.

use vstd::prelude::*;
use crate::episode::{digit_run, is_e, is_s};
use crate::pattern::{digit_ranges, digit_table, in_ranges, in_ranges_exec};
use crate::naming::{safe_component_spec, safe_component_vec};
use crate::scan::{lemma_skip_digits_props, skip_digits_exec};
use crate::text::{
    all_ascii, all_digits, all_digits_in, append_vec, ascii_lowered, chars_of, dec2, dec2_vec, dec_int, dec_int_vec,
    digits_value, eq_vec,
    is_digit, lowercase, lowercase_of, slice_vec, small_digits_value, string_of, trim_ws,
    trim_ws_vec,
};
use crate::tv::{ep_tag_spec, ep_tag_vec, opt_nat};
use crate::sim::{matched, ratio_vec, Similarity};
use crate::tvmaze::{premiered_year, premiered_year_spec};
use crate::identity::opt_view;

verus! {

// ---------------------------------------------------------------------------
// Organized episode file names
// ---------------------------------------------------------------------------

/// Positions found in the tail ` - sNNeNN[-eNN][ - Title]` of a file stem.
pub struct TailSpec {
    pub season: (int, int),
    pub ep: (int, int),
    pub ep2: Option<(int, int)>,
    pub title: Option<int>,
}

/// No line feed among `s[a..]`.
pub open spec fn no_newline_from(s: Seq<char>, a: int) -> bool {
    forall|k: int| a <= k < s.len() ==> s[k] != '\n'
}

/// The tail ` - [sS]N[N][eE]N[N]`, then `-eN[N]` for a second episode, then
/// either the end or ` - ` and a non-empty title without line feeds, starting
/// at `p` and running to the end of the text.
pub open spec fn tail_at(s: Seq<char>, p: int) -> Option<TailSpec> {
    let r1 = digit_run(s, p + 4);
    let q = p + 5 + r1;
    let r2 = digit_run(s, q);
    let u = q + r2;
    let has2 = u + 2 <= s.len() && s[u] == '-' && s[u + 1] == 'e';
    let r3 = digit_run(s, u + 2);
    let v = if has2 {
        u + 2 + r3
    } else {
        u
    };
    if !(0 <= p && p + 4 <= s.len() && s[p] == ' ' && s[p + 1] == '-' && s[p + 2] == ' ' && is_s(
        s[p + 3],
    ) && 1 <= r1 <= 2 && p + 4 + r1 < s.len() && is_e(s[p + 4 + r1]) && 1 <= r2 <= 2) {
        None
    } else if has2 && !(1 <= r3 <= 2) {
        None
    } else if v == s.len() {
        Some(
            TailSpec {
                season: (p + 4, r1),
                ep: (q, r2),
                ep2: if has2 {
                    Some((u + 2, r3))
                } else {
                    None
                },
                title: None,
            },
        )
    } else if v + 3 < s.len() && s[v] == ' ' && s[v + 1] == '-' && s[v + 2] == ' '
        && no_newline_from(s, v + 3) {
        Some(
            TailSpec {
                season: (p + 4, r1),
                ep: (q, r2),
                ep2: if has2 {
                    Some((u + 2, r3))
                } else {
                    None
                },
                title: Some(v + 3),
            },
        )
    } else {
        None
    }
}

/// Index of the first `}` at or after `a`.
pub open spec fn first_brace(s: Seq<char>, a: int) -> Option<int>
    decreases s.len() - a,
{
    if a < 0 || a >= s.len() {
        None
    } else if s[a] == '}' {
        Some(a)
    } else {
        first_brace(s, a + 1)
    }
}

/// After a show name ending at `l`: ` (YYYY)`, an optional ` {edition-X}`
/// and the episode tail. Gives the edition span (braces and leading space
/// included) and the tail.
pub open spec fn year_rest(s: Seq<char>, l: int) -> Option<(Option<(int, int)>, TailSpec)> {
    let r = l + 7;
    if !(0 < l && r <= s.len() && s[l] == ' ' && s[l + 1] == '(' && all_digits(
        s.subrange(l + 2, l + 6),
    ) && s[l + 6] == ')') {
        None
    } else if r + 10 <= s.len() && s.subrange(r, r + 10) == " {edition-"@ {
        match first_brace(s, r + 10) {
            Some(c) => if c > r + 10 {
                match tail_at(s, c + 1) {
                    Some(t) => Some((Some((r, c + 1)), t)),
                    None => None,
                }
            } else {
                None
            },
            None => None,
        }
    } else {
        match tail_at(s, r) {
            Some(t) => Some((None, t)),
            None => None,
        }
    }
}

/// The shortest show name (from length `l` on, without line feeds) after
/// which the rest of the stem has the organized form.
pub open spec fn filename_from(s: Seq<char>, l: int, with_year: bool) -> Option<int>
    decreases s.len() - l,
{
    if l < 1 || l >= s.len() || s[l - 1] == '\n' {
        None
    } else if (if with_year {
        year_rest(s, l) is Some
    } else {
        tail_at(s, l) is Some
    }) {
        Some(l)
    } else {
        filename_from(s, l + 1, with_year)
    }
}

/// A parsed organized episode file name.
pub struct ParsedFile {
    pub show: String,
    pub year: Option<i32>,
    pub edition: String,
    pub season: u32,
    pub ep: u32,
    pub ep2: Option<u32>,
    pub title: Option<String>,
}

pub struct ParsedFileSpec {
    pub show: Seq<char>,
    pub year: Option<int>,
    pub edition: Seq<char>,
    pub season: nat,
    pub ep: nat,
    pub ep2: Option<nat>,
    pub title: Option<Seq<char>>,
}

impl View for ParsedFile {
    type V = ParsedFileSpec;

    open spec fn view(&self) -> ParsedFileSpec {
        ParsedFileSpec {
            show: self.show@,
            year: match self.year {
                Some(y) => Some(y as int),
                None => None,
            },
            edition: self.edition@,
            season: self.season as nat,
            ep: self.ep as nat,
            ep2: opt_nat(self.ep2),
            title: crate::identity::opt_view(self.title),
        }
    }
}

pub open spec fn span_value(s: Seq<char>, sp: (int, int)) -> nat {
    digits_value(s.subrange(sp.0, sp.0 + sp.1))
}

pub open spec fn parsed_from_tail(
    s: Seq<char>,
    l: int,
    year: Option<int>,
    edition: Seq<char>,
    t: TailSpec,
) -> ParsedFileSpec {
    ParsedFileSpec {
        show: s.subrange(0, l),
        year,
        edition,
        season: span_value(s, t.season),
        ep: span_value(s, t.ep),
        ep2: match t.ep2 {
            Some(sp) => Some(span_value(s, sp)),
            None => None,
        },
        title: match t.title {
            Some(a) => Some(s.subrange(a, s.len() as int)),
            None => None,
        },
    }
}

/// `Show (YYYY)[ {edition-X}] - sNNeNN[-eNN][ - Title]`.
pub open spec fn parse_file_spec(stem: Seq<char>) -> Option<ParsedFileSpec> {
    match filename_from(stem, 1, true) {
        Some(l) => {
            let (ed, t) = year_rest(stem, l)->0;
            Some(
                parsed_from_tail(
                    stem,
                    l,
                    Some(digits_value(stem.subrange(l + 2, l + 6)) as int),
                    match ed {
                        Some((a, b)) => stem.subrange(a, b),
                        None => seq![],
                    },
                    t,
                ),
            )
        },
        None => None,
    }
}

/// `Show - sNNeNN[-eNN][ - Title]`.
pub open spec fn parse_file_no_year_spec(stem: Seq<char>) -> Option<ParsedFileSpec> {
    match filename_from(stem, 1, false) {
        Some(l) => Some(parsed_from_tail(stem, l, None, seq![], tail_at(stem, l)->0)),
        None => None,
    }
}

fn is_digit_c(c: char) -> (r: bool)
    ensures
        r == is_digit(c),
{
    '0' <= c && c <= '9'
}

#[verifier::loop_isolation(false)]
fn tail_at_exec(s: &Vec<char>, p: usize) -> (r: Option<
    ((usize, usize), (usize, usize), Option<(usize, usize)>, Option<usize>),
>)
    requires
        p <= s.len(),
    ensures
        match r {
            Some((a, b, c, d)) => tail_at(s@, p as int) == Some(
                TailSpec {
                    season: (a.0 as int, a.1 as int),
                    ep: (b.0 as int, b.1 as int),
                    ep2: match c {
                        Some(x) => Some((x.0 as int, x.1 as int)),
                        None => None,
                    },
                    title: match d {
                        Some(x) => Some(x as int),
                        None => None,
                    },
                },
            ) && a.0 + a.1 <= s.len() && b.0 + b.1 <= s.len() && (c matches Some(x) ==> x.0 + x.1
                <= s.len()) && (d matches Some(x) ==> x <= s.len()),
            None => tail_at(s@, p as int) is None,
        },
{
    if s.len() < 4 || p > s.len() - 4 {
        return None;
    }
    if !(s[p] == ' ' && s[p + 1] == '-' && s[p + 2] == ' ' && (s[p + 3] == 'S' || s[p + 3] == 's')) {
        return None;
    }
    let e1 = skip_digits_exec(s, p + 4);
    let r1 = e1 - (p + 4);
    if r1 < 1 || r1 > 2 || e1 >= s.len() || !(s[e1] == 'E' || s[e1] == 'e') {
        return None;
    }
    let q = e1 + 1;
    let u = skip_digits_exec(s, q);
    let r2 = u - q;
    if r2 < 1 || r2 > 2 {
        return None;
    }
    let has2 = s.len() >= 2 && u <= s.len() - 2 && s[u] == '-' && s[u + 1] == 'e';
    let mut ep2: Option<(usize, usize)> = None;
    let mut v = u;
    if has2 {
        let e3 = skip_digits_exec(s, u + 2);
        let r3 = e3 - (u + 2);
        if r3 < 1 || r3 > 2 {
            return None;
        }
        ep2 = Some((u + 2, r3));
        v = e3;
    }
    if v == s.len() {
        return Some(((p + 4, r1), (q, r2), ep2, None));
    }
    if s.len() >= 3 && v < s.len() - 3 && s[v] == ' ' && s[v + 1] == '-' && s[v + 2] == ' ' {
        let mut k = v + 3;
        while k < s.len()
            invariant
                v + 3 <= k <= s.len(),
                forall|m: int| v + 3 <= m < k ==> s@[m] != '\n',
            decreases s.len() - k,
        {
            if s[k] == '\n' {
                return None;
            }
            k = k + 1;
        }
        return Some(((p + 4, r1), (q, r2), ep2, Some(v + 3)));
    }
    None
}

fn first_brace_exec(s: &Vec<char>, a: usize) -> (r: Option<usize>)
    requires
        a <= s.len(),
    ensures
        match r {
            Some(c) => first_brace(s@, a as int) == Some(c as int) && a <= c < s.len(),
            None => first_brace(s@, a as int) is None,
        },
{
    let mut k = a;
    while k < s.len()
        invariant
            a <= k <= s.len(),
            first_brace(s@, a as int) == first_brace(s@, k as int),
        decreases s.len() - k,
    {
        if s[k] == '}' {
            return Some(k);
        }
        k = k + 1;
    }
    None
}

fn year_rest_exec(s: &Vec<char>, l: usize) -> (r: Option<
    (Option<(usize, usize)>, ((usize, usize), (usize, usize), Option<(usize, usize)>, Option<usize>)),
>)
    requires
        l <= s.len(),
    ensures
        match r {
            Some((ed, (a, b, c, d))) => year_rest(s@, l as int) == Some(
                (
                    match ed {
                        Some(x) => Some((x.0 as int, x.1 as int)),
                        None => None,
                    },
                    TailSpec {
                        season: (a.0 as int, a.1 as int),
                        ep: (b.0 as int, b.1 as int),
                        ep2: match c {
                            Some(x) => Some((x.0 as int, x.1 as int)),
                            None => None,
                        },
                        title: match d {
                            Some(x) => Some(x as int),
                            None => None,
                        },
                    },
                ),
            ) && 0 < l && l + 7 <= s.len() && a.0 + a.1 <= s.len() && b.0 + b.1 <= s.len() && (
            c matches Some(x) ==> x.0 + x.1 <= s.len()) && (d matches Some(x) ==> x <= s.len()) && (
            ed matches Some(x) ==> x.0 <= x.1 <= s.len()),
            None => year_rest(s@, l as int) is None,
        },
{
    if l == 0 || s.len() < 7 || l > s.len() - 7 {
        return None;
    }
    if !(s[l] == ' ' && s[l + 1] == '(' && is_digit_c(s[l + 2]) && is_digit_c(s[l + 3])
        && is_digit_c(s[l + 4]) && is_digit_c(s[l + 5]) && s[l + 6] == ')') {
        proof {
            if all_digits(s@.subrange(l + 2, l + 6)) {
                assert(s@.subrange(l + 2, l + 6)[0] == s@[l + 2]);
                assert(s@.subrange(l + 2, l + 6)[1] == s@[l + 3]);
                assert(s@.subrange(l + 2, l + 6)[2] == s@[l + 4]);
                assert(s@.subrange(l + 2, l + 6)[3] == s@[l + 5]);
            }
        }
        return None;
    }
    assert(all_digits(s@.subrange(l + 2, l + 6))) by {
        assert forall|k: int| 0 <= k < 4 implies is_digit(#[trigger] s@.subrange(l + 2, l + 6)[k]) by {
            assert(s@.subrange(l + 2, l + 6)[k] == s@[l + 2 + k]);
        }
    }
    let r = l + 7;
    if s.len() >= 10 && r <= s.len() - 10 {
        let head = slice_vec(s, r, r + 10);
        if eq_vec(&head, &chars_of(" {edition-")) {
            return match first_brace_exec(s, r + 10) {
                Some(c) => if c > r + 10 {
                    match tail_at_exec(s, c + 1) {
                        Some(t) => Some((Some((r, c + 1)), t)),
                        None => None,
                    }
                } else {
                    None
                },
                None => None,
            };
        }
    }
    match tail_at_exec(s, r) {
        Some(t) => Some((None, t)),
        None => None,
    }
}

fn parsed_from_tail_exec(
    s: &Vec<char>,
    l: usize,
    year: Option<i32>,
    edition: Vec<char>,
    sea: (usize, usize),
    epi: (usize, usize),
    ep2: Option<(usize, usize)>,
    title: Option<usize>,
) -> (r: ParsedFile)
    requires
        l <= s.len(),
        sea.0 + sea.1 <= s.len(),
        epi.0 + epi.1 <= s.len(),
        sea.1 <= 2,
        epi.1 <= 2,
        all_digits(s@.subrange(sea.0 as int, sea.0 + sea.1)),
        all_digits(s@.subrange(epi.0 as int, epi.0 + epi.1)),
        ep2 matches Some(x) ==> x.0 + x.1 <= s.len() && x.1 <= 2 && all_digits(
            s@.subrange(x.0 as int, x.0 + x.1),
        ),
        title matches Some(x) ==> x <= s.len(),
    ensures
        r@ == parsed_from_tail(
            s@,
            l as int,
            match year {
                Some(y) => Some(y as int),
                None => None,
            },
            edition@,
            TailSpec {
                season: (sea.0 as int, sea.1 as int),
                ep: (epi.0 as int, epi.1 as int),
                ep2: match ep2 {
                    Some(x) => Some((x.0 as int, x.1 as int)),
                    None => None,
                },
                title: match title {
                    Some(x) => Some(x as int),
                    None => None,
                },
            },
        ),
{
    proof {
        crate::tv::lemma_small_digits_bound(s@, sea.0 as int, sea.0 + sea.1);
        crate::tv::lemma_small_digits_bound(s@, epi.0 as int, epi.0 + epi.1);
    }
    ParsedFile {
        show: string_of(&slice_vec(s, 0, l)),
        year,
        edition: string_of(&edition),
        season: small_digits_value(s, sea.0, sea.0 + sea.1),
        ep: small_digits_value(s, epi.0, epi.0 + epi.1),
        ep2: match ep2 {
            Some(x) => Some(small_digits_value(s, x.0, x.0 + x.1)),
            None => None,
        },
        title: match title {
            Some(x) => Some(string_of(&slice_vec(s, x, s.len()))),
            None => None,
        },
    }
}

proof fn lemma_tail_digits(s: Seq<char>, p: int)
    requires
        tail_at(s, p) is Some,
        0 <= p <= s.len(),
    ensures
        ({
            let t = tail_at(s, p)->0;
            &&& t.season.1 <= 2 && t.ep.1 <= 2
            &&& all_digits(s.subrange(t.season.0, t.season.0 + t.season.1))
            &&& all_digits(s.subrange(t.ep.0, t.ep.0 + t.ep.1))
            &&& t.ep2 matches Some(x) ==> x.1 <= 2 && all_digits(s.subrange(x.0, x.0 + x.1))
        }),
{
    let t = tail_at(s, p)->0;
    lemma_run_digits(s, t.season.0);
    lemma_run_digits(s, t.ep.0);
    if let Some(x) = t.ep2 {
        lemma_run_digits(s, x.0);
    }
}

proof fn lemma_run_digits(s: Seq<char>, i: int)
    requires
        0 <= i <= s.len(),
    ensures
        all_digits(s.subrange(i, i + digit_run(s, i))),
        i + digit_run(s, i) <= s.len(),
{
    lemma_skip_digits_props(s, i);
    assert forall|k: int| 0 <= k < digit_run(s, i) implies is_digit(
        #[trigger] s.subrange(i, i + digit_run(s, i))[k],
    ) by {
        assert(s.subrange(i, i + digit_run(s, i))[k] == s[i + k]);
    }
}

pub fn parse_file_vec(stem: &Vec<char>) -> (r: Option<ParsedFile>)
    ensures
        match r {
            Some(p) => parse_file_spec(stem@) == Some(p@),
            None => parse_file_spec(stem@) is None,
        },
{
    let mut l: usize = 1;
    while l < stem.len()
        invariant
            1 <= l,
            filename_from(stem@, 1, true) == filename_from(stem@, l as int, true),
        decreases stem.len() - l,
    {
        if stem[l - 1] == '\n' {
            return None;
        }
        match year_rest_exec(stem, l) {
            Some((ed, t)) => {
                proof {
                    let (ed0, tt) = year_rest(stem@, l as int)->0;
                    let p = match ed0 {
                        Some(x) => x.1,
                        None => l + 7,
                    };
                    assert(tail_at(stem@, p) == Some(tt));
                    lemma_tail_digits(stem@, p);
                }
                let y = small_digits_value(stem, l + 2, l + 6);
                assert(crate::text::pow10(4) == 10000) by {
                    reveal_with_fuel(crate::text::pow10, 5);
                }
                let edition = match ed {
                    Some((a, b)) => slice_vec(stem, a, b),
                    None => Vec::new(),
                };
                let (a, b, c, d) = t;
                return Some(parsed_from_tail_exec(stem, l, Some(y as i32), edition, a, b, c, d));
            },
            None => {},
        }
        l = l + 1;
    }
    None
}

pub fn parse_file_no_year_vec(stem: &Vec<char>) -> (r: Option<ParsedFile>)
    ensures
        match r {
            Some(p) => parse_file_no_year_spec(stem@) == Some(p@),
            None => parse_file_no_year_spec(stem@) is None,
        },
{
    let mut l: usize = 1;
    while l < stem.len()
        invariant
            1 <= l,
            filename_from(stem@, 1, false) == filename_from(stem@, l as int, false),
        decreases stem.len() - l,
    {
        if stem[l - 1] == '\n' {
            return None;
        }
        match tail_at_exec(stem, l) {
            Some(t) => {
                proof {
                    lemma_tail_digits(stem@, l as int);
                }
                let (a, b, c, d) = t;
                return Some(parsed_from_tail_exec(stem, l, None, Vec::new(), a, b, c, d));
            },
            None => {},
        }
        l = l + 1;
    }
    None
}

/// Reads `Show (YYYY)[ {edition-X}] - sNNeNN[-eNN][ - Title]`.
pub fn parse_file(stem: &str) -> (r: Option<ParsedFile>)
    ensures
        match r {
            Some(p) => parse_file_spec(stem@) == Some(p@),
            None => parse_file_spec(stem@) is None,
        },
{
    parse_file_vec(&chars_of(stem))
}

/// Reads `Show - sNNeNN[-eNN][ - Title]`.
pub fn parse_file_no_year(stem: &str) -> (r: Option<ParsedFile>)
    ensures
        match r {
            Some(p) => parse_file_no_year_spec(stem@) == Some(p@),
            None => parse_file_no_year_spec(stem@) is None,
        },
{
    parse_file_no_year_vec(&chars_of(stem))
}

// ---------------------------------------------------------------------------
// New names
// ---------------------------------------------------------------------------

/// `Show (year){edition} - sNNeNN[-eNN] - Name`, the year taken from the
/// file name, else from `resolved_year` (empty when neither has one), the
/// name made safe.
pub open spec fn new_stem_spec(p: ParsedFileSpec, name: Seq<char>, resolved_year: Option<int>) -> Seq<
    char,
> {
    let year = match p.year {
        Some(y) => dec_int(y),
        None => match resolved_year {
            Some(y) => dec_int(y),
            None => seq![],
        },
    };
    p.show + " ("@ + year + ")"@ + p.edition + " - "@ + ep_tag_spec(p.season, p.ep, p.ep2) + " - "@
        + safe_component_spec(name)
}

pub fn new_stem(p: &ParsedFile, name: &str, resolved_year: Option<i32>) -> (r: String)
    ensures
        r@ == new_stem_spec(
            p@,
            name@,
            match resolved_year {
                Some(y) => Some(y as int),
                None => None,
            },
        ),
{
    let mut out = chars_of(p.show.as_str());
    append_vec(&mut out, &chars_of(" ("));
    match p.year {
        Some(y) => append_vec(&mut out, &dec_int_vec(y)),
        None => match resolved_year {
            Some(y) => append_vec(&mut out, &dec_int_vec(y)),
            None => {},
        },
    }
    append_vec(&mut out, &chars_of(")"));
    append_vec(&mut out, &chars_of(p.edition.as_str()));
    append_vec(&mut out, &chars_of(" - "));
    append_vec(&mut out, &ep_tag_vec(p.season, p.ep, p.ep2));
    append_vec(&mut out, &chars_of(" - "));
    append_vec(&mut out, &safe_component_vec(&chars_of(name)));
    string_of(&out)
}

} // verus!

verus! {

// ---------------------------------------------------------------------------
// The interactive prompt
// ---------------------------------------------------------------------------

/// An answer to "which show is it?".
#[derive(PartialEq, Eq, Structural)]
pub enum Answer {
    /// The candidate at this (zero-based) index.
    Pick(usize),
    /// The TVMaze show with this id.
    Id(u64),
    Skip,
    Quit,
}

/// A Unicode decimal digit (`\d`).
pub open spec fn is_udigit(c: char) -> bool {
    in_ranges(digit_ranges(), c)
}

/// Where the run of Unicode decimal digits starting at `i` ends.
pub open spec fn udigit_end(s: Seq<char>, i: int) -> int
    decreases s.len() - i,
{
    if 0 <= i < s.len() && is_udigit(s[i]) {
        udigit_end(s, i + 1)
    } else {
        i
    }
}

proof fn lemma_udigit_end(s: Seq<char>, i: int)
    requires
        0 <= i <= s.len(),
    ensures
        i <= udigit_end(s, i) <= s.len(),
    decreases s.len() - i,
{
    if i < s.len() && is_udigit(s[i]) {
        lemma_udigit_end(s, i + 1);
    }
}

fn udigit_end_exec(s: &Vec<char>, i: usize, digits: &Vec<(char, char)>) -> (r: usize)
    requires
        i <= s.len(),
        digits@ == digit_ranges(),
    ensures
        r == udigit_end(s@, i as int),
        i <= r <= s.len(),
{
    let mut j = i;
    while j < s.len() && in_ranges_exec(digits, s[j])
        invariant
            i <= j <= s.len(),
            digits@ == digit_ranges(),
            udigit_end(s@, i as int) == udigit_end(s@, j as int),
        decreases s.len() - j,
    {
        j = j + 1;
    }
    j
}

/// `s[k..]` starts with `/shows/` and a digit, and no line feed precedes `k`.
pub open spec fn shows_url_at(s: Seq<char>, k: int) -> bool {
    &&& 0 <= k
    &&& k + 8 <= s.len()
    &&& s.subrange(k, k + 7) == "/shows/"@
    &&& is_udigit(s[k + 7])
    &&& forall|m: int| 0 <= m < k ==> s[m] != '\n'
}

/// The largest `k` in `[0, hi]` with `shows_url_at(s, k)`.
pub open spec fn last_shows_url(s: Seq<char>, hi: int) -> Option<int>
    decreases hi + 1,
{
    if hi < 0 {
        None
    } else if shows_url_at(s, hi) {
        Some(hi)
    } else {
        last_shows_url(s, hi - 1)
    }
}

/// Where the digits of a show reference start: after a leading `#`, else
/// after the last `/shows/` of the first line.
pub open spec fn show_id_start(s: Seq<char>) -> Option<int> {
    if s.len() >= 2 && s[0] == '#' && is_udigit(s[1]) {
        Some(1)
    } else {
        match last_shows_url(s, s.len() as int) {
            Some(k) => Some(k + 7),
            None => None,
        }
    }
}

/// `str::parse::<usize>`: an optional `+`, then at least one ASCII digit,
/// with a value that fits.
pub open spec fn parse_usize_spec(s: Seq<char>) -> Option<nat> {
    let d = if s.len() > 0 && s[0] == '+' {
        s.drop_first()
    } else {
        s
    };
    if d.len() > 0 && all_digits(d) && digits_value(d) <= usize::MAX {
        Some(digits_value(d))
    } else {
        None
    }
}

/// The answer typed at the prompt, given `candidates` listed choices:
/// empty or `s` skips, `q` quits (any case), `#<id>` or a `.../shows/<id>`
/// URL names a show id, and a number from 1 to `candidates` picks that
/// candidate. Anything else is `None`, including an id whose digits (any
/// Unicode decimal digits) are not all ASCII or whose value is too large for
/// `u64`.
pub open spec fn parse_answer_spec(input: Seq<char>, candidates: nat) -> Option<Answer> {
    let text = trim_ws(input);
    let low = lowercase_of(text);
    if low == Seq::<char>::empty() || low == "s"@ {
        Some(Answer::Skip)
    } else if low == "q"@ {
        Some(Answer::Quit)
    } else {
        match show_id_start(text) {
            Some(a) => {
                let run = text.subrange(a, udigit_end(text, a));
                let v = digits_value(run);
                if all_digits(run) && v <= u64::MAX {
                    Some(Answer::Id(v as u64))
                } else {
                    None
                }
            },
            None => match parse_usize_spec(text) {
                Some(n) => if 1 <= n <= candidates {
                    Some(Answer::Pick((n - 1) as usize))
                } else {
                    None
                },
                None => None,
            },
        }
    }
}

/// Value of the ASCII digits `s[a..b]`, or `None` when it exceeds `max`.
pub(crate) fn checked_digits(s: &Vec<char>, a: usize, b: usize, max: u64) -> (r: Option<u64>)
    requires
        a <= b <= s.len(),
        all_digits(s@.subrange(a as int, b as int)),
    ensures
        match r {
            Some(v) => v == digits_value(s@.subrange(a as int, b as int)) && v <= max,
            None => digits_value(s@.subrange(a as int, b as int)) > max,
        },
{
    let mut v: u64 = 0;
    let mut i = a;
    while i < b
        invariant
            a <= i <= b <= s.len(),
            all_digits(s@.subrange(a as int, b as int)),
            v == digits_value(s@.subrange(a as int, i as int)),
            v <= max,
        decreases b - i,
    {
        let c = s[i];
        assert(s@.subrange(a as int, b as int)[i - a] == c);
        let d: u64 = ((c as u32) - ('0' as u32)) as u64;
        let ghost t = s@.subrange(a as int, i + 1);
        assert(t.drop_last() =~= s@.subrange(a as int, i as int));
        if d > max || v > (max - d) / 10 {
            proof {
                assert(v * 10 + d > max) by (nonlinear_arith)
                    requires
                        d > max || v > (max - d) / 10,
                        d <= 9,
                        v >= 0,
                ;
                lemma_digits_monotone(s@, a as int, i + 1, b as int);
            }
            return None;
        }
        proof {
            assert(v * 10 + d <= max) by (nonlinear_arith)
                requires
                    v <= (max - d) / 10,
                    d <= 9,
                    d <= max,
            ;
        }
        v = v * 10 + d;
        i = i + 1;
    }
    Some(v)
}

/// Extending a digit string never makes its value smaller.
proof fn lemma_digits_monotone(s: Seq<char>, a: int, i: int, b: int)
    requires
        0 <= a <= i <= b <= s.len(),
        all_digits(s.subrange(a, b)),
    ensures
        digits_value(s.subrange(a, i)) <= digits_value(s.subrange(a, b)),
    decreases b - i,
{
    if i < b {
        lemma_digits_monotone(s, a, i + 1, b);
        let t = s.subrange(a, i + 1);
        assert(t.drop_last() =~= s.subrange(a, i));
    }
}

/// A typed number reads as nothing but a number: it is ASCII, unchanged by
/// lower-casing, neither `s` nor `q`, and names no show id.
proof fn lemma_number_is_only_a_number(text: Seq<char>)
    requires
        parse_usize_spec(text) is Some,
    ensures
        all_ascii(text),
        ascii_lowered(text) == text,
        text.len() > 0,
        text != "s"@,
        text != "q"@,
        show_id_start(text) is None,
{
    let d = if text.len() > 0 && text[0] == '+' {
        text.drop_first()
    } else {
        text
    };
    assert forall|k: int| 0 <= k < text.len() implies text[k] == '+' || is_digit(#[trigger] text[k]) by {
        if text[0] == '+' && k > 0 {
            assert(text[k] == d[k - 1]);
        } else if text[0] != '+' {
            assert(text[k] == d[k]);
        }
    }
    assert(ascii_lowered(text) =~= text);
    reveal_strlit("s");
    reveal_strlit("q");
    reveal_strlit("/shows/");
    assert(text.last() == d.last());
    assert(is_digit(text.last()));
    if text.len() == 1 {
        assert(text[0] != 's' && text[0] != 'q');
    }
    lemma_no_shows_url(text, text.len() as int);
}

/// Text made of `+` and digits holds no `/shows/` marker.
proof fn lemma_no_shows_url(text: Seq<char>, hi: int)
    requires
        forall|k: int| 0 <= k < text.len() ==> text[k] == '+' || is_digit(#[trigger] text[k]),
    ensures
        last_shows_url(text, hi) is None,
    decreases hi + 1,
{
    reveal_strlit("/shows/");
    if hi >= 0 {
        if shows_url_at(text, hi) {
            assert(text.subrange(hi, hi + 7)[0] == '/');
            assert(text[hi] == '/');
        }
        lemma_no_shows_url(text, hi - 1);
    }
}

/// Reads the answer typed at the prompt. A pick `Pick(i)` comes exactly when
/// the trimmed input reads as a number `m` from 1 to `candidates`, and then
/// `i == m - 1`.
pub fn parse_answer(input: &str, candidates: usize) -> (r: Option<Answer>)
    ensures
        r == parse_answer_spec(input@, candidates as nat),
        r matches Some(Answer::Pick(i)) ==> i < candidates && parse_usize_spec(trim_ws(input@))
            == Some((i + 1) as nat),
        parse_usize_spec(trim_ws(input@)) matches Some(m) ==> (1 <= m <= candidates ==> r == Some(
            Answer::Pick((m - 1) as usize),
        )),
{
    let text = trim_ws_vec(&chars_of(input));
    let low = lowercase(&text);
    proof {
        if parse_usize_spec(text@) is Some {
            lemma_number_is_only_a_number(text@);
        }
    }
    if low.len() == 0 || eq_vec(&low, &chars_of("s")) {
        assert(low.len() == 0 ==> low@ =~= Seq::<char>::empty());
        return Some(Answer::Skip);
    }
    assert(low@ != Seq::<char>::empty());
    if eq_vec(&low, &chars_of("q")) {
        return Some(Answer::Quit);
    }
    match show_id_start_exec(&text) {
        Some(a) => {
            let digits = digit_table();
            let e = udigit_end_exec(&text, a, &digits);
            if !all_digits_in(&text, a, e) {
                return None;
            }
            match checked_digits(&text, a, e, u64::MAX) {
                Some(v) => Some(Answer::Id(v)),
                None => None,
            }
        },
        None => {
            let start: usize = if text.len() > 0 && text[0] == '+' {
                1
            } else {
                0
            };
            let ghost d = if text@.len() > 0 && text@[0] == '+' {
                text@.drop_first()
            } else {
                text@
            };
            assert(d =~= text@.subrange(start as int, text@.len() as int));
            let e = skip_digits_exec(&text, start);
            proof {
                lemma_skip_digits_props(text@, start as int);
            }
            if start == text.len() || e != text.len() {
                proof {
                    if e != text.len() {
                        assert(d[e - start] == text@[e as int]);
                    }
                }
                return None;
            }
            assert(all_digits(d)) by {
                assert forall|k: int| 0 <= k < d.len() implies is_digit(#[trigger] d[k]) by {
                    assert(d[k] == text@[start + k]);
                }
            }
            match checked_digits(&text, start, text.len(), usize::MAX as u64) {
                Some(n) => {
                    if 1 <= n && n <= candidates as u64 {
                        Some(Answer::Pick((n - 1) as usize))
                    } else {
                        None
                    }
                },
                None => None,
            }
        },
    }
}

fn shows_url_at_exec(
    s: &Vec<char>,
    k: usize,
    marker: &Vec<char>,
    first_nl: usize,
    digits: &Vec<(char, char)>,
) -> (r: bool)
    requires
        k <= s.len(),
        digits@ == digit_ranges(),
        marker@ == "/shows/"@,
        first_nl <= s.len(),
        forall|m: int| 0 <= m < first_nl ==> s@[m] != '\n',
        first_nl < s.len() ==> s@[first_nl as int] == '\n',
    ensures
        r == shows_url_at(s@, k as int),
{
    if k > first_nl {
        assert(s@[first_nl as int] == '\n');
        return false;
    }
    if s.len() < 8 || k > s.len() - 8 {
        return false;
    }
    eq_vec(&slice_vec(s, k, k + 7), marker) && in_ranges_exec(digits, s[k + 7])
}

fn show_id_start_exec(s: &Vec<char>) -> (r: Option<usize>)
    ensures
        match r {
            Some(a) => show_id_start(s@) == Some(a as int) && a <= s.len(),
            None => show_id_start(s@) is None,
        },
{
    let digits = digit_table();
    if s.len() >= 2 && s[0] == '#' && in_ranges_exec(&digits, s[1]) {
        return Some(1);
    }
    let mut first_nl: usize = 0;
    while first_nl < s.len() && s[first_nl] != '\n'
        invariant
            first_nl <= s.len(),
            forall|m: int| 0 <= m < first_nl ==> s@[m] != '\n',
        decreases s.len() - first_nl,
    {
        first_nl = first_nl + 1;
    }
    let marker = chars_of("/shows/");
    let mut k: usize = s.len();
    loop
        invariant
            k <= s.len(),
            marker@ == "/shows/"@,
            first_nl <= s.len(),
            forall|m: int| 0 <= m < first_nl ==> s@[m] != '\n',
            first_nl < s.len() ==> s@[first_nl as int] == '\n',
            last_shows_url(s@, s.len() as int) == last_shows_url(s@, k as int),
            !(s@.len() >= 2 && s@[0] == '#' && is_udigit(s@[1])),
            digits@ == digit_ranges(),
        decreases k,
    {
        if shows_url_at_exec(s, k, &marker, first_nl, &digits) {
            return Some(k + 7);
        }
        if k == 0 {
            assert(last_shows_url(s@, -1) is None);
            return None;
        }
        k = k - 1;
    }
}

// ---------------------------------------------------------------------------
// Title similarity input
// ---------------------------------------------------------------------------

/// Lower-cased, every run of non-alphanumeric characters turned into one
/// space, and trimmed.
pub open spec fn normalize_spec(text: Seq<char>) -> Seq<char> {
    trim_ws(crate::text::collapse_by(lowercase_of(text), |c: char| !crate::text::is_ascii_alnum(c), ' '))
}

pub fn normalize_vec(text: &Vec<char>) -> (r: Vec<char>)
    ensures
        r@ == normalize_spec(text@),
{
    let s = lowercase(text);
    let ghost p = |c: char| !crate::text::is_ascii_alnum(c);
    let mut out: Vec<char> = Vec::new();
    let mut in_run = false;
    let mut i: usize = 0;
    while i < s.len()
        invariant
            i <= s.len(),
            p == (|c: char| !crate::text::is_ascii_alnum(c)),
            out@ == crate::text::collapse_by(s@.take(i as int), p, ' '),
            in_run == (i > 0 && p(s@[i - 1])),
        decreases s.len() - i,
    {
        let c = s[i];
        let ghost t = s@.take(i + 1);
        assert(t.drop_last() =~= s@.take(i as int));
        assert(t.last() == c);
        assert(i >= 1 ==> t[i - 1] == s@[i - 1]);
        if ('0' <= c && c <= '9') || ('a' <= c && c <= 'z') || ('A' <= c && c <= 'Z') {
            out.push(c);
            in_run = false;
        } else if !in_run {
            out.push(' ');
            in_run = true;
        }
        i = i + 1;
    }
    assert(s@.take(s.len() as int) =~= s@);
    trim_ws_vec(&out)
}

/// Normalizes a title for similarity scoring.
pub fn normalize(text: &str) -> (r: String)
    ensures
        r@ == normalize_spec(text@),
{
    string_of(&normalize_vec(&chars_of(text)))
}

/// Similarity of two show titles, taken on their normalized forms.
pub fn title_sim(a: &str, b: &str) -> (r: Similarity)
    ensures
        r.matches == matched(
            normalize_spec(a@),
            normalize_spec(b@),
            0,
            normalize_spec(a@).len() as int,
            0,
            normalize_spec(b@).len() as int,
        ),
        r.len_a == normalize_spec(a@).len(),
        r.len_b == normalize_spec(b@).len(),
{
    ratio_vec(&normalize_vec(&chars_of(a)), &normalize_vec(&chars_of(b)))
}

/// A candidate show fits the wanted year: no year is wanted (0), or the show
/// premiered that year.
pub open spec fn year_matches_spec(year: int, premiered: Option<Seq<char>>) -> bool {
    year == 0 || (premiered matches Some(p) && premiered_year_spec(p) == Some(year))
}

pub fn year_matches(year: i32, premiered: &Option<String>) -> (r: bool)
    ensures
        r == year_matches_spec(year as int, opt_view(*premiered)),
{
    if year == 0 {
        return true;
    }
    match premiered {
        Some(p) => match premiered_year(p.as_str()) {
            Some(y) => y == year,
            None => false,
        },
        None => false,
    }
}

} // verus!

verus! {

// ---------------------------------------------------------------------------
// Renaming one file
// ---------------------------------------------------------------------------

/// The new name of a subtitle sibling of a renamed video: a subtitle whose
/// stem, without a `.<lang>` suffix, equals the video's old stem gets the
/// new base, the suffix and its extension.
pub open spec fn sibling_target(name: Seq<char>, old_stem: Seq<char>, new_base: Seq<char>) -> Option<
    Seq<char>,
> {
    let ext = crate::tokens::ext_spec(name);
    let stem = name.subrange(0, crate::tokens::stem_end(name));
    let (bare, lang) = match crate::pattern::find(crate::tokens::sub_lang_dot_spec(), stem) {
        Some((a, e)) => (stem.subrange(0, a), stem.subrange(a, e)),
        None => (stem, seq![]),
    };
    if crate::movies::sub_exts().contains(ext) && bare == old_stem {
        Some(new_base + lang + ext)
    } else {
        None
    }
}

/// `(name, new name)` for every sibling in `names`, in order.
pub open spec fn sibling_renames(names: Seq<Seq<char>>, old_stem: Seq<char>, new_base: Seq<char>) -> Seq<
    (Seq<char>, Seq<char>),
>
    decreases names.len(),
{
    if names.len() == 0 {
        seq![]
    } else {
        let pre = sibling_renames(names.drop_last(), old_stem, new_base);
        match sibling_target(names.last(), old_stem, new_base) {
            Some(t) => pre.push((names.last(), t)),
            None => pre,
        }
    }
}

pub open spec fn pair_views(v: Seq<(String, String)>) -> Seq<(Seq<char>, Seq<char>)> {
    v.map_values(|p: (String, String)| (p.0@, p.1@))
}

pub open spec fn string_views(v: Seq<String>) -> Seq<Seq<char>> {
    v.map_values(|s: String| s@)
}

fn sibling_target_exec(name: &Vec<char>, old_stem: &Vec<char>, new_base: &Vec<char>) -> (r: Option<
    Vec<char>,
>)
    ensures
        match r {
            Some(t) => sibling_target(name@, old_stem@, new_base@) == Some(t@),
            None => sibling_target(name@, old_stem@, new_base@) is None,
        },
{
    let ext = crate::tokens::ext_vec(name);
    let stem = slice_vec(name, 0, crate::tokens::stem_end_exec(name));
    let p = crate::tokens::sub_lang_dot();
    proof {
        crate::tokens::lemma_lang_wf();
        crate::pattern::lemma_find_bounds(crate::tokens::sub_lang_dot_spec(), stem@, 0);
    }
    let (bare, lang) = match crate::pattern::find_exec(&p, &stem) {
        Some((a, e)) => (slice_vec(&stem, 0, a), slice_vec(&stem, a, e)),
        None => (slice_vec(&stem, 0, stem.len()), Vec::new()),
    };
    assert(crate::pattern::find(crate::tokens::sub_lang_dot_spec(), stem@) is None ==> bare@
        =~= stem@);
    if crate::naming::contains_word(&crate::movies::sub_exts_vec(), &ext) && eq_vec(&bare, old_stem) {
        let mut t = slice_vec(new_base, 0, new_base.len());
        assert(t@ =~= new_base@);
        append_vec(&mut t, &lang);
        append_vec(&mut t, &ext);
        Some(t)
    } else {
        None
    }
}

/// Renames for the subtitles beside a renamed video, given the names in
/// its folder (sorted), the video's old stem and its new base name.
pub fn sub_sibling_names(names: &Vec<String>, old_stem: &str, new_base: &str) -> (r: Vec<
    (String, String),
>)
    ensures
        pair_views(r@) == sibling_renames(string_views(names@), old_stem@, new_base@),
{
    let old_v = chars_of(old_stem);
    let base_v = chars_of(new_base);
    let ghost all = string_views(names@);
    let mut out: Vec<(String, String)> = Vec::new();
    let mut i: usize = 0;
    while i < names.len()
        invariant
            i <= names.len(),
            all == string_views(names@),
            old_v@ == old_stem@,
            base_v@ == new_base@,
            pair_views(out@) == sibling_renames(all.take(i as int), old_stem@, new_base@),
        decreases names.len() - i,
    {
        let name = chars_of(names[i].as_str());
        let ghost t = all.take(i + 1);
        assert(t.drop_last() =~= all.take(i as int));
        assert(t.last() == names@[i as int]@);
        match sibling_target_exec(&name, &old_v, &base_v) {
            Some(target) => {
                let ghost before = pair_views(out@);
                out.push((crate::identity::clone_string(&names[i]), string_of(&target)));
                assert(pair_views(out@) =~= before.push((name@, target@)));
            },
            None => {},
        }
        i = i + 1;
    }
    assert(all.take(names.len() as int) =~= all);
    out
}

/// The name listed for episode `(s, n)`: the last listing entry with that
/// season and number.
pub open spec fn listed_episode(eps: Seq<(u32, u32, Seq<char>)>, s: u32, n: u32) -> Option<Seq<char>>
    decreases eps.len(),
{
    if eps.len() == 0 {
        None
    } else if eps.last().0 == s && eps.last().1 == n {
        Some(eps.last().2)
    } else {
        listed_episode(eps.drop_last(), s, n)
    }
}

pub fn episode_name(eps: &Vec<(u32, u32, String)>, s: u32, n: u32) -> (r: Option<String>)
    ensures
        crate::identity::opt_view(r) == listed_episode(
            crate::tvmaze::episode_triples_view(eps@),
            s,
            n,
        ),
{
    let ghost all = crate::tvmaze::episode_triples_view(eps@);
    let mut i = eps.len();
    assert(all.take(i as int) =~= all);
    while i > 0
        invariant
            i <= eps.len(),
            all == crate::tvmaze::episode_triples_view(eps@),
            listed_episode(all, s, n) == listed_episode(all.take(i as int), s, n),
        decreases i,
    {
        let ghost t = all.take(i as int);
        assert(t.drop_last() =~= all.take(i - 1));
        assert(t.last() == (eps@[i - 1].0, eps@[i - 1].1, eps@[i - 1].2@));
        if eps[i - 1].0 == s && eps[i - 1].1 == n {
            return Some(crate::identity::clone_string(&eps[i - 1].2));
        }
        i = i - 1;
    }
    None
}

/// What happens to one file of a resolved show.
pub enum Rename {
    /// A multi-episode file, left alone unless the first title may be used.
    MultiSkip,
    /// No title known for the episode.
    NoEpisode,
    /// The file's new stem.
    Stem(String),
}

/// The rename decision for a file: multi-episode files are skipped unless
/// `multi_ep_first`; the title is the file's own, else the listed one.
pub open spec fn plan_rename_spec(
    p: ParsedFileSpec,
    eps: Seq<(u32, u32, Seq<char>)>,
    multi_ep_first: bool,
    resolved_year: Option<int>,
) -> Option<Option<Seq<char>>> {
    if p.ep2 is Some && !multi_ep_first {
        None
    } else {
        let name = match p.title {
            Some(t) => Some(t),
            None => if p.season <= u32::MAX && p.ep <= u32::MAX {
                listed_episode(eps, p.season as u32, p.ep as u32)
            } else {
                None
            },
        };
        match name {
            Some(n) => Some(Some(new_stem_spec(p, n, resolved_year))),
            None => Some(None),
        }
    }
}

pub fn plan_rename(
    p: &ParsedFile,
    eps: &Vec<(u32, u32, String)>,
    multi_ep_first: bool,
    resolved_year: Option<i32>,
) -> (r: Rename)
    ensures
        ({
            let spec = plan_rename_spec(
                p@,
                crate::tvmaze::episode_triples_view(eps@),
                multi_ep_first,
                match resolved_year {
                    Some(y) => Some(y as int),
                    None => None,
                },
            );
            match r {
                Rename::MultiSkip => spec is None,
                Rename::NoEpisode => spec == Some(None::<Seq<char>>),
                Rename::Stem(s) => spec == Some(Some(s@)),
            }
        }),
{
    if p.ep2.is_some() && !multi_ep_first {
        return Rename::MultiSkip;
    }
    let name = match &p.title {
        Some(t) => Some(crate::identity::clone_string(t)),
        None => episode_name(eps, p.season, p.ep),
    };
    match name {
        Some(n) => Rename::Stem(new_stem(p, n.as_str(), resolved_year)),
        None => Rename::NoEpisode,
    }
}

/// The new name for a show folder named `dir_name` once its year is known:
/// `Show (year)`, unless it is already named so.
pub open spec fn dir_rename_spec(show: Seq<char>, year: int, dir_name: Seq<char>) -> Option<Seq<char>> {
    let new_name = show + " ("@ + dec_int(year) + ")"@;
    if dir_name != new_name {
        Some(new_name)
    } else {
        None
    }
}

pub fn dir_rename(show: &str, year: i32, dir_name: &str) -> (r: Option<String>)
    ensures
        crate::identity::opt_view(r) == dir_rename_spec(show@, year as int, dir_name@),
{
    let mut n = chars_of(show);
    append_vec(&mut n, &chars_of(" ("));
    append_vec(&mut n, &dec_int_vec(year));
    append_vec(&mut n, &chars_of(")"));
    if !eq_vec(&chars_of(dir_name), &n) {
        Some(string_of(&n))
    } else {
        None
    }
}

} // verus!

verus! {

// ---------------------------------------------------------------------------
// A renamed file reads back
// ---------------------------------------------------------------------------

proof fn lemma_two_digits(s: Seq<char>, i: int)
    requires
        0 <= i,
        i + 2 <= s.len(),
        is_digit(s[i]),
        is_digit(s[i + 1]),
        i + 2 == s.len() || !is_digit(s[i + 2]),
    ensures
        digit_run(s, i) == 2,
{
    reveal_with_fuel(crate::scan::skip_digits, 3);
}

/// The tail ` - sNNeNN[-eNN] - Name` that `new_stem` writes reads back.
proof fn lemma_tail_reads(s: Seq<char>, p: int, ss: nat, ee: nat, ee2: Option<nat>, name: Seq<char>)
    requires
        0 <= p <= s.len(),
        s.subrange(p, s.len() as int) == " - "@ + ep_tag_spec(ss, ee, ee2) + " - "@ + name,
        ss < 100,
        ee < 100,
        ee2 matches Some(e) ==> e < 100,
        name.len() > 0,
        forall|k: int| 0 <= k < name.len() ==> name[k] != '\n',
    ensures
        ({
            let v = if ee2 is Some { p + 13 } else { p + 9 };
            tail_at(s, p) == Some(
                TailSpec {
                    season: (p + 4, 2),
                    ep: (p + 7, 2),
                    ep2: if ee2 is Some { Some((p + 11, 2)) } else { None },
                    title: Some(v + 3),
                },
            ) && s.subrange(p + 4, p + 6) == dec2(ss) && s.subrange(p + 7, p + 9) == dec2(ee)
                && (ee2 matches Some(e) ==> s.subrange(p + 11, p + 13) == dec2(e))
                && s.subrange(v + 3, s.len() as int) == name
        }),
{
    reveal_strlit(" - ");
    reveal_strlit("s");
    reveal_strlit("e");
    reveal_strlit("-e");
    crate::text::lemma_dec2(ss);
    crate::text::lemma_dec2(ee);
    let t = s.subrange(p, s.len() as int);
    let d1 = dec2(ss);
    let d2 = dec2(ee);
    let base = "s"@ + d1 + "e"@ + d2;
    assert(base.len() == 6);
    let tag = ep_tag_spec(ss, ee, ee2);
    let v = if ee2 is Some { p + 13 } else { p + 9 };
    let tl = if ee2 is Some { 10int } else { 6int };
    match ee2 {
        Some(e) => {
            crate::text::lemma_dec2(e);
            assert(tag == base + "-e"@ + dec2(e));
            assert(tag.len() == 10);
            assert(tag[6] == '-' && tag[7] == 'e');
            assert(tag[8] == dec2(e)[0] && tag[9] == dec2(e)[1]);
        },
        None => {
            assert(tag == base);
        },
    }
    assert(tag.len() == tl);
    assert(tag[0] == 's');
    assert(tag[1] == d1[0] && tag[2] == d1[1]);
    assert(tag[3] == 'e');
    assert(tag[4] == d2[0] && tag[5] == d2[1]);
    let pre = " - "@ + tag + " - "@;
    assert(pre.len() == tl + 6);
    assert(t == pre + name);
    assert(t.len() == s.len() - p);
    assert(s.len() == p + tl + 6 + name.len());
    assert forall|k: int| 0 <= k < tl implies #[trigger] t[3 + k] == tag[k] by {
        assert(t[3 + k] == pre[3 + k]);
    }
    assert(t[0] == ' ' && t[1] == '-' && t[2] == ' ');
    assert(t[tl + 3] == ' ' && t[tl + 4] == '-' && t[tl + 5] == ' ');
    assert forall|k: int| 0 <= k < name.len() implies #[trigger] t[tl + 6 + k] == name[k] by {}
    assert forall|k: int| 0 <= k < t.len() implies #[trigger] s[p + k] == t[k] by {}
    assert(is_digit(d1[0]) && is_digit(d1[1]) && is_digit(d2[0]) && is_digit(d2[1]));
    assert(s[p + 4] == t[4] && t[4] == tag[1]);
    assert(s[p + 5] == t[5] && t[5] == tag[2]);
    assert(s[p + 7] == t[7] && t[7] == tag[4]);
    assert(s[p + 8] == t[8] && t[8] == tag[5]);
    assert(s[p + 3] == 's');
    assert(s[p + 6] == 'e');
    lemma_two_digits(s, p + 4);
    assert(s[p + 9] == t[9]);
    lemma_two_digits(s, p + 7);
    match ee2 {
        Some(e) => {
            assert(is_digit(dec2(e)[0]) && is_digit(dec2(e)[1]));
            assert(s[p + 11] == t[11] && t[11] == tag[8]);
            assert(s[p + 12] == t[12] && t[12] == tag[9]);
            assert(s[p + 10] == t[10] && t[10] == tag[7]);
            assert(s[p + 13] == t[13]);
            assert(s[p + 9] == '-' && s[p + 10] == 'e');
            lemma_two_digits(s, p + 11);
            assert(s.subrange(p + 11, p + 13) =~= dec2(e));
        },
        None => {
            assert(s[p + 9] == ' ');
        },
    }
    assert(s[v] == ' ' && s[v + 1] == '-' && s[v + 2] == ' ');
    assert(s.subrange(p + 4, p + 6) =~= d1);
    assert(s.subrange(p + 7, p + 9) =~= d2);
    assert(v + 3 == p + tl + 6);
    assert forall|k: int| 0 <= k < name.len() implies #[trigger] s[v + 3 + k] == name[k] by {
        assert(s[p + (tl + 6 + k)] == t[tl + 6 + k]);
        assert(t[tl + 6 + k] == name[k]);
    }
    assert forall|k: int| 0 <= k < name.len() implies #[trigger] s.subrange(v + 3, s.len() as int)[k]
        == name[k] by {
        assert(s[v + 3 + k] == name[k]);
    }
    assert(s.subrange(v + 3, s.len() as int) =~= name);
    assert forall|k: int| v + 3 <= k < s.len() implies s[k] != '\n' by {
        assert(s[v + 3 + (k - v - 3)] == name[k - v - 3]);
    }
    assert(no_newline_from(s, v + 3));
}

proof fn lemma_first_brace_at(s: Seq<char>, a: int, c: int)
    requires
        0 <= a <= c < s.len(),
        s[c] == '}',
        forall|k: int| a <= k < c ==> s[k] != '}',
    ensures
        first_brace(s, a) == Some(c),
    decreases c - a,
{
    if a < c {
        lemma_first_brace_at(s, a + 1, c);
    }
}

proof fn lemma_filename_from_skip(s: Seq<char>, l: int, m: int)
    requires
        1 <= l <= m < s.len(),
        forall|k: int| l <= k < m ==> s[k - 1] != '\n' && #[trigger] year_rest(s, k) is None,
    ensures
        filename_from(s, l, true) == filename_from(s, m, true),
    decreases m - l,
{
    if l < m {
        lemma_filename_from_skip(s, l + 1, m);
    }
}

/// An edition tag as organized names carry it: none, or ` {edition-X}` with
/// a non-empty `X` free of `}`.
pub open spec fn edition_tag_ok(e: Seq<char>) -> bool {
    e.len() == 0 || (e.len() > 11 && e.subrange(0, 10) == " {edition-"@ && e.last() == '}' && forall|k: int|
        10 <= k < e.len() - 1 ==> e[k] != '}')
}

/// The year `new_stem` writes: the file's own, else the resolved one.
pub open spec fn written_year(p: ParsedFileSpec, resolved_year: Option<int>) -> Option<int> {
    match p.year {
        Some(y) => Some(y),
        None => resolved_year,
    }
}

/// Where the pieces of a new stem stand.
proof fn lemma_new_stem_layout(p: ParsedFileSpec, name: Seq<char>, resolved_year: Option<int>)
    requires
        written_year(p, resolved_year) matches Some(y) && 1000 <= y <= 9999,
    ensures
        ({
            let s = new_stem_spec(p, name, resolved_year);
            let ln = p.show.len() as int;
            let r = ln + 7;
            let e = p.edition;
            &&& forall|k: int| 0 <= k < ln ==> #[trigger] s[k] == p.show[k]
            &&& s[ln] == ' ' && s[ln + 1] == '(' && s[ln + 6] == ')'
            &&& s.subrange(ln + 2, ln + 6) == crate::text::dec(written_year(p, resolved_year)->0 as nat)
            &&& forall|k: int| 0 <= k < e.len() ==> #[trigger] s[r + k] == e[k]
            &&& r + e.len() <= s.len()
            &&& s.subrange(r + e.len(), s.len() as int) == " - "@ + ep_tag_spec(p.season, p.ep, p.ep2)
                + " - "@ + safe_component_spec(name)
        }),
{
    reveal_strlit(" (");
    reveal_strlit(")");
    let y = written_year(p, resolved_year)->0;
    let s = new_stem_spec(p, name, resolved_year);
    let safe = safe_component_spec(name);
    crate::text::lemma_dec(y as nat);
    let yd = dec_int(y);
    assert(yd == crate::text::dec(y as nat));
    assert(yd.len() == 4);
    let ln = p.show.len() as int;
    let e = p.edition;
    let head = p.show + " ("@ + yd + ")"@ + e;
    let rest = " - "@ + ep_tag_spec(p.season, p.ep, p.ep2) + " - "@ + safe;
    assert(s =~= head + rest);
    let r = ln + 7;
    assert(head.len() == r + e.len());
    assert forall|k: int| 0 <= k < ln implies #[trigger] s[k] == p.show[k] by {
        assert(s[k] == head[k]);
    }
    assert(s[ln] == head[ln]);
    assert(s[ln + 1] == head[ln + 1]);
    assert(s[ln + 6] == head[ln + 6]);
    assert forall|k: int| 0 <= k < 4 implies #[trigger] s.subrange(ln + 2, ln + 6)[k] == yd[k] by {
        assert(s[ln + 2 + k] == head[ln + 2 + k]);
    }
    assert(s.subrange(ln + 2, ln + 6) =~= yd);
    assert forall|k: int| 0 <= k < e.len() implies #[trigger] s[r + k] == e[k] by {
        assert(s[r + k] == head[r + k]);
    }
    assert forall|k: int| 0 <= k < rest.len() implies #[trigger] s.subrange(
        head.len() as int,
        s.len() as int,
    )[k] == rest[k] by {
        assert(s[head.len() + k] == rest[k]);
    }
    assert(s.subrange(head.len() as int, s.len() as int) =~= rest);
}

/// What `new_stem` lays out after the show name: ` (YYYY)`, the edition tag
/// and the episode tail.
pub open spec fn after_show(s: Seq<char>, ln: int, y: int, e: Seq<char>, ss: nat, ee: nat, ee2: Option<nat>, safe: Seq<char>) -> bool {
    &&& 0 < ln
    &&& s[ln] == ' '
    &&& s[ln + 1] == '('
    &&& s[ln + 6] == ')'
    &&& s.subrange(ln + 2, ln + 6) == crate::text::dec(y as nat)
    &&& forall|k: int| 0 <= k < e.len() ==> #[trigger] s[ln + 7 + k] == e[k]
    &&& ln + 7 + e.len() <= s.len()
    &&& s.subrange(ln + 7 + e.len(), s.len() as int) == " - "@ + ep_tag_spec(ss, ee, ee2) + " - "@ + safe
}

/// The episode tail `new_stem` writes, as `tail_at` finds it at `hl`.
pub open spec fn written_tail(hl: int, ee2: Option<nat>) -> TailSpec {
    let v = if ee2 is Some { hl + 13 } else { hl + 9 };
    TailSpec {
        season: (hl + 4, 2),
        ep: (hl + 7, 2),
        ep2: if ee2 is Some { Some((hl + 11, 2)) } else { None },
        title: Some(v + 3),
    }
}

proof fn lemma_year_rest_reads(
    s: Seq<char>,
    ln: int,
    y: int,
    e: Seq<char>,
    ss: nat,
    ee: nat,
    ee2: Option<nat>,
    safe: Seq<char>,
)
    requires
        after_show(s, ln, y, e, ss, ee, ee2, safe),
        edition_tag_ok(e),
        ss < 100,
        ee < 100,
        ee2 matches Some(x) ==> x < 100,
        1000 <= y <= 9999,
        safe.len() > 0,
        forall|k: int| 0 <= k < safe.len() ==> safe[k] != '\n',
    ensures
        year_rest(s, ln) == Some(
            (
                if e.len() == 0 {
                    None
                } else {
                    Some((ln + 7, ln + 7 + e.len()))
                },
                written_tail(ln + 7 + e.len(), ee2),
            ),
        ),
        e.len() > 0 ==> s.subrange(ln + 7, ln + 7 + e.len()) == e,
        digits_value(s.subrange(ln + 2, ln + 6)) == y,
{
    reveal_strlit(" - ");
    reveal_strlit(" {edition-");
    crate::text::lemma_dec(y as nat);
    let r = ln + 7;
    let hl = r + e.len();
    lemma_tail_reads(s, hl, ss, ee, ee2, safe);
    assert(all_digits(s.subrange(ln + 2, ln + 6)));
    let t = tail_at(s, hl)->0;
    assert(t == written_tail(hl, ee2));
    if e.len() == 0 {
        assert(s.subrange(hl, s.len() as int)[1] == '-');
        assert(s[r + 1] == '-');
        if r + 10 <= s.len() {
            assert(s.subrange(r, r + 10)[1] == '-');
            assert(" {edition-"@[1] == '{');
        }
    } else {
        let c = r + e.len() - 1;
        assert forall|k: int| 0 <= k < 10 implies #[trigger] s.subrange(r, r + 10)[k] == e.subrange(0, 10)[k] by {
            assert(s[ln + 7 + k] == e[k]);
        }
        assert(s.subrange(r, r + 10) =~= e.subrange(0, 10));
        assert(s[ln + 7 + (e.len() - 1)] == e[e.len() - 1]);
        assert forall|k: int| r + 10 <= k < c implies s[k] != '}' by {
            assert(s[ln + 7 + (k - r)] == e[k - r]);
        }
        lemma_first_brace_at(s, r + 10, c);
        assert forall|k: int| 0 <= k < e.len() implies #[trigger] s.subrange(r, c + 1)[k] == e[k] by {
            assert(s[ln + 7 + k] == e[k]);
        }
        assert(s.subrange(r, c + 1) =~= e);
    }
}

proof fn lemma_show_is_shortest(s: Seq<char>, show: Seq<char>)
    requires
        show.len() > 0,
        forall|k: int| 0 <= k < show.len() ==> show[k] != '(' && show[k] != '\n',
        forall|k: int| 0 <= k < show.len() ==> #[trigger] s[k] == show[k],
        s.len() > show.len() + 1,
        s[show.len() as int] == ' ',
        year_rest(s, show.len() as int) is Some,
    ensures
        filename_from(s, 1, true) == Some(show.len() as int),
        s.subrange(0, show.len() as int) == show,
{
    let ln = show.len() as int;
    assert forall|k: int| 1 <= k < ln implies s[k - 1] != '\n' && #[trigger] year_rest(s, k) is None by {
        assert(s[k - 1] == show[k - 1]);
        if k + 1 < ln {
            assert(s[k + 1] == show[k + 1]);
        }
    }
    lemma_filename_from_skip(s, 1, ln);
    assert(s[ln - 1] == show[ln - 1]);
    assert forall|k: int| 0 <= k < ln implies #[trigger] s.subrange(0, ln)[k] == show[k] by {
        assert(s[k] == show[k]);
    }
    assert(s.subrange(0, ln) =~= show);
}

/// A stem laid out as `new_stem` writes it reads back piece by piece.
proof fn lemma_layout_reads_back(
    s: Seq<char>,
    show: Seq<char>,
    y: int,
    e: Seq<char>,
    ss: nat,
    ee: nat,
    ee2: Option<nat>,
    safe: Seq<char>,
)
    requires
        show.len() > 0,
        forall|k: int| 0 <= k < show.len() ==> show[k] != '(' && show[k] != '\n',
        forall|k: int| 0 <= k < show.len() ==> #[trigger] s[k] == show[k],
        after_show(s, show.len() as int, y, e, ss, ee, ee2, safe),
        edition_tag_ok(e),
        ss < 100,
        ee < 100,
        ee2 matches Some(x) ==> x < 100,
        1000 <= y <= 9999,
        safe.len() > 0,
        forall|k: int| 0 <= k < safe.len() ==> safe[k] != '\n',
    ensures
        parse_file_spec(s) == Some(
            ParsedFileSpec {
                show,
                year: Some(y),
                edition: e,
                season: ss,
                ep: ee,
                ep2: ee2,
                title: Some(safe),
            },
        ),
{
    let ln = show.len() as int;
    let hl = ln + 7 + e.len();
    lemma_year_rest_reads(s, ln, y, e, ss, ee, ee2, safe);
    lemma_show_is_shortest(s, show);
    lemma_tail_reads(s, hl, ss, ee, ee2, safe);
    crate::text::lemma_dec2(ss);
    crate::text::lemma_dec2(ee);
    match ee2 {
        Some(x) => {
            crate::text::lemma_dec2(x);
        },
        None => {},
    }
    if e.len() == 0 {
        assert(e =~= Seq::<char>::empty());
    }
}

/// A file renamed by `new_stem` reads back as titled, with the show, year,
/// edition and episode numbers it was written with and its (safe) title;
/// for a show name without `(` or line feeds, a four-digit year, an edition
/// tag as organized names carry it, and season and episode numbers below
/// 100. So the next run counts it as already titled.
pub proof fn lemma_new_stem_reads_back(p: ParsedFileSpec, name: Seq<char>, resolved_year: Option<int>)
    requires
        p.show.len() > 0,
        forall|k: int| 0 <= k < p.show.len() ==> p.show[k] != '(' && p.show[k] != '\n',
        edition_tag_ok(p.edition),
        p.season < 100,
        p.ep < 100,
        p.ep2 matches Some(e) ==> e < 100,
        written_year(p, resolved_year) matches Some(y) && 1000 <= y <= 9999,
    ensures
        parse_file_spec(new_stem_spec(p, name, resolved_year)) == Some(
            ParsedFileSpec {
                show: p.show,
                year: written_year(p, resolved_year),
                edition: p.edition,
                season: p.season,
                ep: p.ep,
                ep2: p.ep2,
                title: Some(safe_component_spec(name)),
            },
        ),
        crate::jobs::is_titled(new_stem_spec(p, name, resolved_year)),
{
    let safe = safe_component_spec(name);
    crate::naming::lemma_safe_component_is_safe(name);
    assert forall|k: int| 0 <= k < safe.len() implies safe[k] != '\n' by {
        assert(crate::naming::component_char(safe[k]));
    }
    lemma_new_stem_layout(p, name, resolved_year);
    let y = written_year(p, resolved_year)->0;
    assert(after_show(
        new_stem_spec(p, name, resolved_year),
        p.show.len() as int,
        y,
        p.edition,
        p.season,
        p.ep,
        p.ep2,
        safe,
    ));
    lemma_layout_reads_back(
        new_stem_spec(p, name, resolved_year),
        p.show,
        y,
        p.edition,
        p.season,
        p.ep,
        p.ep2,
        safe,
    );
}

} // verus!

verus! {

// ---------------------------------------------------------------------------
// Settling which show a job is about
// ---------------------------------------------------------------------------

/// What happened last while settling a job's show.
pub enum ResolveEvent {
    /// A new job, with the TVMaze id pinned for its show, if any.
    Start(Option<u64>),
    /// The pinned id was looked up: whether a show came back.
    PinnedFetched(bool),
    /// The title was searched: whether the best candidate cleared the
    /// threshold, and how many candidates were listed.
    Searched(bool, usize),
    /// The user answered the prompt.
    Answered(Answer),
    /// The id the user typed was looked up: whether a show came back.
    ChosenFetched(bool),
}

/// What to do next.
#[derive(PartialEq, Eq, Structural)]
pub enum ResolveAction {
    /// Look the pinned id up.
    FetchPinned(u64),
    /// Search TVMaze by title.
    Search,
    /// Prompt the user, with this many candidates listed.
    Ask(usize),
    /// Look up the id the user typed.
    FetchChosen(u64),
    /// Use the pinned show.
    UsePinned,
    /// Use the show the search matched.
    UseMatched,
    /// Use this listed candidate, and pin it for later runs.
    UseCandidate(usize),
    /// Use the show the user's id named, and pin it for later runs.
    UseChosen,
    /// Leave the job's files alone.
    Skip,
    /// Stop the run.
    Quit,
}

/// The next step: a pin is looked up instead of searching (and a pin that
/// cannot be fetched is never replaced by a search); a search that matches
/// is used; without a decision the user is asked when the run is
/// interactive, and the job is skipped otherwise.
pub open spec fn resolve_step_spec(interactive: bool, ev: ResolveEvent) -> ResolveAction {
    match ev {
        ResolveEvent::Start(Some(id)) => ResolveAction::FetchPinned(id),
        ResolveEvent::Start(None) => ResolveAction::Search,
        ResolveEvent::PinnedFetched(true) => ResolveAction::UsePinned,
        ResolveEvent::PinnedFetched(false) => if interactive {
            ResolveAction::Ask(0)
        } else {
            ResolveAction::Skip
        },
        ResolveEvent::Searched(true, _) => ResolveAction::UseMatched,
        ResolveEvent::Searched(false, n) => if interactive {
            ResolveAction::Ask(n)
        } else {
            ResolveAction::Skip
        },
        ResolveEvent::Answered(Answer::Pick(i)) => ResolveAction::UseCandidate(i),
        ResolveEvent::Answered(Answer::Id(id)) => ResolveAction::FetchChosen(id),
        ResolveEvent::Answered(Answer::Skip) => ResolveAction::Skip,
        ResolveEvent::Answered(Answer::Quit) => ResolveAction::Quit,
        ResolveEvent::ChosenFetched(true) => ResolveAction::UseChosen,
        ResolveEvent::ChosenFetched(false) => ResolveAction::Skip,
    }
}

pub fn resolve_step(interactive: bool, ev: ResolveEvent) -> (r: ResolveAction)
    ensures
        r == resolve_step_spec(interactive, ev),
{
    match ev {
        ResolveEvent::Start(Some(id)) => ResolveAction::FetchPinned(id),
        ResolveEvent::Start(None) => ResolveAction::Search,
        ResolveEvent::PinnedFetched(found) => if found {
            ResolveAction::UsePinned
        } else if interactive {
            ResolveAction::Ask(0)
        } else {
            ResolveAction::Skip
        },
        ResolveEvent::Searched(matched, n) => if matched {
            ResolveAction::UseMatched
        } else if interactive {
            ResolveAction::Ask(n)
        } else {
            ResolveAction::Skip
        },
        ResolveEvent::Answered(a) => match a {
            Answer::Pick(i) => ResolveAction::UseCandidate(i),
            Answer::Id(id) => ResolveAction::FetchChosen(id),
            Answer::Skip => ResolveAction::Skip,
            Answer::Quit => ResolveAction::Quit,
        },
        ResolveEvent::ChosenFetched(found) => if found {
            ResolveAction::UseChosen
        } else {
            ResolveAction::Skip
        },
    }
}

/// A prompt answered with a pick uses a listed candidate: the settling of a
/// show never picks past the candidates it showed.
pub proof fn lemma_pick_is_listed(input: Seq<char>, candidates: nat, interactive: bool)
    requires
        parse_answer_spec(input, candidates) is Some,
    ensures
        resolve_step_spec(
            interactive,
            ResolveEvent::Answered(parse_answer_spec(input, candidates)->0),
        ) matches ResolveAction::UseCandidate(i) ==> i < candidates,
{
}

/// A show is searched for only when nothing is pinned for it: a pinned show
/// is used without searching, and a pin that cannot be fetched leads to the
/// prompt or to skipping the show, never to a search.
pub proof fn lemma_pin_never_searches(interactive: bool, ev: ResolveEvent)
    ensures
        resolve_step_spec(interactive, ev) == ResolveAction::Search ==> ev == ResolveEvent::Start(None),
{
}

/// A multi-episode file is skipped exactly when the first episode's title
/// may not be used. Otherwise a file with its own title gets a new stem built
/// from that title, and one without gets a new stem built from the title
/// listed for its season and episode, if one is listed.
pub proof fn lemma_plan_rename_law(
    p: ParsedFileSpec,
    eps: Seq<(u32, u32, Seq<char>)>,
    multi_ep_first: bool,
    resolved_year: Option<int>,
)
    ensures
        plan_rename_spec(p, eps, multi_ep_first, resolved_year) is None <==> (p.ep2 is Some
            && !multi_ep_first),
        multi_ep_first ==> plan_rename_spec(p, eps, multi_ep_first, resolved_year) is Some,
        !(p.ep2 is Some && !multi_ep_first) ==> (p.title matches Some(t) ==> plan_rename_spec(
            p,
            eps,
            multi_ep_first,
            resolved_year,
        ) == Some(Some(new_stem_spec(p, t, resolved_year)))),
        !(p.ep2 is Some && !multi_ep_first) && p.title is None && p.season <= u32::MAX && p.ep
            <= u32::MAX ==> (listed_episode(eps, p.season as u32, p.ep as u32) matches Some(n)
            ==> plan_rename_spec(p, eps, multi_ep_first, resolved_year) == Some(
            Some(new_stem_spec(p, n, resolved_year)),
        )),
{
}

/// Keeps every character but spaces.
pub open spec fn not_space() -> spec_fn(char) -> bool {
    |c: char| c != ' '
}

/// Holds of every character but the ASCII letters and digits.
pub open spec fn not_alnum() -> spec_fn(char) -> bool {
    |c: char| !crate::text::is_ascii_alnum(c)
}

/// Keeps the ASCII letters and digits.
pub open spec fn ascii_alnum() -> spec_fn(char) -> bool {
    |c: char| crate::text::is_ascii_alnum(c)
}

/// Collapsing every run of non-alphanumerics into a space keeps the letters
/// and digits, in order, and leaves nothing else but spaces.
proof fn lemma_collapse_alnum(s: Seq<char>)
    ensures
        crate::text::collapse_by(s, not_alnum(), ' ').filter(not_space())
            == s.filter(ascii_alnum()),
        forall|k: int|
            0 <= k < crate::text::collapse_by(s, not_alnum(), ' ').len()
                ==> crate::text::is_ascii_alnum(
                #[trigger] crate::text::collapse_by(s, not_alnum(), ' ')[k],
            ) || crate::text::collapse_by(s, not_alnum(), ' ')[k] == ' ',
        forall|k: int|
            1 <= k < crate::text::collapse_by(s, not_alnum(), ' ').len() && #[trigger] crate::text::collapse_by(
                s,
                not_alnum(),
                ' ',
            )[k] == ' ' ==> crate::text::collapse_by(s, not_alnum(), ' ')[k - 1] != ' ',
        s.len() > 0 ==> crate::text::collapse_by(s, not_alnum(), ' ').len() > 0 && crate::text::collapse_by(
            s,
            not_alnum(),
            ' ',
        ).last() == (if not_alnum()(s.last()) {
            ' '
        } else {
            s.last()
        }),
    decreases s.len(),
{
    reveal(Seq::filter);
    let np = not_alnum();
    let out = crate::text::collapse_by(s, np, ' ');
    if s.len() > 0 {
        let t = s.drop_last();
        let c = s.last();
        lemma_collapse_alnum(t);
        let pre = crate::text::collapse_by(t, np, ' ');
        assert(s =~= t.push(c));
        t.lemma_filter_push(c, ascii_alnum());
        if !np(c) {
            assert(out == pre.push(c));
            pre.lemma_filter_push(c, not_space());
            assert(c != ' ');
        } else if s.len() >= 2 && np(s[s.len() - 2]) {
            assert(out == pre);
        } else {
            assert(out == pre.push(' '));
            pre.lemma_filter_push(' ', not_space());
        }
        assert forall|k: int| 0 <= k < out.len() implies crate::text::is_ascii_alnum(#[trigger] out[k])
            || out[k] == ' ' by {
            if k < pre.len() {
                assert(out[k] == pre[k]);
            }
        }
        if s.len() >= 2 {
            assert(t.last() == s[s.len() - 2]);
        }
        assert forall|k: int| 1 <= k < out.len() && #[trigger] out[k] == ' ' implies out[k - 1] != ' ' by {
            if k < pre.len() {
                assert(out[k] == pre[k] && out[k - 1] == pre[k - 1]);
            } else {
                assert(out[k - 1] == pre.last());
            }
        }
    }
}

/// Trimming characters that are all spaces removes no letter or digit.
proof fn lemma_trim_spaces_filter(x: Seq<char>, p: spec_fn(char) -> bool)
    requires
        forall|k: int| 0 <= k < x.len() ==> p(#[trigger] x[k]) ==> x[k] == ' ',
    ensures
        crate::text::trim_by(x, p).filter(not_space()) == x.filter(not_space()),
{
    lemma_trim_start_spaces(x, p);
    let y = crate::text::trim_start_by(x, p);
    lemma_trim_start_keeps(x, p);
    assert forall|k: int| 0 <= k < y.len() implies p(#[trigger] y[k]) ==> y[k] == ' ' by {
        let m = choose|m: int| 0 <= m < x.len() && x[m] == y[k];
        assert(p(x[m]) ==> x[m] == ' ');
    }
    lemma_trim_end_spaces(y, p);
}

proof fn lemma_trim_start_keeps(x: Seq<char>, p: spec_fn(char) -> bool)
    ensures
        forall|k: int| 0 <= k < crate::text::trim_start_by(x, p).len() ==> exists|m: int|
            0 <= m < x.len() && x[m] == #[trigger] crate::text::trim_start_by(x, p)[k],
    decreases x.len(),
{
    if x.len() > 0 && p(x[0]) {
        let t = x.drop_first();
        lemma_trim_start_keeps(t, p);
        assert forall|k: int| 0 <= k < crate::text::trim_start_by(x, p).len() implies exists|m: int|
            0 <= m < x.len() && x[m] == #[trigger] crate::text::trim_start_by(x, p)[k] by {
            let m = choose|m: int| 0 <= m < t.len() && t[m] == crate::text::trim_start_by(t, p)[k];
            assert(x[m + 1] == t[m]);
        }
    } else {
        assert forall|k: int| 0 <= k < crate::text::trim_start_by(x, p).len() implies exists|m: int|
            0 <= m < x.len() && x[m] == #[trigger] crate::text::trim_start_by(x, p)[k] by {
            assert(x[k] == crate::text::trim_start_by(x, p)[k]);
        }
    }
}

proof fn lemma_trim_start_spaces(x: Seq<char>, p: spec_fn(char) -> bool)
    requires
        forall|k: int| 0 <= k < x.len() ==> p(#[trigger] x[k]) ==> x[k] == ' ',
    ensures
        crate::text::trim_start_by(x, p).filter(not_space()) == x.filter(not_space()),
    decreases x.len(),
{
    reveal(Seq::filter);
    if x.len() > 0 && p(x[0]) {
        let t = x.drop_first();
        assert forall|k: int| 0 <= k < t.len() implies p(#[trigger] t[k]) ==> t[k] == ' ' by {
            assert(t[k] == x[k + 1]);
        }
        lemma_trim_start_spaces(t, p);
        assert(x =~= seq![x[0]] + t);
        Seq::filter_distributes_over_add(seq![x[0]], t, not_space());
        assert(x[0] == ' ');
        reveal_with_fuel(Seq::filter, 2);
        assert(seq![x[0]].drop_last() =~= Seq::<char>::empty());
        assert(seq![x[0]].filter(not_space()) =~= Seq::<char>::empty());
        assert(Seq::<char>::empty() + t.filter(not_space()) =~= t.filter(not_space()));
    }
}

proof fn lemma_trim_end_spaces(x: Seq<char>, p: spec_fn(char) -> bool)
    requires
        forall|k: int| 0 <= k < x.len() ==> p(#[trigger] x[k]) ==> x[k] == ' ',
    ensures
        crate::text::trim_end_by(x, p).filter(not_space()) == x.filter(not_space()),
    decreases x.len(),
{
    if x.len() > 0 && p(x.last()) {
        let t = x.drop_last();
        assert forall|k: int| 0 <= k < t.len() implies p(#[trigger] t[k]) ==> t[k] == ' ' by {
            assert(t[k] == x[k]);
        }
        lemma_trim_end_spaces(t, p);
        assert(x =~= t.push(x.last()));
        assert(x[x.len() - 1] == ' ');
        t.lemma_filter_push(x.last(), not_space());
    }
}

/// Normalizing keeps every ASCII letter and digit of the lower-cased text,
/// in order: with its spaces removed, the result is the lower-cased text
/// filtered to its ASCII letters and digits. Every other character of the
/// result is a single space between two of them.
pub proof fn lemma_normalize_keeps_alnum(text: Seq<char>)
    ensures
        normalize_spec(text).filter(not_space()) == lowercase_of(text).filter(ascii_alnum()),
        forall|k: int|
            0 <= k < normalize_spec(text).len() ==> crate::text::is_ascii_alnum(#[trigger] normalize_spec(text)[k])
                || normalize_spec(text)[k] == ' ',
        forall|k: int|
            1 <= k < normalize_spec(text).len() && #[trigger] normalize_spec(text)[k] == ' '
                ==> normalize_spec(text)[k - 1] != ' ',
        normalize_spec(text).len() > 0 ==> normalize_spec(text)[0] != ' ' && normalize_spec(text).last()
            != ' ',
{
    let l = lowercase_of(text);
    let np = not_alnum();
    assert(np == (|c: char| !crate::text::is_ascii_alnum(c)));
    let x = crate::text::collapse_by(l, np, ' ');
    lemma_collapse_alnum(l);
    let wsp = |c: char| crate::text::is_ws(c);
    assert forall|k: int| 0 <= k < x.len() implies wsp(#[trigger] x[k]) ==> x[k] == ' ' by {
        assert(crate::text::is_ascii_alnum(x[k]) || x[k] == ' ');
    }
    lemma_trim_spaces_filter(x, wsp);
    assert(normalize_spec(text) == crate::text::trim_by(x, wsp));
    let q = |c: char| crate::text::is_ascii_alnum(c) || c == ' ';
    assert forall|k: int| 0 <= k < x.len() implies q(#[trigger] x[k]) by {}
    crate::text::lemma_trim_chars(x, wsp, q);
    assert(crate::naming::single_spaced(x)) by {
        assert forall|k: int| 0 <= k < x.len() && #[trigger] crate::text::is_ws(x[k]) implies x[k] == ' ' by {
            assert(crate::text::is_ascii_alnum(x[k]) || x[k] == ' ');
        }
    }
    crate::naming::lemma_trim_single_spaced(x, wsp);
}

} // verus!
