//! A title/year/edition identity read from a release or folder name, and
//! the table that keeps one spelling per case-insensitive folder key.

use vstd::prelude::*;
use crate::naming::{smart_title_spec, smart_title_vec};
use crate::pattern::{
    find, find_exec, last_match, last_match_exec, lemma_find_bounds, replace_all,
    replace_all_exec, wf_pattern,
};
use crate::text::{
    all_ascii, ascii_lower, ascii_lowered, is_ws, lemma_ascii_lower_nonletter, lemma_join_chars,
    lemma_join_ends, lemma_split_ws_ends, lemma_split_ws_words, split_ws, chars_of, collapse_dots, collapse_dots_vec, collapse_ws, collapse_ws_vec, digits_value,
    eq_vec, join, join_vec, slice_vec, small_digits_value, string_of, trim_set, trim_set_vec,
    trim_ws, trim_ws_vec, views,
};
use crate::tokens::{
    already_rest, already_spec, already_year, edition, edition_label, edition_label_spec,
    edition_spec, match_already, noise, noise_spec, quality, quality_spec, year, year_spec,
};

verus! {

/// A title, a year and an optional edition label.
pub struct Identity {
    pub title: String,
    pub year: i32,
    pub edition: Option<String>,
}

pub struct IdentitySpec {
    pub title: Seq<char>,
    pub year: int,
    pub edition: Option<Seq<char>>,
}

pub open spec fn opt_view(o: Option<String>) -> Option<Seq<char>> {
    match o {
        Some(s) => Some(s@),
        None => None,
    }
}

impl View for Identity {
    type V = IdentitySpec;

    open spec fn view(&self) -> IdentitySpec {
        IdentitySpec { title: self.title@, year: self.year as int, edition: opt_view(self.edition) }
    }
}

pub fn clone_string(s: &String) -> (r: String)
    ensures
        r@ == s@,
{
    s.clone()
}

// ---------------------------------------------------------------------------
// Editions
// ---------------------------------------------------------------------------

/// Runs the edition patterns `k..8` over the normalized name: each pattern
/// found anywhere in `norm` contributes its label (once) and is blanked out
/// of `head`, every occurrence replaced by a space.
pub open spec fn editions_from(
    norm: Seq<char>,
    head: Seq<char>,
    labels: Seq<Seq<char>>,
    k: int,
) -> (Seq<char>, Seq<Seq<char>>)
    decreases 8 - k,
{
    if k < 0 || k >= 8 {
        (head, labels)
    } else if find(edition_spec(k), norm) is Some {
        let labels2 = match edition_label_spec(k) {
            Some(l) => if labels.contains(l) {
                labels
            } else {
                labels.push(l)
            },
            None => labels,
        };
        editions_from(norm, replace_all(edition_spec(k), head, seq![' ']), labels2, k + 1)
    } else {
        editions_from(norm, head, labels, k + 1)
    }
}

/// Blanking edition words out of the head keeps only its characters and
/// spaces.
proof fn lemma_editions_chars(
    norm: Seq<char>,
    head: Seq<char>,
    labels: Seq<Seq<char>>,
    k: int,
    q: spec_fn(char) -> bool,
)
    requires
        forall|m: int| 0 <= m < head.len() ==> q(#[trigger] head[m]),
        q(' '),
    ensures
        forall|m: int|
            0 <= m < editions_from(norm, head, labels, k).0.len() ==> q(
                #[trigger] editions_from(norm, head, labels, k).0[m],
            ),
    decreases 8 - k,
{
    if 0 <= k < 8 {
        if find(edition_spec(k), norm) is Some {
            let sp = seq![' '];
            assert forall|m: int| 0 <= m < sp.len() implies q(#[trigger] sp[m]) by {}
            crate::pattern::lemma_replace_all_chars(edition_spec(k), head, 0, sp, q);
            let labels2 = match edition_label_spec(k) {
                Some(l) => if labels.contains(l) {
                    labels
                } else {
                    labels.push(l)
                },
                None => labels,
            };
            lemma_editions_chars(norm, replace_all(edition_spec(k), head, sp), labels2, k + 1, q);
            assert(editions_from(norm, head, labels, k) == editions_from(
                norm,
                replace_all(edition_spec(k), head, sp),
                labels2,
                k + 1,
            ));
        } else {
            lemma_editions_chars(norm, head, labels, k + 1, q);
            assert(editions_from(norm, head, labels, k) == editions_from(norm, head, labels, k + 1));
        }
    } else {
        assert(editions_from(norm, head, labels, k).0 == head);
    }
}

/// A parsed title has no `.` or `_`, and neither starts nor ends with one of
/// the trimmed characters.
pub open spec fn title_clean(t: Seq<char>) -> bool {
    &&& forall|k: int| 0 <= k < t.len() ==> #[trigger] t[k] != '.' && t[k] != '_'
    &&& t.len() > 0 ==> !title_trim_set().contains(t[0]) && !title_trim_set().contains(t.last())
}

/// Title-casing a clean ASCII title only re-cases letters, so the result is
/// clean too.
proof fn lemma_title_case_keeps_clean(t: Seq<char>, r: Seq<char>)
    requires
        t.len() > 0,
        forall|k: int| 0 <= k < t.len() ==> #[trigger] t[k] != '.' && t[k] != '_',
        !is_ws(t[0]),
        !is_ws(t.last()),
        !title_trim_set().contains(t[0]),
        !title_trim_set().contains(t.last()),
        ascii_lowered(r) == ascii_lowered(join(split_ws(t), seq![' '])),
    ensures
        title_clean(r),
{
    let q = |c: char| c != '.' && c != '_';
    let ws = split_ws(t);
    let j = join(ws, seq![' ']);
    lemma_split_ws_words(t, q);
    lemma_split_ws_ends(t);
    assert forall|k: int| 0 <= k < 1 implies q(#[trigger] seq![' '][k]) by {}
    lemma_join_chars(ws, seq![' '], q);
    lemma_join_ends(ws, seq![' ']);
    assert(r.len() == j.len()) by {
        assert(ascii_lowered(r).len() == r.len());
        assert(ascii_lowered(j).len() == j.len());
    }
    assert forall|k: int| 0 <= k < r.len() implies #[trigger] r[k] != '.' && r[k] != '_' by {
        assert(ascii_lowered(r)[k] == ascii_lower(r[k]));
        assert(ascii_lowered(j)[k] == ascii_lower(j[k]));
        assert(q(j[k]));
        if r[k] == '.' {
            lemma_ascii_lower_nonletter(j[k], '.');
        }
        if r[k] == '_' {
            lemma_ascii_lower_nonletter(j[k], '_');
        }
    }
    let set = title_trim_set();
    assert(ascii_lowered(r)[0] == ascii_lower(r[0]));
    assert(ascii_lowered(j)[0] == ascii_lower(j[0]));
    assert(ascii_lowered(r)[r.len() - 1] == ascii_lower(r.last()));
    assert(ascii_lowered(j)[j.len() - 1] == ascii_lower(j.last()));
    if set.contains(r[0]) {
        let x = r[0];
        assert(ascii_lower(x) == x);
        lemma_ascii_lower_nonletter(j[0], x);
    }
    if set.contains(r.last()) {
        let x = r.last();
        assert(ascii_lower(x) == x);
        lemma_ascii_lower_nonletter(j.last(), x);
    }
}

/// Characters trimmed from both ends of a parsed title.
pub open spec fn title_trim_set() -> Seq<char> {
    seq![' ', '-', '.', '_', '(']
}

/// Identity read from a free-form release name (no `Title (year)` form):
/// normalize separators, cut at the first quality token, strip editions,
/// take the last whole-word year (none when its digits are not ASCII, which
/// do not read as a number); the title is what precedes it (or, when
/// nothing does, what follows it), cleaned of noise words and title-cased.
pub open spec fn release_identity(name: Seq<char>) -> Option<IdentitySpec> {
    let norm = trim_ws(collapse_ws(collapse_dots(name)));
    let head0 = match find(quality_spec(), norm) {
        Some((a, _)) => norm.subrange(0, a),
        None => norm,
    };
    let (head, labels) = editions_from(norm, head0, seq![], 0);
    match last_match(year_spec(), head) {
        None => None,
        Some((a, e)) => if !crate::text::all_digits(head.subrange(a, e)) {
            None
        } else {
            let before = trim_ws(head.subrange(0, a));
            let title0 = if before.len() == 0 {
                trim_ws(head.subrange(e, head.len() as int))
            } else {
                before
            };
            let title = trim_set(
                collapse_ws(replace_all(noise_spec(), title0, seq![' '])),
                title_trim_set(),
            );
            if title.len() == 0 {
                None
            } else {
                Some(
                    IdentitySpec {
                        title: smart_title_spec(title),
                        year: digits_value(head.subrange(a, e)) as int,
                        edition: if labels.len() == 0 {
                            None
                        } else {
                            Some(join(labels, seq![' ']))
                        },
                    },
                )
            }
        },
    }
}

/// Identity of a name in the organized `Title (YYYY)[ {edition-X}]` form,
/// taken verbatim; otherwise as a free-form release name.
pub open spec fn name_identity(s: Seq<char>) -> Option<IdentitySpec> {
    match already_spec(s) {
        Some(l) => Some(
            IdentitySpec {
                title: s.subrange(0, l),
                year: digits_value(s.subrange(l + 2, l + 6)) as int,
                edition: match already_rest(s, l) {
                    Some(Some((a, b))) => Some(s.subrange(a, b)),
                    _ => None,
                },
            },
        ),
        None => release_identity(s),
    }
}

pub proof fn lemma_patterns_wf()
    ensures
        wf_pattern(noise_spec()),
        wf_pattern(year_spec()),
        forall|k: int| 0 <= k < 8 ==> wf_pattern(#[trigger] edition_spec(k)),
{
    reveal_strlit("proper");
    reveal_strlit("repack");
    reveal_strlit("internal");
    reveal_strlit("retail");
    reveal_strlit("limited");
    reveal_strlit("multi");
    reveal_strlit("complete");
    reveal_strlit("hybrid");
    reveal_strlit("\nopen");
    reveal_strlit("matte");
    reveal_strlit("\nopenmatte");
    reveal_strlit("uncut");
    reveal_strlit("dubbed");
    reveal_strlit("subbed");
    reveal_strlit("director's cut");
    reveal_strlit("director's.cut");
    reveal_strlit("director'scut");
    reveal_strlit("directors cut");
    reveal_strlit("directors.cut");
    reveal_strlit("directorscut");
    reveal_strlit("final cut");
    reveal_strlit("final.cut");
    reveal_strlit("finalcut");
    reveal_strlit("extended cut");
    reveal_strlit("extended edition");
    reveal_strlit("extended.cut");
    reveal_strlit("extended.edition");
    reveal_strlit("extendedcut");
    reveal_strlit("extendededition");
    reveal_strlit("extended");
    reveal_strlit("unrated");
    reveal_strlit("theatrical cut");
    reveal_strlit("theatrical.cut");
    reveal_strlit("theatricalcut");
    reveal_strlit("theatrical");
    reveal_strlit("imax");
    reveal_strlit("remastered");
    reveal_strlit("restored");
    assert forall|k: int| 0 <= k < 8 implies wf_pattern(#[trigger] edition_spec(k)) by {
        if k == 0 {
        } else if k == 1 {
        } else if k == 2 {
        } else if k == 3 {
        } else if k == 4 {
        } else if k == 5 {
        } else if k == 6 {
        } else {
        }
    }
}

fn contains_label(labels: &Vec<Vec<char>>, l: &Vec<char>) -> (r: bool)
    ensures
        r == views(labels@).contains(l@),
{
    crate::naming::contains_word(labels, l)
}

fn run_editions(norm: &Vec<char>, head0: Vec<char>) -> (r: (Vec<char>, Vec<Vec<char>>))
    ensures
        (r.0@, views(r.1@)) == editions_from(norm@, head0@, seq![], 0),
{
    proof {
        lemma_patterns_wf();
    }
    let mut head = head0;
    let mut labels: Vec<Vec<char>> = Vec::new();
    let mut k: usize = 0;
    let mut space: Vec<char> = Vec::new();
    space.push(' ');
    assert(space@ =~= seq![' ']);
    assert(views(labels@) =~= Seq::<Seq<char>>::empty());
    while k < 8
        invariant
            k <= 8,
            space@ == seq![' '],
            forall|j: int| 0 <= j < 8 ==> wf_pattern(#[trigger] edition_spec(j)),
            editions_from(norm@, head0@, seq![], 0) == editions_from(
                norm@,
                head@,
                views(labels@),
                k as int,
            ),
        decreases 8 - k,
    {
        let p = edition(k);
        assert(wf_pattern(edition_spec(k as int)));
        if find_exec(&p, norm).is_some() {
            match edition_label(k) {
                Some(l) => {
                    if !contains_label(&labels, &l) {
                        let ghost before = views(labels@);
                        labels.push(l);
                        assert(views(labels@) =~= before.push(l@));
                    }
                },
                None => {},
            }
            head = replace_all_exec(&p, &head, &space);
        }
        k = k + 1;
    }
    (head, labels)
}

/// Reads an identity from a free-form release name. The year it finds is
/// from 1900 to 2099, and the title is never empty.
pub fn release_identity_vec(name: &Vec<char>) -> (r: Option<Identity>)
    ensures
        match r {
            Some(id) => release_identity(name@) == Some(id@),
            None => release_identity(name@) is None,
        },
        r matches Some(id) ==> 1900 <= id.year <= 2099 && id.title@.len() > 0,
        all_ascii(name@) ==> (r matches Some(id) ==> title_clean(id.title@)),
{
    proof {
        lemma_patterns_wf();
    }
    let norm = trim_ws_vec(&collapse_ws_vec(&collapse_dots_vec(name)));
    let ghost ok = |c: char| (c as u32) < 128 && c != '.' && c != '_';
    proof {
        if all_ascii(name@) {
            let dotp = |c: char| c == '.' || c == '_';
            let ascii = |c: char| (c as u32) < 128;
            assert forall|k: int| 0 <= k < name@.len() implies ascii(#[trigger] name@[k]) by {
                assert((name@[k] as u32) < 128);
            }
            crate::text::lemma_collapse_removes(name@, dotp, ' ');
            crate::text::lemma_collapse_chars(name@, dotp, ' ', ascii);
            let cd = collapse_dots(name@);
            assert(cd == crate::text::collapse_by(name@, dotp, ' '));
            assert forall|k: int| 0 <= k < cd.len() implies ok(#[trigger] cd[k]) by {
                assert(!dotp(cd[k]));
                assert(ascii(cd[k]));
            }
            crate::text::lemma_collapse_chars(cd, |c: char| is_ws(c), ' ', ok);
            crate::text::lemma_trim_chars(collapse_ws(cd), |c: char| is_ws(c), ok);
            assert(forall|k: int| 0 <= k < norm@.len() ==> ok(#[trigger] norm@[k]));
        }
    }
    let q = quality();
    proof {
        crate::pattern::lemma_find_bounds_weak(quality_spec(), norm@, 0);
    }
    let head0 = match find_exec(&q, &norm) {
        Some((a, _)) => slice_vec(&norm, 0, a),
        None => slice_vec(&norm, 0, norm.len()),
    };
    assert(find(quality_spec(), norm@) is None ==> head0@ =~= norm@);
    proof {
        if all_ascii(name@) {
            assert forall|k: int| 0 <= k < head0@.len() implies ok(#[trigger] head0@[k]) by {
                assert(head0@[k] == norm@[k]);
            }
            lemma_editions_chars(norm@, head0@, seq![], 0, ok);
        }
    }
    let (head, labels) = run_editions(&norm, head0);
    let yp = year();
    match last_match_exec(&yp, &head) {
        None => None,
        Some((a, e)) => {
            proof {
                lemma_last_match_bounds(head@);
            }
            if !crate::text::all_digits_in(&head, a, e) {
                return None;
            }
            let before = trim_ws_vec(&slice_vec(&head, 0, a));
            let title0 = if before.len() == 0 {
                trim_ws_vec(&slice_vec(&head, e, head.len()))
            } else {
                before
            };
            let np = noise();
            let mut space: Vec<char> = Vec::new();
            space.push(' ');
            assert(space@ =~= seq![' ']);
            let replaced = replace_all_exec(&np, &title0, &space);
            let set = title_trim_vec();
            let title = trim_set_vec(&collapse_ws_vec(&replaced), &set);
            proof {
                if all_ascii(name@) {
                    assert(forall|k: int| 0 <= k < head@.len() ==> ok(#[trigger] head@[k]));
                    let hb = head@.subrange(0, a as int);
                    let he = head@.subrange(e as int, head@.len() as int);
                    assert forall|k: int| 0 <= k < hb.len() implies ok(#[trigger] hb[k]) by {
                        assert(hb[k] == head@[k]);
                    }
                    assert forall|k: int| 0 <= k < he.len() implies ok(#[trigger] he[k]) by {
                        assert(he[k] == head@[e + k]);
                    }
                    crate::text::lemma_trim_chars(hb, |c: char| is_ws(c), ok);
                    crate::text::lemma_trim_chars(he, |c: char| is_ws(c), ok);
                    assert(forall|k: int| 0 <= k < title0@.len() ==> ok(#[trigger] title0@[k]));
                    assert forall|k: int| 0 <= k < space@.len() implies ok(#[trigger] space@[k]) by {}
                    crate::pattern::lemma_replace_all_chars(noise_spec(), title0@, 0, space@, ok);
                    crate::text::lemma_collapse_chars(replaced@, |c: char| is_ws(c), ' ', ok);
                    crate::text::lemma_trim_chars(
                        collapse_ws(replaced@),
                        |c: char| set@.contains(c),
                        ok,
                    );
                    assert(forall|k: int| 0 <= k < title@.len() ==> ok(#[trigger] title@[k]));
                }
            }
            if title.len() == 0 {
                None
            } else {
                let y = small_digits_value(&head, a, e);
                assert(crate::text::pow10(4) == 10000) by {
                    reveal_with_fuel(crate::text::pow10, 5);
                }
                let edition = if labels.len() == 0 {
                    None
                } else {
                    Some(string_of(&join_vec(&labels, &space)))
                };
                proof {
                    let tp = |c: char| set@.contains(c);
                    crate::naming::lemma_collapse_single_spaced(replaced@);
                    crate::naming::lemma_trim_single_spaced(collapse_ws(replaced@), tp);
                    crate::text::lemma_trim_chars(collapse_ws(replaced@), tp, |c: char| true);
                    assert(!tp(title@[0]));
                    assert(set@[0] == ' ');
                    assert(title@[0] != ' ');
                    assert(!crate::text::is_ws(title@[0]));
                    assert(!tp(title@.last()));
                    assert(title@.last() != ' ');
                    assert(!crate::text::is_ws(title@.last()));
                }
                let st = smart_title_vec(&title);
                proof {
                    if all_ascii(name@) {
                        assert forall|k: int| 0 <= k < title@.len() implies (#[trigger] title@[k] as u32)
                            < 128 by {
                            assert(ok(title@[k]));
                        }
                        assert forall|k: int| 0 <= k < title@.len() implies #[trigger] title@[k] != '.'
                            && title@[k] != '_' by {
                            assert(ok(title@[k]));
                        }
                        lemma_title_case_keeps_clean(title@, st@);
                    }
                }
                Some(Identity { title: string_of(&st), year: y as i32, edition })
            }
        },
    }
}

fn title_trim_vec() -> (r: Vec<char>)
    ensures
        r@ == title_trim_set(),
{
    let mut set: Vec<char> = Vec::new();
    set.push(' ');
    set.push('-');
    set.push('.');
    set.push('_');
    set.push('(');
    assert(set@ =~= title_trim_set());
    set
}

/// A year match is four characters, `19` or `20` and two decimal digits;
/// when those are ASCII digits its value is from 1900 to 2099.
proof fn lemma_last_match_bounds(s: Seq<char>)
    ensures
        last_match(year_spec(), s) matches Some((a, e)) ==> 0 <= a && e == a + 4 && e <= s.len()
            && (crate::text::all_digits(s.subrange(a, e)) ==> 1900 <= digits_value(s.subrange(a, e))
            <= 2099),
{
    lemma_patterns_wf();
    let ms = crate::pattern::matches_from(year_spec(), s, 0);
    crate::pattern::lemma_matches_from_elems(year_spec(), s, 0);
    if ms.len() > 0 {
        let m = ms[ms.len() - 1];
        let a = m.0;
        crate::pattern::lemma_first_alt_range(year_spec(), s, a, 0);
        let k = crate::pattern::first_alt(year_spec(), s, a, 0)->0;
        let alt = year_spec().alts[k];
        let dg = year_spec().digits;
        assert(crate::pattern::alt_at(alt, false, dg, s, a));
        assert(crate::pattern::atom_ok(alt[0], false, dg, s[a]));
        assert(crate::pattern::atom_ok(alt[1], false, dg, s[a + 1]));
        let y = s.subrange(a, a + 4);
        assert(y[0] == s[a] && y[1] == s[a + 1] && y[2] == s[a + 2] && y[3] == s[a + 3]);
        if crate::text::all_digits(y) {
            assert(crate::text::is_digit(y[2]) && crate::text::is_digit(y[3]));
            lemma_four_digits(y);
        }
    }
}

/// The value of four digits starting `19` or `20`.
proof fn lemma_four_digits(y: Seq<char>)
    requires
        y.len() == 4,
        (y[0] == '1' && y[1] == '9') || (y[0] == '2' && y[1] == '0'),
        crate::text::is_digit(y[2]),
        crate::text::is_digit(y[3]),
    ensures
        1900 <= digits_value(y) <= 2099,
{
    let y3 = y.drop_last();
    let y2 = y3.drop_last();
    let y1 = y2.drop_last();
    let y0 = y1.drop_last();
    assert(y0.len() == 0);
    assert(y1.last() == y[0] && y2.last() == y[1] && y3.last() == y[2] && y.last() == y[3]);
    assert(digits_value(y0) == 0);
    assert(digits_value(y1) == crate::text::digit_value(y[0]));
    assert(digits_value(y2) == digits_value(y1) * 10 + crate::text::digit_value(y[1]));
    assert(digits_value(y3) == digits_value(y2) * 10 + crate::text::digit_value(y[2]));
    assert(digits_value(y) == digits_value(y3) * 10 + crate::text::digit_value(y[3]));
}

/// Reads an identity from a name: its title is never empty, and outside the
/// organized `Title (YYYY)` form its year is from 1900 to 2099.
pub fn name_identity_vec(s: &Vec<char>) -> (r: Option<Identity>)
    ensures
        match r {
            Some(id) => name_identity(s@) == Some(id@),
            None => name_identity(s@) is None,
        },
        r matches Some(id) ==> id.title@.len() > 0,
        already_spec(s@) is None ==> (r matches Some(id) ==> 1900 <= id.year <= 2099),
        already_spec(s@) is None && all_ascii(s@) ==> (r matches Some(id) ==> title_clean(id.title@)),
{
    match match_already(s) {
        Some((l, ed)) => {
            let y = small_digits_value(s, l + 2, l + 6);
            assert(crate::text::pow10(4) == 10000) by {
                reveal_with_fuel(crate::text::pow10, 5);
            }
            let title = string_of(&slice_vec(s, 0, l));
            let edition = match ed {
                Some((a, b)) => Some(string_of(&slice_vec(s, a, b))),
                None => None,
            };
            Some(Identity { title, year: y as i32, edition })
        },
        None => release_identity_vec(s),
    }
}

// ---------------------------------------------------------------------------
// One spelling per folder key
// ---------------------------------------------------------------------------

/// Remembers, for each case-insensitive folder key, the first title that was
/// filed under it, so later files with a differently-cased title join the
/// same folder.
pub struct TitleCanon {
    entries: Vec<(Vec<char>, Vec<char>)>,
}

impl TitleCanon {
    pub closed spec fn keys_distinct(&self) -> bool {
        forall|i: int, j: int|
            0 <= i < j < self.entries@.len() ==> (#[trigger] self.entries@[i]).0@
                != (#[trigger] self.entries@[j]).0@
    }

    /// Key to title.
    pub closed spec fn view(&self) -> Map<Seq<char>, Seq<char>> {
        Map::new(
            |k: Seq<char>| exists|i: int| 0 <= i < self.entries@.len() && self.entries@[i].0@ == k,
            |k: Seq<char>|
                {
                    let i = choose|i: int|
                        0 <= i < self.entries@.len() && self.entries@[i].0@ == k;
                    self.entries@[i].1@
                },
        )
    }

    pub closed spec fn wf(&self) -> bool {
        self.keys_distinct()
    }

    pub fn new() -> (r: TitleCanon)
        ensures
            r.wf(),
            r.view() == Map::<Seq<char>, Seq<char>>::empty(),
    {
        let r = TitleCanon { entries: Vec::new() };
        assert(r.view() =~= Map::<Seq<char>, Seq<char>>::empty());
        r
    }

    /// The title to file `title` under `key`: the one already registered for
    /// the key, or `title` itself, which is then registered.
    #[verifier::loop_isolation(false)]
    pub fn canonical(&mut self, key: &Vec<char>, title: &Vec<char>) -> (r: Vec<char>)
        requires
            old(self).wf(),
        ensures
            final(self).wf(),
            old(self).view().contains_key(key@) ==> r@ == old(self).view()[key@]
                && final(self).view() == old(self).view(),
            !old(self).view().contains_key(key@) ==> r@ == title@
                && final(self).view() == old(self).view().insert(key@, title@),
    {
        let mut i: usize = 0;
        while i < self.entries.len()
            invariant
                i <= self.entries.len(),
                forall|m: int| 0 <= m < i ==> self.entries@[m].0@ != key@,
            decreases self.entries.len() - i,
        {
            if eq_vec(&self.entries[i].0, key) {
                let r = slice_vec(&self.entries[i].1, 0, self.entries[i].1.len());
                proof {
                    assert(r@ =~= self.entries@[i as int].1@);
                    let j = choose|j: int|
                        0 <= j < self.entries@.len() && self.entries@[j].0@ == key@;
                    if j != i {
                        if j < i {
                            assert(self.entries@[j].0@ != self.entries@[i as int].0@);
                        } else {
                            assert(self.entries@[i as int].0@ != self.entries@[j].0@);
                        }
                    }
                }
                return r;
            }
            i = i + 1;
        }
        let ghost old_view = self.view();
        let ghost old_entries = self.entries@;
        let k2 = slice_vec(key, 0, key.len());
        let t2 = slice_vec(title, 0, title.len());
        assert(k2@ =~= key@);
        assert(t2@ =~= title@);
        self.entries.push((k2, t2));
        proof {
            assert(!old_view.contains_key(key@));
            assert forall|k: Seq<char>| #[trigger]
                self.view().contains_key(k) == old_view.insert(key@, title@).contains_key(k) by {
                if k != key@ && self.view().contains_key(k) {
                    let j = choose|j: int|
                        0 <= j < self.entries@.len() && self.entries@[j].0@ == k;
                    assert(old_entries[j].0@ == k);
                }
                if k != key@ && old_view.contains_key(k) {
                    let j = choose|j: int| 0 <= j < old_entries.len() && old_entries[j].0@ == k;
                    assert(self.entries@[j].0@ == k);
                }
                if k == key@ {
                    assert(self.entries@[old_entries.len() as int].0@ == k);
                }
            }
            assert forall|k: Seq<char>| #[trigger] self.view().contains_key(k) implies self.view()[k]
                == old_view.insert(key@, title@)[k] by {
                let j = choose|j: int| 0 <= j < self.entries@.len() && self.entries@[j].0@ == k;
                if k == key@ {
                    assert(j == old_entries.len());
                } else {
                    let j0 = choose|j: int| 0 <= j < old_entries.len() && old_entries[j].0@ == k;
                    if j != j0 {
                        if j < j0 {
                            assert(self.entries@[j].0@ != self.entries@[j0].0@);
                        } else {
                            assert(self.entries@[j0].0@ != self.entries@[j].0@);
                        }
                    }
                }
            }
            assert(self.view() =~= old_view.insert(key@, title@));
        }
        clone_title(&self.entries[self.entries.len() - 1].1, title)
    }
}

fn clone_title(t: &Vec<char>, title: &Vec<char>) -> (r: Vec<char>)
    requires
        t@ == title@,
    ensures
        r@ == title@,
{
    let r = slice_vec(t, 0, t.len());
    assert(r@ =~= t@);
    r
}

} // verus!
