//! `acervo titles`, gathering the work: which organized episode files need a
//! title (or a year), grouped by show and taken show by show in order.

use vstd::prelude::*;
use crate::order::{
    lemma_str_lt_irreflexive, lemma_str_lt_total, lemma_str_lt_transitive, str_eq_exec, str_lt,
    str_lt_exec,
};
use crate::text::{chars_of, string_of};
use crate::titles::{
    ParsedFile, ParsedFileSpec, parse_file_no_year_spec, parse_file_no_year_vec, parse_file_spec,
    parse_file_vec,
};

verus! {

/// What a group of files shares: the show, its year (0 for none), the
/// edition tag, and whether the year is still to be found.
pub struct JobKey {
    pub show: String,
    pub year: i32,
    pub edition: String,
    pub needs_year: bool,
}

pub struct JobKeySpec {
    pub show: Seq<char>,
    pub year: int,
    pub edition: Seq<char>,
    pub needs_year: bool,
}

impl View for JobKey {
    type V = JobKeySpec;

    open spec fn view(&self) -> JobKeySpec {
        JobKeySpec {
            show: self.show@,
            year: self.year as int,
            edition: self.edition@,
            needs_year: self.needs_year,
        }
    }
}

/// The order jobs are taken in: by show, year, edition, and those with a
/// year before those without.
pub open spec fn key_lt(a: JobKeySpec, b: JobKeySpec) -> bool {
    ||| str_lt(a.show, b.show)
    ||| a.show == b.show && a.year < b.year
    ||| a.show == b.show && a.year == b.year && str_lt(a.edition, b.edition)
    ||| a.show == b.show && a.year == b.year && a.edition == b.edition && !a.needs_year && b.needs_year
}

proof fn lemma_key_lt_transitive(a: JobKeySpec, b: JobKeySpec, c: JobKeySpec)
    requires
        key_lt(a, b),
        key_lt(b, c),
    ensures
        key_lt(a, c),
{
    lemma_str_lt_irreflexive(a.show);
    lemma_str_lt_irreflexive(a.edition);
    if str_lt(a.show, b.show) && str_lt(b.show, c.show) {
        lemma_str_lt_transitive(a.show, b.show, c.show);
    }
    if str_lt(a.edition, b.edition) && str_lt(b.edition, c.edition) {
        lemma_str_lt_transitive(a.edition, b.edition, c.edition);
    }
    if a.show == c.show && str_lt(a.show, b.show) && str_lt(b.show, c.show) {
        lemma_str_lt_transitive(a.show, b.show, a.show);
    }
}

proof fn lemma_key_lt_total(a: JobKeySpec, b: JobKeySpec)
    requires
        a != b,
    ensures
        key_lt(a, b) || key_lt(b, a),
{
    if a.show != b.show {
        lemma_str_lt_total(a.show, b.show);
    } else if a.edition != b.edition {
        lemma_str_lt_total(a.edition, b.edition);
    }
}

/// The file already carries a title.
pub open spec fn is_titled(stem: Seq<char>) -> bool {
    parse_file_spec(stem) matches Some(p) && p.title is Some
}

/// How a file's stem reads when it is to be worked on.
pub open spec fn parsed_of(stem: Seq<char>) -> Option<ParsedFileSpec> {
    match parse_file_spec(stem) {
        Some(p) => if p.title is Some {
            None
        } else {
            Some(p)
        },
        None => parse_file_no_year_spec(stem),
    }
}

/// The job a file belongs to: a titleless `Show (YYYY) - sNNeNN` joins the
/// job of its show, year and edition; a `Show - sNNeNN[ - Title]` joins its
/// show's job that still needs the year.
pub open spec fn job_of(stem: Seq<char>) -> Option<JobKeySpec> {
    match parse_file_spec(stem) {
        Some(p) => if p.title is Some {
            None
        } else {
            Some(
                JobKeySpec {
                    show: p.show,
                    year: match p.year {
                        Some(y) => y,
                        None => 0,
                    },
                    edition: p.edition,
                    needs_year: false,
                },
            )
        },
        None => match parse_file_no_year_spec(stem) {
            Some(p) => Some(JobKeySpec { show: p.show, year: 0, edition: seq![], needs_year: true }),
            None => None,
        },
    }
}

/// A show's files and what they share.
pub struct Job {
    pub key: JobKey,
    /// The files (by index) with their parsed names, in the given order.
    pub files: Vec<(usize, ParsedFile)>,
}

/// The work on a list of video stems.
pub struct TitleJobs {
    /// How many files are already titled.
    pub titled: usize,
    /// The jobs in the order they are taken.
    pub jobs: Vec<Job>,
}

pub open spec fn stems_view(v: Seq<String>) -> Seq<Seq<char>> {
    v.map_values(|s: String| s@)
}

pub open spec fn job_keys(v: Seq<Job>) -> Seq<JobKeySpec> {
    v.map_values(|j: Job| j.key@)
}

/// `files` is every file of the job with key `k`, ascending, each with its
/// parsed name.
pub open spec fn job_files(stems: Seq<Seq<char>>, k: JobKeySpec, files: Seq<(usize, ParsedFile)>) -> bool {
    &&& forall|a: int, b: int| 0 <= a < b < files.len() ==> #[trigger] files[a].0 < #[trigger] files[b].0
    &&& forall|a: int|
        0 <= a < files.len() ==> #[trigger] files[a].0 < stems.len() && job_of(stems[files[a].0 as int])
            == Some(k) && parsed_of(stems[files[a].0 as int]) == Some(files[a].1@)
    &&& forall|i: int|
        0 <= i < stems.len() && #[trigger] job_of(stems[i]) == Some(k) ==> exists|a: int|
            0 <= a < files.len() && #[trigger] files[a].0 == i
}

impl ParsedFile {
    pub fn clone_parsed(&self) -> (r: ParsedFile)
        ensures
            r@ == self@,
    {
        ParsedFile {
            show: crate::identity::clone_string(&self.show),
            year: self.year,
            edition: crate::identity::clone_string(&self.edition),
            season: self.season,
            ep: self.ep,
            ep2: self.ep2,
            title: match &self.title {
                Some(t) => Some(crate::identity::clone_string(t)),
                None => None,
            },
        }
    }
}

struct KeyC {
    show: Vec<char>,
    year: i32,
    edition: Vec<char>,
    needs_year: bool,
}

spec fn key_c_view(k: KeyC) -> JobKeySpec {
    JobKeySpec { show: k.show@, year: k.year as int, edition: k.edition@, needs_year: k.needs_year }
}

fn key_lt_exec(a: &KeyC, b: &KeyC) -> (r: bool)
    ensures
        r == key_lt(key_c_view(*a), key_c_view(*b)),
{
    if str_lt_exec(&a.show, &b.show) {
        return true;
    }
    if !str_eq_exec(&a.show, &b.show) {
        proof {
            lemma_str_lt_irreflexive(a.show@);
        }
        return false;
    }
    if a.year != b.year {
        return a.year < b.year;
    }
    if str_lt_exec(&a.edition, &b.edition) {
        return true;
    }
    if !str_eq_exec(&a.edition, &b.edition) {
        return false;
    }
    !a.needs_year && b.needs_year
}

fn key_eq_exec(a: &KeyC, b: &KeyC) -> (r: bool)
    ensures
        r == (key_c_view(*a) == key_c_view(*b)),
{
    str_eq_exec(&a.show, &b.show) && a.year == b.year && str_eq_exec(&a.edition, &b.edition)
        && a.needs_year == b.needs_year
}

fn clone_key(k: &KeyC) -> (r: KeyC)
    ensures
        key_c_view(r) == key_c_view(*k),
{
    let s = crate::text::slice_vec(&k.show, 0, k.show.len());
    let e = crate::text::slice_vec(&k.edition, 0, k.edition.len());
    assert(s@ =~= k.show@);
    assert(e@ =~= k.edition@);
    KeyC { show: s, year: k.year, edition: e, needs_year: k.needs_year }
}

/// Reads one stem: titled, part of a job (with its key and parsed name), or
/// neither.
fn read_stem(stem: &Vec<char>) -> (r: (bool, Option<(KeyC, ParsedFile)>))
    ensures
        r.0 == is_titled(stem@),
        match r.1 {
            Some((k, p)) => job_of(stem@) == Some(key_c_view(k)) && parsed_of(stem@) == Some(p@),
            None => job_of(stem@) is None,
        },
{
    match parse_file_vec(stem) {
        Some(p) => {
            if p.title.is_some() {
                (true, None)
            } else {
                let year: i32 = match p.year {
                    Some(y) => y,
                    None => 0,
                };
                let k = KeyC {
                    show: chars_of(p.show.as_str()),
                    year,
                    edition: chars_of(p.edition.as_str()),
                    needs_year: false,
                };
                (false, Some((k, p)))
            }
        },
        None => match parse_file_no_year_vec(stem) {
            Some(p) => {
                let k = KeyC {
                    show: chars_of(p.show.as_str()),
                    year: 0,
                    edition: Vec::new(),
                    needs_year: true,
                };
                assert(k.edition@ =~= Seq::<char>::empty());
                (false, Some((k, p)))
            },
            None => (false, None),
        },
    }
}

spec fn has_key(s: Seq<KeyC>, k: JobKeySpec) -> bool {
    exists|q: int| 0 <= q < s.len() && #[trigger] key_c_view(s[q]) == k
}

spec fn occurs(sv: Seq<Seq<char>>, n: int, k: JobKeySpec) -> bool {
    exists|i: int| 0 <= i < n && #[trigger] job_of(sv[i]) == Some(k)
}

spec fn read_ok(stems: Seq<Seq<char>>, read: Seq<Option<(KeyC, ParsedFile)>>, n: int) -> bool {
    &&& read.len() == n
    &&& forall|k: int|
        0 <= k < n ==> match #[trigger] read[k] {
            Some((kc, p)) => job_of(stems[k]) == Some(key_c_view(kc)) && parsed_of(stems[k]) == Some(p@),
            None => job_of(stems[k]) is None,
        }
}

spec fn keys_sorted(s: Seq<KeyC>) -> bool {
    forall|a: int, b: int|
        0 <= a < b < s.len() ==> #[trigger] key_lt(key_c_view(s[a]), key_c_view(s[b])) && key_lt(
            key_c_view(s[a]),
            key_c_view(s[b]),
        )
}

/// Adds a key to a sorted list of distinct keys, unless it is there.
fn insert_key(sorted: &mut Vec<KeyC>, kc: &KeyC)
    requires
        keys_sorted(old(sorted)@),
    ensures
        keys_sorted(final(sorted)@),
        forall|k: JobKeySpec| #[trigger]
            has_key(final(sorted)@, k) <==> (has_key(old(sorted)@, k) || k == key_c_view(*kc)),
{
    let ghost kv = key_c_view(*kc);
    let mut p: usize = 0;
    while p < sorted.len() && key_lt_exec(&sorted[p], kc)
        invariant
            p <= sorted.len(),
            kv == key_c_view(*kc),
            forall|q: int| 0 <= q < p ==> key_lt(key_c_view(#[trigger] sorted@[q]), kv),
        decreases sorted.len() - p,
    {
        p = p + 1;
    }
    let present = p < sorted.len() && key_eq_exec(&sorted[p], kc);
    if present {
        proof {
            assert forall|k: JobKeySpec| #[trigger] has_key(sorted@, k) <==> (has_key(sorted@, k) || k == kv) by {
                if k == kv {
                    assert(key_c_view(sorted@[p as int]) == k);
                }
            }
        }
        return;
    }
    proof {
        if p < sorted.len() {
            assert(!key_lt(key_c_view(sorted@[p as int]), kv));
            lemma_key_lt_total(key_c_view(sorted@[p as int]), kv);
        }
    }
    let ghost before = sorted@;
    sorted.insert(p, clone_key(kc));
    proof {
        let nv = sorted@;
        assert(nv =~= before.insert(p as int, nv[p as int]));
        assert(key_c_view(nv[p as int]) == kv);
        assert forall|a: int, b: int| 0 <= a < b < nv.len() implies #[trigger] key_lt(
            key_c_view(nv[a]),
            key_c_view(nv[b]),
        ) by {
            if b < p {
                assert(nv[a] == before[a] && nv[b] == before[b]);
            } else if b == p {
                assert(nv[a] == before[a]);
            } else if a < p {
                assert(nv[a] == before[a] && nv[b] == before[b - 1]);
                if b - 1 > p {
                    assert(key_lt(key_c_view(before[p as int]), key_c_view(before[b - 1])));
                    lemma_key_lt_transitive(kv, key_c_view(before[p as int]), key_c_view(before[b - 1]));
                }
                lemma_key_lt_transitive(key_c_view(before[a]), kv, key_c_view(before[b - 1]));
            } else if a == p {
                assert(nv[b] == before[b - 1]);
                if b - 1 > p {
                    assert(key_lt(key_c_view(before[p as int]), key_c_view(before[b - 1])));
                    lemma_key_lt_transitive(kv, key_c_view(before[p as int]), key_c_view(before[b - 1]));
                }
            } else {
                assert(nv[a] == before[a - 1] && nv[b] == before[b - 1]);
            }
        }
        assert forall|k: JobKeySpec| #[trigger] has_key(nv, k) <==> (has_key(before, k) || k == kv) by {
            if has_key(nv, k) {
                let q = choose|q: int| 0 <= q < nv.len() && #[trigger] key_c_view(nv[q]) == k;
                if q < p {
                    assert(key_c_view(before[q]) == k);
                } else if q > p {
                    assert(key_c_view(before[q - 1]) == k);
                }
            }
            if has_key(before, k) {
                let q2 = choose|q: int| 0 <= q < before.len() && #[trigger] key_c_view(before[q]) == k;
                if q2 < p {
                    assert(key_c_view(nv[q2]) == k);
                } else {
                    assert(key_c_view(nv[q2 + 1]) == k);
                }
            }
            if k == kv {
                assert(key_c_view(nv[p as int]) == k);
            }
        }
    }
}

/// Groups the video stems (in walk order) into jobs.
pub fn plan_jobs(stems: &Vec<String>) -> (r: TitleJobs)
    ensures
        r.titled == stems_view(stems@).filter(|s: Seq<char>| is_titled(s)).len(),
        forall|a: int, b: int|
            0 <= a < b < r.jobs.len() ==> #[trigger] key_lt(job_keys(r.jobs@)[a], job_keys(r.jobs@)[b])
                && key_lt(job_keys(r.jobs@)[a], job_keys(r.jobs@)[b]),
        forall|k: JobKeySpec|
            job_keys(r.jobs@).contains(k) <==> exists|i: int|
                0 <= i < stems.len() && #[trigger] job_of(stems_view(stems@)[i]) == Some(k),
        forall|g: int|
            0 <= g < r.jobs.len() ==> job_files(
                stems_view(stems@),
                #[trigger] r.jobs@[g].key@,
                r.jobs@[g].files@,
            ),
{
    let ghost sv = stems_view(stems@);
    let ghost pt = |s: Seq<char>| is_titled(s);
    let mut read: Vec<Option<(KeyC, ParsedFile)>> = Vec::new();
    let mut titled: usize = 0;
    let mut i: usize = 0;
    while i < stems.len()
        invariant
            i <= stems.len(),
            sv == stems_view(stems@),
            pt == (|s: Seq<char>| is_titled(s)),
            read_ok(sv, read@, i as int),
            titled == sv.take(i as int).filter(pt).len(),
            titled <= i,
        decreases stems.len() - i,
    {
        assert(sv[i as int] == stems@[i as int]@);
        let (t, o) = read_stem(&chars_of(stems[i].as_str()));
        proof {
            assert(sv.take(i + 1) =~= sv.take(i as int).push(sv[i as int]));
            sv.take(i as int).lemma_filter_push(sv[i as int], pt);
        }
        if t {
            titled = titled + 1;
        }
        read.push(o);
        i = i + 1;
    }
    assert(sv.take(stems.len() as int) =~= sv);
    // The distinct keys, in order.
    let mut sorted: Vec<KeyC> = Vec::new();
    let mut t: usize = 0;
    while t < read.len()
        invariant
            t <= read.len(),
            sv == stems_view(stems@),
            read_ok(sv, read@, stems.len() as int),
            keys_sorted(sorted@),
            forall|k: JobKeySpec| #[trigger] has_key(sorted@, k) <==> occurs(sv, t as int, k),
        decreases read.len() - t,
    {
        let ghost before = sorted@;
        match &read[t] {
            None => {},
            Some((kc, _)) => {
                insert_key(&mut sorted, kc);
            },
        }
        proof {
            assert forall|k: JobKeySpec| #[trigger] has_key(sorted@, k) <==> occurs(sv, t + 1, k) by {
                if occurs(sv, t + 1, k) {
                    let i0 = choose|i: int| 0 <= i < t + 1 && #[trigger] job_of(sv[i]) == Some(k);
                    if i0 < t {
                        assert(occurs(sv, t as int, k));
                    }
                }
                if has_key(sorted@, k) && has_key(before, k) {
                    let i0 = choose|i: int| 0 <= i < t && #[trigger] job_of(sv[i]) == Some(k);
                    assert(job_of(sv[i0]) == Some(k));
                }
                if has_key(sorted@, k) && !has_key(before, k) {
                    assert(job_of(sv[t as int]) == Some(k));
                }
            }
        }
        t = t + 1;
    }
    // Each job's files.
    let mut jobs: Vec<Job> = Vec::new();
    let mut g: usize = 0;
    while g < sorted.len()
        invariant
            g <= sorted.len(),
            sv == stems_view(stems@),
            read.len() == stems.len(),
            read_ok(sv, read@, stems.len() as int),
            jobs.len() == g,
            forall|h: int| 0 <= h < g ==> #[trigger] jobs@[h].key@ == key_c_view(sorted@[h]),
            forall|h: int| 0 <= h < g ==> job_files(sv, #[trigger] jobs@[h].key@, jobs@[h].files@),
        decreases sorted.len() - g,
    {
        let ghost kv = key_c_view(sorted@[g as int]);
        let mut files: Vec<(usize, ParsedFile)> = Vec::new();
        let mut i: usize = 0;
        while i < read.len()
            invariant
                i <= read.len(),
                g < sorted.len(),
                kv == key_c_view(sorted@[g as int]),
                read.len() == stems.len(),
                sv == stems_view(stems@),
                read_ok(sv, read@, stems.len() as int),
                forall|a: int, b: int| 0 <= a < b < files.len() ==> #[trigger] files@[a].0 < #[trigger] files@[b].0,
                forall|a: int| 0 <= a < files.len() ==> #[trigger] files@[a].0 < i,
                forall|a: int|
                    0 <= a < files.len() ==> #[trigger] files@[a].0 < sv.len() && job_of(sv[files@[a].0 as int])
                        == Some(kv) && parsed_of(sv[files@[a].0 as int]) == Some(files@[a].1@),
                forall|j: int|
                    0 <= j < i && #[trigger] job_of(sv[j]) == Some(kv) ==> exists|a: int|
                        0 <= a < files.len() && #[trigger] files@[a].0 == j,
            decreases read.len() - i,
        {
            match &read[i] {
                Some((kc, pf)) => {
                    if key_eq_exec(kc, &sorted[g]) {
                        let ghost before = files@;
                        files.push((i, pf.clone_parsed()));
                        proof {
                            assert forall|j: int|
                                0 <= j < i + 1 && #[trigger] job_of(sv[j]) == Some(kv) implies exists|a: int|
                                    0 <= a < files.len() && #[trigger] files@[a].0 == j by {
                                if j < i {
                                    let a = choose|a: int| 0 <= a < before.len() && #[trigger] before[a].0 == j;
                                    assert(files@[a].0 == j);
                                } else {
                                    assert(files@[files.len() - 1].0 == j);
                                }
                            }
                        }
                    }
                },
                None => {},
            }
            i = i + 1;
        }
        let key = JobKey {
            show: string_of(&sorted[g].show),
            year: sorted[g].year,
            edition: string_of(&sorted[g].edition),
            needs_year: sorted[g].needs_year,
        };
        jobs.push(Job { key, files });
        g = g + 1;
    }
    proof {
        let jk = job_keys(jobs@);
        assert forall|k: JobKeySpec| #[trigger] jk.contains(k) <==> occurs(sv, stems.len() as int, k) by {
            if jk.contains(k) {
                let q = choose|q: int| 0 <= q < jk.len() && jk[q] == k;
                assert(key_c_view(sorted@[q]) == k);
                assert(has_key(sorted@, k));
            }
            if occurs(sv, stems.len() as int, k) {
                assert(has_key(sorted@, k));
                let q = choose|q: int| 0 <= q < sorted.len() && #[trigger] key_c_view(sorted@[q]) == k;
                assert(jk[q] == k);
            }
        }
    }
    TitleJobs { titled, jobs }
}

} // verus!
