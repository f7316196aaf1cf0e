//! `acervo tv`: reading show identities and episode numbers from release
//! names, and naming `Show (year)/Season NN/Show (year) - sNNeNN - Title.ext`.

use vstd::prelude::*;
use crate::episode::{
    bare_at, bare_find, bare_find_exec, bare_value, bare_value_exec, multi_ep_at, multi_ep_find,
    multi_ep_find_exec, multi_paren_find, multi_paren_find_exec, se_at, se_find, se_find_exec,
    season_dir_at, season_dir_find, season_dir_find_exec, season_token_find,
    season_token_find_exec, strip_bracket_tail, strip_bracket_tail_vec, strip_season_trail,
    strip_season_trail_vec, is_res_token, is_res_token_exec, digit_run,
};
use crate::identity::{Identity, IdentitySpec, TitleCanon, name_identity, name_identity_vec};
use crate::movies::MediaKind;
use crate::naming::{
    contains_word, push_word, safe_component_spec, safe_component_vec, smart_title_spec,
    smart_title_vec,
};
use crate::pattern::{find, find_exec, replace_all, replace_all_exec, wf_pattern};
use crate::text::{
    all_digits, append_vec, chars_of, collapse_dots, collapse_dots_vec, collapse_ws,
    collapse_ws_vec, dec2, dec2_vec, dec_int, dec_int_vec, digits_value, join, join_vec,
    lowercase, lowercase_of, slice_vec, small_digits_value, string_of, subst_by, trim_set,
    trim_set_vec, trim_ws, trim_ws_vec, views,
};
use crate::tokens::{
    edition, edition_spec, ext_spec, ext_vec, noise, noise_spec, quality, quality_spec, year,
    year_spec,
};

verus! {

pub open spec fn tv_video_exts() -> Seq<Seq<char>> {
    seq![".mkv"@, ".mp4"@, ".m4v"@, ".avi"@, ".mov"@, ".ts"@]
}

pub fn tv_video_exts_vec() -> (r: Vec<Vec<char>>)
    ensures
        views(r@) == tv_video_exts(),
{
    let mut r: Vec<Vec<char>> = Vec::new();
    push_word(&mut r, ".mkv");
    push_word(&mut r, ".mp4");
    push_word(&mut r, ".m4v");
    push_word(&mut r, ".avi");
    push_word(&mut r, ".mov");
    push_word(&mut r, ".ts");
    assert(views(r@) =~= tv_video_exts());
    r
}

/// Kind and extension of a TV library file, by its lower-cased extension.
pub open spec fn media_kind_spec(name: Seq<char>) -> Option<(MediaKind, Seq<char>)> {
    let ext = ext_spec(name);
    if tv_video_exts().contains(ext) {
        Some((MediaKind::Video, ext))
    } else if crate::movies::sub_exts().contains(ext) {
        Some((MediaKind::Sub, ext))
    } else {
        None
    }
}

pub fn media_kind_vec(name: &Vec<char>) -> (r: Option<(MediaKind, Vec<char>)>)
    ensures
        match r {
            Some((k, e)) => media_kind_spec(name@) == Some((k, e@)),
            None => media_kind_spec(name@) is None,
        },
{
    let ext = ext_vec(name);
    if contains_word(&tv_video_exts_vec(), &ext) {
        Some((MediaKind::Video, ext))
    } else if contains_word(&crate::movies::sub_exts_vec(), &ext) {
        Some((MediaKind::Sub, ext))
    } else {
        None
    }
}

/// Kind (video or subtitle) and lower-cased extension of a TV file name.
pub fn media_kind(filename: &str) -> (r: Option<(MediaKind, String)>)
    ensures
        match r {
            Some((k, e)) => media_kind_spec(filename@) == Some((k, e@)),
            None => media_kind_spec(filename@) is None,
        },
{
    match media_kind_vec(&chars_of(filename)) {
        Some((k, e)) => Some((k, string_of(&e))),
        None => None,
    }
}

/// Show identity of a folder or file name.
pub fn parse_show_identity(name: &str) -> (r: Option<Identity>)
    ensures
        match r {
            Some(id) => name_identity(name@) == Some(id@),
            None => name_identity(name@) is None,
        },
{
    name_identity_vec(&chars_of(name))
}

// ---------------------------------------------------------------------------
// Episode titles
// ---------------------------------------------------------------------------

/// The pieces of `s` between occurrences of `c` (`str::split(c)`).
pub open spec fn split_char(s: Seq<char>, c: char) -> Seq<Seq<char>>
    decreases s.len(),
{
    if s.len() == 0 {
        seq![seq![]]
    } else {
        let pre = split_char(s.drop_last(), c);
        if s.last() == c {
            pre.push(seq![])
        } else {
            pre.update(pre.len() - 1, pre.last().push(s.last()))
        }
    }
}

proof fn lemma_split_char_nonempty(s: Seq<char>, c: char)
    ensures
        split_char(s, c).len() >= 1,
    decreases s.len(),
{
    if s.len() > 0 {
        lemma_split_char_nonempty(s.drop_last(), c);
    }
}

/// Splitting `x`, then `c`, then a piece `y` free of `c`, gives the pieces of
/// `x` and then `y`.
proof fn lemma_split_char_append(x: Seq<char>, c: char, y: Seq<char>)
    requires
        forall|k: int| 0 <= k < y.len() ==> y[k] != c,
    ensures
        split_char(x + seq![c] + y, c) == split_char(x, c).push(y),
    decreases y.len(),
{
    lemma_split_char_nonempty(x, c);
    let s = x + seq![c] + y;
    if y.len() == 0 {
        assert(s.drop_last() =~= x);
        assert(s.last() == c);
        assert(y =~= Seq::<char>::empty());
    } else {
        assert(y[y.len() - 1] != c);
        let yd = y.drop_last();
        assert forall|k: int| 0 <= k < yd.len() implies yd[k] != c by {
            assert(yd[k] == y[k]);
        }
        lemma_split_char_append(x, c, yd);
        assert(s.drop_last() =~= x + seq![c] + yd);
        assert(s.last() == y.last());
        let pre = split_char(x, c).push(yd);
        assert(pre.update(pre.len() - 1, pre.last().push(y.last())) =~= split_char(x, c).push(y)) by {
            assert(yd.push(y.last()) =~= y);
        }
    }
}

/// A piece free of `c` splits into itself.
proof fn lemma_split_char_single(y: Seq<char>, c: char)
    requires
        forall|k: int| 0 <= k < y.len() ==> y[k] != c,
    ensures
        split_char(y, c) == seq![y],
    decreases y.len(),
{
    if y.len() > 0 {
        let yd = y.drop_last();
        assert(y[y.len() - 1] != c);
        assert forall|k: int| 0 <= k < yd.len() implies yd[k] != c by {
            assert(yd[k] == y[k]);
        }
        lemma_split_char_single(yd, c);
        assert(seq![yd].update(0, yd.push(y.last())) =~= seq![y]) by {
            assert(yd.push(y.last()) =~= y);
        }
    } else {
        assert(y =~= Seq::<char>::empty());
    }
}

/// Splitting on `c` undoes joining with `c` pieces that hold no `c`.
pub proof fn lemma_split_join(ps: Seq<Seq<char>>, c: char)
    requires
        ps.len() > 0,
        forall|i: int, k: int| 0 <= i < ps.len() && 0 <= k < ps[i].len() ==> #[trigger] ps[i][k] != c,
    ensures
        split_char(crate::text::join(ps, seq![c]), c) == ps,
    decreases ps.len(),
{
    if ps.len() == 1 {
        lemma_split_char_single(ps[0], c);
        assert(seq![ps[0]] =~= ps);
    } else {
        let pd = ps.drop_last();
        assert forall|i: int, k: int| 0 <= i < pd.len() && 0 <= k < pd[i].len() implies #[trigger] pd[i][k] != c by {
            assert(pd[i] == ps[i]);
        }
        lemma_split_join(pd, c);
        let l = ps.last();
        assert forall|k: int| 0 <= k < l.len() implies l[k] != c by {
            assert(ps[ps.len() - 1][k] == l[k]);
        }
        lemma_split_char_append(crate::text::join(pd, seq![c]), c, l);
        assert(pd.push(l) =~= ps);
    }
}

pub fn split_char_vec(s: &Vec<char>, c: char) -> (r: Vec<Vec<char>>)
    ensures
        views(r@) == split_char(s@, c),
{
    let mut done: Vec<Vec<char>> = Vec::new();
    let mut cur: Vec<char> = Vec::new();
    let mut i: usize = 0;
    assert(s@.take(0) =~= Seq::<char>::empty());
    assert(views(done@).push(cur@) =~= seq![Seq::<char>::empty()]);
    while i < s.len()
        invariant
            i <= s.len(),
            split_char(s@.take(i as int), c) == views(done@).push(cur@),
        decreases s.len() - i,
    {
        let ghost t = s@.take(i + 1);
        assert(t.drop_last() =~= s@.take(i as int));
        assert(t.last() == s@[i as int]);
        if s[i] == c {
            let w = cur;
            cur = Vec::new();
            let ghost before = views(done@);
            done.push(w);
            assert(views(done@) =~= before.push(w@));
            assert(views(done@).push(cur@) =~= before.push(w@).push(seq![]));
        } else {
            let ghost pre = views(done@).push(cur@);
            cur.push(s[i]);
            assert(pre.update(pre.len() - 1, pre.last().push(s@[i as int])) =~= views(done@).push(
                cur@,
            ));
        }
        i = i + 1;
    }
    assert(s@.take(s.len() as int) =~= s@);
    let ghost before = views(done@);
    done.push(cur);
    assert(views(done@) =~= before.push(cur@));
    done
}

/// The tokens before the first resolution token (`720p`, `1080P`).
pub open spec fn until_res(toks: Seq<Seq<char>>) -> Seq<Seq<char>>
    decreases toks.len(),
{
    if toks.len() == 0 || is_res_token(toks[0]) {
        seq![]
    } else {
        seq![toks[0]] + until_res(toks.drop_first())
    }
}

pub open spec fn leading_junk() -> Seq<Seq<char>> {
    seq!["repack"@, "proper"@, "internal"@, "real"@]
}

/// The tokens without their leading junk words (`repack`, `proper`, ...).
pub open spec fn drop_junk(toks: Seq<Seq<char>>) -> Seq<Seq<char>>
    decreases toks.len(),
{
    if toks.len() > 0 && leading_junk().contains(lowercase_of(toks[0])) {
        drop_junk(toks.drop_first())
    } else {
        toks
    }
}

pub open spec fn dot_to_space(c: char) -> Seq<char> {
    if c == '_' || c == '.' {
        seq![' ']
    } else {
        seq![c]
    }
}

/// The episode title left after an episode marker: dots and underscores
/// become spaces, the text stops at a resolution token, leading junk words
/// go, and dashes, spaces and an unclosed trailing `[...` are trimmed.
pub open spec fn clean_episode_title_spec(text: Seq<char>) -> Seq<char> {
    let s = trim_ws(collapse_ws(subst_by(text, |c: char| dot_to_space(c))));
    if s.len() == 0 {
        seq![]
    } else {
        let toks = drop_junk(until_res(split_char(s, ' ')));
        let t = trim_set(join(toks, seq![' ']), seq![' ', '-']);
        trim_set(strip_bracket_tail(t), seq![' ', '-'])
    }
}

fn dot_to_space_vec(s: &Vec<char>) -> (r: Vec<char>)
    ensures
        r@ == subst_by(s@, |c: char| dot_to_space(c)),
{
    let ghost f = |c: char| dot_to_space(c);
    let mut out: Vec<char> = Vec::new();
    let mut i: usize = 0;
    while i < s.len()
        invariant
            i <= s.len(),
            f == (|c: char| dot_to_space(c)),
            out@ == subst_by(s@.take(i as int), f),
        decreases s.len() - i,
    {
        let c = s[i];
        let ghost t = s@.take(i + 1);
        assert(t.drop_last() =~= s@.take(i as int));
        assert(t.last() == c);
        let ghost before = out@;
        if c == '_' || c == '.' {
            out.push(' ');
            assert(out@ =~= before + seq![' ']);
        } else {
            out.push(c);
            assert(out@ =~= before + seq![c]);
        }
        i = i + 1;
    }
    assert(s@.take(s.len() as int) =~= s@);
    out
}

fn leading_junk_vec() -> (r: Vec<Vec<char>>)
    ensures
        views(r@) == leading_junk(),
{
    let mut r: Vec<Vec<char>> = Vec::new();
    push_word(&mut r, "repack");
    push_word(&mut r, "proper");
    push_word(&mut r, "internal");
    push_word(&mut r, "real");
    assert(views(r@) =~= leading_junk());
    r
}

fn title_tokens(toks: &Vec<Vec<char>>) -> (r: Vec<Vec<char>>)
    ensures
        views(r@) == drop_junk(until_res(views(toks@))),
{
    let ghost all = views(toks@);
    // the tokens before the first resolution token
    let mut n: usize = 0;
    assert(all.skip(0) =~= all);
    assert(all.take(0) + until_res(all) =~= until_res(all));
    while n < toks.len() && !is_res_token_exec(&toks[n])
        invariant
            n <= toks.len(),
            all == views(toks@),
            until_res(all) == all.take(n as int) + until_res(all.skip(n as int)),
        decreases toks.len() - n,
    {
        proof {
            let rest = all.skip(n as int);
            assert(rest[0] == toks@[n as int]@);
            assert(rest.drop_first() =~= all.skip(n + 1));
            assert(all.take(n + 1) =~= all.take(n as int) + seq![rest[0]]);
        }
        n = n + 1;
    }
    proof {
        let rest = all.skip(n as int);
        if n < toks.len() {
            assert(rest[0] == toks@[n as int]@);
        }
        assert(until_res(rest) =~= seq![]);
        assert(until_res(all) =~= all.take(n as int));
    }
    // then without leading junk words
    let junk = leading_junk_vec();
    let mut a: usize = 0;
    while a < n && contains_word(&junk, &lowercase(&toks[a]))
        invariant
            a <= n <= toks.len(),
            all == views(toks@),
            views(junk@) == leading_junk(),
            drop_junk(all.take(n as int)) == drop_junk(all.subrange(a as int, n as int)),
        decreases n - a,
    {
        proof {
            let t = all.subrange(a as int, n as int);
            assert(t[0] == toks@[a as int]@);
            assert(t.drop_first() =~= all.subrange(a + 1, n as int));
        }
        a = a + 1;
    }
    proof {
        let t = all.subrange(a as int, n as int);
        if a < n {
            assert(t[0] == toks@[a as int]@);
        }
    }
    let mut out: Vec<Vec<char>> = Vec::new();
    let mut k = a;
    while k < n
        invariant
            a <= k <= n <= toks.len(),
            all == views(toks@),
            views(out@) == all.subrange(a as int, k as int),
        decreases n - k,
    {
        let ghost before = views(out@);
        let w = slice_vec(&toks[k], 0, toks[k].len());
        assert(w@ =~= toks@[k as int]@);
        out.push(w);
        assert(views(out@) =~= before.push(w@));
        assert(all[k as int] == toks@[k as int]@);
        assert(views(out@) =~= all.subrange(a as int, k + 1));
        k = k + 1;
    }
    out
}

pub fn clean_episode_title_vec(text: &Vec<char>) -> (r: Vec<char>)
    ensures
        r@ == clean_episode_title_spec(text@),
{
    let s = trim_ws_vec(&collapse_ws_vec(&dot_to_space_vec(text)));
    if s.len() == 0 {
        return Vec::new();
    }
    let toks = title_tokens(&split_char_vec(&s, ' '));
    let mut space: Vec<char> = Vec::new();
    space.push(' ');
    assert(space@ =~= seq![' ']);
    let mut set: Vec<char> = Vec::new();
    set.push(' ');
    set.push('-');
    assert(set@ =~= seq![' ', '-']);
    let t = trim_set_vec(&join_vec(&toks, &space), &set);
    trim_set_vec(&strip_bracket_tail_vec(&t), &set)
}

/// Cleans the text after an episode marker into an episode title.
pub fn clean_episode_title(text: &str) -> (r: String)
    ensures
        r@ == clean_episode_title_spec(text@),
{
    string_of(&clean_episode_title_vec(&chars_of(text)))
}

// ---------------------------------------------------------------------------
// Year-less show titles
// ---------------------------------------------------------------------------

/// Every edition pattern from `k` on blanked out (each occurrence becomes a
/// space).
pub open spec fn blank_editions(s: Seq<char>, k: int) -> Seq<char>
    decreases 8 - k,
{
    if k < 0 || k >= 8 {
        s
    } else {
        blank_editions(replace_all(edition_spec(k), s, seq![' ']), k + 1)
    }
}

/// A show title from a release name without a year: cut at the first
/// quality token and at the first whole-word `S01`/`S01E02`, drop a
/// trailing `Season N ...`, blank out editions and noise words, and trim.
pub open spec fn fallback_show_title_spec(name: Seq<char>) -> Option<Seq<char>> {
    let n0 = trim_ws(collapse_ws(collapse_dots(name)));
    let n1 = match find(quality_spec(), n0) {
        Some((a, _)) => n0.subrange(0, a),
        None => n0,
    };
    let n2 = match season_token_find(n1) {
        Some(a) => n1.subrange(0, a),
        None => n1,
    };
    let n3 = blank_editions(strip_season_trail(n2), 0);
    let n4 = trim_set(
        collapse_ws(replace_all(noise_spec(), n3, seq![' '])),
        seq![' ', '-', '.', '_', '(', '['],
    );
    if n4.len() == 0 {
        None
    } else {
        Some(smart_title_spec(n4))
    }
}

proof fn lemma_tv_patterns_wf()
    ensures
        wf_pattern(noise_spec()),
        wf_pattern(year_spec()),
        forall|k: int| 0 <= k < 8 ==> wf_pattern(#[trigger] edition_spec(k)),
{
    crate::identity::lemma_patterns_wf();
}

fn blank_editions_vec(s: Vec<char>) -> (r: Vec<char>)
    ensures
        r@ == blank_editions(s@, 0),
{
    proof {
        lemma_tv_patterns_wf();
    }
    let ghost s0 = s@;
    let mut cur = s;
    let mut space: Vec<char> = Vec::new();
    space.push(' ');
    assert(space@ =~= seq![' ']);
    let mut k: usize = 0;
    while k < 8
        invariant
            k <= 8,
            space@ == seq![' '],
            forall|j: int| 0 <= j < 8 ==> wf_pattern(#[trigger] edition_spec(j)),
            blank_editions(s0, 0) == blank_editions(cur@, k as int),
        decreases 8 - k,
    {
        let p = edition(k);
        assert(wf_pattern(edition_spec(k as int)));
        cur = replace_all_exec(&p, &cur, &space);
        k = k + 1;
    }
    cur
}

pub fn fallback_show_title_vec(name: &Vec<char>) -> (r: Option<Vec<char>>)
    ensures
        match r {
            Some(t) => fallback_show_title_spec(name@) == Some(t@),
            None => fallback_show_title_spec(name@) is None,
        },
{
    proof {
        lemma_tv_patterns_wf();
        crate::pattern::lemma_find_bounds_weak(quality_spec(), trim_ws(collapse_ws(collapse_dots(name@))), 0);
    }
    let n0 = trim_ws_vec(&collapse_ws_vec(&collapse_dots_vec(name)));
    let q = quality();
    let n1 = match find_exec(&q, &n0) {
        Some((a, _)) => slice_vec(&n0, 0, a),
        None => slice_vec(&n0, 0, n0.len()),
    };
    assert(find(quality_spec(), n0@) is None ==> n1@ =~= n0@);
    proof {
        crate::scan::lemma_leftmost_props(
            |i: int| crate::episode::season_token_at(n1@, i),
            0,
            n1@.len() as int,
        );
    }
    let n2 = match season_token_find_exec(&n1) {
        Some(a) => slice_vec(&n1, 0, a),
        None => slice_vec(&n1, 0, n1.len()),
    };
    assert(season_token_find(n1@) is None ==> n2@ =~= n1@);
    let n3 = blank_editions_vec(strip_season_trail_vec(&n2));
    let np = noise();
    let mut space: Vec<char> = Vec::new();
    space.push(' ');
    assert(space@ =~= seq![' ']);
    let mut set: Vec<char> = Vec::new();
    set.push(' ');
    set.push('-');
    set.push('.');
    set.push('_');
    set.push('(');
    set.push('[');
    assert(set@ =~= seq![' ', '-', '.', '_', '(', '[']);
    let n4 = trim_set_vec(&collapse_ws_vec(&replace_all_exec(&np, &n3, &space)), &set);
    if n4.len() == 0 {
        None
    } else {
        Some(smart_title_vec(&n4))
    }
}

/// Derive a show title from a release name that carries no year.
pub fn fallback_show_title(name: &str) -> (r: Option<String>)
    ensures
        match r {
            Some(t) => fallback_show_title_spec(name@) == Some(t@),
            None => fallback_show_title_spec(name@) is None,
        },
{
    match fallback_show_title_vec(&chars_of(name)) {
        Some(t) => Some(string_of(&t)),
        None => None,
    }
}

} // verus!

verus! {

// ---------------------------------------------------------------------------
// Episode numbers
// ---------------------------------------------------------------------------

/// `(season, episode, second episode, title)`; the season is `None` when the
/// number came from a trailing bare number.
pub type EpisodeSpec = (Option<nat>, nat, Option<nat>, Seq<char>);

/// The episode a file stem names: the leftmost `S01E02` marker, a second
/// episode right after it (`-E03`, or `(1) and (2)` meaning the next
/// episode) and the cleaned title between them; otherwise, when allowed, a
/// trailing bare number.
pub open spec fn parse_episode_spec(stem: Seq<char>, allow_bare: bool) -> Option<EpisodeSpec> {
    match se_find(stem) {
        Some(i) => {
            let (r1, n2) = se_at(stem, i)->0;
            let ss = digits_value(stem.subrange(i + 1, i + 1 + r1));
            let j = i + 2 + r1;
            let ee = digits_value(stem.subrange(j, j + n2));
            let after0 = stem.subrange(j + n2, stem.len() as int);
            let (ee2, after): (Option<nat>, Seq<char>) = match multi_ep_find(after0) {
                Some(a) => {
                    let (p, r) = multi_ep_at(after0, a)->0;
                    (Some(digits_value(after0.subrange(p, p + r))), after0.subrange(0, a))
                },
                None => match multi_paren_find(after0) {
                    Some(a) => (Some(ee + 1), after0.subrange(0, a)),
                    None => (None, after0),
                },
            };
            Some((Some(ss), ee, ee2, clean_episode_title_spec(after)))
        },
        None => if allow_bare && bare_find(stem) is Some {
            let d = bare_at(stem, bare_find(stem)->0)->0;
            Some((None, bare_value(stem, d), None, seq![]))
        } else {
            None
        },
    }
}

pub open spec fn opt_nat(o: Option<u32>) -> Option<nat> {
    match o {
        Some(v) => Some(v as nat),
        None => None,
    }
}

/// The exec episode tuple seen as an `EpisodeSpec`.
pub open spec fn episode_view(e: (Option<u32>, u32, Option<u32>, String)) -> EpisodeSpec {
    (opt_nat(e.0), e.1 as nat, opt_nat(e.2), e.3@)
}

pub proof fn lemma_small_digits_bound(s: Seq<char>, a: int, b: int)
    requires
        0 <= a <= b <= s.len(),
        b - a <= 2,
        all_digits(s.subrange(a, b)),
    ensures
        digits_value(s.subrange(a, b)) < 100,
{
    let t = s.subrange(a, b);
    if t.len() == 2 {
        let t1 = t.drop_last();
        assert(t1.drop_last() =~= Seq::<char>::empty());
        assert(crate::text::is_digit(t[0]) && crate::text::is_digit(t[1]));
        assert(t1[0] == t[0]);
        reveal_with_fuel(digits_value, 3);
        assert(digits_value(t1) == crate::text::digit_value(t[0]));
    } else if t.len() == 1 {
        assert(t.drop_last() =~= Seq::<char>::empty());
        assert(crate::text::is_digit(t[0]));
        reveal_with_fuel(digits_value, 2);
    } else {
        assert(t =~= Seq::<char>::empty());
    }
}

pub fn parse_episode_vec(stem: &Vec<char>, allow_bare: bool) -> (r: Option<
    (Option<u32>, u32, Option<u32>, String),
>)
    ensures
        match r {
            Some(e) => parse_episode_spec(stem@, allow_bare) == Some(episode_view(e)),
            None => parse_episode_spec(stem@, allow_bare) is None,
        },
{
    match se_find_exec(stem) {
        Some((i, r1, n2)) => {
            assert(se_at(stem@, i as int) == Some((r1 as int, n2 as int)));
            assert(i + 1 + r1 < stem.len());
            proof {
                crate::scan::lemma_skip_digits_props(stem@, i + 1);
                crate::scan::lemma_skip_digits_props(stem@, (i + 2 + r1) as int);
                assert(all_digits(stem@.subrange(i + 1, i + 1 + r1))) by {
                    assert forall|k: int| 0 <= k < r1 implies crate::text::is_digit(
                        #[trigger] stem@.subrange(i + 1, i + 1 + r1)[k],
                    ) by {
                        assert(stem@.subrange(i + 1, i + 1 + r1)[k] == stem@[i + 1 + k]);
                    }
                }
                let j = i + 2 + r1;
                assert(all_digits(stem@.subrange(j, j + n2))) by {
                    assert forall|k: int| 0 <= k < n2 implies crate::text::is_digit(
                        #[trigger] stem@.subrange(j, j + n2)[k],
                    ) by {
                        assert(stem@.subrange(j, j + n2)[k] == stem@[j + k]);
                    }
                }
            }
            let ss = small_digits_value(stem, i + 1, i + 1 + r1);
            let j = i + 2 + r1;
            let ee = small_digits_value(stem, j, j + n2);
            proof {
                lemma_small_digits_bound(stem@, (i + 1) as int, (i + 1 + r1) as int);
                lemma_small_digits_bound(stem@, j as int, (j + n2) as int);
            }
            let after0 = slice_vec(stem, j + n2, stem.len());
            let (ee2, after): (Option<u32>, Vec<char>) = match multi_ep_find_exec(&after0) {
                Some((a, p, r)) => {
                    proof {
                        crate::scan::lemma_skip_digits_props(after0@, p as int);
                        assert(all_digits(after0@.subrange(p as int, p + r))) by {
                            assert forall|k: int| 0 <= k < r implies crate::text::is_digit(
                                #[trigger] after0@.subrange(p as int, p + r)[k],
                            ) by {
                                assert(after0@.subrange(p as int, p + r)[k] == after0@[p + k]);
                            }
                        }
                        lemma_small_digits_bound(after0@, p as int, (p + r) as int);
                    }
                    (Some(small_digits_value(&after0, p, p + r)), slice_vec(&after0, 0, a))
                },
                None => match multi_paren_find_exec(&after0) {
                    Some(a) => {
                        proof {
                            crate::scan::lemma_leftmost_props(
                                |i: int| crate::episode::multi_paren_at(after0@, i),
                                0,
                                after0@.len() as int,
                            );
                        }
                        (Some(ee + 1), slice_vec(&after0, 0, a))
                    },
                    None => (None, slice_vec(&after0, 0, after0.len())),
                },
            };
            assert(multi_ep_find(after0@) is None && multi_paren_find(after0@) is None ==> after@
                =~= after0@);
            let title = clean_episode_title_vec(&after);
            Some((Some(ss), ee, ee2, string_of(&title)))
        },
        None => {
            if allow_bare {
                match bare_find_exec(stem) {
                    Some((_, d)) => {
                        let n = bare_value_exec(stem, d);
                        return Some((None, n, None, string_of(&Vec::new())));
                    },
                    None => {},
                }
            }
            None
        },
    }
}

/// The episode a file stem names (see `parse_episode_spec`).
pub fn parse_episode(stem: &str, allow_bare: bool) -> (r: Option<
    (Option<u32>, u32, Option<u32>, String),
>)
    ensures
        match r {
            Some(e) => parse_episode_spec(stem@, allow_bare) == Some(episode_view(e)),
            None => parse_episode_spec(stem@, allow_bare) is None,
        },
{
    parse_episode_vec(&chars_of(stem), allow_bare)
}

/// Season number from the name of the folder holding a file: `Season N`
/// gives `N`; a name with a year gives none; a name ending in a bare number
/// gives season 1.
pub open spec fn season_from_folder_spec(parent: Seq<char>) -> Option<nat> {
    match season_dir_find(parent) {
        Some(i) => {
            let (k, n) = season_dir_at(parent, i)->0;
            Some(digits_value(parent.subrange(k, k + n)))
        },
        None => if find(year_spec(), parent) is Some {
            None
        } else if bare_find(parent) is Some {
            Some(1)
        } else {
            None
        },
    }
}

pub fn season_from_folder(parent: &str) -> (r: Option<u32>)
    ensures
        opt_nat(r) == season_from_folder_spec(parent@),
{
    let p = chars_of(parent);
    match season_dir_find_exec(&p) {
        Some((_, k, n)) => {
            proof {
                crate::scan::lemma_skip_digits_props(p@, k as int);
                assert(all_digits(p@.subrange(k as int, k + n))) by {
                    assert forall|m: int| 0 <= m < n implies crate::text::is_digit(
                        #[trigger] p@.subrange(k as int, k + n)[m],
                    ) by {
                        assert(p@.subrange(k as int, k + n)[m] == p@[k + m]);
                    }
                }
            }
            Some(small_digits_value(&p, k, k + n))
        },
        None => {
            let y = year();
            if find_exec(&y, &p).is_some() {
                None
            } else if bare_find_exec(&p).is_some() {
                Some(1)
            } else {
                None
            }
        },
    }
}

/// The episode a file names with its season settled: the season in the
/// name, else the one its folder's name gives, else 1.
pub open spec fn episode_in_spec(stem: Seq<char>, folder: Option<Seq<char>>, allow_bare: bool) -> Option<
    (nat, nat, Option<nat>, Seq<char>),
> {
    match parse_episode_spec(stem, allow_bare) {
        None => None,
        Some((ss, ee, ee2, t)) => {
            let season = match ss {
                Some(n) => n,
                None => match folder {
                    Some(f) => match season_from_folder_spec(f) {
                        Some(n) => n,
                        None => 1,
                    },
                    None => 1,
                },
            };
            Some((season, ee, ee2, t))
        },
    }
}

/// The episode a file's stem names, in the folder named `folder` (if any).
pub fn episode_in(stem: &str, folder: Option<&str>, allow_bare: bool) -> (r: Option<
    (u32, u32, Option<u32>, String),
>)
    ensures
        match r {
            Some(e) => episode_in_spec(stem@, match folder {
                Some(f) => Some(f@),
                None => None,
            }, allow_bare) == Some((e.0 as nat, e.1 as nat, opt_nat(e.2), e.3@)),
            None => episode_in_spec(stem@, match folder {
                Some(f) => Some(f@),
                None => None,
            }, allow_bare) is None,
        },
{
    match parse_episode(stem, allow_bare) {
        None => None,
        Some((ss, ee, ee2, t)) => {
            let season: u32 = match ss {
                Some(n) => n,
                None => match folder {
                    Some(f) => match season_from_folder(f) {
                        Some(n) => n,
                        None => 1,
                    },
                    None => 1,
                },
            };
            Some((season, ee, ee2, t))
        },
    }
}

} // verus!

verus! {

// ---------------------------------------------------------------------------
// Names
// ---------------------------------------------------------------------------

/// `Show (year)` (or just `Show` when the year is 0), plus ` {edition-X}`
/// when editions are on, made safe.
pub open spec fn show_folder_name_spec(ident: IdentitySpec, editions_on: bool) -> Seq<char> {
    let base = if ident.year != 0 {
        ident.title + " ("@ + dec_int(ident.year) + ")"@
    } else {
        ident.title
    };
    let tagged = if editions_on && ident.edition is Some {
        base + " {edition-"@ + ident.edition->0 + "}"@
    } else {
        base
    };
    safe_component_spec(tagged)
}

pub fn show_folder_name_vec(ident: &Identity, editions_on: bool) -> (r: Vec<char>)
    ensures
        r@ == show_folder_name_spec(ident@, editions_on),
{
    let mut name = chars_of(ident.title.as_str());
    if ident.year != 0 {
        append_vec(&mut name, &chars_of(" ("));
        append_vec(&mut name, &dec_int_vec(ident.year));
        append_vec(&mut name, &chars_of(")"));
    }
    if editions_on {
        match &ident.edition {
            Some(ed) => {
                append_vec(&mut name, &chars_of(" {edition-"));
                append_vec(&mut name, &chars_of(ed.as_str()));
                append_vec(&mut name, &chars_of("}"));
            },
            None => {},
        }
    }
    safe_component_vec(&name)
}

/// The show's folder name.
pub fn show_folder_name(ident: &Identity, editions_on: bool) -> (r: String)
    ensures
        r@ == show_folder_name_spec(ident@, editions_on),
{
    string_of(&show_folder_name_vec(ident, editions_on))
}

/// `sNNeNN`, plus `-eNN` for a second episode.
pub open spec fn ep_tag_spec(ss: nat, ee: nat, ee2: Option<nat>) -> Seq<char> {
    let tag = "s"@ + dec2(ss) + "e"@ + dec2(ee);
    match ee2 {
        Some(e2) => tag + "-e"@ + dec2(e2),
        None => tag,
    }
}

pub fn ep_tag_vec(ss: u32, ee: u32, ee2: Option<u32>) -> (r: Vec<char>)
    ensures
        r@ == ep_tag_spec(ss as nat, ee as nat, opt_nat(ee2)),
{
    let mut tag = chars_of("s");
    append_vec(&mut tag, &dec2_vec(ss));
    append_vec(&mut tag, &chars_of("e"));
    append_vec(&mut tag, &dec2_vec(ee));
    match ee2 {
        Some(e2) => {
            append_vec(&mut tag, &chars_of("-e"));
            append_vec(&mut tag, &dec2_vec(e2));
        },
        None => {},
    }
    tag
}

pub fn ep_tag(ss: u32, ee: u32, ee2: Option<u32>) -> (r: String)
    ensures
        r@ == ep_tag_spec(ss as nat, ee as nat, opt_nat(ee2)),
{
    string_of(&ep_tag_vec(ss, ee, ee2))
}

/// `Show (year) - sNNeNN`, plus ` - Title` unless the title is empty or
/// titles are dropped.
pub open spec fn file_base_spec(
    ident: IdentitySpec,
    editions_on: bool,
    ss: nat,
    ee: nat,
    ee2: Option<nat>,
    title: Seq<char>,
    minimal: bool,
) -> Seq<char> {
    let base = show_folder_name_spec(ident, editions_on) + " - "@ + ep_tag_spec(ss, ee, ee2);
    if title.len() > 0 && !minimal {
        base + " - "@ + safe_component_spec(title)
    } else {
        base
    }
}

pub fn file_base_vec(
    ident: &Identity,
    editions_on: bool,
    ss: u32,
    ee: u32,
    ee2: Option<u32>,
    title: &Vec<char>,
    minimal: bool,
) -> (r: Vec<char>)
    ensures
        r@ == file_base_spec(ident@, editions_on, ss as nat, ee as nat, opt_nat(ee2), title@, minimal),
{
    let mut base = show_folder_name_vec(ident, editions_on);
    append_vec(&mut base, &chars_of(" - "));
    append_vec(&mut base, &ep_tag_vec(ss, ee, ee2));
    if title.len() > 0 && !minimal {
        append_vec(&mut base, &chars_of(" - "));
        append_vec(&mut base, &safe_component_vec(title));
    }
    base
}

pub fn file_base(
    ident: &Identity,
    editions_on: bool,
    ss: u32,
    ee: u32,
    ee2: Option<u32>,
    title: &str,
    minimal: bool,
) -> (r: String)
    ensures
        r@ == file_base_spec(ident@, editions_on, ss as nat, ee as nat, opt_nat(ee2), title@, minimal),
{
    string_of(&file_base_vec(ident, editions_on, ss, ee, ee2, &chars_of(title), minimal))
}

/// `Season NN` (`Season 00` for specials).
pub open spec fn season_dir_spec(ss: nat) -> Seq<char> {
    "Season "@ + dec2(ss)
}

pub fn season_dir(ss: u32) -> (r: String)
    ensures
        r@ == season_dir_spec(ss as nat),
{
    let mut d = chars_of("Season ");
    append_vec(&mut d, &dec2_vec(ss));
    string_of(&d)
}

/// Where an episode file goes: the show folder, the season folder and the
/// file name (`file_base` with editions on, the title dropped when
/// `minimal`, then `.<sub_lang>` for a subtitle when set, then the extension).
pub open spec fn plan_episode_spec(
    ident: IdentitySpec,
    title: Seq<char>,
    ss: nat,
    ee: nat,
    ee2: Option<nat>,
    kind: MediaKind,
    ext: Seq<char>,
    minimal: bool,
    sub_lang: Seq<char>,
) -> (Seq<char>, Seq<char>, Seq<char>) {
    let base = file_base_spec(ident, true, ss, ee, ee2, if minimal {
        seq![]
    } else {
        title
    }, minimal);
    let fname = if kind == MediaKind::Sub && sub_lang.len() > 0 {
        base + "."@ + sub_lang + ext
    } else {
        base + ext
    };
    (show_folder_name_spec(ident, true), season_dir_spec(ss), fname)
}

pub fn plan_episode(
    ident: &Identity,
    title: &str,
    ss: u32,
    ee: u32,
    ee2: Option<u32>,
    kind: MediaKind,
    ext: &str,
    minimal: bool,
    sub_lang: &str,
) -> (r: (String, String, String))
    ensures
        (r.0@, r.1@, r.2@) == plan_episode_spec(
            ident@,
            title@,
            ss as nat,
            ee as nat,
            opt_nat(ee2),
            kind,
            ext@,
            minimal,
            sub_lang@,
        ),
{
    let t = if minimal {
        Vec::new()
    } else {
        chars_of(title)
    };
    let mut fname = file_base_vec(ident, true, ss, ee, ee2, &t, minimal);
    if kind == MediaKind::Sub && !sub_lang.is_empty() {
        append_vec(&mut fname, &chars_of("."));
        append_vec(&mut fname, &chars_of(sub_lang));
    }
    append_vec(&mut fname, &chars_of(ext));
    (show_folder_name(ident, true), season_dir(ss), string_of(&fname))
}

/// Case-insensitive key of a show folder.
pub open spec fn show_key_spec(ident: IdentitySpec) -> Seq<char> {
    lowercase_of(show_folder_name_spec(ident, true))
}

/// Files a show under its case-insensitive folder key: a key seen before
/// lends its first title, a new key is registered with this title.
pub fn canonicalize(canon: &mut TitleCanon, ident: Identity) -> (r: Identity)
    requires
        old(canon).wf(),
    ensures
        final(canon).wf(),
        r.year == ident.year,
        r.edition == ident.edition,
        ({
            let key = show_key_spec(ident@);
            &&& old(canon).view().contains_key(key) ==> r.title@ == old(canon).view()[key]
                && final(canon).view() == old(canon).view()
            &&& !old(canon).view().contains_key(key) ==> r.title@ == ident.title@
                && final(canon).view() == old(canon).view().insert(key, ident.title@)
        }),
{
    let key = lowercase(&show_folder_name_vec(&ident, true));
    let title = canon.canonical(&key, &chars_of(ident.title.as_str()));
    Identity { title: string_of(&title), year: ident.year, edition: ident.edition }
}

/// A video's file name is its file base and extension, whatever subtitle
/// language is given; a subtitle's name carries the language when one is
/// given. The show and season folders do not depend on the language.
pub proof fn lemma_plan_episode_language(
    ident: IdentitySpec,
    title: Seq<char>,
    ss: nat,
    ee: nat,
    ee2: Option<nat>,
    ext: Seq<char>,
    minimal: bool,
    sub_lang: Seq<char>,
    other_lang: Seq<char>,
)
    ensures
        ({
            let base = file_base_spec(ident, true, ss, ee, ee2, if minimal {
                seq![]
            } else {
                title
            }, minimal);
            let v = plan_episode_spec(ident, title, ss, ee, ee2, MediaKind::Video, ext, minimal, sub_lang);
            let w = plan_episode_spec(ident, title, ss, ee, ee2, MediaKind::Video, ext, minimal, other_lang);
            let s = plan_episode_spec(ident, title, ss, ee, ee2, MediaKind::Sub, ext, minimal, sub_lang);
            &&& v.2 == base + ext
            &&& v == w
            &&& sub_lang.len() > 0 ==> s.2 == base + "."@ + sub_lang + ext
            &&& sub_lang.len() == 0 ==> s.2 == base + ext
            &&& s.0 == v.0 && s.1 == v.1
        }),
{
}

/// The season written in a file's name wins: the folder only supplies a
/// season the name lacks (and 1 when it gives none either). Episode numbers
/// and title come from the name.
pub proof fn lemma_episode_season_from_name(stem: Seq<char>, folder: Option<Seq<char>>, allow_bare: bool)
    ensures
        parse_episode_spec(stem, allow_bare) matches Some((Some(ss), ee, ee2, t)) ==> episode_in_spec(
            stem,
            folder,
            allow_bare,
        ) == Some((ss, ee, ee2, t)),
        parse_episode_spec(stem, allow_bare) matches Some((None, ee, ee2, t)) ==> episode_in_spec(
            stem,
            folder,
            allow_bare,
        ) == Some(
            (
                match folder {
                    Some(f) => match season_from_folder_spec(f) {
                        Some(n) => n,
                        None => 1,
                    },
                    None => 1,
                },
                ee,
                ee2,
                t,
            ),
        ),
        parse_episode_spec(stem, allow_bare) is None ==> episode_in_spec(stem, folder, allow_bare) is None,
{
}

} // verus!
