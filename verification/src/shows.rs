//! `acervo tv`, the decisions around the names: which identity a show folder
//! or a loose file is filed under, which title an episode keeps, and how the
//! files without an episode number are numbered as specials.

use vstd::prelude::*;
use crate::identity::{Identity, IdentitySpec, name_identity, name_identity_vec};
use crate::movies::{MediaKind, byte_len};
use crate::order::{lemma_str_order, str_eq_exec, str_lt, str_lt_exec, str_order, strict_total};
use crate::text::{chars_of, slice_vec, string_of, views};
use crate::tokens::{stem_end, stem_end_exec, sub_stem_spec, sub_stem_vec};
use crate::tv::{
    clean_episode_title_spec, clean_episode_title_vec, fallback_show_title_spec,
    fallback_show_title_vec, media_kind_spec, media_kind_vec, show_folder_name_spec,
    show_folder_name_vec,
};

verus! {

// ---------------------------------------------------------------------------
// Show identities
// ---------------------------------------------------------------------------

/// The stem of a file name (everything before its last dot).
pub open spec fn name_stem(name: Seq<char>) -> Seq<char> {
    name.subrange(0, stem_end(name))
}

/// The `i`-th video's stem yields a show identity.
pub open spec fn video_names_show(videos: Seq<Seq<char>>, i: int) -> bool {
    0 <= i < videos.len() && name_identity(name_stem(videos[i])) is Some
}

/// The `i`-th video's stem yields a fallback title.
pub open spec fn video_titles_show(videos: Seq<Seq<char>>, i: int) -> bool {
    0 <= i < videos.len() && fallback_show_title_spec(name_stem(videos[i])) is Some
}

pub open spec fn names_ok(videos: Seq<Seq<char>>) -> spec_fn(int) -> bool {
    |i: int| video_names_show(videos, i)
}

pub open spec fn titles_ok(videos: Seq<Seq<char>>) -> spec_fn(int) -> bool {
    |i: int| video_titles_show(videos, i)
}

/// Among the videos where `ok` holds, `j` has the longest name (the earliest
/// of equally long ones).
pub open spec fn longest_with(videos: Seq<Seq<char>>, ok: spec_fn(int) -> bool, j: int) -> bool {
    &&& ok(j)
    &&& forall|k: int| #[trigger]
        ok(k) ==> byte_len(videos[k]) < byte_len(videos[j]) || (byte_len(videos[k]) == byte_len(
            videos[j],
        ) && k >= j)
}

/// The identity from the longest-named video that yields one.
pub open spec fn identity_from_videos(videos: Seq<Seq<char>>) -> Option<IdentitySpec> {
    if exists|i: int| #[trigger] video_names_show(videos, i) {
        name_identity(name_stem(videos[choose|j: int| longest_with(videos, names_ok(videos), j)]))
    } else {
        None
    }
}

/// The fallback title from the longest-named video that yields one.
pub open spec fn title_from_videos(videos: Seq<Seq<char>>) -> Option<Seq<char>> {
    if exists|i: int| #[trigger] video_titles_show(videos, i) {
        fallback_show_title_spec(
            name_stem(videos[choose|j: int| longest_with(videos, titles_ok(videos), j)]),
        )
    } else {
        None
    }
}

/// A show without a year, under the given title.
pub open spec fn yearless(title: Seq<char>) -> IdentitySpec {
    IdentitySpec { title, year: 0, edition: None }
}

/// The identity a show folder is filed under, and whether to warn that it
/// has no year: the folder's name, else the longest video name that gives an
/// identity; else a title without a year from the folder's name or, failing
/// that, from the longest video name that gives one. The warning is due when
/// the folder is not already named after that title.
pub open spec fn folder_show_spec(entry: Seq<char>, videos: Seq<Seq<char>>) -> Option<
    (IdentitySpec, bool),
> {
    match name_identity(entry) {
        Some(id) => Some((id, false)),
        None => match identity_from_videos(videos) {
            Some(id) => Some((id, false)),
            None => {
                let t = match fallback_show_title_spec(entry) {
                    Some(t) => Some(t),
                    None => title_from_videos(videos),
                };
                match t {
                    Some(t) => Some(
                        (yearless(t), entry != show_folder_name_spec(yearless(t), true)),
                    ),
                    None => None,
                }
            },
        },
    }
}

pub open spec fn names_view(v: Seq<String>) -> Seq<Seq<char>> {
    v.map_values(|s: String| s@)
}

/// Picks the longest-named video for which `f` yields something.
fn longest_identity(videos: &Vec<String>) -> (r: Option<Identity>)
    ensures
        match r {
            Some(id) => identity_from_videos(names_view(videos@)) == Some(id@),
            None => identity_from_videos(names_view(videos@)) is None,
        },
{
    let ghost vs = names_view(videos@);
    let ghost ok = names_ok(vs);
    let mut best: Option<(usize, usize, Identity)> = None;
    let mut i: usize = 0;
    while i < videos.len()
        invariant
            i <= videos.len(),
            vs == names_view(videos@),
            ok == names_ok(vs),
            match best {
                Some((j, len, id)) => {
                    &&& j < i
                    &&& ok(j as int)
                    &&& len == byte_len(vs[j as int])
                    &&& name_identity(name_stem(vs[j as int])) == Some(id@)
                    &&& forall|k: int|
                        0 <= k < i && #[trigger] ok(k) ==> byte_len(vs[k]) < len || (byte_len(vs[k])
                            == len && k >= j)
                },
                None => forall|k: int| 0 <= k < i ==> !#[trigger] ok(k),
            },
        decreases videos.len() - i,
    {
        let name = chars_of(videos[i].as_str());
        assert(vs[i as int] == videos@[i as int]@);
        let len = videos[i].as_str().len();
        let stem = slice_vec(&name, 0, stem_end_exec(&name));
        match name_identity_vec(&stem) {
            Some(id) => {
                let better = match &best {
                    Some((_, blen, _)) => len > *blen,
                    None => true,
                };
                if better {
                    best = Some((i, len, id));
                }
            },
            None => {},
        }
        i = i + 1;
    }
    match best {
        Some((j, _, id)) => {
            proof {
                assert(video_names_show(vs, j as int));
                assert(longest_with(vs, ok, j as int));
                let jj = choose|jj: int| longest_with(vs, names_ok(vs), jj);
                if jj != j {
                    assert(ok(jj));
                    assert(ok(j as int));
                }
                assert(jj == j);
            }
            Some(id)
        },
        None => {
            assert forall|k: int| !#[trigger] video_names_show(vs, k) by {
                if 0 <= k < vs.len() {
                    assert(!ok(k));
                }
            }
            None
        },
    }
}

fn longest_title(videos: &Vec<String>) -> (r: Option<String>)
    ensures
        match r {
            Some(t) => title_from_videos(names_view(videos@)) == Some(t@),
            None => title_from_videos(names_view(videos@)) is None,
        },
{
    let ghost vs = names_view(videos@);
    let ghost ok = titles_ok(vs);
    let mut best: Option<(usize, usize, Vec<char>)> = None;
    let mut i: usize = 0;
    while i < videos.len()
        invariant
            i <= videos.len(),
            vs == names_view(videos@),
            ok == titles_ok(vs),
            match best {
                Some((j, len, t)) => {
                    &&& j < i
                    &&& ok(j as int)
                    &&& len == byte_len(vs[j as int])
                    &&& fallback_show_title_spec(name_stem(vs[j as int])) == Some(t@)
                    &&& forall|k: int|
                        0 <= k < i && #[trigger] ok(k) ==> byte_len(vs[k]) < len || (byte_len(vs[k])
                            == len && k >= j)
                },
                None => forall|k: int| 0 <= k < i ==> !#[trigger] ok(k),
            },
        decreases videos.len() - i,
    {
        let name = chars_of(videos[i].as_str());
        assert(vs[i as int] == videos@[i as int]@);
        let len = videos[i].as_str().len();
        let stem = slice_vec(&name, 0, stem_end_exec(&name));
        match fallback_show_title_vec(&stem) {
            Some(t) => {
                let better = match &best {
                    Some((_, blen, _)) => len > *blen,
                    None => true,
                };
                if better {
                    best = Some((i, len, t));
                }
            },
            None => {},
        }
        i = i + 1;
    }
    match best {
        Some((j, _, t)) => {
            proof {
                assert(video_titles_show(vs, j as int));
                assert(longest_with(vs, ok, j as int));
                let jj = choose|jj: int| longest_with(vs, titles_ok(vs), jj);
                if jj != j {
                    assert(ok(jj));
                    assert(ok(j as int));
                }
                assert(jj == j);
            }
            Some(string_of(&t))
        },
        None => {
            assert forall|k: int| !#[trigger] video_titles_show(vs, k) by {
                if 0 <= k < vs.len() {
                    assert(!ok(k));
                }
            }
            None
        },
    }
}

/// A show folder's identity and whether it has no year to warn about.
pub struct FolderShow {
    pub ident: Identity,
    pub warn_no_year: bool,
}

/// The identity a show folder is filed under, from the folder's name and the
/// names of the videos found in it (in walk order).
pub fn folder_show(entry: &str, videos: &Vec<String>) -> (r: Option<FolderShow>)
    ensures
        match r {
            Some(f) => folder_show_spec(entry@, names_view(videos@)) == Some((f.ident@, f.warn_no_year)),
            None => folder_show_spec(entry@, names_view(videos@)) is None,
        },
{
    let e = chars_of(entry);
    match name_identity_vec(&e) {
        Some(id) => return Some(FolderShow { ident: id, warn_no_year: false }),
        None => {},
    }
    match longest_identity(videos) {
        Some(id) => return Some(FolderShow { ident: id, warn_no_year: false }),
        None => {},
    }
    let t = match fallback_show_title_vec(&e) {
        Some(t) => Some(string_of(&t)),
        None => longest_title(videos),
    };
    match t {
        Some(t) => {
            let ident = Identity { title: t, year: 0, edition: None };
            assert(ident@ == yearless(ident.title@));
            let folder = show_folder_name_vec(&ident, true);
            let warn = !str_eq_exec(&e, &folder);
            Some(FolderShow { ident, warn_no_year: warn })
        },
        None => None,
    }
}

/// The identity a loose file is filed under, from its stem (a subtitle's
/// stem without its language code): the identity it names, else, for a
/// file that names an episode, a title without a year (to be warned about).
pub open spec fn loose_show_spec(stem: Seq<char>, has_episode: bool) -> Option<(IdentitySpec, bool)> {
    match name_identity(stem) {
        Some(id) => Some((id, false)),
        None => if has_episode {
            match fallback_show_title_spec(stem) {
                Some(t) => Some((yearless(t), true)),
                None => None,
            }
        } else {
            None
        },
    }
}

pub fn loose_show(stem: &str, has_episode: bool) -> (r: Option<FolderShow>)
    ensures
        match r {
            Some(f) => loose_show_spec(stem@, has_episode) == Some((f.ident@, f.warn_no_year)),
            None => loose_show_spec(stem@, has_episode) is None,
        },
{
    let s = chars_of(stem);
    match name_identity_vec(&s) {
        Some(id) => Some(FolderShow { ident: id, warn_no_year: false }),
        None => if has_episode {
            match fallback_show_title_vec(&s) {
                Some(t) => {
                    let ident = Identity { title: string_of(&t), year: 0, edition: None };
                    Some(FolderShow { ident, warn_no_year: true })
                },
                None => None,
            }
        } else {
            None
        },
    }
}

} // verus!

verus! {

// ---------------------------------------------------------------------------
// Episode titles
// ---------------------------------------------------------------------------

/// An episode found in a show folder: season, episode, second episode (for a
/// two-episode file) and the title read from the name.
pub open spec fn eps_view(v: Seq<(u32, u32, Option<u32>, String)>) -> Seq<
    (u32, u32, Option<u32>, Seq<char>),
> {
    v.map_values(|e: (u32, u32, Option<u32>, String)| (e.0, e.1, e.2, e.3@))
}

/// Episode `j` is a single-episode file of episode `(ss, ee)` with a title.
pub open spec fn titled_as(eps: Seq<(u32, u32, Option<u32>, Seq<char>)>, ss: u32, ee: u32, j: int) -> bool {
    0 <= j < eps.len() && eps[j].0 == ss && eps[j].1 == ee && eps[j].2 is None && eps[j].3.len() > 0
}

/// Of those, `j` has the longest title (the earliest of equally long ones).
pub open spec fn best_titled(eps: Seq<(u32, u32, Option<u32>, Seq<char>)>, ss: u32, ee: u32, j: int) -> bool {
    &&& titled_as(eps, ss, ee, j)
    &&& forall|k: int| #[trigger]
        titled_as(eps, ss, ee, k) ==> byte_len(eps[k].3) < byte_len(eps[j].3) || (byte_len(eps[k].3)
            == byte_len(eps[j].3) && k >= j)
}

/// The title episode `i` is filed with: a single-episode file takes the
/// longest title any single-episode file of the same episode carries (so a
/// video and its subtitles agree); a two-episode file keeps its own.
pub open spec fn kept_title(eps: Seq<(u32, u32, Option<u32>, Seq<char>)>, i: int) -> Seq<char> {
    let e = eps[i];
    if e.2 is None && exists|j: int| #[trigger] titled_as(eps, e.0, e.1, j) {
        eps[choose|j: int| best_titled(eps, e.0, e.1, j)].3
    } else {
        e.3
    }
}

/// The title each episode is filed with.
pub fn kept_titles(eps: &Vec<(u32, u32, Option<u32>, String)>) -> (r: Vec<String>)
    ensures
        r.len() == eps.len(),
        forall|i: int| 0 <= i < eps.len() ==> #[trigger] r@[i]@ == kept_title(eps_view(eps@), i),
{
    let ghost ev = eps_view(eps@);
    let mut out: Vec<String> = Vec::new();
    let mut i: usize = 0;
    while i < eps.len()
        invariant
            i <= eps.len(),
            ev == eps_view(eps@),
            out.len() == i,
            forall|k: int| 0 <= k < i ==> #[trigger] out@[k]@ == kept_title(ev, k),
        decreases eps.len() - i,
    {
        assert(ev[i as int] == (eps@[i as int].0, eps@[i as int].1, eps@[i as int].2, eps@[i as int].3@));
        let ss = eps[i].0;
        let ee = eps[i].1;
        if eps[i].2.is_some() {
            out.push(crate::identity::clone_string(&eps[i].3));
        } else {
            let mut best: Option<(usize, usize)> = None;
            let mut j: usize = 0;
            while j < eps.len()
                invariant
                    j <= eps.len(),
                    i < eps.len(),
                    ev == eps_view(eps@),
                    ss == ev[i as int].0,
                    ee == ev[i as int].1,
                    match best {
                        Some((b, len)) => {
                            &&& b < j
                            &&& titled_as(ev, ss, ee, b as int)
                            &&& len == byte_len(ev[b as int].3)
                            &&& forall|k: int|
                                0 <= k < j && #[trigger] titled_as(ev, ss, ee, k) ==> byte_len(ev[k].3)
                                    < len || (byte_len(ev[k].3) == len && k >= b)
                        },
                        None => forall|k: int| 0 <= k < j ==> !#[trigger] titled_as(ev, ss, ee, k),
                    },
                decreases eps.len() - j,
            {
                assert(ev[j as int] == (eps@[j as int].0, eps@[j as int].1, eps@[j as int].2, eps@[j as int].3@));
                let len = eps[j].3.as_str().len();
                if eps[j].0 == ss && eps[j].1 == ee && eps[j].2.is_none() && !eps[j].3.as_str().is_empty() {
                    let better = match best {
                        Some((_, blen)) => len > blen,
                        None => true,
                    };
                    if better {
                        best = Some((j, len));
                    }
                }
                j = j + 1;
            }
            match best {
                Some((b, _)) => {
                    proof {
                        assert(titled_as(ev, ss, ee, b as int));
                        assert(best_titled(ev, ss, ee, b as int));
                        let bb = choose|bb: int| best_titled(ev, ss, ee, bb);
                        if bb != b {
                            assert(titled_as(ev, ss, ee, bb));
                        }
                        assert(bb == b);
                    }
                    assert(ev[b as int].3 == eps@[b as int].3@);
                    out.push(crate::identity::clone_string(&eps[b].3));
                },
                None => {
                    proof {
                        assert forall|k: int| !#[trigger] titled_as(ev, ss, ee, k) by {
                            if 0 <= k < eps.len() {
                            }
                        }
                    }
                    out.push(crate::identity::clone_string(&eps[i].3));
                },
            }
        }
        i = i + 1;
    }
    out
}

} // verus!

verus! {

// ---------------------------------------------------------------------------
// Specials
// ---------------------------------------------------------------------------

/// What a file is grouped by in the specials pass: its stem, for a subtitle
/// without the language code.
pub open spec fn special_key(name: Seq<char>) -> Seq<char> {
    match media_kind_spec(name) {
        Some((MediaKind::Sub, _)) => sub_stem_spec(name_stem(name)),
        _ => name_stem(name),
    }
}

/// The title a special is filed under: its key cleaned as an episode title,
/// or the key itself when nothing is left.
pub open spec fn special_title_spec(key: Seq<char>) -> Seq<char> {
    let c = clean_episode_title_spec(key);
    if c.len() == 0 {
        key
    } else {
        c
    }
}

/// Strictly ascending in string order.
pub open spec fn strictly_sorted(s: Seq<Seq<char>>) -> bool {
    forall|a: int, b: int| 0 <= a < b < s.len() ==> #[trigger] str_lt(s[a], s[b]) && str_lt(s[a], s[b])
}

/// How the files without an episode number are filed as Season 00
/// specials: their distinct keys in string order, the title for each key,
/// and for each file the episode number of its key (its place in that
/// order, from 1).
pub struct Specials {
    pub keys: Vec<String>,
    pub titles: Vec<String>,
    pub numbers: Vec<usize>,
}

fn key_of(name: &Vec<char>) -> (r: Vec<char>)
    ensures
        r@ == special_key(name@),
{
    let stem = slice_vec(name, 0, stem_end_exec(name));
    match media_kind_vec(name) {
        Some((MediaKind::Sub, _)) => sub_stem_vec(&stem),
        _ => stem,
    }
}

/// The distinct strings of `item_keys` in string order, and for each item
/// the place (from 1) of its string in that order.
fn rank_strings(item_keys: &Vec<Vec<char>>) -> (r: (Vec<Vec<char>>, Vec<usize>))
    ensures
        strictly_sorted(views(r.0@)),
        forall|x: Seq<char>|
            views(r.0@).contains(x) <==> views(item_keys@).contains(x),
        r.1.len() == item_keys.len(),
        forall|i: int|
            0 <= i < item_keys.len() ==> 1 <= #[trigger] r.1@[i] <= r.0.len() && r.0@[r.1@[i] - 1]@
                == item_keys@[i]@,
{
    let ghost ks = views(item_keys@);
    let mut sorted: Vec<Vec<char>> = Vec::new();
    let mut t: usize = 0;
    while t < item_keys.len()
        invariant
            t <= item_keys.len(),
            ks == views(item_keys@),
            sorted.len() <= t,
            strictly_sorted(views(sorted@)),
            forall|x: Seq<char>|
                views(sorted@).contains(x) <==> ks.take(t as int).contains(x),
        decreases item_keys.len() - t,
    {
        let key = slice_vec(&item_keys[t], 0, item_keys[t].len());
        assert(key@ =~= ks[t as int]);
        let ghost sv = views(sorted@);
        let mut p: usize = 0;
        while p < sorted.len() && str_lt_exec(&sorted[p], &key)
            invariant
                p <= sorted.len(),
                sv == views(sorted@),
                forall|q: int| 0 <= q < p ==> str_lt(#[trigger] sv[q], key@),
            decreases sorted.len() - p,
        {
            p = p + 1;
        }
        let present = p < sorted.len() && str_eq_exec(&sorted[p], &key);
        let ghost kt = ks.take(t as int);
        let ghost kt1 = ks.take(t + 1);
        proof {
            assert(kt1 =~= kt.push(key@));
        }
        if !present {
            proof {
                if p < sorted.len() {
                    assert(!str_lt(sv[p as int], key@));
                    crate::order::lemma_str_lt_total(sv[p as int], key@);
                }
            }
            let ghost before = sv;
            let copy = slice_vec(&key, 0, key.len());
            assert(copy@ =~= key@);
            sorted.insert(p, copy);
            proof {
                let nv = views(sorted@);
                assert(nv =~= before.insert(p as int, key@));
                assert forall|a: int, b: int| 0 <= a < b < nv.len() implies #[trigger] str_lt(nv[a], nv[b]) by {
                    if b < p {
                        assert(nv[a] == before[a] && nv[b] == before[b]);
                    } else if b == p {
                        assert(nv[a] == before[a]);
                    } else if a < p {
                        assert(nv[a] == before[a] && nv[b] == before[b - 1]);
                        if b - 1 > p {
                            assert(str_lt(before[p as int], before[b - 1]));
                            crate::order::lemma_str_lt_transitive(key@, before[p as int], before[b - 1]);
                        }
                        crate::order::lemma_str_lt_transitive(before[a], key@, before[b - 1]);
                    } else if a == p {
                        assert(nv[b] == before[b - 1]);
                        if b - 1 > p {
                            assert(str_lt(before[p as int], before[b - 1]));
                            crate::order::lemma_str_lt_transitive(key@, before[p as int], before[b - 1]);
                        }
                    } else {
                        assert(nv[a] == before[a - 1] && nv[b] == before[b - 1]);
                    }
                }
                assert forall|x: Seq<char>| nv.contains(x) <==> kt1.contains(x) by {
                    if nv.contains(x) {
                        let q = choose|q: int| 0 <= q < nv.len() && nv[q] == x;
                        if q < p {
                            assert(before[q] == x && before.contains(x));
                        } else if q > p {
                            assert(before[q - 1] == x && before.contains(x));
                        } else {
                            assert(kt1[t as int] == x);
                        }
                        if before.contains(x) {
                            assert(kt.contains(x));
                            let q1 = choose|q1: int| 0 <= q1 < kt.len() && kt[q1] == x;
                            assert(kt1[q1] == x);
                        }
                    }
                    if kt1.contains(x) {
                        let q = choose|q: int| 0 <= q < t + 1 && kt1[q] == x;
                        if q < t {
                            assert(kt[q] == x);
                            assert(kt.contains(x));
                            assert(before.contains(x));
                            let q2 = choose|q2: int| 0 <= q2 < before.len() && before[q2] == x;
                            if q2 < p {
                                assert(nv[q2] == x);
                            } else {
                                assert(nv[q2 + 1] == x);
                            }
                        } else {
                            assert(nv[p as int] == x);
                        }
                    }
                }
            }
        } else {
            proof {
                assert(sv[p as int] == key@);
                assert forall|x: Seq<char>| sv.contains(x) <==> kt1.contains(x) by {
                    if sv.contains(x) {
                        assert(kt.contains(x));
                        let q1 = choose|q1: int| 0 <= q1 < kt.len() && kt[q1] == x;
                        assert(kt1[q1] == x);
                    }
                    if kt1.contains(x) {
                        let q = choose|q: int| 0 <= q < t + 1 && kt1[q] == x;
                        if q < t {
                            assert(kt[q] == x);
                            assert(kt.contains(x));
                        } else {
                            assert(sv[p as int] == x);
                        }
                    }
                }
            }
        }
        t = t + 1;
    }
    assert(ks.take(item_keys.len() as int) =~= ks);
    let ghost sv = views(sorted@);
    let mut numbers: Vec<usize> = Vec::new();
    let mut i: usize = 0;
    while i < item_keys.len()
        invariant
            i <= item_keys.len(),
            sorted.len() <= item_keys.len(),
            ks == views(item_keys@),
            sv == views(sorted@),
            forall|x: Seq<char>| sv.contains(x) <==> ks.contains(x),
            numbers.len() == i,
            forall|k: int|
                0 <= k < i ==> 1 <= #[trigger] numbers@[k] <= sorted.len() && sv[numbers@[k] - 1]
                    == ks[k],
        decreases item_keys.len() - i,
    {
        assert(ks.contains(ks[i as int]));
        assert(item_keys@[i as int]@ == ks[i as int]);
        let ghost q = choose|q: int| 0 <= q < sv.len() && sv[q] == ks[i as int];
        let mut g: usize = 0;
        while g < sorted.len() && !str_eq_exec(&sorted[g], &item_keys[i])
            invariant
                g <= sorted.len(),
                i < item_keys.len(),
                sv == views(sorted@),
                item_keys@[i as int]@ == sv[q],
                0 <= q < sv.len(),
                forall|h: int| 0 <= h < g ==> sv[h] != sv[q],
            decreases sorted.len() - g,
        {
            g = g + 1;
        }
        assert(g < sorted.len());
        numbers.push(g + 1);
        i = i + 1;
    }
    (sorted, numbers)
}

/// Numbers the specials among files (by name; each a video or subtitle):
/// a video and its subtitles share a key, hence a number.
pub fn number_specials(names: &Vec<String>) -> (r: Specials)
    ensures
        strictly_sorted(names_view(r.keys@)),
        forall|x: Seq<char>|
            names_view(r.keys@).contains(x) <==> names_view(names@).map_values(
                |n: Seq<char>| special_key(n),
            ).contains(x),
        r.titles.len() == r.keys.len(),
        forall|g: int| 0 <= g < r.keys.len() ==> #[trigger] r.titles@[g]@ == special_title_spec(r.keys@[g]@),
        r.numbers.len() == names.len(),
        forall|i: int|
            0 <= i < names.len() ==> 1 <= #[trigger] r.numbers@[i] <= r.keys.len() && r.keys@[r.numbers@[i]
                - 1]@ == special_key(names@[i]@),
{
    let ghost ks = names_view(names@).map_values(|n: Seq<char>| special_key(n));
    let mut item_keys: Vec<Vec<char>> = Vec::new();
    let mut t: usize = 0;
    while t < names.len()
        invariant
            t <= names.len(),
            ks == names_view(names@).map_values(|n: Seq<char>| special_key(n)),
            item_keys.len() == t,
            forall|k: int| 0 <= k < t ==> #[trigger] item_keys@[k]@ == ks[k],
        decreases names.len() - t,
    {
        assert(ks[t as int] == special_key(names@[t as int]@));
        item_keys.push(key_of(&chars_of(names[t].as_str())));
        t = t + 1;
    }
    assert(views(item_keys@) =~= ks);
    let (sorted, numbers) = rank_strings(&item_keys);
    let ghost sv = views(sorted@);
    let mut keys: Vec<String> = Vec::new();
    let mut titles: Vec<String> = Vec::new();
    let mut g: usize = 0;
    while g < sorted.len()
        invariant
            g <= sorted.len(),
            sv == views(sorted@),
            keys.len() == g,
            titles.len() == g,
            forall|h: int| 0 <= h < g ==> #[trigger] keys@[h]@ == sv[h],
            forall|h: int| 0 <= h < g ==> #[trigger] titles@[h]@ == special_title_spec(sv[h]),
        decreases sorted.len() - g,
    {
        let c = clean_episode_title_vec(&sorted[g]);
        let title = if c.len() == 0 {
            string_of(&sorted[g])
        } else {
            string_of(&c)
        };
        keys.push(string_of(&sorted[g]));
        titles.push(title);
        g = g + 1;
    }
    assert(names_view(keys@) =~= sv);
    Specials { keys, titles, numbers }
}

/// Groups items by label: the distinct labels in string order, and for
/// each item the place (from 1) of its label in that order.
pub fn group_labels(labels: &Vec<String>) -> (r: (Vec<String>, Vec<usize>))
    ensures
        strictly_sorted(names_view(r.0@)),
        forall|x: Seq<char>| names_view(r.0@).contains(x) <==> names_view(labels@).contains(x),
        r.1.len() == labels.len(),
        forall|i: int|
            0 <= i < labels.len() ==> 1 <= #[trigger] r.1@[i] <= r.0.len() && r.0@[r.1@[i] - 1]@
                == labels@[i]@,
{
    let mut item_keys: Vec<Vec<char>> = Vec::new();
    let mut t: usize = 0;
    while t < labels.len()
        invariant
            t <= labels.len(),
            item_keys.len() == t,
            forall|k: int| 0 <= k < t ==> #[trigger] item_keys@[k]@ == labels@[k]@,
        decreases labels.len() - t,
    {
        item_keys.push(chars_of(labels[t].as_str()));
        t = t + 1;
    }
    assert(views(item_keys@) =~= names_view(labels@));
    let (sorted, numbers) = rank_strings(&item_keys);
    let mut out: Vec<String> = Vec::new();
    let mut g: usize = 0;
    while g < sorted.len()
        invariant
            g <= sorted.len(),
            out.len() == g,
            forall|h: int| 0 <= h < g ==> #[trigger] out@[h]@ == sorted@[h]@,
        decreases sorted.len() - g,
    {
        out.push(string_of(&sorted[g]));
        g = g + 1;
    }
    assert(names_view(out@) =~= views(sorted@));
    (out, numbers)
}

} // verus!

verus! {

/// A video and its subtitles (files with the same key) get the same special
/// number.
pub proof fn lemma_same_key_same_number(
    names: Seq<Seq<char>>,
    keys: Seq<Seq<char>>,
    numbers: Seq<usize>,
    i: int,
    j: int,
)
    requires
        strictly_sorted(keys),
        numbers.len() == names.len(),
        forall|k: int|
            0 <= k < names.len() ==> 1 <= #[trigger] numbers[k] <= keys.len() && keys[numbers[k] - 1]
                == special_key(names[k]),
        0 <= i < names.len(),
        0 <= j < names.len(),
        special_key(names[i]) == special_key(names[j]),
    ensures
        numbers[i] == numbers[j],
{
    let a = numbers[i] - 1;
    let b = numbers[j] - 1;
    if a < b {
        assert(str_lt(keys[a], keys[b]));
        crate::order::lemma_str_lt_irreflexive(keys[a]);
    } else if b < a {
        assert(str_lt(keys[b], keys[a]));
        crate::order::lemma_str_lt_irreflexive(keys[a]);
    }
}

/// Single-episode files of the same episode are filed with the same title.
pub proof fn lemma_same_episode_same_title(eps: Seq<(u32, u32, Option<u32>, Seq<char>)>, i: int, j: int)
    requires
        0 <= i < eps.len(),
        0 <= j < eps.len(),
        eps[i].0 == eps[j].0,
        eps[i].1 == eps[j].1,
        eps[i].2 is None,
        eps[j].2 is None,
        eps[i].3.len() > 0 || eps[j].3.len() > 0,
    ensures
        kept_title(eps, i) == kept_title(eps, j),
{
    if eps[i].3.len() > 0 {
        assert(titled_as(eps, eps[i].0, eps[i].1, i));
    } else {
        assert(titled_as(eps, eps[j].0, eps[j].1, j));
    }
}

} // verus!
