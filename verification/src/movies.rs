//! `acervo movies`: reading a movie identity from release names and naming
//! its `Movie Name (year)/Movie Name (year).ext` destination.

use vstd::prelude::*;
use vstd::utf8::encode_utf8;
use crate::identity::{
    Identity, IdentitySpec, TitleCanon, name_identity, name_identity_vec, title_clean,
};
use crate::naming::{safe_component_spec, safe_component_vec};
use crate::text::{
    all_ascii, append_vec, chars_of, collapse_dots, collapse_dots_vec, contains_char, dec, dec_int,
    dec_int_vec, dec_vec, digit_value, lowercase, lowercase_of, string_of, views,
};
use crate::tokens::{
    already_spec, ext_spec, ext_vec, first_part, first_part_exec, has_part_marker, has_part_marker_exec,
    part_at, part_words, part_words_spec, stem_end, stem_end_exec, strip_split_tail,
    strip_split_tail_vec, sub_lang_spec, sub_lang_vec, sub_stem_spec, sub_stem_vec,
};
use crate::text::slice_vec;

verus! {

#[derive(Clone, Copy, PartialEq, Eq, Structural)]
pub enum MediaKind {
    Video,
    Sub,
}

pub open spec fn movie_video_exts() -> Seq<Seq<char>> {
    seq![".mkv"@, ".mp4"@, ".m4v"@, ".avi"@, ".mov"@, ".wmv"@, ".ts"@]
}

pub open spec fn sub_exts() -> Seq<Seq<char>> {
    seq![".srt"@, ".ass"@, ".ssa"@, ".sub"@, ".vtt"@]
}

pub fn movie_video_exts_vec() -> (r: Vec<Vec<char>>)
    ensures
        views(r@) == movie_video_exts(),
{
    let mut r: Vec<Vec<char>> = Vec::new();
    crate::naming::push_word(&mut r, ".mkv");
    crate::naming::push_word(&mut r, ".mp4");
    crate::naming::push_word(&mut r, ".m4v");
    crate::naming::push_word(&mut r, ".avi");
    crate::naming::push_word(&mut r, ".mov");
    crate::naming::push_word(&mut r, ".wmv");
    crate::naming::push_word(&mut r, ".ts");
    assert(views(r@) =~= movie_video_exts());
    r
}

pub fn sub_exts_vec() -> (r: Vec<Vec<char>>)
    ensures
        views(r@) == sub_exts(),
{
    let mut r: Vec<Vec<char>> = Vec::new();
    crate::naming::push_word(&mut r, ".srt");
    crate::naming::push_word(&mut r, ".ass");
    crate::naming::push_word(&mut r, ".ssa");
    crate::naming::push_word(&mut r, ".sub");
    crate::naming::push_word(&mut r, ".vtt");
    assert(views(r@) =~= sub_exts());
    r
}

/// Kind and extension of a movie library file, by its lower-cased extension.
pub open spec fn media_kind_spec(name: Seq<char>) -> Option<(MediaKind, Seq<char>)> {
    let ext = ext_spec(name);
    if movie_video_exts().contains(ext) {
        Some((MediaKind::Video, ext))
    } else if sub_exts().contains(ext) {
        Some((MediaKind::Sub, ext))
    } else {
        None
    }
}

pub fn media_kind_vec(name: &Vec<char>) -> (r: Option<(MediaKind, Vec<char>)>)
    ensures
        match r {
            Some((k, e)) => media_kind_spec(name@) == Some((k, e@)),
            None => media_kind_spec(name@) is None,
        },
{
    let ext = ext_vec(name);
    if crate::naming::contains_word(&movie_video_exts_vec(), &ext) {
        Some((MediaKind::Video, ext))
    } else if crate::naming::contains_word(&sub_exts_vec(), &ext) {
        Some((MediaKind::Sub, ext))
    } else {
        None
    }
}

/// Kind (video or subtitle) and lower-cased extension of a movie file name.
pub fn media_kind(filename: &str) -> (r: Option<(MediaKind, String)>)
    ensures
        match r {
            Some((k, e)) => media_kind_spec(filename@) == Some((k, e@)),
            None => media_kind_spec(filename@) is None,
        },
{
    match media_kind_vec(&chars_of(filename)) {
        Some((k, e)) => Some((k, string_of(&e))),
        None => None,
    }
}

/// Movie identity of a file stem or folder name: any trailing split marker
/// (` - pt1`) is dropped first.
pub open spec fn parse_identity_spec(stem: Seq<char>) -> Option<IdentitySpec> {
    name_identity(strip_split_tail(stem))
}

pub fn parse_identity_vec(stem: &Vec<char>) -> (r: Option<Identity>)
    ensures
        match r {
            Some(id) => parse_identity_spec(stem@) == Some(id@),
            None => parse_identity_spec(stem@) is None,
        },
        r matches Some(id) ==> id.title@.len() > 0,
        already_spec(strip_split_tail(stem@)) is None ==> (r matches Some(id) ==> 1900 <= id.year
            <= 2099),
        already_spec(strip_split_tail(stem@)) is None && all_ascii(stem@) ==> (r matches Some(id)
            ==> title_clean(id.title@)),
{
    let t = strip_split_tail_vec(stem);
    proof {
        if all_ascii(stem@) {
            assert forall|k: int| 0 <= k < t@.len() implies (#[trigger] t@[k] as u32) < 128 by {
                assert(t@[k] == stem@[k]);
            }
        }
    }
    name_identity_vec(&t)
}

/// Reads `Title (year)` (and an edition) from a movie file stem or folder.
/// The title is never empty; outside the organized `Title (YYYY)` form (once
/// a trailing split marker is dropped) the year is from 1900 to 2099 and, for
/// an ASCII name, the title holds no `.` or `_` and neither starts nor ends
/// with a space, `-`, `.`, `_` or `(`.
pub fn parse_identity(stem: &str) -> (r: Option<Identity>)
    ensures
        match r {
            Some(id) => parse_identity_spec(stem@) == Some(id@),
            None => parse_identity_spec(stem@) is None,
        },
        r matches Some(id) ==> id.title@.len() > 0,
        already_spec(strip_split_tail(stem@)) is None ==> (r matches Some(id) ==> 1900 <= id.year
            <= 2099),
        already_spec(strip_split_tail(stem@)) is None && all_ascii(stem@) ==> (r matches Some(id)
            ==> title_clean(id.title@)),
{
    parse_identity_vec(&chars_of(stem))
}

/// The multi-part number of a stem (`CD1`, `Part 2`), unless the title
/// already spells out that same `part N` / `pt N`.
pub open spec fn detect_part_spec(stem: Seq<char>, title: Seq<char>) -> Option<nat> {
    let norm = collapse_dots(stem);
    match first_part(norm, part_words_spec()) {
        Some(i) => {
            let d = part_at(norm, i, part_words_spec())->0;
            if has_part_marker(title, d) {
                None
            } else {
                Some(digit_value(d))
            }
        },
        None => None,
    }
}

/// Detect a multi-disc/multi-part split marker (e.g. "CD1", "Part 2").
///
/// Skips titles where the parsed movie title already spells out that same
/// part number (e.g. "Mockingjay Part 1"), so it isn't tagged a second time.
pub fn detect_part(stem: &str, title: &str) -> (r: Option<u32>)
    ensures
        match r {
            Some(p) => detect_part_spec(stem@, title@) == Some(p as nat),
            None => detect_part_spec(stem@, title@) is None,
        },
{
    let norm = collapse_dots_vec(&chars_of(stem));
    let words = part_words();
    match first_part_exec(&norm, &words) {
        Some((_, d)) => {
            if has_part_marker_exec(&chars_of(title), d) {
                None
            } else {
                Some((d as u32) - ('0' as u32))
            }
        },
        None => None,
    }
}

/// `Title (year)`, plus ` {edition-X}` when editions are on, made safe.
pub open spec fn folder_name_spec(p: IdentitySpec, editions_on: bool) -> Seq<char> {
    let base = p.title + " ("@ + dec_int(p.year) + ")"@;
    let tagged = if editions_on && p.edition is Some {
        base + " {edition-"@ + p.edition->0 + "}"@
    } else {
        base
    };
    safe_component_spec(tagged)
}

pub fn folder_name_vec(p: &Identity, editions_on: bool) -> (r: Vec<char>)
    ensures
        r@ == folder_name_spec(p@, editions_on),
{
    let mut name = chars_of(p.title.as_str());
    append_vec(&mut name, &chars_of(" ("));
    append_vec(&mut name, &dec_int_vec(p.year));
    append_vec(&mut name, &chars_of(")"));
    if editions_on {
        match &p.edition {
            Some(ed) => {
                append_vec(&mut name, &chars_of(" {edition-"));
                append_vec(&mut name, &chars_of(ed.as_str()));
                append_vec(&mut name, &chars_of("}"));
            },
            None => {},
        }
    }
    safe_component_vec(&name)
}

/// The movie's folder name.
pub fn folder_name(p: &Identity, editions_on: bool) -> (r: String)
    ensures
        r@ == folder_name_spec(p@, editions_on),
{
    string_of(&folder_name_vec(p, editions_on))
}

pub open spec fn file_base_spec(p: IdentitySpec, editions_on: bool, part: Option<nat>) -> Seq<
    char,
> {
    match part {
        Some(n) => folder_name_spec(p, editions_on) + " - pt"@ + dec(n),
        None => folder_name_spec(p, editions_on),
    }
}

pub fn file_base_vec(p: &Identity, editions_on: bool, part: Option<u32>) -> (r: Vec<char>)
    ensures
        r@ == file_base_spec(
            p@,
            editions_on,
            match part {
                Some(n) => Some(n as nat),
                None => None,
            },
        ),
{
    let mut base = folder_name_vec(p, editions_on);
    match part {
        Some(n) => {
            append_vec(&mut base, &chars_of(" - pt"));
            append_vec(&mut base, &dec_vec(n as u64));
        },
        None => {},
    }
    base
}

/// The file name stem: the folder name, then ` - ptN` for part `N`.
pub fn file_base(p: &Identity, editions_on: bool, part: Option<u32>) -> (r: String)
    ensures
        r@ == file_base_spec(
            p@,
            editions_on,
            match part {
                Some(n) => Some(n as nat),
                None => None,
            },
        ),
{
    string_of(&file_base_vec(p, editions_on, part))
}

/// A subtitle stem without its trailing language code.
pub fn sub_stem(stem: &str) -> (r: String)
    ensures
        r@ == sub_stem_spec(stem@),
{
    string_of(&sub_stem_vec(&chars_of(stem)))
}

/// The lower-cased trailing language code of a subtitle stem, or empty.
pub fn sub_lang_of(stem: &str) -> (r: String)
    ensures
        r@ == sub_lang_spec(stem@),
{
    string_of(&sub_lang_vec(&chars_of(stem)))
}

// ---------------------------------------------------------------------------
// Planning
// ---------------------------------------------------------------------------

/// Destination file name of a movie file filed under identity `p`: the file
/// base (with its part number), then for a subtitle the language (the
/// `sub_lang` override, else the one the stem carries) and the extension.
pub open spec fn target_name_spec(
    file_name: Seq<char>,
    p: IdentitySpec,
    editions_on: bool,
    sub_lang: Seq<char>,
) -> Option<Seq<char>> {
    match media_kind_spec(file_name) {
        None => None,
        Some((kind, ext)) => {
            let stem = file_name.subrange(0, stem_end(file_name));
            let base = file_base_spec(p, editions_on, detect_part_spec(stem, p.title));
            Some(
                match kind {
                    MediaKind::Sub => {
                        let lang = if sub_lang.len() > 0 {
                            sub_lang
                        } else {
                            sub_lang_spec(stem)
                        };
                        if lang.len() > 0 {
                            base + "."@ + lang + ext
                        } else {
                            base + ext
                        }
                    },
                    MediaKind::Video => base + ext,
                },
            )
        },
    }
}

/// Destination file name for `file_name` under identity `p`; `None` for a
/// file that is neither a movie video nor a subtitle.
pub fn target_name(file_name: &str, p: &Identity, editions_on: bool, sub_lang: &str) -> (r: Option<
    String,
>)
    ensures
        match r {
            Some(n) => target_name_spec(file_name@, p@, editions_on, sub_lang@) == Some(n@),
            None => target_name_spec(file_name@, p@, editions_on, sub_lang@) is None,
        },
{
    let name = chars_of(file_name);
    match media_kind_vec(&name) {
        None => None,
        Some((kind, ext)) => {
            let stem = slice_vec(&name, 0, stem_end_exec(&name));
            let part = detect_part(string_of(&stem).as_str(), p.title.as_str());
            let mut out = file_base_vec(p, editions_on, part);
            match kind {
                MediaKind::Sub => {
                    let lang = if !sub_lang.is_empty() {
                        chars_of(sub_lang)
                    } else {
                        sub_lang_vec(&stem)
                    };
                    if lang.len() > 0 {
                        append_vec(&mut out, &chars_of("."));
                        append_vec(&mut out, &lang);
                    }
                    append_vec(&mut out, &ext);
                },
                MediaKind::Video => {
                    append_vec(&mut out, &ext);
                },
            }
            Some(string_of(&out))
        },
    }
}

/// Byte length of a file name (the length of its UTF-8 encoding, as
/// `str::len` reports it).
pub open spec fn byte_len(s: Seq<char>) -> usize {
    encode_utf8(s).len() as usize
}

pub open spec fn video_stem(videos: Seq<Seq<char>>, i: int) -> Seq<char> {
    videos[i].subrange(0, stem_end(videos[i]))
}

/// The `i`-th video name's stem yields an identity.
pub open spec fn video_parses(videos: Seq<Seq<char>>, i: int) -> bool {
    0 <= i < videos.len() && parse_identity_spec(video_stem(videos, i)) is Some
}

/// Video `j` comes first in longest-name order among the videos that parse.
pub open spec fn video_first(videos: Seq<Seq<char>>, j: int) -> bool {
    &&& video_parses(videos, j)
    &&& forall|k: int| #[trigger]
        video_parses(videos, k) ==> byte_len(videos[k]) < byte_len(videos[j]) || (byte_len(
            videos[k],
        ) == byte_len(videos[j]) && k >= j)
}

/// The identity of a movie folder: from the longest-named video whose stem
/// parses (the earliest of equally long ones), else from the folder name.
pub open spec fn folder_identity_spec(videos: Seq<Seq<char>>, folder: Seq<char>) -> Option<
    IdentitySpec,
> {
    if exists|i: int| video_parses(videos, i) {
        let j = choose|j: int| video_first(videos, j);
        parse_identity_spec(video_stem(videos, j))
    } else {
        parse_identity_spec(folder)
    }
}

/// The identity of a movie folder from the names of the videos found in it
/// (in their sorted order) and the folder's own name.
pub fn folder_identity(videos: &Vec<String>, folder: &str) -> (r: Option<Identity>)
    ensures
        match r {
            Some(id) => folder_identity_spec(videos@.map_values(|v: String| v@), folder@) == Some(
                id@,
            ),
            None => folder_identity_spec(videos@.map_values(|v: String| v@), folder@) is None,
        },
{
    let ghost vs = videos@.map_values(|v: String| v@);
    let mut best: Option<(usize, usize, Identity)> = None;
    let mut i: usize = 0;
    while i < videos.len()
        invariant
            i <= videos.len(),
            vs == videos@.map_values(|v: String| v@),
            match best {
                Some((j, len, id)) => {
                    &&& j < i
                    &&& video_parses(vs, j as int)
                    &&& len == byte_len(vs[j as int])
                    &&& parse_identity_spec(video_stem(vs, j as int)) == Some(id@)
                    &&& forall|k: int|
                        0 <= k < i && #[trigger] video_parses(vs, k) ==> byte_len(vs[k]) < len || (
                        byte_len(vs[k]) == len && k >= j)
                },
                None => forall|k: int| 0 <= k < i ==> !#[trigger] video_parses(vs, k),
            },
        decreases videos.len() - i,
    {
        let name = chars_of(videos[i].as_str());
        assert(vs[i as int] == videos@[i as int]@);
        let len = videos[i].as_str().len();
        let stem = slice_vec(&name, 0, stem_end_exec(&name));
        match parse_identity_vec(&stem) {
            Some(id) => {
                let better = match &best {
                    Some((_, blen, _)) => len > *blen,
                    None => true,
                };
                if better {
                    best = Some((i, len, id));
                }
            },
            None => {},
        }
        i = i + 1;
    }
    match best {
        Some((j, _, id)) => {
            proof {
                assert(video_first(vs, j as int));
                let jj = choose|jj: int| video_first(vs, jj);
                if jj != j {
                    assert(video_parses(vs, jj));
                    assert(video_parses(vs, j as int));
                    if jj < j as int {
                        assert(byte_len(vs[jj]) <= byte_len(vs[j as int]));
                    } else {
                        assert(byte_len(vs[j as int]) <= byte_len(vs[jj]));
                    }
                }
            }
            Some(id)
        },
        None => parse_identity(folder),
    }
}

/// The identity a loose root-level file is filed under: parsed from its
/// stem (a subtitle's stem without its language code).
pub open spec fn loose_identity_spec(file_name: Seq<char>) -> Option<IdentitySpec> {
    match media_kind_spec(file_name) {
        None => None,
        Some((kind, _)) => {
            let stem = file_name.subrange(0, stem_end(file_name));
            parse_identity_spec(
                match kind {
                    MediaKind::Sub => sub_stem_spec(stem),
                    MediaKind::Video => stem,
                },
            )
        },
    }
}

pub fn loose_identity(file_name: &str) -> (r: Option<Identity>)
    ensures
        match r {
            Some(id) => loose_identity_spec(file_name@) == Some(id@),
            None => loose_identity_spec(file_name@) is None,
        },
{
    let name = chars_of(file_name);
    match media_kind_vec(&name) {
        None => None,
        Some((kind, _)) => {
            let stem = slice_vec(&name, 0, stem_end_exec(&name));
            match kind {
                MediaKind::Sub => parse_identity_vec(&sub_stem_vec(&stem)),
                MediaKind::Video => parse_identity_vec(&stem),
            }
        },
    }
}

/// Case-insensitive key of a movie folder.
pub open spec fn folder_key_spec(p: IdentitySpec, editions_on: bool) -> Seq<char> {
    lowercase_of(folder_name_spec(p, editions_on))
}

/// Files a loose movie under its case-insensitive folder key: a key seen
/// before lends its first title, a new key is registered with this title.
pub fn canonicalize(canon: &mut TitleCanon, p: Identity, editions_on: bool) -> (r: Identity)
    requires
        old(canon).wf(),
    ensures
        final(canon).wf(),
        r.year == p.year,
        r.edition == p.edition,
        ({
            let key = folder_key_spec(p@, editions_on);
            &&& old(canon).view().contains_key(key) ==> r.title@ == old(canon).view()[key]
                && final(canon).view() == old(canon).view()
            &&& !old(canon).view().contains_key(key) ==> r.title@ == p.title@
                && final(canon).view() == old(canon).view().insert(key, p.title@)
        }),
{
    let key = lowercase(&folder_name_vec(&p, editions_on));
    let title = canon.canonical(&key, &chars_of(p.title.as_str()));
    Identity { title: string_of(&title), year: p.year, edition: p.edition }
}

} // verus!

verus! {

// ---------------------------------------------------------------------------
// An organized folder reads back
// ---------------------------------------------------------------------------

/// Text that can stand as a title or an edition inside an organized name
/// unchanged: non-empty, only component characters, single-spaced, without
/// `(` or `}`.
pub open spec fn plain_text(t: Seq<char>) -> bool {
    &&& t.len() > 0
    &&& forall|k: int| 0 <= k < t.len() ==> crate::naming::component_char(#[trigger] t[k])
    &&& crate::naming::single_spaced(t)
    &&& forall|k: int| 0 <= k < t.len() ==> #[trigger] t[k] != '(' && t[k] != '}'
}

/// A title that can lead an organized name: plain, and neither starting
/// with a space or dot nor ending with a space.
pub open spec fn plain_title(t: Seq<char>) -> bool {
    plain_text(t) && t[0] != ' ' && t[0] != '.' && t.last() != ' '
}

/// The identity an organized folder name stands for.
pub open spec fn named_identity(p: IdentitySpec, editions_on: bool) -> IdentitySpec {
    IdentitySpec {
        title: p.title,
        year: p.year,
        edition: if editions_on {
            p.edition
        } else {
            None
        },
    }
}

/// The unsanitized folder name: `Title (YYYY)[ {edition-X}]`.
pub open spec fn tagged_name(p: IdentitySpec, editions_on: bool) -> Seq<char> {
    let base = p.title + " ("@ + dec_int(p.year) + ")"@;
    if editions_on && p.edition is Some {
        base + " {edition-"@ + p.edition->0 + "}"@
    } else {
        base
    }
}

proof fn lemma_tagged_layout(p: IdentitySpec, editions_on: bool)
    requires
        plain_title(p.title),
        1000 <= p.year <= 9999,
        editions_on && p.edition is Some ==> plain_text(p.edition->0),
    ensures
        ({
            let s = tagged_name(p, editions_on);
            let l = p.title.len() as int;
            let tagged = editions_on && p.edition is Some;
            &&& forall|k: int| 0 <= k < l ==> #[trigger] s[k] == p.title[k]
            &&& s[l] == ' ' && s[l + 1] == '(' && s[l + 6] == ')'
            &&& s.subrange(l + 2, l + 6) == dec(p.year as nat)
            &&& !tagged ==> s.len() == l + 7
            &&& tagged ==> s.len() == l + 7 + 10 + p.edition->0.len() + 1
                && s.subrange(l + 7, l + 17) == " {edition-"@
                && s.subrange(l + 17, s.len() - 1) == p.edition->0
                && s.last() == '}'
            &&& crate::naming::settled_component(s)
        }),
{
    reveal_strlit(" (");
    reveal_strlit(")");
    reveal_strlit(" {edition-");
    reveal_strlit("}");
    crate::text::lemma_dec(p.year as nat);
    let t = p.title;
    let l = t.len() as int;
    let y = dec(p.year as nat);
    assert(dec_int(p.year) == y);
    let base = t + " ("@ + y + ")"@;
    assert(base.len() == l + 7);
    assert forall|k: int| 0 <= k < l implies #[trigger] base[k] == t[k] by {}
    assert(base[l] == ' ' && base[l + 1] == '(' && base[l + 6] == ')');
    assert forall|k: int| 0 <= k < 4 implies #[trigger] base[l + 2 + k] == y[k] by {}
    assert(forall|k: int| 0 <= k < 4 ==> crate::text::is_digit(#[trigger] y[k]));
    // Facts about every character of the base.
    assert forall|k: int| 0 <= k < base.len() implies crate::naming::component_char(#[trigger] base[k]) && (
    crate::text::is_ws(base[k]) ==> base[k] == ' ') && (k >= 1 && base[k] == ' ' ==> base[k - 1] != ' ')
        by {
        if k < l {
            assert(crate::naming::component_char(t[k]));
            if crate::text::is_ws(t[k]) {
                assert(t[k] == ' ');
            }
            if k >= 1 && t[k] == ' ' {
                assert(t[k - 1] != ' ');
            }
        } else if l + 2 <= k < l + 6 {
            assert(base[k] == y[k - l - 2]);
        }
    }
    let s = tagged_name(p, editions_on);
    if editions_on && p.edition is Some {
        let e = p.edition->0;
        let tag = " {edition-"@ + e + "}"@;
        assert(s == base + tag);
        assert(tag.len() == e.len() + 11);
        assert forall|k: int| 0 <= k < 10 implies #[trigger] s.subrange(l + 7, l + 17)[k] == " {edition-"@[k] by {
            assert(s[l + 7 + k] == tag[k]);
        }
        assert(s.subrange(l + 7, l + 17) =~= " {edition-"@);
        assert forall|k: int| 0 <= k < e.len() implies #[trigger] s.subrange(l + 17, s.len() - 1)[k] == e[k] by {
            assert(s[l + 17 + k] == tag[10 + k]);
        }
        assert(s.subrange(l + 17, s.len() - 1) =~= e);
        assert forall|k: int| 0 <= k < s.len() implies crate::naming::component_char(#[trigger] s[k]) by {
            if k < base.len() {
                assert(s[k] == base[k]);
            } else if l + 17 <= k < s.len() - 1 {
                assert(s[k] == e[k - l - 17]);
            }
        }
        assert forall|k: int| 0 <= k < s.len() && #[trigger] crate::text::is_ws(s[k]) implies s[k] == ' ' by {
            if k < base.len() {
                assert(s[k] == base[k]);
            } else if l + 17 <= k < s.len() - 1 {
                assert(s[k] == e[k - l - 17]);
            }
        }
        assert forall|k: int| 1 <= k < s.len() && #[trigger] s[k] == ' ' implies s[k - 1] != ' ' by {
            if k < base.len() {
                assert(s[k] == base[k]);
                assert(s[k - 1] == base[k - 1]);
            } else if l + 17 < k < s.len() - 1 {
                assert(s[k] == e[k - l - 17]);
                assert(s[k - 1] == e[k - 1 - l - 17]);
            } else if k == l + 7 {
                assert(s[k - 1] == base[l + 6]);
            }
        }
        assert(s[0] == t[0]);
    } else {
        assert(s == base);
        assert(s[0] == t[0]);
    }
}

/// `Title (YYYY)[ {edition-X}]` with a plain title and edition reads back
/// as that title, year and edition.
proof fn lemma_tagged_reads_back(
    s: Seq<char>,
    t: Seq<char>,
    year: int,
    edition: Option<Seq<char>>,
)
    requires
        plain_title(t),
        1000 <= year <= 9999,
        edition matches Some(e) ==> plain_text(e),
        forall|k: int| 0 <= k < t.len() ==> #[trigger] s[k] == t[k],
        s[t.len() as int] == ' ' && s[t.len() as int + 1] == '(' && s[t.len() as int + 6] == ')',
        s.subrange(t.len() as int + 2, t.len() as int + 6) == dec(year as nat),
        edition is None ==> s.len() == t.len() + 7,
        edition matches Some(e) ==> s.len() == t.len() + 7 + 10 + e.len() + 1 && s.subrange(
            t.len() as int + 7,
            t.len() as int + 17,
        ) == " {edition-"@ && s.subrange(t.len() as int + 17, s.len() - 1) == e && s.last() == '}',
    ensures
        name_identity(s) == Some(IdentitySpec { title: t, year, edition }),
{
    crate::text::lemma_dec(year as nat);
    let l = t.len() as int;
    assert(crate::text::all_digits(s.subrange(l + 2, l + 6)));
    assert forall|k: int| 1 <= k < l implies s[k - 1] != '\n' && #[trigger] crate::tokens::already_rest(s, k)
        is None by {
        assert(s[k - 1] == t[k - 1]);
        assert(crate::naming::component_char(t[k - 1]));
        if k + 1 < l {
            assert(s[k + 1] == t[k + 1]);
        }
    }
    lemma_already_from_skip(s, 1, l);
    assert(s[l - 1] == t[l - 1]);
    assert(crate::naming::component_char(t[l - 1]));
    match edition {
        Some(e) => {
            let mid = s.subrange(l + 17, s.len() - 1);
            assert forall|k: int| 0 <= k < mid.len() implies #[trigger] mid[k] != '}' by {
                assert(mid[k] == e[k]);
            }
            assert(crate::tokens::no_close_brace(s.subrange(l + 17, s.len() - 1)));
            assert(crate::tokens::already_rest(s, l) == Some(Some((l + 17, s.len() - 1))));
        },
        None => {
            assert(crate::tokens::already_rest(s, l) == Some(None::<(int, int)>));
        },
    }
    assert(crate::tokens::already_spec(s) == Some(l));
    assert forall|k: int| 0 <= k < l implies #[trigger] s.subrange(0, l)[k] == t[k] by {
        assert(s[k] == t[k]);
    }
    assert(s.subrange(0, l) =~= t);
}

proof fn lemma_already_from_skip(s: Seq<char>, l: int, m: int)
    requires
        1 <= l <= m < s.len(),
        forall|k: int| l <= k < m ==> s[k - 1] != '\n' && #[trigger] crate::tokens::already_rest(s, k) is None,
    ensures
        crate::tokens::already_from(s, l) == crate::tokens::already_from(s, m),
    decreases m - l,
{
    if l < m {
        lemma_already_from_skip(s, l + 1, m);
    }
}

/// A name ending in `)` or `}` carries no split marker.
proof fn lemma_no_split_tail(s: Seq<char>)
    requires
        s.len() > 0,
        s.last() == ')' || s.last() == '}',
    ensures
        strip_split_tail(s) == s,
{
    let p = |i: int| crate::tokens::split_tail_at(s, i);
    assert forall|i: int| 0 <= i <= s.len() implies !#[trigger] p(i) by {
        if crate::tokens::split_tail_at(s, i) {
            let j = crate::scan::skip_ws(s, i);
            let k = crate::pattern::match_end(crate::tokens::part_words_spec(), s, crate::scan::skip_ws(s, j + 1))->0;
            let z = crate::scan::skip_zeros(s, crate::scan::skip_ws(s, k));
            crate::scan::lemma_skip_ws_props(s, z + 1);
            if z + 1 < s.len() {
                assert(crate::text::is_ws(s[s.len() - 1]));
            }
        }
    }
    crate::scan::lemma_leftmost_none(p, 0, s.len() as int);
}

} // verus!

verus! {

/// An organized movie folder name reads back as the identity it was made
/// from (its edition only when editions are on), for a plain title and
/// edition and a four-digit year: an organized library stays where it is.
pub proof fn lemma_folder_name_reads_back(p: IdentitySpec, editions_on: bool)
    requires
        plain_title(p.title),
        1000 <= p.year <= 9999,
        editions_on && p.edition is Some ==> plain_text(p.edition->0),
    ensures
        parse_identity_spec(folder_name_spec(p, editions_on)) == Some(named_identity(p, editions_on)),
{
    let s = tagged_name(p, editions_on);
    lemma_tagged_layout(p, editions_on);
    crate::naming::lemma_safe_component_settled(s);
    assert(folder_name_spec(p, editions_on) == s);
    lemma_no_split_tail(s);
    let ed = if editions_on && p.edition is Some {
        p.edition
    } else {
        None
    };
    lemma_tagged_reads_back(s, p.title, p.year, ed);
    assert(named_identity(p, editions_on) == IdentitySpec { title: p.title, year: p.year, edition: ed });
}

/// The same for a show folder with a year: `Show (YYYY)[ {edition-X}]` reads
/// back as the show it was made from.
pub proof fn lemma_show_folder_reads_back(p: IdentitySpec)
    requires
        plain_title(p.title),
        1000 <= p.year <= 9999,
        p.edition matches Some(e) ==> plain_text(e),
    ensures
        name_identity(crate::tv::show_folder_name_spec(p, true)) == Some(p),
{
    let s = tagged_name(p, true);
    lemma_tagged_layout(p, true);
    crate::naming::lemma_safe_component_settled(s);
    assert(crate::tv::show_folder_name_spec(p, true) == s);
    lemma_tagged_reads_back(s, p.title, p.year, p.edition);
}

/// A subtitle filed with a language given (`sub_lang` non-empty) is named
/// the file base, `.`, that language and the extension, whatever language
/// code its own name carries; a video's name is the file base and the
/// extension, whatever language is given.
pub proof fn lemma_target_name_language(
    file_name: Seq<char>,
    p: IdentitySpec,
    editions_on: bool,
    sub_lang: Seq<char>,
    other_lang: Seq<char>,
)
    ensures
        ({
            let stem = file_name.subrange(0, stem_end(file_name));
            let base = file_base_spec(p, editions_on, detect_part_spec(stem, p.title));
            &&& (media_kind_spec(file_name) matches Some((MediaKind::Sub, ext)) ==> (sub_lang.len() > 0
                ==> target_name_spec(file_name, p, editions_on, sub_lang) == Some(
                base + "."@ + sub_lang + ext,
            )))
            &&& (media_kind_spec(file_name) matches Some((MediaKind::Video, ext))
                ==> target_name_spec(file_name, p, editions_on, sub_lang) == Some(base + ext)
                && target_name_spec(file_name, p, editions_on, sub_lang) == target_name_spec(
                file_name,
                p,
                editions_on,
                other_lang,
            ))
        }),
{
}

} // verus!
