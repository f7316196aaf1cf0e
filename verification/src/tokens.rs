//! Release-name tokens shared by the subcommands: quality and codec junk,
//! editions, noise words, years, language codes, multi-part markers, the
//! already-organized `Title (year)` form, and file extensions.

use vstd::prelude::*;
use crate::pattern::{
    Atom, Pattern, PatternSpec, alt_views, boundary, boundary_exec, ch_atom, digit_ranges,
    digit_table, find, find_exec,
    lemma_find_bounds, lit, lit_exec, match_end, match_end_exec, prefixed_lit, push_alt,
    replace_first, replace_first_exec, wf_pattern,
};
use vstd::string::StrSliceExecFns;
use crate::scan::{
    leftmost, lemma_leftmost_found, lemma_leftmost_none, skip_ws, skip_ws_exec, skip_zeros,
    skip_zeros_exec, lemma_skip_ws_props,
};
use crate::text::{
    all_ascii, ascii_lower, ascii_lowered, chars_of, digits_value, is_digit, lowercase, lowercase_of,
    slice_vec, string_of,
};

verus! {

// ---------------------------------------------------------------------------
// Quality / codec / release-group junk
// ---------------------------------------------------------------------------

/// Quality, source, codec, audio and release-group tokens, matched
/// case-insensitively as whole words. Four alternatives begin with a line
/// feed, exactly as the token list is written.
pub open spec fn quality_spec() -> PatternSpec {
    PatternSpec {
        alts: seq![
            seq![Atom::Digit, Atom::Digit, Atom::Digit, Atom::Digit, ch_atom('p')],
            seq![Atom::Digit, Atom::Digit, Atom::Digit, ch_atom('p')],
            lit("4k"@), lit("2160p"@), lit("1080i"@), lit("bluray"@), lit("blu-ray"@),
            lit("brrip"@), lit("bdrip"@), lit("bdremux"@), lit("remux"@),
            lit("\nweb-dl"@), lit("\nweb dl"@), lit("\nwebdl"@),
            lit("webrip"@), lit("hdtv"@), lit("hdrip"@), lit("dvdrip"@), lit("dvdscr"@),
            lit("hdts"@), lit("telesync"@), lit("hdcam"@),
            lit("\nx264"@), lit("x265"@),
            seq![ch_atom('h'), Atom::Ws, ch_atom('2'), ch_atom('6'), ch_atom('4')], lit("h264"@),
            seq![ch_atom('h'), Atom::Ws, ch_atom('2'), ch_atom('6'), ch_atom('5')], lit("h265"@),
            lit("hevc"@), lit("avc"@), lit("xvid"@), lit("divx"@),
            lit("\naac"@), lit("ac3"@), lit("dd5"@), lit("ddp5"@), lit("ddp"@), lit("dts"@),
            lit("truehd"@), lit("atmos"@), lit("flac"@), lit("mp3"@), lit("opus"@),
            lit("\n10bit"@), lit("8bit"@), lit("hdr10"@), lit("hdr"@), lit("sdr"@), lit("yify"@),
            lit("yts"@), lit("vostfr"@)
        ],
        ci: true,
        word_start: true,
        word_end: true,
        at_end: false,
        digits: digit_ranges(),
    }
}

pub fn quality() -> (p: Pattern)
    ensures
        p@ == quality_spec(),
{
    let mut a: Vec<Vec<Atom>> = Vec::new();
    push_alt(&mut a, vec![Atom::Digit, Atom::Digit, Atom::Digit, Atom::Digit, Atom::Ch('p')]);
    push_alt(&mut a, vec![Atom::Digit, Atom::Digit, Atom::Digit, Atom::Ch('p')]);
    push_alt(&mut a, lit_exec("4k"));
    push_alt(&mut a, lit_exec("2160p"));
    push_alt(&mut a, lit_exec("1080i"));
    push_alt(&mut a, lit_exec("bluray"));
    push_alt(&mut a, lit_exec("blu-ray"));
    push_alt(&mut a, lit_exec("brrip"));
    push_alt(&mut a, lit_exec("bdrip"));
    push_alt(&mut a, lit_exec("bdremux"));
    push_alt(&mut a, lit_exec("remux"));
    push_alt(&mut a, lit_exec("\nweb-dl"));
    push_alt(&mut a, lit_exec("\nweb dl"));
    push_alt(&mut a, lit_exec("\nwebdl"));
    push_alt(&mut a, lit_exec("webrip"));
    push_alt(&mut a, lit_exec("hdtv"));
    push_alt(&mut a, lit_exec("hdrip"));
    push_alt(&mut a, lit_exec("dvdrip"));
    push_alt(&mut a, lit_exec("dvdscr"));
    push_alt(&mut a, lit_exec("hdts"));
    push_alt(&mut a, lit_exec("telesync"));
    push_alt(&mut a, lit_exec("hdcam"));
    push_alt(&mut a, lit_exec("\nx264"));
    push_alt(&mut a, lit_exec("x265"));
    push_alt(&mut a, vec![Atom::Ch('h'), Atom::Ws, Atom::Ch('2'), Atom::Ch('6'), Atom::Ch('4')]);
    push_alt(&mut a, lit_exec("h264"));
    push_alt(&mut a, vec![Atom::Ch('h'), Atom::Ws, Atom::Ch('2'), Atom::Ch('6'), Atom::Ch('5')]);
    push_alt(&mut a, lit_exec("h265"));
    push_alt(&mut a, lit_exec("hevc"));
    push_alt(&mut a, lit_exec("avc"));
    push_alt(&mut a, lit_exec("xvid"));
    push_alt(&mut a, lit_exec("divx"));
    push_alt(&mut a, lit_exec("\naac"));
    push_alt(&mut a, lit_exec("ac3"));
    push_alt(&mut a, lit_exec("dd5"));
    push_alt(&mut a, lit_exec("ddp5"));
    push_alt(&mut a, lit_exec("ddp"));
    push_alt(&mut a, lit_exec("dts"));
    push_alt(&mut a, lit_exec("truehd"));
    push_alt(&mut a, lit_exec("atmos"));
    push_alt(&mut a, lit_exec("flac"));
    push_alt(&mut a, lit_exec("mp3"));
    push_alt(&mut a, lit_exec("opus"));
    push_alt(&mut a, lit_exec("\n10bit"));
    push_alt(&mut a, lit_exec("8bit"));
    push_alt(&mut a, lit_exec("hdr10"));
    push_alt(&mut a, lit_exec("hdr"));
    push_alt(&mut a, lit_exec("sdr"));
    push_alt(&mut a, lit_exec("yify"));
    push_alt(&mut a, lit_exec("yts"));
    push_alt(&mut a, lit_exec("vostfr"));
    let p = Pattern { alts: a, ci: true, word_start: true, word_end: true, at_end: false, digits: digit_table() };
    assert(p@.alts =~= quality_spec().alts);
    p
}

// ---------------------------------------------------------------------------
// Noise words
// ---------------------------------------------------------------------------

/// Release-noise words (`proper`, `repack`, ...), case-insensitive whole
/// words. The `open matte` alternatives begin with a line feed, as written.
pub open spec fn noise_spec() -> PatternSpec {
    PatternSpec {
        alts: seq![
            lit("proper"@), lit("repack"@), lit("internal"@), lit("retail"@), lit("limited"@),
            lit("multi"@), lit("complete"@), lit("hybrid"@),
            lit("\nopen"@) + seq![Atom::Ws] + lit("matte"@), lit("\nopenmatte"@),
            lit("uncut"@), lit("dubbed"@), lit("subbed"@)
        ],
        ci: true,
        word_start: true,
        word_end: true,
        at_end: false,
        digits: digit_ranges(),
    }
}

pub fn noise() -> (p: Pattern)
    ensures
        p@ == noise_spec(),
{
    let mut a: Vec<Vec<Atom>> = Vec::new();
    push_alt(&mut a, lit_exec("proper"));
    push_alt(&mut a, lit_exec("repack"));
    push_alt(&mut a, lit_exec("internal"));
    push_alt(&mut a, lit_exec("retail"));
    push_alt(&mut a, lit_exec("limited"));
    push_alt(&mut a, lit_exec("multi"));
    push_alt(&mut a, lit_exec("complete"));
    push_alt(&mut a, lit_exec("hybrid"));
    let mut om = lit_exec("\nopen");
    om.push(Atom::Ws);
    let mut matte = lit_exec("matte");
    let ghost om0 = om@;
    let ghost m0 = matte@;
    om.append(&mut matte);
    assert(om@ == om0 + m0);
    push_alt(&mut a, om);
    assert(om@ =~= lit("\nopen"@) + seq![Atom::Ws] + lit("matte"@));
    push_alt(&mut a, lit_exec("\nopenmatte"));
    push_alt(&mut a, lit_exec("uncut"));
    push_alt(&mut a, lit_exec("dubbed"));
    push_alt(&mut a, lit_exec("subbed"));
    let p = Pattern { alts: a, ci: true, word_start: true, word_end: true, at_end: false, digits: digit_table() };
    assert(p@.alts =~= noise_spec().alts);
    p
}

// ---------------------------------------------------------------------------
// Editions
// ---------------------------------------------------------------------------

/// The edition patterns, in the order they are tried.
pub open spec fn edition_spec(k: int) -> PatternSpec {
    if k == 0 {
        PatternSpec {
            alts: seq![
                lit("director's cut"@), lit("director's.cut"@), lit("director'scut"@),
                lit("directors cut"@), lit("directors.cut"@), lit("directorscut"@)
            ],
            ci: true,
            word_start: false,
            word_end: false,
            at_end: false,
            digits: digit_ranges(),
        }
    } else if k == 1 {
        PatternSpec {
            alts: seq![lit("final cut"@), lit("final.cut"@), lit("finalcut"@)],
            ci: true,
            word_start: true,
            word_end: true,
            at_end: false,
            digits: digit_ranges(),
        }
    } else if k == 2 {
        PatternSpec {
            alts: seq![
                lit("extended cut"@), lit("extended edition"@), lit("extended.cut"@),
                lit("extended.edition"@), lit("extendedcut"@), lit("extendededition"@),
                lit("extended"@)
            ],
            ci: true,
            word_start: true,
            word_end: true,
            at_end: false,
            digits: digit_ranges(),
        }
    } else if k == 3 {
        PatternSpec {
            alts: seq![lit("unrated"@)],
            ci: true,
            word_start: true,
            word_end: true,
            at_end: false,
            digits: digit_ranges(),
        }
    } else if k == 4 {
        PatternSpec {
            alts: seq![
                lit("theatrical cut"@), lit("theatrical.cut"@), lit("theatricalcut"@),
                lit("theatrical"@)
            ],
            ci: true,
            word_start: true,
            word_end: true,
            at_end: false,
            digits: digit_ranges(),
        }
    } else if k == 5 {
        PatternSpec {
            alts: seq![lit("imax"@)],
            ci: true,
            word_start: true,
            word_end: true,
            at_end: false,
            digits: digit_ranges(),
        }
    } else if k == 6 {
        PatternSpec {
            alts: seq![lit("remastered"@)],
            ci: true,
            word_start: true,
            word_end: true,
            at_end: false,
            digits: digit_ranges(),
        }
    } else {
        PatternSpec {
            alts: seq![lit("restored"@)],
            ci: true,
            word_start: true,
            word_end: true,
            at_end: false,
            digits: digit_ranges(),
        }
    }
}

/// The label an edition pattern contributes to the edition tag, if any.
pub open spec fn edition_label_spec(k: int) -> Option<Seq<char>> {
    if k == 0 {
        Some("Director's Cut"@)
    } else if k == 1 {
        Some("Final Cut"@)
    } else if k == 2 {
        Some("Extended"@)
    } else if k == 3 {
        Some("Unrated"@)
    } else if k == 4 {
        Some("Theatrical"@)
    } else if k == 5 {
        Some("IMAX"@)
    } else {
        None
    }
}

fn pat(alts: Vec<Vec<Atom>>, word: bool) -> (p: Pattern)
    ensures
        p.alts == alts,
        p.digits@ == digit_ranges(),
        p.ci,
        p.word_start == word,
        p.word_end == word,
        !p.at_end,
{
    Pattern { alts, ci: true, word_start: word, word_end: word, at_end: false, digits: digit_table() }
}

pub fn edition(k: usize) -> (p: Pattern)
    requires
        k < 8,
    ensures
        p@ == edition_spec(k as int),
{
    let mut a: Vec<Vec<Atom>> = Vec::new();
    if k == 0 {
        push_alt(&mut a, lit_exec("director's cut"));
        push_alt(&mut a, lit_exec("director's.cut"));
        push_alt(&mut a, lit_exec("director'scut"));
        push_alt(&mut a, lit_exec("directors cut"));
        push_alt(&mut a, lit_exec("directors.cut"));
        push_alt(&mut a, lit_exec("directorscut"));
        let p = pat(a, false);
        assert(p@.alts =~= edition_spec(0).alts);
        p
    } else if k == 1 {
        push_alt(&mut a, lit_exec("final cut"));
        push_alt(&mut a, lit_exec("final.cut"));
        push_alt(&mut a, lit_exec("finalcut"));
        let p = pat(a, true);
        assert(p@.alts =~= edition_spec(1).alts);
        p
    } else if k == 2 {
        push_alt(&mut a, lit_exec("extended cut"));
        push_alt(&mut a, lit_exec("extended edition"));
        push_alt(&mut a, lit_exec("extended.cut"));
        push_alt(&mut a, lit_exec("extended.edition"));
        push_alt(&mut a, lit_exec("extendedcut"));
        push_alt(&mut a, lit_exec("extendededition"));
        push_alt(&mut a, lit_exec("extended"));
        let p = pat(a, true);
        assert(p@.alts =~= edition_spec(2).alts);
        p
    } else if k == 3 {
        push_alt(&mut a, lit_exec("unrated"));
        let p = pat(a, true);
        assert(p@.alts =~= edition_spec(3).alts);
        p
    } else if k == 4 {
        push_alt(&mut a, lit_exec("theatrical cut"));
        push_alt(&mut a, lit_exec("theatrical.cut"));
        push_alt(&mut a, lit_exec("theatricalcut"));
        push_alt(&mut a, lit_exec("theatrical"));
        let p = pat(a, true);
        assert(p@.alts =~= edition_spec(4).alts);
        p
    } else if k == 5 {
        push_alt(&mut a, lit_exec("imax"));
        let p = pat(a, true);
        assert(p@.alts =~= edition_spec(5).alts);
        p
    } else if k == 6 {
        push_alt(&mut a, lit_exec("remastered"));
        let p = pat(a, true);
        assert(p@.alts =~= edition_spec(6).alts);
        p
    } else {
        push_alt(&mut a, lit_exec("restored"));
        let p = pat(a, true);
        assert(p@.alts =~= edition_spec(7).alts);
        p
    }
}

pub fn edition_label(k: usize) -> (r: Option<Vec<char>>)
    ensures
        match r {
            Some(v) => edition_label_spec(k as int) == Some(v@),
            None => edition_label_spec(k as int) is None,
        },
{
    if k == 0 {
        Some(chars_of("Director's Cut"))
    } else if k == 1 {
        Some(chars_of("Final Cut"))
    } else if k == 2 {
        Some(chars_of("Extended"))
    } else if k == 3 {
        Some(chars_of("Unrated"))
    } else if k == 4 {
        Some(chars_of("Theatrical"))
    } else if k == 5 {
        Some(chars_of("IMAX"))
    } else {
        None
    }
}

// ---------------------------------------------------------------------------
// Years
// ---------------------------------------------------------------------------

/// A whole-word year `19xx` or `20xx`.
pub open spec fn year_spec() -> PatternSpec {
    PatternSpec {
        alts: seq![
            seq![ch_atom('1'), ch_atom('9'), Atom::Digit, Atom::Digit],
            seq![ch_atom('2'), ch_atom('0'), Atom::Digit, Atom::Digit]
        ],
        ci: false,
        word_start: true,
        word_end: true,
        at_end: false,
        digits: digit_ranges(),
    }
}

pub fn year() -> (p: Pattern)
    ensures
        p@ == year_spec(),
{
    let mut a: Vec<Vec<Atom>> = Vec::new();
    push_alt(&mut a, vec![Atom::Ch('1'), Atom::Ch('9'), Atom::Digit, Atom::Digit]);
    push_alt(&mut a, vec![Atom::Ch('2'), Atom::Ch('0'), Atom::Digit, Atom::Digit]);
    let p = Pattern { alts: a, ci: false, word_start: true, word_end: true, at_end: false, digits: digit_table() };
    assert(p@.alts =~= year_spec().alts);
    p
}

// ---------------------------------------------------------------------------
// Language codes
// ---------------------------------------------------------------------------

/// Each language code, preceded by `prefix`, as one alternative.
pub open spec fn lang_alts_spec(prefix: Atom) -> Seq<Seq<Atom>> {
    seq![
        seq![prefix] + lit("eng"@),
        seq![prefix] + lit("english"@),
        seq![prefix] + lit("en"@),
        seq![prefix] + lit("por"@),
        seq![prefix] + lit("portuguese"@),
        seq![prefix] + lit("pt"@),
        seq![prefix] + lit("spa"@),
        seq![prefix] + lit("spanish"@),
        seq![prefix] + lit("es"@),
        seq![prefix] + lit("fre"@),
        seq![prefix] + lit("french"@),
        seq![prefix] + lit("fr"@),
        seq![prefix] + lit("ger"@),
        seq![prefix] + lit("german"@),
        seq![prefix] + lit("de"@),
        seq![prefix] + lit("ita"@),
        seq![prefix] + lit("italian"@),
        seq![prefix] + lit("it"@),
        seq![prefix] + lit("jpn"@),
        seq![prefix] + lit("japanese"@),
        seq![prefix] + lit("ja"@),
        seq![prefix] + lit("kor"@),
        seq![prefix] + lit("korean"@),
        seq![prefix] + lit("ko"@),
        seq![prefix] + lit("chi"@),
        seq![prefix] + lit("chinese"@),
        seq![prefix] + lit("zh"@),
        seq![prefix] + lit("nld"@),
        seq![prefix] + lit("dutch"@),
        seq![prefix] + lit("nl"@),
        seq![prefix] + lit("swe"@),
        seq![prefix] + lit("swedish"@),
        seq![prefix] + lit("sv"@),
        seq![prefix] + lit("nor"@),
        seq![prefix] + lit("norwegian"@),
        seq![prefix] + lit("no"@),
        seq![prefix] + lit("dan"@),
        seq![prefix] + lit("danish"@),
        seq![prefix] + lit("da"@),
        seq![prefix] + lit("fin"@),
        seq![prefix] + lit("finnish"@),
        seq![prefix] + lit("fi"@),
        seq![prefix] + lit("pol"@),
        seq![prefix] + lit("polish"@),
        seq![prefix] + lit("pl"@),
        seq![prefix] + lit("rus"@),
        seq![prefix] + lit("russian"@),
        seq![prefix] + lit("ru"@),
        seq![prefix] + lit("tur"@),
        seq![prefix] + lit("turkish"@),
        seq![prefix] + lit("tr"@),
        seq![prefix] + lit("ara"@),
        seq![prefix] + lit("arabic"@),
        seq![prefix] + lit("heb"@),
        seq![prefix] + lit("hebrew"@),
        seq![prefix] + lit("he"@)
    ]
}

/// A separator (` `, `.`, `_`, `-`) and a language code ending the text.
pub open spec fn lang_spec() -> PatternSpec {
    PatternSpec {
        alts: lang_alts_spec(Atom::Sep),
        ci: true,
        word_start: false,
        word_end: false,
        at_end: true,
        digits: digit_ranges(),
    }
}

/// A dot and a language code ending the text.
pub open spec fn sub_lang_dot_spec() -> PatternSpec {
    PatternSpec {
        alts: lang_alts_spec(Atom::Ch('.')),
        ci: true,
        word_start: false,
        word_end: false,
        at_end: true,
        digits: digit_ranges(),
    }
}

#[verifier::rlimit(50)]
fn lang_alts(prefix: Atom) -> (a: Vec<Vec<Atom>>)
    ensures
        alt_views(a@) == lang_alts_spec(prefix),
{
    let mut a: Vec<Vec<Atom>> = Vec::new();
    push_alt(&mut a, prefixed_lit(prefix, "eng"));
    push_alt(&mut a, prefixed_lit(prefix, "english"));
    push_alt(&mut a, prefixed_lit(prefix, "en"));
    push_alt(&mut a, prefixed_lit(prefix, "por"));
    push_alt(&mut a, prefixed_lit(prefix, "portuguese"));
    push_alt(&mut a, prefixed_lit(prefix, "pt"));
    push_alt(&mut a, prefixed_lit(prefix, "spa"));
    push_alt(&mut a, prefixed_lit(prefix, "spanish"));
    push_alt(&mut a, prefixed_lit(prefix, "es"));
    push_alt(&mut a, prefixed_lit(prefix, "fre"));
    push_alt(&mut a, prefixed_lit(prefix, "french"));
    push_alt(&mut a, prefixed_lit(prefix, "fr"));
    push_alt(&mut a, prefixed_lit(prefix, "ger"));
    push_alt(&mut a, prefixed_lit(prefix, "german"));
    push_alt(&mut a, prefixed_lit(prefix, "de"));
    push_alt(&mut a, prefixed_lit(prefix, "ita"));
    push_alt(&mut a, prefixed_lit(prefix, "italian"));
    push_alt(&mut a, prefixed_lit(prefix, "it"));
    push_alt(&mut a, prefixed_lit(prefix, "jpn"));
    push_alt(&mut a, prefixed_lit(prefix, "japanese"));
    push_alt(&mut a, prefixed_lit(prefix, "ja"));
    push_alt(&mut a, prefixed_lit(prefix, "kor"));
    push_alt(&mut a, prefixed_lit(prefix, "korean"));
    push_alt(&mut a, prefixed_lit(prefix, "ko"));
    push_alt(&mut a, prefixed_lit(prefix, "chi"));
    push_alt(&mut a, prefixed_lit(prefix, "chinese"));
    push_alt(&mut a, prefixed_lit(prefix, "zh"));
    push_alt(&mut a, prefixed_lit(prefix, "nld"));
    push_alt(&mut a, prefixed_lit(prefix, "dutch"));
    push_alt(&mut a, prefixed_lit(prefix, "nl"));
    push_alt(&mut a, prefixed_lit(prefix, "swe"));
    push_alt(&mut a, prefixed_lit(prefix, "swedish"));
    push_alt(&mut a, prefixed_lit(prefix, "sv"));
    push_alt(&mut a, prefixed_lit(prefix, "nor"));
    push_alt(&mut a, prefixed_lit(prefix, "norwegian"));
    push_alt(&mut a, prefixed_lit(prefix, "no"));
    push_alt(&mut a, prefixed_lit(prefix, "dan"));
    push_alt(&mut a, prefixed_lit(prefix, "danish"));
    push_alt(&mut a, prefixed_lit(prefix, "da"));
    push_alt(&mut a, prefixed_lit(prefix, "fin"));
    push_alt(&mut a, prefixed_lit(prefix, "finnish"));
    push_alt(&mut a, prefixed_lit(prefix, "fi"));
    push_alt(&mut a, prefixed_lit(prefix, "pol"));
    push_alt(&mut a, prefixed_lit(prefix, "polish"));
    push_alt(&mut a, prefixed_lit(prefix, "pl"));
    push_alt(&mut a, prefixed_lit(prefix, "rus"));
    push_alt(&mut a, prefixed_lit(prefix, "russian"));
    push_alt(&mut a, prefixed_lit(prefix, "ru"));
    push_alt(&mut a, prefixed_lit(prefix, "tur"));
    push_alt(&mut a, prefixed_lit(prefix, "turkish"));
    push_alt(&mut a, prefixed_lit(prefix, "tr"));
    push_alt(&mut a, prefixed_lit(prefix, "ara"));
    push_alt(&mut a, prefixed_lit(prefix, "arabic"));
    push_alt(&mut a, prefixed_lit(prefix, "heb"));
    push_alt(&mut a, prefixed_lit(prefix, "hebrew"));
    push_alt(&mut a, prefixed_lit(prefix, "he"));
    a
}

pub fn lang() -> (p: Pattern)
    ensures
        p@ == lang_spec(),
{
    let a = lang_alts(Atom::Sep);
    Pattern { alts: a, ci: true, word_start: false, word_end: false, at_end: true, digits: digit_table() }
}

pub fn sub_lang_dot() -> (p: Pattern)
    ensures
        p@ == sub_lang_dot_spec(),
{
    let a = lang_alts(Atom::Ch('.'));
    let p = Pattern { alts: a, ci: true, word_start: false, word_end: false, at_end: true, digits: digit_table() };
    assert(p@.alts =~= sub_lang_dot_spec().alts);
    p
}

} // verus!

verus! {

// ---------------------------------------------------------------------------
// File extensions
// ---------------------------------------------------------------------------

/// Index of the last occurrence of `c` in `s`.
pub open spec fn last_index_of(s: Seq<char>, c: char) -> Option<int>
    decreases s.len(),
{
    if s.len() == 0 {
        None
    } else if s.last() == c {
        Some(s.len() - 1)
    } else {
        last_index_of(s.drop_last(), c)
    }
}

pub proof fn lemma_last_index_of(s: Seq<char>, c: char)
    ensures
        last_index_of(s, c) matches Some(p) ==> 0 <= p < s.len() && s[p] == c && forall|k: int|
            p < k < s.len() ==> s[k] != c,
        last_index_of(s, c) is None ==> forall|k: int| 0 <= k < s.len() ==> s[k] != c,
    decreases s.len(),
{
    if s.len() > 0 && s.last() != c {
        lemma_last_index_of(s.drop_last(), c);
        let t = s.drop_last();
        assert forall|k: int| 0 <= k < t.len() implies t[k] == s[k] by {}
    }
}

pub fn last_index_of_exec(s: &Vec<char>, c: char) -> (r: Option<usize>)
    ensures
        r matches Some(p) ==> last_index_of(s@, c) == Some(p as int),
        r is None ==> last_index_of(s@, c) is None,
{
    let mut i = s.len();
    assert(s@.take(i as int) =~= s@);
    while i > 0
        invariant
            i <= s.len(),
            last_index_of(s@, c) == last_index_of(s@.take(i as int), c),
        decreases i,
    {
        let ghost t = s@.take(i as int);
        assert(t.drop_last() =~= s@.take(i - 1));
        if s[i - 1] == c {
            return Some(i - 1);
        }
        i = i - 1;
    }
    None
}

/// Where the stem of a file name ends: at its last `.`, unless that dot is
/// the first character (a dot-file has no extension).
pub open spec fn stem_end(s: Seq<char>) -> int {
    match last_index_of(s, '.') {
        Some(p) => if p > 0 {
            p
        } else {
            s.len() as int
        },
        None => s.len() as int,
    }
}

/// The lower-cased extension, dot included; empty when there is none.
pub open spec fn ext_spec(s: Seq<char>) -> Seq<char> {
    if stem_end(s) < s.len() {
        lowercase_of(s.subrange(stem_end(s), s.len() as int))
    } else {
        seq![]
    }
}

/// A file name is its stem followed by its extension part; that part is
/// empty or starts with the name's last `.`, which is not its first
/// character, and holds no other `.`.
pub proof fn lemma_stem_end_shape(s: Seq<char>)
    ensures
        0 <= stem_end(s) <= s.len(),
        s == s.subrange(0, stem_end(s)) + s.subrange(stem_end(s), s.len() as int),
        stem_end(s) < s.len() ==> 0 < stem_end(s) && s[stem_end(s)] == '.',
        forall|k: int| stem_end(s) < k < s.len() ==> s[k] != '.',
        stem_end(s) == s.len() ==> forall|k: int| 0 < k < s.len() ==> s[k] != '.',
{
    lemma_last_index_of(s, '.');
    assert(s =~= s.subrange(0, stem_end(s)) + s.subrange(stem_end(s), s.len() as int));
}

pub fn stem_end_exec(s: &Vec<char>) -> (r: usize)
    ensures
        r == stem_end(s@),
        r <= s.len(),
{
    proof {
        lemma_last_index_of(s@, '.');
    }
    match last_index_of_exec(s, '.') {
        Some(p) => if p > 0 {
            p
        } else {
            s.len()
        },
        None => s.len(),
    }
}

pub fn ext_vec(s: &Vec<char>) -> (r: Vec<char>)
    ensures
        r@ == ext_spec(s@),
        all_ascii(s@) ==> r@ == ascii_lowered(s@.subrange(stem_end(s@), s@.len() as int)),
{
    proof {
        lemma_last_index_of(s@, '.');
    }
    let e = stem_end_exec(s);
    if e < s.len() {
        let t = slice_vec(s, e, s.len());
        assert(all_ascii(s@) ==> all_ascii(t@)) by {
            if all_ascii(s@) {
                assert forall|i: int| 0 <= i < t@.len() implies (#[trigger] t@[i] as u32) < 128 by {
                    assert(t@[i] == s@[e + i]);
                }
            }
        }
        lowercase(&t)
    } else {
        let r = Vec::new();
        assert(r@ =~= ascii_lowered(s@.subrange(e as int, s@.len() as int)));
        r
    }
}

/// The lower-cased extension of a file name, including the dot (`".mkv"`);
/// empty for a name without a dot or whose only dot is its first character.
///
/// For an ASCII name the extension is the name's tail after its stem,
/// lower-cased: it is empty exactly when the stem is the whole name, and
/// otherwise it starts with `.` and holds no other `.`.
pub fn ext_of(filename: &str) -> (r: String)
    ensures
        r@ == ext_spec(filename@),
        stem_end(filename@) == filename@.len() ==> r@.len() == 0,
        all_ascii(filename@) ==> {
            &&& r@ == ascii_lowered(filename@.subrange(stem_end(filename@), filename@.len() as int))
            &&& (r@.len() == 0 <==> stem_end(filename@) == filename@.len())
            &&& r@.len() > 0 ==> r@[0] == '.'
            &&& forall|k: int| 0 < k < r@.len() ==> r@[k] != '.'
        },
{
    let s = chars_of(filename);
    let e = ext_vec(&s);
    proof {
        lemma_stem_end_shape(s@);
        let se = stem_end(s@);
        if all_ascii(s@) {
            assert forall|k: int| 0 < k < e@.len() implies e@[k] != '.' by {
                assert(s@[se + k] != '.');
                assert(e@[k] == ascii_lower(s@[se + k]));
            }
            if se < s@.len() {
                assert(e@[0] == ascii_lower(s@[se]));
            }
        }
    }
    string_of(&e)
}

/// A file name without its extension (see `ext_of`).
pub fn stem_of(filename: &str) -> (r: &str)
    ensures
        r@ == filename@.subrange(0, stem_end(filename@)),
{
    let s = chars_of(filename);
    let e = stem_end_exec(&s);
    proof {
        lemma_last_index_of(s@, '.');
    }
    filename.substring_char(0, e)
}

// ---------------------------------------------------------------------------
// Language suffixes of subtitle names
// ---------------------------------------------------------------------------

/// A subtitle stem with a trailing language code (and its separator) removed.
pub open spec fn sub_stem_spec(stem: Seq<char>) -> Seq<char> {
    replace_first(lang_spec(), stem, seq![])
}

/// The lower-cased trailing language code of a subtitle stem, or empty.
pub open spec fn sub_lang_spec(stem: Seq<char>) -> Seq<char> {
    match find(lang_spec(), stem) {
        Some((a, e)) => lowercase_of(stem.subrange(a + 1, e)),
        None => seq![],
    }
}

pub fn sub_stem_vec(stem: &Vec<char>) -> (r: Vec<char>)
    ensures
        r@ == sub_stem_spec(stem@),
{
    let p = lang();
    proof {
        lemma_lang_wf();
    }
    replace_first_exec(&p, stem, &Vec::new())
}

pub fn sub_lang_vec(stem: &Vec<char>) -> (r: Vec<char>)
    ensures
        r@ == sub_lang_spec(stem@),
{
    let p = lang();
    proof {
        lemma_lang_wf();
        lemma_find_bounds(lang_spec(), stem@, 0);
    }
    match find_exec(&p, stem) {
        Some((a, e)) => lowercase(&slice_vec(stem, a + 1, e)),
        None => Vec::new(),
    }
}

pub proof fn lemma_lang_wf()
    ensures
        wf_pattern(lang_spec()),
        wf_pattern(sub_lang_dot_spec()),
{
    assert forall|k: int| 0 <= k < lang_spec().alts.len() implies #[trigger] lang_spec().alts[k].len()
        > 0 by {
        assert(lang_spec().alts[k][0] == Atom::Sep);
    }
    assert forall|k: int| 0 <= k < sub_lang_dot_spec().alts.len() implies
        #[trigger] sub_lang_dot_spec().alts[k].len() > 0 by {
        assert(sub_lang_dot_spec().alts[k][0] == ch_atom('.'));
    }
}

} // verus!

verus! {

// ---------------------------------------------------------------------------
// The already-organized form `Title (YYYY)` / `Title (YYYY) {edition-X}`
// ---------------------------------------------------------------------------

/// No `}` among the characters.
pub open spec fn no_close_brace(s: Seq<char>) -> bool {
    forall|k: int| 0 <= k < s.len() ==> s[k] != '}'
}

/// What follows a title ending at `l`: ` (YYYY)` and then either the end of
/// the text (`Some(None)`) or ` {edition-X}` closing the text, with `X`
/// non-empty and free of `}` (`Some(Some((x_start, x_end)))`).
pub open spec fn already_rest(s: Seq<char>, l: int) -> Option<Option<(int, int)>> {
    let r = l + 7;
    if !(0 < l && r <= s.len() && s[l] == ' ' && s[l + 1] == '(' && crate::text::all_digits(
        s.subrange(l + 2, l + 6),
    ) && s[l + 6] == ')') {
        None
    } else if r + 12 <= s.len() && s.subrange(r, r + 10) == " {edition-"@ && s.last() == '}'
        && no_close_brace(s.subrange(r + 10, s.len() - 1)) {
        Some(Some((r + 10, s.len() - 1)))
    } else if r == s.len() {
        Some(None)
    } else {
        None
    }
}

/// The shortest title, searching lengths from `l` on, that is followed by a
/// valid rest; titles never contain a line feed.
pub open spec fn already_from(s: Seq<char>, l: int) -> Option<int>
    decreases s.len() - l,
{
    if l < 1 || l >= s.len() {
        None
    } else if s[l - 1] == '\n' {
        None
    } else if already_rest(s, l) is Some {
        Some(l)
    } else {
        already_from(s, l + 1)
    }
}

/// Title end of an already-organized name, if the whole text has that form.
pub open spec fn already_spec(s: Seq<char>) -> Option<int> {
    already_from(s, 1)
}

/// Year of an already-organized name whose title ends at `l`.
pub open spec fn already_year(s: Seq<char>, l: int) -> nat {
    digits_value(s.subrange(l + 2, l + 6))
}

#[verifier::loop_isolation(false)]
fn already_rest_exec(s: &Vec<char>, l: usize) -> (r: Option<Option<(usize, usize)>>)
    requires
        l <= s.len(),
    ensures
        r matches Some(Some((a, b))) ==> already_rest(s@, l as int) == Some(Some((a as int, b as int))),
        r matches Some(None) ==> already_rest(s@, l as int) == Some(None::<(int, int)>),
        r is None ==> already_rest(s@, l as int) is None,
{
    if l == 0 || s.len() < 7 || l > s.len() - 7 {
        return None;
    }
    let r = l + 7;
    if !(s[l] == ' ' && s[l + 1] == '(' && is_digit_c(s[l + 2]) && is_digit_c(s[l + 3])
        && is_digit_c(s[l + 4]) && is_digit_c(s[l + 5]) && s[l + 6] == ')') {
        proof {
            if crate::text::all_digits(s@.subrange(l + 2, l + 6)) {
                assert(s@.subrange(l + 2, l + 6)[0] == s@[l + 2]);
                assert(s@.subrange(l + 2, l + 6)[1] == s@[l + 3]);
                assert(s@.subrange(l + 2, l + 6)[2] == s@[l + 4]);
                assert(s@.subrange(l + 2, l + 6)[3] == s@[l + 5]);
            }
        }
        return None;
    }
    assert(crate::text::all_digits(s@.subrange(l + 2, l + 6))) by {
        assert forall|k: int| 0 <= k < 4 implies is_digit(#[trigger] s@.subrange(l + 2, l + 6)[k]) by {
            assert(s@.subrange(l + 2, l + 6)[k] == s@[l + 2 + k]);
        }
    }
    if s.len() >= 12 && r <= s.len() - 12 {
        let head = slice_vec(s, r, r + 10);
        let marker = chars_of(" {edition-");
        if crate::text::eq_vec(&head, &marker) && s[s.len() - 1] == '}' {
            let n = s.len();
            let mut k = r + 10;
            while k < n - 1
                invariant
                    r + 10 <= k <= n - 1,
                    n == s.len(),
                    forall|m: int| r + 10 <= m < k ==> s@[m] != '}',
                decreases n - 1 - k,
            {
                if s[k] == '}' {
                    proof {
                        assert(s@.subrange(r + 10, n - 1)[k - (r + 10)] == '}');
                        assert(!no_close_brace(s@.subrange(r + 10, n - 1)));
                        assert(r + 12 <= s.len());
                        assert(r != s.len());
                    }
                    return None;
                }
                k = k + 1;
            }
            assert(no_close_brace(s@.subrange(r + 10, n - 1))) by {
                assert forall|m: int| 0 <= m < n - 1 - (r + 10) implies #[trigger] s@.subrange(
                    r + 10,
                    n - 1,
                )[m] != '}' by {
                    assert(s@.subrange(r + 10, n - 1)[m] == s@[r + 10 + m]);
                }
            }
            return Some(Some((r + 10, n - 1)));
        }
    }
    if r == s.len() {
        Some(None)
    } else {
        None
    }
}

fn is_digit_c(c: char) -> (r: bool)
    ensures
        r == is_digit(c),
{
    '0' <= c && c <= '9'
}

/// Title end and edition span of an already-organized name.
pub fn match_already(s: &Vec<char>) -> (r: Option<(usize, Option<(usize, usize)>)>)
    ensures
        r matches Some((l, ed)) ==> already_spec(s@) == Some(l as int) && match ed {
            Some((a, b)) => already_rest(s@, l as int) == Some(Some((a as int, b as int))),
            None => already_rest(s@, l as int) == Some(None::<(int, int)>),
        } && 0 < l && l + 7 <= s.len(),
        r is None ==> already_spec(s@) is None,
{
    let mut l: usize = 1;
    while l < s.len()
        invariant
            1 <= l,
            already_spec(s@) == already_from(s@, l as int),
        decreases s.len() - l,
    {
        if s[l - 1] == '\n' {
            return None;
        }
        match already_rest_exec(s, l) {
            Some(ed) => {
                return Some((l, ed));
            },
            None => {},
        }
        l = l + 1;
    }
    None
}

// ---------------------------------------------------------------------------
// Multi-part markers (`CD1`, `Part 2`, `- pt1`)
// ---------------------------------------------------------------------------

/// Disc/part words: `cd`, `dvd`, `disc`, `disk`, `part`, `pt`.
pub open spec fn part_words_spec() -> PatternSpec {
    PatternSpec {
        alts: seq![lit("cd"@), lit("dvd"@), lit("disc"@), lit("disk"@), lit("part"@), lit("pt"@)],
        ci: true,
        word_start: false,
        word_end: false,
        at_end: false,
        digits: digit_ranges(),
    }
}

/// Only `part` and `pt`.
pub open spec fn part_pt_spec() -> PatternSpec {
    PatternSpec {
        alts: seq![lit("part"@), lit("pt"@)],
        ci: true,
        word_start: false,
        word_end: false,
        at_end: false,
        digits: digit_ranges(),
    }
}

pub fn part_words() -> (p: Pattern)
    ensures
        p@ == part_words_spec(),
{
    let mut a: Vec<Vec<Atom>> = Vec::new();
    push_alt(&mut a, lit_exec("cd"));
    push_alt(&mut a, lit_exec("dvd"));
    push_alt(&mut a, lit_exec("disc"));
    push_alt(&mut a, lit_exec("disk"));
    push_alt(&mut a, lit_exec("part"));
    push_alt(&mut a, lit_exec("pt"));
    let p = Pattern { alts: a, ci: true, word_start: false, word_end: false, at_end: false, digits: digit_table() };
    assert(p@.alts =~= part_words_spec().alts);
    p
}

pub fn part_pt() -> (p: Pattern)
    ensures
        p@ == part_pt_spec(),
{
    let mut a: Vec<Vec<Atom>> = Vec::new();
    push_alt(&mut a, lit_exec("part"));
    push_alt(&mut a, lit_exec("pt"));
    let p = Pattern { alts: a, ci: true, word_start: false, word_end: false, at_end: false, digits: digit_table() };
    assert(p@.alts =~= part_pt_spec().alts);
    p
}

pub open spec fn is_part_digit(c: char) -> bool {
    '1' <= c && c <= '8'
}

/// A whole-word part marker at `i`: a word of `words`, optional whitespace,
/// optional zeros, one digit `1`-`8` ending a word. Gives that digit.
pub open spec fn part_at(s: Seq<char>, i: int, words: PatternSpec) -> Option<char> {
    if !(0 <= i <= s.len() && boundary(s, i)) {
        None
    } else {
        match match_end(words, s, i) {
            Some(k) => {
                let z = skip_zeros(s, skip_ws(s, k));
                if 0 <= z < s.len() && is_part_digit(s[z]) && boundary(s, z + 1) {
                    Some(s[z])
                } else {
                    None
                }
            },
            None => None,
        }
    }
}

fn part_at_exec(s: &Vec<char>, i: usize, words: &Pattern) -> (r: Option<char>)
    requires
        i <= s.len(),
        words@ == part_words_spec() || words@ == part_pt_spec(),
    ensures
        r == part_at(s@, i as int, words@),
{
    if !boundary_exec(s, i) {
        return None;
    }
    proof {
        lemma_part_words_wf();
        crate::pattern::lemma_match_end_bounds(words@, s@, i as int);
    }
    match match_end_exec(words, s, i) {
        Some(k) => {
            let m = skip_ws_exec(s, k);
            let z = skip_zeros_exec(s, m);
            if z < s.len() && '1' <= s[z] && s[z] <= '8' && boundary_exec(s, z + 1) {
                Some(s[z])
            } else {
                None
            }
        },
        None => None,
    }
}

proof fn lemma_part_words_wf()
    ensures
        wf_pattern(part_words_spec()),
        wf_pattern(part_pt_spec()),
{
    reveal_strlit("cd");
    reveal_strlit("dvd");
    reveal_strlit("disc");
    reveal_strlit("disk");
    reveal_strlit("part");
    reveal_strlit("pt");
}

/// The leftmost part marker of `s` among `words`, with its digit.
pub open spec fn first_part(s: Seq<char>, words: PatternSpec) -> Option<int> {
    leftmost(|i: int| part_at(s, i, words) is Some, 0, s.len() as int)
}

pub fn first_part_exec(s: &Vec<char>, words: &Pattern) -> (r: Option<(usize, char)>)
    requires
        words@ == part_words_spec() || words@ == part_pt_spec(),
    ensures
        r matches Some((i, d)) ==> first_part(s@, words@) == Some(i as int) && part_at(
            s@,
            i as int,
            words@,
        ) == Some(d),
        r is None ==> first_part(s@, words@) is None,
{
    let ghost p = |i: int| part_at(s@, i, words@) is Some;
    let mut i: usize = 0;
    while i <= s.len()
        invariant
            i <= s.len(),
            forall|m: int| 0 <= m < i ==> !#[trigger] p(m),
            p == (|i: int| part_at(s@, i, words@) is Some),
            words@ == part_words_spec() || words@ == part_pt_spec(),
        decreases s.len() + 1 - i,
    {
        match part_at_exec(s, i, words) {
            Some(d) => {
                proof {
                    lemma_leftmost_found(p, 0, i as int, s.len() as int);
                }
                return Some((i, d));
            },
            None => {},
        }
        if i == s.len() {
            proof {
                lemma_leftmost_none(p, 0, s.len() as int);
            }
            return None;
        }
        i = i + 1;
    }
    None
}

/// A digit-`d` `part`/`pt` marker occurs in `s`.
pub open spec fn has_part_marker(s: Seq<char>, d: char) -> bool {
    leftmost(|i: int| part_at(s, i, part_pt_spec()) == Some(d), 0, s.len() as int) is Some
}

pub fn has_part_marker_exec(s: &Vec<char>, d: char) -> (r: bool)
    ensures
        r == has_part_marker(s@, d),
{
    let words = part_pt();
    let ghost p = |i: int| part_at(s@, i, part_pt_spec()) == Some(d);
    let mut i: usize = 0;
    while i <= s.len()
        invariant
            i <= s.len(),
            words@ == part_pt_spec(),
            forall|m: int| 0 <= m < i ==> !#[trigger] p(m),
            p == (|i: int| part_at(s@, i, part_pt_spec()) == Some(d)),
        decreases s.len() + 1 - i,
    {
        if part_at_exec(s, i, &words) == Some(d) {
            proof {
                lemma_leftmost_found(p, 0, i as int, s.len() as int);
            }
            return true;
        }
        if i == s.len() {
            proof {
                lemma_leftmost_none(p, 0, s.len() as int);
            }
            return false;
        }
        i = i + 1;
    }
    false
}

/// A trailing split marker starting at `i`: optional whitespace, `-`,
/// optional whitespace, a disc/part word, optional whitespace, optional
/// zeros, a digit `1`-`8`, optional whitespace, end of text.
pub open spec fn split_tail_at(s: Seq<char>, i: int) -> bool {
    let j = skip_ws(s, i);
    &&& 0 <= i <= s.len()
    &&& j < s.len()
    &&& s[j] == '-'
    &&& match match_end(part_words_spec(), s, skip_ws(s, j + 1)) {
        Some(k) => {
            let z = skip_zeros(s, skip_ws(s, k));
            &&& z < s.len()
            &&& is_part_digit(s[z])
            &&& skip_ws(s, z + 1) == s.len()
        },
        None => false,
    }
}

/// Text with a trailing split marker (` - pt1`, `-CD2`) removed.
pub open spec fn strip_split_tail(s: Seq<char>) -> Seq<char> {
    match leftmost(|i: int| split_tail_at(s, i), 0, s.len() as int) {
        Some(i) => s.subrange(0, i),
        None => s,
    }
}

fn split_tail_at_exec(s: &Vec<char>, i: usize, words: &Pattern) -> (r: bool)
    requires
        i <= s.len(),
        words@ == part_words_spec(),
    ensures
        r == split_tail_at(s@, i as int),
{
    let j = skip_ws_exec(s, i);
    if !(j < s.len() && s[j] == '-') {
        return false;
    }
    let w = skip_ws_exec(s, j + 1);
    proof {
        lemma_part_words_wf();
        crate::pattern::lemma_match_end_bounds(words@, s@, w as int);
    }
    match match_end_exec(words, s, w) {
        Some(k) => {
            let z = skip_zeros_exec(s, skip_ws_exec(s, k));
            z < s.len() && '1' <= s[z] && s[z] <= '8' && skip_ws_exec(s, z + 1) == s.len()
        },
        None => false,
    }
}

pub fn strip_split_tail_vec(s: &Vec<char>) -> (r: Vec<char>)
    ensures
        r@ == strip_split_tail(s@),
        r@.len() <= s@.len(),
        r@ == s@.subrange(0, r@.len() as int),
{
    let words = part_words();
    let ghost p = |i: int| split_tail_at(s@, i);
    let mut i: usize = 0;
    while i <= s.len()
        invariant
            i <= s.len(),
            words@ == part_words_spec(),
            forall|m: int| 0 <= m < i ==> !#[trigger] p(m),
            p == (|i: int| split_tail_at(s@, i)),
        decreases s.len() + 1 - i,
    {
        if split_tail_at_exec(s, i, &words) {
            proof {
                lemma_leftmost_found(p, 0, i as int, s.len() as int);
            }
            return slice_vec(s, 0, i);
        }
        if i == s.len() {
            proof {
                lemma_leftmost_none(p, 0, s.len() as int);
            }
            let r = slice_vec(s, 0, s.len());
            assert(r@ =~= s@);
            return r;
        }
        i = i + 1;
    }
    Vec::new()
}

} // verus!
