//! Cross-checks the parsers against the same rules written with the `regex`
//! crate, over a corpus of release and file names.

use acervo::identity::Identity;
use regex::Regex;

fn quality_re() -> Regex {
    Regex::new(
        r"(?i)\b(?:\d{3,4}p|4k|2160p|1080i|bluray|blu-ray|brrip|bdrip|bdremux|remux|\
web[- ]?dl|webrip|hdtv|hdrip|dvdrip|dvdscr|hdts|telesync|hdcam|\
x264|x265|h\s?264|h\s?265|hevc|avc|xvid|divx|\
aac|ac3|dd5|ddp5|ddp|dts|truehd|atmos|flac|mp3|opus|\
10bit|8bit|hdr10|hdr|sdr|yify|yts|vostfr)\b",
    )
    .unwrap()
}

fn noise_re() -> Regex {
    Regex::new(
        r"(?i)\b(?:proper|repack|internal|retail|limited|multi|complete|hybrid|\
open\s?matte|uncut|dubbed|subbed)\b",
    )
    .unwrap()
}

fn editions() -> Vec<(Regex, Option<&'static str>)> {
    vec![
        (Regex::new(r"(?i)director'?s[ .]?cut").unwrap(), Some("Director's Cut")),
        (Regex::new(r"(?i)\bfinal[ .]?cut\b").unwrap(), Some("Final Cut")),
        (Regex::new(r"(?i)\bextended(?:[ .]?(?:cut|edition))?\b").unwrap(), Some("Extended")),
        (Regex::new(r"(?i)\bunrated\b").unwrap(), Some("Unrated")),
        (Regex::new(r"(?i)\btheatrical(?:[ .]?cut)?\b").unwrap(), Some("Theatrical")),
        (Regex::new(r"(?i)\bimax\b").unwrap(), Some("IMAX")),
        (Regex::new(r"(?i)\bremastered\b").unwrap(), None),
        (Regex::new(r"(?i)\brestored\b").unwrap(), None),
    ]
}

fn year_re() -> Regex {
    Regex::new(r"\b(?:19|20)\d{2}\b").unwrap()
}

const LANG_CODES: &str = "eng|english|en|por|portuguese|pt|spa|spanish|es|fre|french|fr|ger|german|de|ita|italian|it|jpn|japanese|ja|kor|korean|ko|chi|chinese|zh|nld|dutch|nl|swe|swedish|sv|nor|norwegian|no|dan|danish|da|fin|finnish|fi|pol|polish|pl|rus|russian|ru|tur|turkish|tr|ara|arabic|heb|hebrew|he";

fn lang_re() -> Regex {
    Regex::new(&format!(r"(?i)[ ._-]({LANG_CODES})$")).unwrap()
}

fn already_re() -> Regex {
    Regex::new(r"^(?P<title>.+?) \((?P<year>\d{4})\)(?: \{edition-(?P<ed>[^}]+)\})?$").unwrap()
}

fn regex_smart_title(text: &str) -> String {
    let small = [
        "a", "an", "the", "of", "and", "or", "in", "on", "to", "for", "vs", "at", "by", "with", "from", "as",
        "but", "nor",
    ];
    let all_caps = {
        let mut has_cased = false;
        let mut lower = false;
        for c in text.chars() {
            if c.is_lowercase() {
                lower = true;
                break;
            }
            if c.is_uppercase() {
                has_cased = true;
            }
        }
        has_cased && !lower
    };
    let words: Vec<&str> = text.split_whitespace().collect();
    let mut out = Vec::new();
    for (i, w) in words.iter().enumerate() {
        if !all_caps && w.chars().any(|c| c.is_uppercase()) {
            out.push(w.to_string());
        } else if i != 0 && small.contains(&w.to_lowercase().as_str()) {
            out.push(w.to_lowercase());
        } else {
            let mut chars = w.chars();
            let first = chars.next().map(|c| c.to_uppercase().to_string()).unwrap_or_default();
            let rest: String = chars.as_str().into();
            let rest = if all_caps { rest.to_lowercase() } else { rest };
            out.push(format!("{first}{rest}"));
        }
    }
    out.join(" ")
}

fn regex_identity(stem: &str, strip_split: bool) -> Option<(String, i32, Option<String>)> {
    let stem = if strip_split {
        Regex::new(r"(?i)\s*-\s*(?:cd|dvd|disc|disk|part|pt)\s*0*[1-8]\s*$").unwrap().replace(stem, "").to_string()
    } else {
        stem.to_string()
    };
    if let Some(caps) = already_re().captures(&stem) {
        let title = caps.name("title").unwrap().as_str().to_string();
        let year: i32 = caps.name("year").unwrap().as_str().parse().unwrap();
        let edition = caps.name("ed").map(|m| m.as_str().to_string());
        return Some((title, year, edition));
    }
    let dots = Regex::new(r"[._]+").unwrap();
    let ws = Regex::new(r"\s+").unwrap();
    let norm = dots.replace_all(&stem, " ");
    let norm = ws.replace_all(&norm, " ").trim().to_string();
    let mut head = match quality_re().find(&norm) {
        Some(m) => norm[..m.start()].to_string(),
        None => norm.clone(),
    };
    let mut eds: Vec<&'static str> = Vec::new();
    for (rgx, label) in editions().iter() {
        if rgx.is_match(&norm) {
            if let Some(label) = label {
                if !eds.contains(label) {
                    eds.push(label);
                }
            }
            head = rgx.replace_all(&head, " ").to_string();
        }
    }
    let yre = year_re();
    let years: Vec<_> = yre.find_iter(&head).collect();
    let ym = years.last()?;
    let year: i32 = ym.as_str().parse().ok()?;
    let mut title = head[..ym.start()].trim().to_string();
    if title.is_empty() {
        title = head[ym.end()..].trim().to_string();
    }
    let title = noise_re().replace_all(&title, " ").to_string();
    let title = ws.replace_all(&title, " ");
    let title = title.trim_matches(|c: char| " -._(".contains(c));
    if title.is_empty() {
        return None;
    }
    Some((regex_smart_title(title), year, if eds.is_empty() { None } else { Some(eds.join(" ")) }))
}

fn view(id: Option<Identity>) -> Option<(String, i32, Option<String>)> {
    id.map(|i| (i.title, i.year, i.edition))
}

fn corpus() -> Vec<&'static str> {
    vec![
        "The.Dark.Knight.2008.1080p.BluRay.x264-GROUP",
        "THE.DARK.KNIGHT.2008.720p",
        "Blade Runner (1982) {edition-Final Cut}",
        "Blade.Runner.1982.Final.Cut.1080p.BluRay",
        "Blade.Runner.1982.The.Final.Cut.REMASTERED.2160p",
        "Aliens.1986.Directors.Cut.1080p",
        "Aliens.1986.Director's.Cut",
        "Amadeus.1984.DIRECTORS.CUT.REPACK.1080p",
        "Avatar.2009.EXTENDED.COLLECTORS.EDITION.1080p",
        "Avatar.2009.Extended.Edition.IMAX.720p",
        "Dune.2021.IMAX.2160p.WEB-DL.DDP5.1.Atmos",
        "2024.War.Machine.1080p",
        "War Machine 2024",
        "The Hunger Games Mockingjay Part 1 (2014)",
        "The.Hunger.Games.Mockingjay.Part.1.2014.1080p",
        "Movie (2010) - pt1",
        "Movie.2010.CD1",
        "Movie.2010.Part.2.DVDRip",
        "Some.Movie.2001.PROPER.UNRATED.480p",
        "Some_Movie_1999_Open_Matte_1080p",
        "Kelvin.\u{212a}ing.2000",
        "Amélie.2001.1080p.BluRay",
        "no year here",
        "2001",
        "1999.1080p",
        "Movie.1900.2050.1080p",
        "Theatrical.2011.Theatrical.Cut",
        "Final Cut Pro 2010",
        "Star Wars (1977) {edition-Despecialized {v2}}",
        "Title (2020) {edition-}",
        "x (2020)",
        "(2020)",
        " (2020)",
        "Title\n(2020)",
        "A (2000) B (2001)",
        "Show.Name.S01E02.Episode.Title.720p.HDTV",
        "Movie.2012.H 264.AAC",
        "Movie.2012.h264",
        "Movie-2012-WEBRip",
        "Movie  --  2012  --  x265",
        "The.Office.US.2005.S01.Complete",
        "Inception.2010.4K.HDR10.DV",
        "Le.Fabuleux.Destin.d'Amélie.Poulain.2001.FRENCH.1080p",
        "Movie.2015.Restored.Remastered.Unrated.Extended.Cut",
    ]
}

#[test]
fn movie_identities_match_the_regex_rules() {
    for name in corpus() {
        let ours = view(acervo::movies::parse_identity(name));
        let expected = regex_identity(name, true);
        assert_eq!(ours, expected, "movie identity of {name:?}");
    }
}

#[test]
fn show_identities_match_the_regex_rules() {
    for name in corpus() {
        let ours = view(acervo::tv::parse_show_identity(name));
        let expected = regex_identity(name, false);
        assert_eq!(ours, expected, "show identity of {name:?}");
    }
}

#[test]
fn smart_title_matches_the_regex_rules() {
    for name in ["THE DARK KNIGHT", "john wick", "a tale", "ǅemal straße", "ÉCOLE de paris", "ſtar trek", "iPhone story"] {
        assert_eq!(acervo::naming::smart_title(name), regex_smart_title(name), "{name:?}");
    }
}

#[test]
fn sub_language_suffixes_match_the_regex_rules() {
    for stem in ["Movie.en", "Movie.English", "Movie-PT", "Movie_fre", "Movie en", "Movie.xx", "Movie.en.forced", "en", ".en", "Movie.\u{212a}o"] {
        let re = lang_re();
        let expected_stem = re.replace(stem, "").to_string();
        let expected_lang = re.captures(stem).map(|c| c.get(1).unwrap().as_str().to_lowercase()).unwrap_or_default();
        assert_eq!(acervo::movies::sub_stem(stem), expected_stem, "{stem:?}");
        assert_eq!(acervo::movies::sub_lang_of(stem), expected_lang, "{stem:?}");
    }
}

fn regex_clean_episode_title(text: &str) -> String {
    let ws = Regex::new(r"\s+").unwrap();
    let res = Regex::new(r"(?i)^\d{3,4}p$").unwrap();
    let tb = Regex::new(r"\s*\[[^\]]*$").unwrap();
    let s = text.replace(['_', '.'], " ");
    let s = ws.replace_all(&s, " ").trim().to_string();
    if s.is_empty() {
        return String::new();
    }
    let mut tokens: Vec<&str> = Vec::new();
    for tok in s.split(' ') {
        if res.is_match(tok) {
            break;
        }
        tokens.push(tok);
    }
    while let Some(first) = tokens.first() {
        if ["repack", "proper", "internal", "real"].contains(&first.to_lowercase().as_str()) {
            tokens.remove(0);
        } else {
            break;
        }
    }
    let title = tokens.join(" ");
    let title = title.trim_matches(|c: char| c == ' ' || c == '-').to_string();
    let title = tb.replace(&title, "").to_string();
    title.trim_matches(|c: char| c == ' ' || c == '-').to_string()
}

fn regex_parse_episode(stem: &str, allow_bare: bool) -> Option<(Option<u32>, u32, Option<u32>, String)> {
    let se = Regex::new(r"[Ss](\d{1,2})[Ee](\d{1,2})").unwrap();
    let multi = Regex::new(r"[\s._-]*-?\s*[eE](\d{1,2})\b").unwrap();
    let paren = Regex::new(r"\((\d+)\)[\s._]*and[\s._]*\((\d+)\)").unwrap();
    let bare = Regex::new(r"(?:^|[\s._-])(\d{1,2})\s*$").unwrap();
    if let Some(m) = se.find(stem) {
        let caps = se.captures(stem).unwrap();
        let ss: u32 = caps.get(1).unwrap().as_str().parse().unwrap();
        let ee: u32 = caps.get(2).unwrap().as_str().parse().unwrap();
        let mut after = &stem[m.end()..];
        let mut ee2 = None;
        if let Some(m2) = multi.find(after) {
            let c2 = multi.captures(after).unwrap();
            ee2 = Some(c2.get(1).unwrap().as_str().parse().unwrap());
            after = &after[..m2.start()];
        } else if let Some(m3) = paren.find(after) {
            ee2 = Some(ee + 1);
            after = &after[..m3.start()];
        }
        return Some((Some(ss), ee, ee2, regex_clean_episode_title(after)));
    }
    if allow_bare {
        if let Some(caps) = bare.captures(stem) {
            let n: u32 = caps.get(1).unwrap().as_str().parse().unwrap();
            return Some((None, n, None, String::new()));
        }
    }
    None
}

fn episode_corpus() -> Vec<&'static str> {
    vec![
        "Severance.S01E02.Half.Loop.1080p.ATVP.WEB-DL",
        "show.s1e2.title",
        "Show - S01E01-E02 - Pilot",
        "Show.S01E01E02.720p",
        "Show.S01E01.E02.Title",
        "Show S01E01 (1) and (2)",
        "Show S01E05 Part (1)_and_(2) 1080p",
        "Show.S01E010.x",
        "Show.S001E01",
        "Show.S01E01-e2x",
        "Show.S1E1.REPACK.PROPER.Real.Title.720p.x",
        "Show.S1E1.Title [rarbg",
        "Show.S1E1.Title [rarbg] more",
        "Show.S02E03 - - Title - ",
        "The Show 12",
        "The Show 123",
        "07",
        "Show.7",
        "Show-07  ",
        "Show S01E01 REAL",
        "Show s01e01 1080P title",
        "Show S01E01 title E3 x",
        "S01E02",
        "Show.S01E01.Ep.\u{212a}",
    ]
}

#[test]
fn episodes_match_the_regex_rules() {
    for stem in episode_corpus() {
        for bare in [false, true] {
            let ours = acervo::tv::parse_episode(stem, bare);
            let expected = regex_parse_episode(stem, bare);
            assert_eq!(ours, expected, "episode of {stem:?} (bare {bare})");
        }
    }
}

#[test]
fn episode_titles_match_the_regex_rules() {
    for text in [".Half.Loop.1080p", "", " - ", "_REPACK_Title", "Real Title [x", "a 720P b", "Title - [Group]"] {
        assert_eq!(acervo::tv::clean_episode_title(text), regex_clean_episode_title(text), "{text:?}");
    }
}

fn regex_fallback_show_title(name: &str) -> Option<String> {
    let dots = Regex::new(r"[._]+").unwrap();
    let ws = Regex::new(r"\s+").unwrap();
    let token = Regex::new(r"\b[Ss]\d{1,2}(?:[Ee]\d{1,2})?\b").unwrap();
    let trail = Regex::new(r"(?i)\b[Ss]eason\s*\d{1,2}\b.*$").unwrap();
    let norm = dots.replace_all(name, " ");
    let mut norm = ws.replace_all(&norm, " ").trim().to_string();
    if let Some(q) = quality_re().find(&norm) {
        norm.truncate(q.start());
    }
    if let Some(s) = token.find(&norm) {
        norm.truncate(s.start());
    }
    let norm = trail.replace(&norm, "").to_string();
    let mut norm = norm;
    for (rgx, _label) in editions().iter() {
        norm = rgx.replace_all(&norm, " ").to_string();
    }
    let norm = noise_re().replace_all(&norm, " ").to_string();
    let norm = ws.replace_all(&norm, " ");
    let norm = norm.trim_matches(|c: char| " -._([".contains(c));
    if norm.is_empty() { None } else { Some(regex_smart_title(norm)) }
}

#[test]
fn fallback_titles_match_the_regex_rules() {
    for name in [
        "Severance.S01.1080p.ATVP.WEB-DL",
        "severance.season.2.complete",
        "The.Office.S01E01",
        "Show Season 1",
        "Show Season 10 extras",
        "Show Season 123",
        "[Group] Show - 01",
        "S01",
        "Show.S1E2x",
        "Show (Extended) S03",
        "Show.S01.REPACK",
    ] {
        assert_eq!(acervo::tv::fallback_show_title(name), regex_fallback_show_title(name), "{name:?}");
    }
}

#[test]
fn seasons_from_folders_match_the_regex_rules() {
    let sd = Regex::new(r"[Ss]eason\s*(\d{1,2})").unwrap();
    let bare = Regex::new(r"(?:^|[\s._-])(\d{1,2})\s*$").unwrap();
    for parent in ["Season 2", "season02", "Show Season  12x", "Show (2019)", "Show 2019", "Show 3", "Show", "Season x 2", "Season 123"] {
        let expected: Option<u32> = if let Some(c) = sd.captures(parent) {
            c.get(1).unwrap().as_str().parse().ok()
        } else if year_re().find(parent).is_some() {
            None
        } else if bare.is_match(parent) {
            Some(1)
        } else {
            None
        };
        assert_eq!(acervo::tv::season_from_folder(parent), expected, "{parent:?}");
    }
}

#[test]
fn part_markers_match_the_regex_rules() {
    let part = Regex::new(r"(?i)\b(?:cd|dvd|disc|disk|part|pt)\s*0*([1-8])\b").unwrap();
    let dots = Regex::new(r"[._]+").unwrap();
    for (stem, title) in [
        ("Movie.2010.CD1", "Movie"),
        ("Movie.2010.cd 02", "Movie"),
        ("Movie.2010.Part.1", "Movie Part 1"),
        ("Movie.2010.Part.1", "Movie pt01"),
        ("Movie.2010.Part.9", "Movie"),
        ("Movie.2010.Disk3x", "Movie"),
        ("Movie.2010.dvd 3", "Movie Part 2"),
        ("Mockingjay Part 1 2014", "Mockingjay Part 1"),
    ] {
        let normalized = dots.replace_all(stem, " ");
        let expected = part.captures(&normalized).and_then(|caps| {
            let p: u32 = caps.get(1).unwrap().as_str().parse().ok()?;
            let already = Regex::new(&format!(r"(?i)\b(?:part|pt)\s*0*{p}\b")).unwrap();
            if already.is_match(title) { None } else { Some(p) }
        });
        assert_eq!(acervo::movies::detect_part(stem, title), expected, "{stem:?} / {title:?}");
    }
}
