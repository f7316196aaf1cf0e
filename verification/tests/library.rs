use acervo::identity::{Identity, TitleCanon};
use acervo::jobs::plan_jobs;
use acervo::movies;
use acervo::movies::MediaKind;
use acervo::shows::{folder_show, kept_titles, loose_show, number_specials};
use acervo::tokens::{ext_of, stem_of};
use acervo::tv;

fn ident(title: &str, year: i32, edition: Option<&str>) -> Identity {
    Identity { title: title.to_string(), year, edition: edition.map(str::to_string) }
}

#[test]
fn extension_and_stem_split_at_the_last_dot() {
    assert_eq!(ext_of("Movie.Name.2010.MKV"), ".mkv");
    assert_eq!(stem_of("Movie.Name.2010.MKV"), "Movie.Name.2010");
    assert_eq!(ext_of(".hidden"), "");
    assert_eq!(stem_of(".hidden"), ".hidden");
    assert_eq!(ext_of("noext"), "");
}

#[test]
fn movie_names_follow_the_convention() {
    let p = ident("Blade Runner", 1982, Some("Final Cut"));
    assert_eq!(movies::folder_name(&p, true), "Blade Runner (1982) {edition-Final Cut}");
    assert_eq!(movies::folder_name(&p, false), "Blade Runner (1982)");
    assert_eq!(movies::file_base(&p, false, Some(2)), "Blade Runner (1982) - pt2");
    assert_eq!(
        movies::target_name("Blade.Runner.1982.CD2.eng.srt", &p, false, "").as_deref(),
        Some("Blade Runner (1982) - pt2.eng.srt")
    );
    assert_eq!(
        movies::target_name("Blade.Runner.1982.srt", &p, false, "en").as_deref(),
        Some("Blade Runner (1982).en.srt")
    );
    assert_eq!(movies::target_name("notes.txt", &p, false, ""), None);
}

#[test]
fn movie_identity_from_a_release_name() {
    let p = movies::parse_identity("The.Dark.Knight.2008.1080p.BluRay.x264").unwrap();
    assert_eq!((p.title.as_str(), p.year, p.edition), ("The Dark Knight", 2008, None));
    let p = movies::parse_identity("Heat (1995) {edition-Director's Cut}").unwrap();
    assert_eq!((p.title.as_str(), p.year, p.edition.as_deref()), ("Heat", 1995, Some("Director's Cut")));
    assert!(movies::parse_identity("no year here").is_none());
}

#[test]
fn a_part_already_in_the_title_is_not_tagged_again() {
    assert_eq!(movies::detect_part("Movie.2014.CD2", "Movie"), Some(2));
    assert_eq!(movies::detect_part("Mockingjay.Part.1.2014", "The Hunger Games Mockingjay Part 1"), None);
}

#[test]
fn movie_folders_take_the_longest_parsable_video_name() {
    let videos = vec!["sample.mkv".to_string(), "Heat.1995.1080p.mkv".to_string()];
    let p = movies::folder_identity(&videos, "whatever").unwrap();
    assert_eq!((p.title.as_str(), p.year), ("Heat", 1995));
    let p = movies::folder_identity(&vec![], "Heat (1995)").unwrap();
    assert_eq!(p.title, "Heat");
    assert!(movies::folder_identity(&vec![], "misc").is_none());
}

#[test]
fn loose_movies_share_the_first_spelling_of_a_title() {
    let mut canon = TitleCanon::new();
    let a = movies::canonicalize(&mut canon, ident("The Matrix", 1999, None), true);
    let b = movies::canonicalize(&mut canon, ident("The MATRIX", 1999, None), true);
    assert_eq!(a.title, "The Matrix");
    assert_eq!(b.title, "The Matrix");
    let c = movies::canonicalize(&mut canon, ident("The MATRIX", 2003, None), true);
    assert_eq!(c.title, "The MATRIX");
}

#[test]
fn episode_names_follow_the_convention() {
    let show = ident("Severance", 2022, None);
    let (folder, season, file) =
        tv::plan_episode(&show, "Good News About Hell", 1, 1, None, MediaKind::Video, ".mkv", false, "");
    assert_eq!(folder, "Severance (2022)");
    assert_eq!(season, "Season 01");
    assert_eq!(file, "Severance (2022) - s01e01 - Good News About Hell.mkv");
    let (_, _, sub) = tv::plan_episode(&show, "Good News", 1, 2, Some(3), MediaKind::Sub, ".srt", true, "en");
    assert_eq!(sub, "Severance (2022) - s01e02-e03.en.srt");
    assert_eq!(tv::season_dir(0), "Season 00");
    assert_eq!(tv::season_dir(12), "Season 12");
    assert_eq!(tv::ep_tag(1, 2, None), "s01e02");
    assert_eq!(tv::show_folder_name(&ident("Show", 0, Some("IMAX")), true), "Show {edition-IMAX}");
}

#[test]
fn show_folders_are_identified_from_their_name_or_videos() {
    let f = folder_show("Severance (2022)", &vec![]).unwrap();
    assert_eq!((f.ident.title.as_str(), f.ident.year, f.warn_no_year), ("Severance", 2022, false));

    let videos = vec!["x.mkv".to_string(), "Show.2019.S01E01.1080p.mkv".to_string()];
    let f = folder_show("stuff", &videos).unwrap();
    assert_eq!((f.ident.title.as_str(), f.ident.year), ("Show", 2019));

    let f = folder_show("Severance", &vec![]).unwrap();
    assert_eq!((f.ident.title.as_str(), f.ident.year, f.warn_no_year), ("Severance", 0, false));

    let f = folder_show("severance.s01.1080p", &vec![]).unwrap();
    assert_eq!((f.ident.title.as_str(), f.ident.year, f.warn_no_year), ("Severance", 0, true));

    assert!(folder_show("1080p", &vec![]).is_none());
}

#[test]
fn loose_episode_files_without_a_year_are_filed_by_title() {
    let f = loose_show("Severance.S01E01.1080p", true).unwrap();
    assert_eq!((f.ident.title.as_str(), f.ident.year, f.warn_no_year), ("Severance", 0, true));
    assert!(loose_show("Severance.1080p", false).is_none());
    let f = loose_show("Severance.2022.S01E01", true).unwrap();
    assert_eq!((f.ident.year, f.warn_no_year), (2022, false));
}

#[test]
fn an_episode_keeps_the_longest_title_found_for_it() {
    let eps = vec![
        (1, 1, None, "Pilot".to_string()),
        (1, 1, None, "Pilot Extended".to_string()),
        (1, 1, None, String::new()),
        (1, 2, Some(3), "Two".to_string()),
        (1, 4, None, String::new()),
    ];
    assert_eq!(kept_titles(&eps), vec!["Pilot Extended", "Pilot Extended", "Pilot Extended", "Two", ""]);
}

#[test]
fn specials_are_numbered_in_name_order() {
    let names: Vec<String> = ["b.mkv", "a.mkv", "b.en.srt", "c.srt"].iter().map(|s| s.to_string()).collect();
    let s = number_specials(&names);
    assert_eq!(s.keys, vec!["a", "b", "c"]);
    assert_eq!(s.numbers, vec![2, 1, 2, 3]);
    assert_eq!(s.titles.len(), 3);
    let s = number_specials(&vec!["Behind.the.Scenes.mkv".to_string()]);
    assert_eq!(s.keys, vec!["Behind.the.Scenes"]);
    assert_eq!(s.titles, vec!["Behind the Scenes"]);
}

#[test]
fn title_jobs_group_by_show_in_order() {
    let stems: Vec<String> = [
        "Show (2020) - s01e01",
        "Show (2020) - s01e02 - Titled",
        "Alpha - s01e01",
        "Show (2020) - s01e03",
        "random",
        "Alpha - s01e02 - Has Title",
    ]
    .iter()
    .map(|s| s.to_string())
    .collect();
    let jobs = plan_jobs(&stems);
    assert_eq!(jobs.titled, 1);
    assert_eq!(jobs.jobs.len(), 2);
    assert_eq!((jobs.jobs[0].key.show.as_str(), jobs.jobs[0].key.year, jobs.jobs[0].key.needs_year), ("Alpha", 0, true));
    let files: Vec<usize> = jobs.jobs[0].files.iter().map(|f| f.0).collect();
    assert_eq!(files, vec![2, 5]);
    assert_eq!((jobs.jobs[1].key.show.as_str(), jobs.jobs[1].key.year), ("Show", 2020));
    let files: Vec<usize> = jobs.jobs[1].files.iter().map(|f| f.0).collect();
    assert_eq!(files, vec![0, 3]);
}

#[test]
fn organized_folder_names_read_back() {
    let p = ident("Blade Runner", 1982, Some("Final Cut"));
    let name = movies::folder_name(&p, true);
    let back = movies::parse_identity(&name).unwrap();
    assert_eq!((back.title.as_str(), back.year, back.edition.as_deref()), ("Blade Runner", 1982, Some("Final Cut")));
    let back = movies::parse_identity(&movies::folder_name(&p, false)).unwrap();
    assert_eq!((back.title.as_str(), back.year, back.edition), ("Blade Runner", 1982, None));
    let show = ident("The Office", 2005, None);
    let back = tv::parse_show_identity(&tv::show_folder_name(&show, true)).unwrap();
    assert_eq!((back.title.as_str(), back.year, back.edition), ("The Office", 2005, None));
}

#[test]
fn an_episode_takes_its_season_from_the_name_or_the_folder() {
    assert_eq!(tv::episode_in("Show.S02E03.Pilot", Some("whatever"), false), Some((2, 3, None, "Pilot".to_string())));
    assert_eq!(tv::episode_in("Show 05", Some("Season 3"), true), Some((3, 5, None, String::new())));
    assert_eq!(tv::episode_in("Show 05", Some("Show (2019)"), true), Some((1, 5, None, String::new())));
    assert_eq!(tv::episode_in("Show 05", None, true), Some((1, 5, None, String::new())));
    assert_eq!(tv::episode_in("Show 05", Some("Season 3"), false), None);
}

#[test]
fn loose_specials_group_by_label_in_order() {
    let labels: Vec<String> = ["B", "A", "B"].iter().map(|s| s.to_string()).collect();
    let (order, groups) = acervo::shows::group_labels(&labels);
    assert_eq!(order, vec!["A", "B"]);
    assert_eq!(groups, vec![2, 1, 2]);
}

#[test]
fn release_years_run_from_1900_to_2099() {
    assert!(movies::parse_identity("Old.Film.1899.1080p").is_none());
    assert!(movies::parse_identity("Future.Film.2150").is_none());
    let p = movies::parse_identity("Metropolis.1927.Restored").unwrap();
    assert_eq!((p.title.as_str(), p.year), ("Metropolis", 1927));
    assert!(movies::parse_identity("2010").is_none());
}

#[test]
fn a_release_title_is_clean_of_separators() {
    let p = movies::parse_identity("_Some.Movie_.2011.720p").unwrap();
    assert_eq!((p.title.as_str(), p.year), ("Some Movie", 2011));
    let p = movies::parse_identity("-(Heat).1995").unwrap();
    assert_eq!((p.title.as_str(), p.year), ("Heat)", 1995));
    assert!(!p.title.contains('.') && !p.title.contains('_'));
}

#[test]
fn digits_in_patterns_are_unicode_decimal_digits() {
    // `\d` takes any decimal digit: an Arabic-Indic resolution token ends the title.
    assert_eq!(tv::clean_episode_title("Pilot.\u{661}\u{660}\u{668}\u{660}p"), "Pilot");
    let p = movies::parse_identity("Film.2010.\u{661}\u{660}\u{668}\u{660}p").unwrap();
    assert_eq!((p.title.as_str(), p.year), ("Film", 2010));
    // A year spelled with other digits matches but does not read as a number.
    assert!(movies::parse_identity("Film.19\u{669}\u{669}").is_none());
}
