use acervo::titles::{resolve_step, ResolveAction, ResolveEvent};
use acervo::titles::{new_stem, parse_answer, parse_file, parse_file_no_year, Answer, ParsedFile};
use acervo::titles::{normalize, title_sim, year_matches, dir_rename};

#[test]
fn parse_answer_reads_picks_ids_and_controls() {
    assert!(matches!(parse_answer("2", 3), Some(Answer::Pick(1))));
    assert!(matches!(parse_answer(" 1 \n", 3), Some(Answer::Pick(0))));
    assert!(matches!(parse_answer("#526", 3), Some(Answer::Id(526))));
    assert!(matches!(parse_answer("https://www.tvmaze.com/shows/526/the-office", 3), Some(Answer::Id(526))));
    assert!(matches!(parse_answer("", 3), Some(Answer::Skip)));
    assert!(matches!(parse_answer("S", 3), Some(Answer::Skip)));
    assert!(matches!(parse_answer("q", 3), Some(Answer::Quit)));
    assert!(parse_answer("4", 3).is_none());
    assert!(parse_answer("0", 3).is_none());
    assert!(parse_answer("2", 0).is_none());
    assert!(parse_answer("nonsense", 3).is_none());
}

#[test]
fn new_stem_uses_resolved_year_when_filename_has_none() {
    let p = ParsedFile { show: "Severance".into(), year: None, edition: String::new(), season: 1, ep: 1, ep2: None, title: None };
    assert_eq!(new_stem(&p, "Good News About Hell", Some(2022)), "Severance (2022) - s01e01 - Good News About Hell");
}

#[test]
fn new_stem_sanitizes_unsafe_title_characters() {
    let p = ParsedFile {
        show: "Show".into(),
        year: Some(2020),
        edition: String::new(),
        season: 1,
        ep: 2,
        ep2: None,
        title: None,
    };
    assert_eq!(new_stem(&p, "Hide and Seek: Part 1/2", None), "Show (2020) - s01e02 - Hide and Seek Part 1-2");
}

#[test]
fn parses_year_and_no_year_filenames() {
    let p = parse_file("Show (2020) - s01e01").unwrap();
    assert_eq!((p.show.as_str(), p.year, p.season, p.ep, p.title), ("Show", Some(2020), 1, 1, None));

    let p = parse_file_no_year("Show - s01e01 - Some Title").unwrap();
    assert_eq!(p.show, "Show");
    assert_eq!(p.title.as_deref(), Some("Some Title"));
}

#[test]
fn parse_file_reads_edition_and_second_episode() {
    let p = parse_file("Show (2020) {edition-Extended} - S02E03-e04 - Pilot").unwrap();
    assert_eq!(p.show, "Show");
    assert_eq!(p.year, Some(2020));
    assert_eq!(p.edition, " {edition-Extended}");
    assert_eq!((p.season, p.ep, p.ep2), (2, 3, Some(4)));
    assert_eq!(p.title.as_deref(), Some("Pilot"));
    assert!(parse_file("Show - s01e01").is_none());
    assert!(parse_file_no_year("Show s01e01").is_none());
}

#[test]
fn new_stem_keeps_edition_and_second_episode() {
    let p = ParsedFile {
        show: "Show".into(),
        year: Some(2020),
        edition: " {edition-Extended}".into(),
        season: 1,
        ep: 9,
        ep2: Some(10),
        title: None,
    };
    assert_eq!(new_stem(&p, "Finale", None), "Show (2020) {edition-Extended} - s01e09-e10 - Finale");
    let q = ParsedFile { show: "Show".into(), year: None, edition: String::new(), season: 1, ep: 1, ep2: None, title: None };
    assert_eq!(new_stem(&q, "X", None), "Show () - s01e01 - X");
}

#[test]
fn renamed_file_reads_as_titled() {
    let p = ParsedFile { show: "Severance".into(), year: None, edition: String::new(), season: 1, ep: 1, ep2: None, title: None };
    let stem = new_stem(&p, "Good News About Hell", Some(2022));
    let back = parse_file(&stem).unwrap();
    assert_eq!(back.show, "Severance");
    assert_eq!(back.year, Some(2022));
    assert_eq!(back.title.as_deref(), Some("Good News About Hell"));
}

#[test]
fn ids_too_large_for_u64_are_rejected() {
    assert!(parse_answer("#99999999999999999999999", 3).is_none());
    assert!(matches!(parse_answer("  Q ", 3), Some(Answer::Quit)));
    assert!(matches!(parse_answer("+3", 3), Some(Answer::Pick(2))));
}

#[test]
fn normalize_lowercases_and_collapses_punctuation() {
    assert_eq!(normalize("The Office (US)"), "the office us");
    assert_eq!(normalize("  Mr. Robot!! "), "mr robot");
    assert_eq!(normalize("---"), "");
}

fn ratio_of(a: &str, b: &str) -> f64 {
    let s = title_sim(a, b);
    let total = s.len_a + s.len_b;
    if total == 0 { 1.0 } else { 2.0 * s.matches as f64 / total as f64 }
}

#[test]
fn title_similarity_is_taken_on_normalized_titles() {
    assert_eq!(ratio_of("The Office", "the office"), 1.0);
    let r = ratio_of("The Office", "The Office (US)");
    assert!((r - 0.8695652173913043).abs() < 1e-9, "got {r}");
    assert!(ratio_of("Severance", "Completely Different") < 0.75);
}

#[test]
fn year_matches_wanted_year_or_no_year() {
    assert!(year_matches(0, &None));
    assert!(year_matches(2005, &Some("2005-03-24".to_string())));
    assert!(!year_matches(2005, &Some("2001-07-09".to_string())));
    assert!(!year_matches(2005, &None));
    assert!(!year_matches(2005, &Some("20".to_string())));
}

#[test]
fn show_folder_gets_the_resolved_year() {
    assert_eq!(dir_rename("Severance", 2022, "Severance").as_deref(), Some("Severance (2022)"));
    assert_eq!(dir_rename("Severance", 2022, "Severance (2022)"), None);
}

#[test]
fn settling_a_show_prefers_pins_and_never_searches_past_a_broken_pin() {
    assert!(resolve_step(false, ResolveEvent::Start(Some(41007))) == ResolveAction::FetchPinned(41007));
    assert!(resolve_step(false, ResolveEvent::Start(None)) == ResolveAction::Search);
    assert!(resolve_step(false, ResolveEvent::PinnedFetched(true)) == ResolveAction::UsePinned);
    assert!(resolve_step(false, ResolveEvent::PinnedFetched(false)) == ResolveAction::Skip);
    assert!(resolve_step(true, ResolveEvent::PinnedFetched(false)) == ResolveAction::Ask(0));
    assert!(resolve_step(false, ResolveEvent::Searched(true, 3)) == ResolveAction::UseMatched);
    assert!(resolve_step(false, ResolveEvent::Searched(false, 3)) == ResolveAction::Skip);
    assert!(resolve_step(true, ResolveEvent::Searched(false, 3)) == ResolveAction::Ask(3));
    assert!(resolve_step(true, ResolveEvent::Answered(parse_answer("2", 3).unwrap())) == ResolveAction::UseCandidate(1));
    assert!(resolve_step(true, ResolveEvent::Answered(parse_answer("#526", 3).unwrap())) == ResolveAction::FetchChosen(526));
    assert!(resolve_step(true, ResolveEvent::Answered(parse_answer("q", 3).unwrap())) == ResolveAction::Quit);
    assert!(resolve_step(true, ResolveEvent::ChosenFetched(false)) == ResolveAction::Skip);
    assert!(resolve_step(true, ResolveEvent::ChosenFetched(true)) == ResolveAction::UseChosen);
}

#[test]
fn a_yearless_file_gets_its_title_and_year_from_the_show() {
    let stems = vec!["Severance - s01e01".to_string()];
    let work = acervo::jobs::plan_jobs(&stems);
    assert_eq!(work.titled, 0);
    assert_eq!(work.jobs.len(), 1);
    let job = &work.jobs[0];
    assert!(job.key.needs_year);
    let year = acervo::tvmaze::premiered_year("2022-02-18");
    assert_eq!(year, Some(2022));
    let eps = vec![(1, 1, "Good News About Hell".to_string())];
    match acervo::titles::plan_rename(&job.files[0].1, &eps, false, year) {
        acervo::titles::Rename::Stem(s) => assert_eq!(s, "Severance (2022) - s01e01 - Good News About Hell"),
        _ => panic!("expected a new stem"),
    }
    assert_eq!(dir_rename("Severance", 2022, "Severance").as_deref(), Some("Severance (2022)"));
}

#[test]
fn a_pick_is_a_listed_number_and_nothing_else() {
    assert!(matches!(parse_answer("+2", 3), Some(Answer::Pick(1))));
    assert!(matches!(parse_answer("\t3\t", 3), Some(Answer::Pick(2))));
    assert!(parse_answer("2x", 3).is_none());
    assert!(parse_answer("-1", 3).is_none());
    assert!(matches!(parse_answer("Q", 3), Some(Answer::Quit)));
}

#[test]
fn a_show_reference_with_other_digits_is_not_an_id() {
    assert!(parse_answer("#12\u{663}", 3).is_none());
    assert!(parse_answer("#\u{661}\u{662}", 3).is_none());
    assert!(parse_answer("a/shows/5/shows/\u{663}", 3).is_none());
    assert!(matches!(parse_answer("a/shows/5/shows/7x", 3), Some(Answer::Id(7))));
}
