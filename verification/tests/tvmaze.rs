use acervo::tvmaze::{episodes_url, next_step, parse_u64, premiered_year, search_url, show_url, HttpClient, Outcome, RawEpisode, Step};
use acervo::tvmaze::usable_episodes_exec;

#[test]
fn request_urls_are_percent_encoded() {
    assert_eq!(search_url("The Office"), "https://api.tvmaze.com/search/shows?q=The%20Office");
    assert_eq!(search_url("Am\u{e9}lie & co."), "https://api.tvmaze.com/search/shows?q=Am%C3%A9lie%20%26%20co.");
    assert_eq!(show_url(526), "https://api.tvmaze.com/shows/526");
    assert_eq!(episodes_url(526), "https://api.tvmaze.com/shows/526/episodes");
}

#[test]
fn retry_after_is_read_as_u64() {
    assert_eq!(parse_u64("30"), Some(30));
    assert_eq!(parse_u64("+5"), Some(5));
    assert_eq!(parse_u64(""), None);
    assert_eq!(parse_u64("1.5"), None);
    assert_eq!(parse_u64("18446744073709551616"), None);
    assert_eq!(parse_u64("18446744073709551615"), Some(u64::MAX));
}

#[test]
fn retries_back_off_and_stop() {
    assert!(matches!(next_step(0, Outcome::Success), Step::Done));
    assert!(matches!(next_step(0, Outcome::TooManyRequests(None)), Step::Retry(10)));
    assert!(matches!(next_step(1, Outcome::TooManyRequests(Some(120))), Step::Retry(30)));
    assert!(matches!(next_step(2, Outcome::TooManyRequests(Some(1))), Step::GiveUp));
    assert!(matches!(next_step(0, Outcome::NotFound), Step::GiveUp));
    assert!(matches!(next_step(0, Outcome::Failed), Step::Retry(2)));
    assert!(matches!(next_step(1, Outcome::Failed), Step::Retry(4)));
    assert!(matches!(next_step(2, Outcome::Failed), Step::GiveUpWithError));
}

#[test]
fn requests_are_spaced() {
    let mut c = HttpClient::new(15);
    assert_eq!(c.throttle_wait(1000), 0);
    c.record_request(1000);
    assert_eq!(c.throttle_wait(1100), 250);
    assert_eq!(c.throttle_wait(1350), 0);
    assert_eq!(c.timeout_secs, 15);
}

#[test]
fn premiere_years_are_read_from_the_date() {
    assert_eq!(premiered_year("2005-03-24"), Some(2005));
    assert_eq!(premiered_year("20"), None);
    assert_eq!(premiered_year("abcd-01"), None);
}

#[test]
fn episodes_without_a_number_or_name_are_dropped() {
    let eps = vec![
        RawEpisode { season: Some(1), number: Some(1), name: Some("  Pilot ".to_string()) },
        RawEpisode { season: Some(1), number: None, name: Some("Special".to_string()) },
        RawEpisode { season: Some(1), number: Some(2), name: Some("   ".to_string()) },
        RawEpisode { season: None, number: Some(3), name: Some("X".to_string()) },
        RawEpisode { season: Some(2), number: Some(1), name: None },
    ];
    assert_eq!(usable_episodes_exec(&eps), vec![(1, 1, "Pilot".to_string())]);
}

#[test]
fn a_request_makes_at_most_three_attempts() {
    // Every attempt fails: wait 2 s, then 4 s, then give up with an error.
    let mut waits = Vec::new();
    let mut tries = 0;
    for attempt in 0..3u32 {
        tries += 1;
        match next_step(attempt, Outcome::Failed) {
            Step::Retry(w) => waits.push(w),
            Step::GiveUpWithError => break,
            _ => panic!("unexpected step"),
        }
    }
    assert_eq!(tries, 3);
    assert_eq!(waits, vec![2, 4]);
}
