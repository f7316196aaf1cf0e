//! The TVMaze side of `acervo titles`: shows, the client interface, request
//! pacing and retry decisions, and the filtering of episode listings.

use vstd::prelude::*;
use crate::text::{chars_of, string_of, trim_ws, trim_ws_vec};

verus! {

/// A TVMaze show as the API describes it.
pub struct Show {
    pub id: u64,
    pub name: Option<String>,
    pub premiered: Option<String>,
}

impl Show {
    pub fn clone_show(&self) -> (r: Show)
        ensures
            r.id == self.id,
            crate::identity::opt_view(r.name) == crate::identity::opt_view(self.name),
            crate::identity::opt_view(r.premiered) == crate::identity::opt_view(self.premiered),
    {
        Show {
            id: self.id,
            name: match &self.name {
                Some(n) => Some(crate::identity::clone_string(n)),
                None => None,
            },
            premiered: match &self.premiered {
                Some(p) => Some(crate::identity::clone_string(p)),
                None => None,
            },
        }
    }
}

/// Where show and episode data come from (the TVMaze API, or a stand-in).
pub trait Client {
    /// Shows matching a title, best match first.
    fn search_shows(&mut self, title: &str) -> Vec<Show>;

    /// The show with this TVMaze id, if there is one.
    fn show_by_id(&mut self, show_id: u64) -> Option<Show>;

    /// `(season, number, name)` of the show's episodes.
    fn episodes(&mut self, show_id: u64) -> Vec<(u32, u32, String)>;
}

/// Minimum gap between two requests, in milliseconds.
pub open spec fn request_gap_ms() -> u64 {
    350
}

/// Attempts per request.
pub open spec fn max_retries() -> u32 {
    3
}

/// Pacing and timeout state of the HTTP client. Times are milliseconds on a
/// clock the caller reads.
pub struct HttpClient {
    pub last_request_ms: Option<u64>,
    pub timeout_secs: u64,
}

impl HttpClient {
    pub fn new(timeout_secs: u64) -> (r: HttpClient)
        ensures
            r.last_request_ms is None,
            r.timeout_secs == timeout_secs,
    {
        HttpClient { last_request_ms: None, timeout_secs }
    }

    /// How long to wait before a request issued at `now_ms`: what is left of
    /// the gap since the previous request, if any.
    pub fn throttle_wait(&self, now_ms: u64) -> (r: u64)
        ensures
            match self.last_request_ms {
                Some(last) => if now_ms >= last && now_ms - last < request_gap_ms() {
                    r == request_gap_ms() - (now_ms - last)
                } else {
                    r == 0
                },
                None => r == 0,
            },
    {
        match self.last_request_ms {
            Some(last) => if now_ms >= last && now_ms - last < 350 {
                350 - (now_ms - last)
            } else {
                0
            },
            None => 0,
        }
    }

    /// Records that a request went out at `now_ms`.
    pub fn record_request(&mut self, now_ms: u64)
        ensures
            final(self).last_request_ms == Some(now_ms),
            final(self).timeout_secs == old(self).timeout_secs,
    {
        self.last_request_ms = Some(now_ms);
    }
}

/// How one HTTP attempt ended.
pub enum Outcome {
    /// A response body (parsed or not).
    Success,
    /// HTTP 429, with the `Retry-After` seconds if the header parsed.
    TooManyRequests(Option<u64>),
    /// HTTP 404.
    NotFound,
    /// Any other failure.
    Failed,
}

/// What to do after an attempt.
#[derive(PartialEq, Eq, Structural)]
pub enum Step {
    /// Use the response.
    Done,
    /// Give up without a result.
    GiveUp,
    /// Give up and report a network error.
    GiveUpWithError,
    /// Sleep this many seconds, then try again.
    Retry(u64),
}

/// The retry decision after attempt `attempt` (counting from 0) ended with
/// `outcome`: rate limiting waits for `Retry-After` (10 s when absent, at
/// most 30 s), other failures back off 2 s, 4 s, ...; after the last
/// attempt the request gives up.
pub open spec fn next_step_spec(attempt: u32, outcome: Outcome) -> Step {
    let more = attempt + 1 < max_retries();
    match outcome {
        Outcome::Success => Step::Done,
        Outcome::TooManyRequests(after) => if more {
            Step::Retry(
                match after {
                    Some(a) => if a < 30 {
                        a
                    } else {
                        30
                    },
                    None => 10,
                },
            )
        } else {
            Step::GiveUp
        },
        Outcome::NotFound => Step::GiveUp,
        Outcome::Failed => if more {
            Step::Retry((2 * (attempt as int + 1)) as u64)
        } else {
            Step::GiveUpWithError
        },
    }
}

pub fn next_step(attempt: u32, outcome: Outcome) -> (r: Step)
    requires
        attempt < 3,
    ensures
        r == next_step_spec(attempt, outcome),
{
    let more = attempt + 1 < 3;
    match outcome {
        Outcome::Success => Step::Done,
        Outcome::TooManyRequests(after) => if more {
            Step::Retry(
                match after {
                    Some(a) => if a < 30 {
                        a
                    } else {
                        30
                    },
                    None => 10,
                },
            )
        } else {
            Step::GiveUp
        },
        Outcome::NotFound => Step::GiveUp,
        Outcome::Failed => if more {
            Step::Retry(2 * (attempt as u64 + 1))
        } else {
            Step::GiveUpWithError
        },
    }
}

/// An episode entry as listed: season, number and name may each be absent.
pub struct RawEpisode {
    pub season: Option<u32>,
    pub number: Option<u32>,
    pub name: Option<String>,
}

/// The entries that have a season, a number and a non-blank name, with the
/// name trimmed, in listing order.
pub open spec fn usable_episodes(eps: Seq<RawEpisode>) -> Seq<(u32, u32, Seq<char>)>
    decreases eps.len(),
{
    if eps.len() == 0 {
        seq![]
    } else {
        let pre = usable_episodes(eps.drop_last());
        let e = eps.last();
        let name = match e.name {
            Some(n) => trim_ws(n@),
            None => seq![],
        };
        match (e.season, e.number) {
            (Some(s), Some(n)) => if name.len() > 0 {
                pre.push((s, n, name))
            } else {
                pre
            },
            _ => pre,
        }
    }
}

pub open spec fn episode_triples_view(v: Seq<(u32, u32, String)>) -> Seq<(u32, u32, Seq<char>)> {
    v.map_values(|t: (u32, u32, String)| (t.0, t.1, t.2@))
}

pub fn usable_episodes_exec(eps: &Vec<RawEpisode>) -> (r: Vec<(u32, u32, String)>)
    ensures
        episode_triples_view(r@) == usable_episodes(eps@),
{
    let mut out: Vec<(u32, u32, String)> = Vec::new();
    let mut i: usize = 0;
    while i < eps.len()
        invariant
            i <= eps.len(),
            episode_triples_view(out@) == usable_episodes(eps@.take(i as int)),
        decreases eps.len() - i,
    {
        let e = &eps[i];
        let ghost t = eps@.take(i + 1);
        assert(t.drop_last() =~= eps@.take(i as int));
        let name = match &e.name {
            Some(n) => trim_ws_vec(&chars_of(n.as_str())),
            None => Vec::new(),
        };
        match (e.season, e.number) {
            (Some(s), Some(n)) => {
                if name.len() > 0 {
                    let ghost before = episode_triples_view(out@);
                    out.push((s, n, string_of(&name)));
                    assert(episode_triples_view(out@) =~= before.push((s, n, name@)));
                }
            },
            _ => {},
        }
        i = i + 1;
    }
    assert(eps@.take(eps.len() as int) =~= eps@);
    out
}

} // verus!

verus! {

/// The first four characters are ASCII.
pub open spec fn ascii_prefix4(p: Seq<char>) -> bool {
    p.len() >= 4 && forall|k: int| 0 <= k < 4 ==> (#[trigger] p[k] as u32) < 128
}

/// `str::parse::<i32>` of four ASCII characters: an optional sign, then
/// digits only.
pub open spec fn parse_i32_4(y: Seq<char>) -> Option<int> {
    if y.len() == 4 && y[0] == '-' && crate::text::all_digits(y.drop_first()) {
        Some(-(crate::text::digits_value(y.drop_first()) as int))
    } else if y.len() == 4 && y[0] == '+' && crate::text::all_digits(y.drop_first()) {
        Some(crate::text::digits_value(y.drop_first()) as int)
    } else if y.len() == 4 && crate::text::all_digits(y) {
        Some(crate::text::digits_value(y) as int)
    } else {
        None
    }
}

/// The year a premiere date starts with (`"2005-03-24"` gives 2005): its
/// first four bytes read as an integer; none when they are not four ASCII
/// characters that form one.
pub open spec fn premiered_year_spec(p: Seq<char>) -> Option<int> {
    if ascii_prefix4(p) {
        parse_i32_4(p.subrange(0, 4))
    } else {
        None
    }
}

#[verifier::loop_isolation(false)]
pub fn premiered_year(p: &str) -> (r: Option<i32>)
    ensures
        match r {
            Some(y) => premiered_year_spec(p@) == Some(y as int),
            None => premiered_year_spec(p@) is None,
        },
{
    let s = chars_of(p);
    if s.len() < 4 || !((s[0] as u32) < 128 && (s[1] as u32) < 128 && (s[2] as u32) < 128
        && (s[3] as u32) < 128) {
        proof {
            if s.len() >= 4 && ascii_prefix4(s@) {
                assert((s@[0] as u32) < 128);
                assert((s@[1] as u32) < 128);
                assert((s@[2] as u32) < 128);
                assert((s@[3] as u32) < 128);
            }
        }
        return None;
    }
    assert(ascii_prefix4(s@)) by {
        assert forall|k: int| 0 <= k < 4 implies (#[trigger] s@[k] as u32) < 128 by {
            if k == 0 {
            } else if k == 1 {
            } else if k == 2 {
            } else {
            }
        }
    }
    let y = crate::text::slice_vec(&s, 0, 4);
    let start: usize = if y[0] == '-' || y[0] == '+' {
        1
    } else {
        0
    };
    let mut k = start;
    while k < 4
        invariant
            start <= k <= 4,
            y.len() == 4,
            forall|m: int| start <= m < k ==> crate::text::is_digit(#[trigger] y@[m]),
        decreases 4 - k,
    {
        if !('0' <= y[k] && y[k] <= '9') {
            proof {
                assert(y@ == s@.subrange(0, 4));
                if start == 1 {
                    assert(y@.drop_first()[k - 1] == y@[k as int]);
                    assert(!crate::text::is_digit(y@[0]));
                } else {
                    assert(y@[0] != '-' && y@[0] != '+');
                }
                assert(parse_i32_4(y@) is None);
            }
            return None;
        }
        k = k + 1;
    }
    let digits = crate::text::slice_vec(&y, start, 4);
    proof {
        if start == 1 {
            assert(digits@ =~= y@.drop_first());
        } else {
            assert(digits@ =~= y@);
        }
        assert(crate::text::all_digits(digits@)) by {
            assert forall|m: int| 0 <= m < digits@.len() implies crate::text::is_digit(
                #[trigger] digits@[m],
            ) by {
                assert(digits@[m] == y@[start + m]);
            }
        }
        assert(crate::text::all_digits(y@.subrange(start as int, 4)));
    }
    let v = crate::text::small_digits_value(&y, start, 4);
    assert(crate::text::pow10(4) == 10000) by {
        reveal_with_fuel(crate::text::pow10, 5);
    }
    proof {
        assert(y@.subrange(start as int, 4) =~= digits@);
    }
    if y[0] == '-' {
        Some(-(v as i32))
    } else {
        Some(v as i32)
    }
}

} // verus!

verus! {

// ---------------------------------------------------------------------------
// Request URLs
// ---------------------------------------------------------------------------

/// The API's base address.
pub open spec fn api_base() -> Seq<char> {
    "https://api.tvmaze.com"@
}

/// A byte that URL encoding keeps as it is: an ASCII letter or digit, or one
/// of `-`, `.`, `_`, `~`.
pub open spec fn url_unreserved(b: u8) -> bool {
    (48 <= b <= 57) || (65 <= b <= 90) || (97 <= b <= 122) || b == 45 || b == 46 || b == 95 || b
        == 126
}

/// An upper-case hexadecimal digit.
pub open spec fn hex_digit(d: int) -> char {
    if d < 10 {
        (48 + d) as char
    } else {
        (55 + d) as char
    }
}

/// One byte URL-encoded: itself, or `%` and two upper-case hex digits.
pub open spec fn url_byte(b: u8) -> Seq<char> {
    if url_unreserved(b) {
        seq![b as char]
    } else {
        seq!['%', hex_digit(b as int / 16), hex_digit(b as int % 16)]
    }
}

/// Percent-encoding of a byte string, byte by byte.
pub open spec fn url_encode_bytes(bs: Seq<u8>) -> Seq<char>
    decreases bs.len(),
{
    if bs.len() == 0 {
        seq![]
    } else {
        url_byte(bs[0]) + url_encode_bytes(bs.drop_first())
    }
}

/// `urlencoding::encode`: the UTF-8 bytes of `s`, each byte other than an
/// ASCII letter, digit, `-`, `.`, `_` or `~` written as `%XX` with upper-case
/// hex digits.
#[verifier::external_body]
fn url_encode(s: &str) -> (r: String)
    ensures
        r@ == url_encode_bytes(vstd::utf8::encode_utf8(s@)),
{
    urlencoding::encode(s).into_owned()
}

/// The address of a show search.
pub open spec fn search_url_spec(title: Seq<char>) -> Seq<char> {
    api_base() + "/search/shows?q="@ + url_encode_bytes(vstd::utf8::encode_utf8(title))
}

pub fn search_url(title: &str) -> (r: String)
    ensures
        r@ == search_url_spec(title@),
{
    let mut out = chars_of("https://api.tvmaze.com/search/shows?q=");
    proof {
        reveal_strlit("https://api.tvmaze.com/search/shows?q=");
        reveal_strlit("https://api.tvmaze.com");
        reveal_strlit("/search/shows?q=");
        assert(out@ =~= api_base() + "/search/shows?q="@);
    }
    crate::text::append_vec(&mut out, &chars_of(url_encode(title).as_str()));
    string_of(&out)
}

/// The address of a show by id.
pub open spec fn show_url_spec(id: u64) -> Seq<char> {
    api_base() + "/shows/"@ + crate::text::dec(id as nat)
}

pub fn show_url(id: u64) -> (r: String)
    ensures
        r@ == show_url_spec(id),
{
    let mut out = chars_of("https://api.tvmaze.com/shows/");
    proof {
        reveal_strlit("https://api.tvmaze.com/shows/");
        reveal_strlit("https://api.tvmaze.com");
        reveal_strlit("/shows/");
        assert(out@ =~= api_base() + "/shows/"@);
    }
    crate::text::append_vec(&mut out, &crate::text::dec_vec(id));
    string_of(&out)
}

/// The address of a show's episode list.
pub open spec fn episodes_url_spec(id: u64) -> Seq<char> {
    show_url_spec(id) + "/episodes"@
}

pub fn episodes_url(id: u64) -> (r: String)
    ensures
        r@ == episodes_url_spec(id),
{
    let mut out = chars_of(show_url(id).as_str());
    crate::text::append_vec(&mut out, &chars_of("/episodes"));
    string_of(&out)
}

// ---------------------------------------------------------------------------
// Retry-After
// ---------------------------------------------------------------------------

/// `str::parse::<u64>`: an optional `+`, then at least one ASCII digit, with
/// a value that fits.
pub open spec fn parse_u64_spec(s: Seq<char>) -> Option<nat> {
    let d = if s.len() > 0 && s[0] == '+' {
        s.drop_first()
    } else {
        s
    };
    if d.len() > 0 && crate::text::all_digits(d) && crate::text::digits_value(d) <= u64::MAX {
        Some(crate::text::digits_value(d))
    } else {
        None
    }
}

/// Reads a `Retry-After` header's seconds.
#[verifier::loop_isolation(false)]
pub fn parse_u64(s: &str) -> (r: Option<u64>)
    ensures
        match r {
            Some(v) => parse_u64_spec(s@) == Some(v as nat),
            None => parse_u64_spec(s@) is None,
        },
{
    let text = chars_of(s);
    let start: usize = if text.len() > 0 && text[0] == '+' {
        1
    } else {
        0
    };
    let ghost d = if text@.len() > 0 && text@[0] == '+' {
        text@.drop_first()
    } else {
        text@
    };
    assert(d =~= text@.subrange(start as int, text@.len() as int));
    if start == text.len() {
        return None;
    }
    let mut i = start;
    while i < text.len()
        invariant
            start <= i <= text.len(),
            d == text@.subrange(start as int, text@.len() as int),
            forall|k: int| 0 <= k < i - start ==> crate::text::is_digit(#[trigger] d[k]),
        decreases text.len() - i,
    {
        if !('0' <= text[i] && text[i] <= '9') {
            assert(d[i - start] == text@[i as int]);
            assert(!crate::text::is_digit(d[i - start]));
            assert(!crate::text::all_digits(d));
            return None;
        }
        i = i + 1;
    }
    crate::titles::checked_digits(&text, start, text.len(), u64::MAX)
}

} // verus!

verus! {

/// Retries are bounded: only an attempt before the last may be retried, and
/// no wait exceeds 30 seconds.
/// The waits of one request, from attempt `attempt` on, when the attempts
/// end with `outs` in turn: the seconds of each `Retry` before the attempt
/// that ends it.
pub open spec fn waits_from(outs: Seq<Outcome>, attempt: u32) -> Seq<u64>
    decreases outs.len(),
{
    if outs.len() == 0 || attempt >= max_retries() {
        seq![]
    } else {
        match next_step_spec(attempt, outs[0]) {
            Step::Retry(w) => seq![w] + waits_from(outs.drop_first(), (attempt + 1) as u32),
            _ => seq![],
        }
    }
}

/// How many attempts one request makes, from attempt `attempt` on, when the
/// attempts end with `outs` in turn.
pub open spec fn tries_from(outs: Seq<Outcome>, attempt: u32) -> nat
    decreases outs.len(),
{
    if outs.len() == 0 || attempt >= max_retries() {
        0
    } else {
        match next_step_spec(attempt, outs[0]) {
            Step::Retry(_) => 1 + tries_from(outs.drop_first(), (attempt + 1) as u32),
            _ => 1,
        }
    }
}

/// A request makes at most three attempts whatever the server answers, and
/// sleeps once between each two of them, at most 30 s each time; when every
/// attempt fails outright it waits 2 s and then 4 s, and gives up with an
/// error after the third.
pub proof fn lemma_request_attempts(outs: Seq<Outcome>, attempt: u32)
    requires
        attempt <= max_retries(),
        outs.len() >= max_retries() - attempt,
    ensures
        tries_from(outs, attempt) <= max_retries() - attempt,
        attempt < max_retries() ==> tries_from(outs, attempt) >= 1,
        attempt < max_retries() ==> waits_from(outs, attempt).len() + 1 == tries_from(outs, attempt),
        forall|k: int| 0 <= k < waits_from(outs, attempt).len() ==> #[trigger] waits_from(outs, attempt)[k] <= 30,
        attempt == 0 && (forall|k: int| 0 <= k < outs.len() ==> #[trigger] outs[k] is Failed) ==> {
            &&& tries_from(outs, 0) == 3
            &&& waits_from(outs, 0) == seq![2u64, 4u64]
            &&& next_step_spec(2, outs[2]) == Step::GiveUpWithError
        },
    decreases outs.len(),
{
    if attempt < max_retries() {
        let t = outs.drop_first();
        if next_step_spec(attempt, outs[0]) is Retry {
            lemma_request_attempts(t, (attempt + 1) as u32);
            let w = waits_from(outs, attempt);
            let rest = waits_from(t, (attempt + 1) as u32);
            assert forall|k: int| 0 <= k < w.len() implies #[trigger] w[k] <= 30 by {
                if k > 0 {
                    assert(w[k] == rest[k - 1]);
                }
            }
        }
        if attempt == 0 && (forall|k: int| 0 <= k < outs.len() ==> #[trigger] outs[k] is Failed) {
            assert(outs[0] is Failed);
            assert(t[0] == outs[1] && t[0] is Failed);
            let t2 = t.drop_first();
            assert(t2[0] == outs[2] && t2[0] is Failed);
            assert(waits_from(t2, 2) == Seq::<u64>::empty());
            assert(waits_from(t, 1) =~= seq![4u64]);
            assert(waits_from(outs, 0) =~= seq![2u64, 4u64]);
        }
    }
}

pub proof fn lemma_retry_bounds(attempt: u32, outcome: Outcome)
    requires
        attempt < max_retries(),
    ensures
        next_step_spec(attempt, outcome) matches Step::Retry(w) ==> attempt + 1 < max_retries() && w
            <= 30,
{
}

} // verus!
