//! Character-level building blocks shared by every parser in the crate:
//! Unicode whitespace, trimming, run collapsing, word splitting, joining,
//! decimal digits, and conversion between `&str`/`String` and `Vec<char>`.

use vstd::prelude::*;

verus! {

// ---------------------------------------------------------------------------
// Character classes
// ---------------------------------------------------------------------------

/// The Unicode `White_Space` property: what `char::is_whitespace`, `str::trim`,
/// `str::split_whitespace` and the `\s` class of a Unicode regex all test.
pub open spec fn is_ws(c: char) -> bool {
    ||| ('\u{9}' <= c && c <= '\u{d}')
    ||| c == ' '
    ||| c == '\u{85}'
    ||| c == '\u{a0}'
    ||| c == '\u{1680}'
    ||| ('\u{2000}' <= c && c <= '\u{200a}')
    ||| c == '\u{2028}'
    ||| c == '\u{2029}'
    ||| c == '\u{202f}'
    ||| c == '\u{205f}'
    ||| c == '\u{3000}'
}

pub fn is_ws_char(c: char) -> (r: bool)
    ensures
        r == is_ws(c),
{
    ('\u{9}' <= c && c <= '\u{d}') || c == ' ' || c == '\u{85}' || c == '\u{a0}' || c == '\u{1680}'
        || ('\u{2000}' <= c && c <= '\u{200a}') || c == '\u{2028}' || c == '\u{2029}' || c
        == '\u{202f}' || c == '\u{205f}' || c == '\u{3000}'
}

pub open spec fn is_digit(c: char) -> bool {
    '0' <= c && c <= '9'
}

pub open spec fn digit_value(c: char) -> nat {
    (c as u32 - '0' as u32) as nat
}

pub open spec fn is_ascii_alnum(c: char) -> bool {
    ||| is_digit(c)
    ||| ('a' <= c && c <= 'z')
    ||| ('A' <= c && c <= 'Z')
}

/// ASCII lower-casing of one character; every other character is unchanged.
pub open spec fn ascii_lower(c: char) -> char {
    if 'A' <= c && c <= 'Z' {
        ((c as u32) + 32) as char
    } else {
        c
    }
}

/// ASCII upper-casing of one character; every other character is unchanged.
pub open spec fn ascii_upper(c: char) -> char {
    if 'a' <= c && c <= 'z' {
        ((c as u32) - 32) as char
    } else {
        c
    }
}

/// Every character of `s` is ASCII.
pub open spec fn all_ascii(s: Seq<char>) -> bool {
    forall|i: int| 0 <= i < s.len() ==> (#[trigger] s[i] as u32) < 128
}

/// `s` with every ASCII letter lower-cased.
pub open spec fn ascii_lowered(s: Seq<char>) -> Seq<char> {
    s.map_values(|c: char| ascii_lower(c))
}

pub fn ascii_lower_char(c: char) -> (r: char)
    ensures
        r == ascii_lower(c),
{
    if 'A' <= c && c <= 'Z' {
        let v: u32 = (c as u32) + 32;
        assert(0x61 <= v <= 0x7a);
        char_from_ascii(v)
    } else {
        c
    }
}

/// `v as u8 as char` for a value known to be ASCII.
fn char_from_ascii(v: u32) -> (r: char)
    requires
        v < 128,
    ensures
        r == v as char,
{
    let b: u8 = v as u8;
    b as char
}

pub open spec fn digit_char(d: nat) -> char
    recommends
        d < 10,
{
    ((d + 48) as u32) as char
}

// ---------------------------------------------------------------------------
// Trimming
// ---------------------------------------------------------------------------

pub open spec fn trim_start_by(s: Seq<char>, p: spec_fn(char) -> bool) -> Seq<char>
    decreases s.len(),
{
    if s.len() > 0 && p(s[0]) {
        trim_start_by(s.drop_first(), p)
    } else {
        s
    }
}

pub open spec fn trim_end_by(s: Seq<char>, p: spec_fn(char) -> bool) -> Seq<char>
    decreases s.len(),
{
    if s.len() > 0 && p(s.last()) {
        trim_end_by(s.drop_last(), p)
    } else {
        s
    }
}

/// `str::trim_matches` with predicate `p`: both ends stripped of `p`-characters.
pub open spec fn trim_by(s: Seq<char>, p: spec_fn(char) -> bool) -> Seq<char> {
    trim_end_by(trim_start_by(s, p), p)
}

/// `str::trim`.
pub open spec fn trim_ws(s: Seq<char>) -> Seq<char> {
    trim_by(s, |c: char| is_ws(c))
}

/// `str::trim_matches` with a set of characters.
pub open spec fn trim_set(s: Seq<char>, set: Seq<char>) -> Seq<char> {
    trim_by(s, |c: char| set.contains(c))
}

pub proof fn lemma_trim_start_at(s: Seq<char>, p: spec_fn(char) -> bool, a: int)
    requires
        0 <= a <= s.len(),
        forall|i: int| 0 <= i < a ==> p(#[trigger] s[i]),
        a == s.len() || !p(s[a]),
    ensures
        trim_start_by(s, p) == s.subrange(a, s.len() as int),
    decreases a,
{
    if a == 0 {
        assert(s.subrange(0, s.len() as int) =~= s);
    } else {
        let t = s.drop_first();
        assert forall|i: int| 0 <= i < a - 1 implies p(#[trigger] t[i]) by {
            assert(t[i] == s[i + 1]);
        }
        lemma_trim_start_at(t, p, a - 1);
        assert(t.subrange(a - 1, t.len() as int) =~= s.subrange(a, s.len() as int));
    }
}

pub proof fn lemma_trim_end_at(s: Seq<char>, p: spec_fn(char) -> bool, b: int)
    requires
        0 <= b <= s.len(),
        forall|i: int| b <= i < s.len() ==> p(#[trigger] s[i]),
        b == 0 || !p(s[b - 1]),
    ensures
        trim_end_by(s, p) == s.subrange(0, b),
    decreases s.len() - b,
{
    if b == s.len() {
        assert(s.subrange(0, b) =~= s);
    } else {
        let t = s.drop_last();
        assert forall|i: int| b <= i < t.len() implies p(#[trigger] t[i]) by {
            assert(t[i] == s[i]);
        }
        lemma_trim_end_at(t, p, b);
        assert(t.subrange(0, b) =~= s.subrange(0, b));
    }
}

/// Index range `[a, b)` of `s` that survives trimming with `p`.
pub proof fn lemma_trim_range(s: Seq<char>, p: spec_fn(char) -> bool, a: int, b: int)
    requires
        0 <= a <= b <= s.len(),
        forall|i: int| 0 <= i < a ==> p(#[trigger] s[i]),
        forall|i: int| b <= i < s.len() ==> p(#[trigger] s[i]),
        a == b || (!p(s[a]) && !p(s[b - 1])),
        a == b ==> a == s.len(),
    ensures
        trim_by(s, p) == s.subrange(a, b),
{
    lemma_trim_start_at(s, p, a);
    let t = s.subrange(a, s.len() as int);
    assert forall|i: int| b - a <= i < t.len() implies p(#[trigger] t[i]) by {
        assert(t[i] == s[i + a]);
    }
    lemma_trim_end_at(t, p, b - a);
    assert(t.subrange(0, b - a) =~= s.subrange(a, b));
}

/// Strip `p`-characters from both ends, for `p` given by `strip_char`.
pub fn trim_ws_vec(s: &Vec<char>) -> (r: Vec<char>)
    ensures
        r@ == trim_ws(s@),
{
    let ghost p = |c: char| is_ws(c);
    let n = s.len();
    let mut a: usize = 0;
    while a < n && is_ws_char(s[a])
        invariant
            a <= n,
            n == s.len(),
            forall|i: int| 0 <= i < a ==> is_ws(#[trigger] s@[i]),
        decreases n - a,
    {
        a = a + 1;
    }
    let mut b: usize = n;
    while b > a && is_ws_char(s[b - 1])
        invariant
            a <= b <= n,
            n == s.len(),
            forall|i: int| b <= i < n ==> is_ws(#[trigger] s@[i]),
        decreases b,
    {
        b = b - 1;
    }
    proof {
        lemma_trim_range(s@, p, a as int, b as int);
    }
    slice_vec(s, a, b)
}

pub fn trim_set_vec(s: &Vec<char>, set: &Vec<char>) -> (r: Vec<char>)
    ensures
        r@ == trim_set(s@, set@),
{
    let ghost p = |c: char| set@.contains(c);
    let n = s.len();
    let mut a: usize = 0;
    while a < n && contains_char(set, s[a])
        invariant
            a <= n,
            n == s.len(),
            forall|i: int| 0 <= i < a ==> set@.contains(#[trigger] s@[i]),
        decreases n - a,
    {
        a = a + 1;
    }
    let mut b: usize = n;
    while b > a && contains_char(set, s[b - 1])
        invariant
            a <= b <= n,
            n == s.len(),
            forall|i: int| b <= i < n ==> set@.contains(#[trigger] s@[i]),
        decreases b,
    {
        b = b - 1;
    }
    proof {
        lemma_trim_range(s@, p, a as int, b as int);
    }
    slice_vec(s, a, b)
}

pub fn contains_char(set: &Vec<char>, c: char) -> (r: bool)
    ensures
        r == set@.contains(c),
{
    let mut i: usize = 0;
    while i < set.len()
        invariant
            i <= set.len(),
            forall|k: int| 0 <= k < i ==> set@[k] != c,
        decreases set.len() - i,
    {
        if set[i] == c {
            return true;
        }
        i = i + 1;
    }
    false
}

// ---------------------------------------------------------------------------
// Slicing, appending, comparing
// ---------------------------------------------------------------------------

pub fn slice_vec(s: &Vec<char>, a: usize, b: usize) -> (r: Vec<char>)
    requires
        a <= b <= s.len(),
    ensures
        r@ == s@.subrange(a as int, b as int),
{
    let mut out: Vec<char> = Vec::new();
    let mut i = a;
    while i < b
        invariant
            a <= i <= b <= s.len(),
            out@ == s@.subrange(a as int, i as int),
        decreases b - i,
    {
        out.push(s[i]);
        assert(s@.subrange(a as int, i + 1) =~= s@.subrange(a as int, i as int).push(s@[i as int]));
        i = i + 1;
    }
    out
}

pub fn append_vec(out: &mut Vec<char>, s: &Vec<char>)
    ensures
        final(out)@ == old(out)@ + s@,
{
    let ghost start = out@;
    let mut i: usize = 0;
    while i < s.len()
        invariant
            i <= s.len(),
            out@ == start + s@.subrange(0, i as int),
        decreases s.len() - i,
    {
        out.push(s[i]);
        assert(s@.subrange(0, i + 1) =~= s@.subrange(0, i as int).push(s@[i as int]));
        i = i + 1;
    }
    assert(s@.subrange(0, s.len() as int) =~= s@);
}

pub fn eq_vec(a: &Vec<char>, b: &Vec<char>) -> (r: bool)
    ensures
        r == (a@ == b@),
{
    if a.len() != b.len() {
        return false;
    }
    let mut i: usize = 0;
    while i < a.len()
        invariant
            i <= a.len(),
            a.len() == b.len(),
            forall|k: int| 0 <= k < i ==> a@[k] == b@[k],
        decreases a.len() - i,
    {
        if a[i] != b[i] {
            return false;
        }
        i = i + 1;
    }
    assert(a@ =~= b@);
    true
}

// ---------------------------------------------------------------------------
// Runs, substitutions, words
// ---------------------------------------------------------------------------

/// Every maximal run of `p`-characters replaced by the single character `r`
/// (a regex `replace_all` of `[class]+` with a one-character replacement).
pub open spec fn collapse_by(s: Seq<char>, p: spec_fn(char) -> bool, r: char) -> Seq<char>
    decreases s.len(),
{
    if s.len() == 0 {
        seq![]
    } else {
        let pre = collapse_by(s.drop_last(), p, r);
        let c = s.last();
        if !p(c) {
            pre.push(c)
        } else if s.len() >= 2 && p(s[s.len() - 2]) {
            pre
        } else {
            pre.push(r)
        }
    }
}

/// Every maximal run of whitespace replaced by one space.
pub open spec fn collapse_ws(s: Seq<char>) -> Seq<char> {
    collapse_by(s, |c: char| is_ws(c), ' ')
}

/// Every maximal run of `.` and `_` replaced by one space.
pub open spec fn collapse_dots(s: Seq<char>) -> Seq<char> {
    collapse_by(s, |c: char| c == '.' || c == '_', ' ')
}

pub fn collapse_ws_vec(s: &Vec<char>) -> (r: Vec<char>)
    ensures
        r@ == collapse_ws(s@),
{
    let mut out: Vec<char> = Vec::new();
    let mut i: usize = 0;
    while i < s.len()
        invariant
            i <= s.len(),
            out@ == collapse_ws(s@.take(i as int)),
        decreases s.len() - i,
    {
        let c = s[i];
        let ghost t = s@.take(i + 1);
        assert(t.drop_last() =~= s@.take(i as int));
        assert(t.last() == c);
        assert(i >= 1 ==> t[i - 1] == s@[i - 1]);
        if !is_ws_char(c) {
            out.push(c);
        } else if i >= 1 && is_ws_char(s[i - 1]) {
        } else {
            out.push(' ');
        }
        i = i + 1;
    }
    assert(s@.take(s.len() as int) =~= s@);
    out
}

pub fn collapse_dots_vec(s: &Vec<char>) -> (r: Vec<char>)
    ensures
        r@ == collapse_dots(s@),
{
    let mut out: Vec<char> = Vec::new();
    let mut i: usize = 0;
    while i < s.len()
        invariant
            i <= s.len(),
            out@ == collapse_dots(s@.take(i as int)),
        decreases s.len() - i,
    {
        let c = s[i];
        let ghost t = s@.take(i + 1);
        assert(t.drop_last() =~= s@.take(i as int));
        assert(t.last() == c);
        assert(i >= 1 ==> t[i - 1] == s@[i - 1]);
        if !(c == '.' || c == '_') {
            out.push(c);
        } else if i >= 1 && (s[i - 1] == '.' || s[i - 1] == '_') {
        } else {
            out.push(' ');
        }
        i = i + 1;
    }
    assert(s@.take(s.len() as int) =~= s@);
    out
}

/// Each character replaced by the sequence `f` gives for it.
pub open spec fn subst_by(s: Seq<char>, f: spec_fn(char) -> Seq<char>) -> Seq<char>
    decreases s.len(),
{
    if s.len() == 0 {
        seq![]
    } else {
        subst_by(s.drop_last(), f) + f(s.last())
    }
}

/// The character sequences held by a vector of character vectors.
pub open spec fn views(v: Seq<Vec<char>>) -> Seq<Seq<char>> {
    v.map_values(|w: Vec<char>| w@)
}

/// The whitespace-separated words of `s` (`str::split_whitespace`).
pub open spec fn split_ws(s: Seq<char>) -> Seq<Seq<char>>
    decreases s.len(),
{
    if s.len() == 0 {
        seq![]
    } else {
        let pre = split_ws(s.drop_last());
        let c = s.last();
        if is_ws(c) {
            pre
        } else if s.len() >= 2 && !is_ws(s[s.len() - 2]) {
            pre.update(pre.len() - 1, pre.last().push(c))
        } else {
            pre.push(seq![c])
        }
    }
}

pub fn split_ws_vec(s: &Vec<char>) -> (r: Vec<Vec<char>>)
    ensures
        views(r@) == split_ws(s@),
{
    let mut done: Vec<Vec<char>> = Vec::new();
    let mut cur: Vec<char> = Vec::new();
    let mut i: usize = 0;
    while i < s.len()
        invariant
            i <= s.len(),
            split_ws(s@.take(i as int)) == (if cur.len() > 0 {
                views(done@).push(cur@)
            } else {
                views(done@)
            }),
            cur.len() > 0 <==> (i > 0 && !is_ws(s@[i - 1])),
        decreases s.len() - i,
    {
        let c = s[i];
        let ghost t = s@.take(i + 1);
        assert(t.drop_last() =~= s@.take(i as int));
        assert(t.last() == c);
        if is_ws_char(c) {
            if cur.len() > 0 {
                let w = cur;
                cur = Vec::new();
                let ghost before = views(done@);
                done.push(w);
                assert(views(done@) =~= before.push(w@));
            }
        } else {
            if cur.len() > 0 {
                assert(t[i - 1] == s@[i - 1]);
                let ghost pre = views(done@).push(cur@);
                cur.push(c);
                assert(pre.update(pre.len() - 1, pre.last().push(c)) =~= views(done@).push(cur@));
            } else {
                cur.push(c);
                assert(cur@ =~= seq![c]);
            }
        }
        i = i + 1;
    }
    assert(s@.take(s.len() as int) =~= s@);
    if cur.len() > 0 {
        let ghost before = views(done@);
        done.push(cur);
        assert(views(done@) =~= before.push(cur@));
    }
    done
}

/// The pieces joined with `sep` between consecutive pieces.
pub open spec fn join(parts: Seq<Seq<char>>, sep: Seq<char>) -> Seq<char>
    decreases parts.len(),
{
    if parts.len() == 0 {
        seq![]
    } else if parts.len() == 1 {
        parts[0]
    } else {
        join(parts.drop_last(), sep) + sep + parts.last()
    }
}

pub fn join_vec(parts: &Vec<Vec<char>>, sep: &Vec<char>) -> (r: Vec<char>)
    ensures
        r@ == join(views(parts@), sep@),
{
    let mut out: Vec<char> = Vec::new();
    let mut i: usize = 0;
    while i < parts.len()
        invariant
            i <= parts.len(),
            out@ == join(views(parts@).take(i as int), sep@),
        decreases parts.len() - i,
    {
        let ghost t = views(parts@).take(i + 1);
        assert(t.drop_last() =~= views(parts@).take(i as int));
        assert(t.last() == parts@[i as int]@);
        if i > 0 {
            append_vec(&mut out, sep);
        }
        append_vec(&mut out, &parts[i]);
        proof {
            if i == 0 {
                assert(out@ =~= t[0]);
            }
        }
        i = i + 1;
    }
    assert(views(parts@).take(parts.len() as int) =~= views(parts@));
    out
}

// ---------------------------------------------------------------------------
// Decimal numbers
// ---------------------------------------------------------------------------

/// Value of a string of ASCII digits.
pub open spec fn digits_value(s: Seq<char>) -> nat
    decreases s.len(),
{
    if s.len() == 0 {
        0
    } else {
        digits_value(s.drop_last()) * 10 + digit_value(s.last())
    }
}

pub open spec fn all_digits(s: Seq<char>) -> bool {
    forall|i: int| 0 <= i < s.len() ==> is_digit(#[trigger] s[i])
}

/// Whether `s[a..b]` is all ASCII digits.
pub fn all_digits_in(s: &Vec<char>, a: usize, b: usize) -> (r: bool)
    requires
        a <= b <= s.len(),
    ensures
        r == all_digits(s@.subrange(a as int, b as int)),
{
    let mut i = a;
    while i < b
        invariant
            a <= i <= b <= s.len(),
            forall|k: int| a <= k < i ==> is_digit(#[trigger] s@[k]),
        decreases b - i,
    {
        if !('0' <= s[i] && s[i] <= '9') {
            assert(s@.subrange(a as int, b as int)[i - a] == s@[i as int]);
            return false;
        }
        i = i + 1;
    }
    assert forall|k: int| 0 <= k < b - a implies is_digit(#[trigger] s@.subrange(a as int, b as int)[k]) by {
        assert(s@.subrange(a as int, b as int)[k] == s@[a + k]);
    }
    true
}

/// Value of at most nine ASCII digits (always fits in `u32`).
pub fn small_digits_value(s: &Vec<char>, a: usize, b: usize) -> (r: u32)
    requires
        a <= b <= s.len(),
        b - a <= 9,
        all_digits(s@.subrange(a as int, b as int)),
    ensures
        r == digits_value(s@.subrange(a as int, b as int)),
        r < pow10((b - a) as nat),
{
    let mut v: u32 = 0;
    let mut i = a;
    while i < b
        invariant
            a <= i <= b <= s.len(),
            b - a <= 9,
            all_digits(s@.subrange(a as int, b as int)),
            v == digits_value(s@.subrange(a as int, i as int)),
            v < pow10((i - a) as nat),
        decreases b - i,
    {
        let c = s[i];
        assert(s@.subrange(a as int, b as int)[i - a] == c);
        let d: u32 = (c as u32) - ('0' as u32);
        let ghost t = s@.subrange(a as int, i + 1);
        assert(t.drop_last() =~= s@.subrange(a as int, i as int));
        proof {
            lemma_pow10_bound((i - a) as nat);
        }
        v = v * 10 + d;
        i = i + 1;
    }
    v
}

pub open spec fn pow10(n: nat) -> nat
    decreases n,
{
    if n == 0 {
        1
    } else {
        10 * pow10((n - 1) as nat)
    }
}

proof fn lemma_pow10_bound(n: nat)
    requires
        n <= 8,
    ensures
        pow10(n) <= 100_000_000,
        pow10(n + 1) == 10 * pow10(n),
    decreases n,
{
    reveal_with_fuel(pow10, 10);
}

/// Decimal representation of a natural number, without leading zeros.
pub open spec fn dec(n: nat) -> Seq<char>
    decreases n,
{
    if n < 10 {
        seq![digit_char(n)]
    } else {
        dec(n / 10).push(digit_char(n % 10))
    }
}

/// `format!("{:02}", n)`.
pub open spec fn dec2(n: nat) -> Seq<char> {
    if n < 10 {
        seq!['0', digit_char(n)]
    } else {
        dec(n)
    }
}

/// `format!("{}", n)` for a signed integer.
pub open spec fn dec_int(n: int) -> Seq<char> {
    if n < 0 {
        seq!['-'] + dec((-n) as nat)
    } else {
        dec(n as nat)
    }
}

pub fn dec_vec(n: u64) -> (r: Vec<char>)
    ensures
        r@ == dec(n as nat),
    decreases n,
{
    if n < 10 {
        let mut v: Vec<char> = Vec::new();
        v.push(digit_of(n));
        v
    } else {
        let mut v = dec_vec(n / 10);
        v.push(digit_of(n % 10));
        v
    }
}

fn digit_of(d: u64) -> (r: char)
    requires
        d < 10,
    ensures
        r == digit_char(d as nat),
{
    let v: u32 = (d as u32) + 48;
    char_from_ascii(v)
}

pub fn dec2_vec(n: u32) -> (r: Vec<char>)
    ensures
        r@ == dec2(n as nat),
{
    if n < 10 {
        let mut v: Vec<char> = Vec::new();
        v.push('0');
        v.push(digit_of(n as u64));
        v
    } else {
        dec_vec(n as u64)
    }
}

pub fn dec_int_vec(n: i32) -> (r: Vec<char>)
    ensures
        r@ == dec_int(n as int),
{
    if n < 0 {
        let m: i64 = -(n as i64);
        let mut v: Vec<char> = Vec::new();
        v.push('-');
        let d = dec_vec(m as u64);
        append_vec(&mut v, &d);
        v
    } else {
        dec_vec(n as u64)
    }
}

// ---------------------------------------------------------------------------
// Conversions between `str`/`String` and `Vec<char>`
// ---------------------------------------------------------------------------

/// The characters of `s`, in order.
pub fn chars_of(s: &str) -> (r: Vec<char>)
    ensures
        r@ == s@,
{
    let mut out: Vec<char> = Vec::new();
    for c in it: s.chars()
        invariant
            out@ == it.seq().take(it.index() as int),
            it.seq() == s@,
    {
        out.push(c);
    }
    out
}

/// `String::push`: appends one character.
#[verifier::external_body]
fn string_push(s: &mut String, c: char)
    ensures
        final(s)@ == old(s)@.push(c),
{
    s.push(c)
}

pub fn string_of(v: &Vec<char>) -> (r: String)
    ensures
        r@ == v@,
{
    let mut s = String::new();
    let mut i: usize = 0;
    while i < v.len()
        invariant
            i <= v.len(),
            s@ == v@.take(i as int),
        decreases v.len() - i,
    {
        string_push(&mut s, v[i]);
        assert(v@.take(i + 1) =~= v@.take(i as int).push(v@[i as int]));
        i = i + 1;
    }
    assert(v@.take(v.len() as int) =~= v@);
    s
}

// ---------------------------------------------------------------------------
// Unicode case mapping and properties, as std implements them
// ---------------------------------------------------------------------------

/// What `str::to_lowercase` returns for a string (Unicode lower-casing,
/// including the context-dependent final-sigma rule).
pub uninterp spec fn lowercase_of(s: Seq<char>) -> Seq<char>;

/// What `char::to_uppercase` yields for a character (one to three characters).
pub uninterp spec fn uppercase_of(c: char) -> Seq<char>;

/// Whether `char::is_uppercase` holds (the Unicode `Uppercase` property).
pub uninterp spec fn uppercase_prop(c: char) -> bool;

/// Whether `char::is_lowercase` holds (the Unicode `Lowercase` property).
pub uninterp spec fn lowercase_prop(c: char) -> bool;

/// Calls `str::to_lowercase` on the string made of `s`; the result is
/// `lowercase_of(s)`, a function of the characters alone. On ASCII text it
/// lower-cases the letters `A`-`Z` and keeps every other character; Unicode's
/// case tables for the rest are not restated here.
#[verifier::external_body]
pub(crate) fn lowercase(s: &Vec<char>) -> (r: Vec<char>)
    ensures
        r@ == lowercase_of(s@),
        all_ascii(s@) ==> r@ == ascii_lowered(s@),
{
    let text: String = s.iter().collect();
    text.to_lowercase().chars().collect()
}

/// Calls `char::to_uppercase` and collects what it yields: one or more
/// characters, and for an ASCII character the character itself with `a`-`z`
/// upper-cased.
#[verifier::external_body]
pub(crate) fn uppercase_char(c: char) -> (r: Vec<char>)
    ensures
        r@ == uppercase_of(c),
        r@.len() >= 1,
        (c as u32) < 128 ==> r@ == seq![ascii_upper(c)],
{
    c.to_uppercase().collect()
}

/// Calls `char::is_uppercase`; among ASCII characters it holds of `A`-`Z` only.
#[verifier::external_body]
pub(crate) fn is_uppercase_char(c: char) -> (r: bool)
    ensures
        r == uppercase_prop(c),
        (c as u32) < 128 ==> r == ('A' <= c && c <= 'Z'),
{
    c.is_uppercase()
}

/// Calls `char::is_lowercase`; among ASCII characters it holds of `a`-`z` only.
#[verifier::external_body]
pub(crate) fn is_lowercase_char(c: char) -> (r: bool)
    ensures
        r == lowercase_prop(c),
        (c as u32) < 128 ==> r == ('a' <= c && c <= 'z'),
{
    c.is_lowercase()
}

} // verus!

verus! {

// ---------------------------------------------------------------------------
// What the rewrites keep
// ---------------------------------------------------------------------------

/// A substitution whose every replacement satisfies `q` yields only
/// characters satisfying `q`.
pub proof fn lemma_subst_chars(s: Seq<char>, f: spec_fn(char) -> Seq<char>, q: spec_fn(char) -> bool)
    requires
        forall|c: char, i: int| 0 <= i < f(c).len() ==> q(#[trigger] f(c)[i]),
    ensures
        forall|k: int| 0 <= k < subst_by(s, f).len() ==> q(#[trigger] subst_by(s, f)[k]),
    decreases s.len(),
{
    if s.len() > 0 {
        lemma_subst_chars(s.drop_last(), f, q);
        let pre = subst_by(s.drop_last(), f);
        let t = f(s.last());
        assert forall|k: int| 0 <= k < subst_by(s, f).len() implies q(#[trigger] subst_by(s, f)[k]) by {
            if k < pre.len() {
                assert(subst_by(s, f)[k] == pre[k]);
            } else {
                assert(subst_by(s, f)[k] == t[k - pre.len()]);
            }
        }
    }
}

/// Collapsing runs keeps only characters of the input and the replacement.
pub proof fn lemma_collapse_chars(s: Seq<char>, p: spec_fn(char) -> bool, r: char, q: spec_fn(char) -> bool)
    requires
        forall|k: int| 0 <= k < s.len() ==> q(#[trigger] s[k]),
        q(r),
    ensures
        forall|k: int| 0 <= k < collapse_by(s, p, r).len() ==> q(#[trigger] collapse_by(s, p, r)[k]),
    decreases s.len(),
{
    if s.len() > 0 {
        let t = s.drop_last();
        assert forall|k: int| 0 <= k < t.len() implies q(#[trigger] t[k]) by {
            assert(t[k] == s[k]);
        }
        lemma_collapse_chars(t, p, r, q);
        let pre = collapse_by(t, p, r);
        let c = s.last();
        assert(q(c));
        assert forall|k: int| 0 <= k < collapse_by(s, p, r).len() implies q(#[trigger] collapse_by(s, p, r)[k]) by {
            if k < pre.len() {
                assert(collapse_by(s, p, r)[k] == pre[k]);
            }
        }
    }
}

/// Trimming keeps only characters of the input, and leaves none of the
/// trimmed kind at either end.
pub proof fn lemma_trim_chars(s: Seq<char>, p: spec_fn(char) -> bool, q: spec_fn(char) -> bool)
    requires
        forall|k: int| 0 <= k < s.len() ==> q(#[trigger] s[k]),
    ensures
        forall|k: int| 0 <= k < trim_by(s, p).len() ==> q(#[trigger] trim_by(s, p)[k]),
        trim_by(s, p).len() > 0 ==> !p(trim_by(s, p)[0]) && !p(trim_by(s, p).last()),
{
    lemma_trim_start_chars(s, p, q);
    let a = trim_start_by(s, p);
    lemma_trim_end_chars(a, p, q);
    if trim_by(s, p).len() > 0 {
        lemma_trim_end_keeps_start(a, p);
    }
}

proof fn lemma_trim_start_chars(s: Seq<char>, p: spec_fn(char) -> bool, q: spec_fn(char) -> bool)
    requires
        forall|k: int| 0 <= k < s.len() ==> q(#[trigger] s[k]),
    ensures
        forall|k: int| 0 <= k < trim_start_by(s, p).len() ==> q(#[trigger] trim_start_by(s, p)[k]),
        trim_start_by(s, p).len() > 0 ==> !p(trim_start_by(s, p)[0]),
    decreases s.len(),
{
    if s.len() > 0 && p(s[0]) {
        let t = s.drop_first();
        assert forall|k: int| 0 <= k < t.len() implies q(#[trigger] t[k]) by {
            assert(t[k] == s[k + 1]);
        }
        lemma_trim_start_chars(t, p, q);
    }
}

proof fn lemma_trim_end_chars(s: Seq<char>, p: spec_fn(char) -> bool, q: spec_fn(char) -> bool)
    requires
        forall|k: int| 0 <= k < s.len() ==> q(#[trigger] s[k]),
    ensures
        forall|k: int| 0 <= k < trim_end_by(s, p).len() ==> q(#[trigger] trim_end_by(s, p)[k]),
        trim_end_by(s, p).len() > 0 ==> !p(trim_end_by(s, p).last()),
        trim_end_by(s, p).len() <= s.len(),
        forall|k: int| 0 <= k < trim_end_by(s, p).len() ==> #[trigger] trim_end_by(s, p)[k] == s[k],
    decreases s.len(),
{
    if s.len() > 0 && p(s.last()) {
        let t = s.drop_last();
        assert forall|k: int| 0 <= k < t.len() implies q(#[trigger] t[k]) by {
            assert(t[k] == s[k]);
        }
        lemma_trim_end_chars(t, p, q);
    }
}

proof fn lemma_trim_end_keeps_start(s: Seq<char>, p: spec_fn(char) -> bool)
    requires
        trim_end_by(s, p).len() > 0,
    ensures
        trim_end_by(s, p)[0] == s[0],
    decreases s.len(),
{
    if s.len() > 0 && p(s.last()) {
        lemma_trim_end_keeps_start(s.drop_last(), p);
    }
}

// ---------------------------------------------------------------------------
// Decimal digits
// ---------------------------------------------------------------------------

pub proof fn lemma_digit_char(d: nat)
    requires
        d < 10,
    ensures
        is_digit(digit_char(d)),
        digit_value(digit_char(d)) == d,
{
    let c = digit_char(d);
    assert(c as u32 == (d + 48) as u32);
}

pub proof fn lemma_dec(n: nat)
    ensures
        all_digits(dec(n)),
        digits_value(dec(n)) == n,
        n < 10 ==> dec(n).len() == 1,
        10 <= n < 100 ==> dec(n).len() == 2,
        100 <= n < 1000 ==> dec(n).len() == 3,
        1000 <= n < 10000 ==> dec(n).len() == 4,
    decreases n,
{
    let s = dec(n);
    if n < 10 {
        lemma_digit_char(n);
        assert(s.drop_last() =~= Seq::<char>::empty());
        reveal_with_fuel(digits_value, 2);
    } else {
        lemma_dec(n / 10);
        lemma_digit_char(n % 10);
        assert(s.drop_last() =~= dec(n / 10));
        vstd::arithmetic::div_mod::lemma_fundamental_div_mod(n as int, 10);
        assert forall|i: int| 0 <= i < s.len() implies is_digit(#[trigger] s[i]) by {
            if i < s.len() - 1 {
                assert(s[i] == dec(n / 10)[i]);
            }
        }
    }
}

pub proof fn lemma_dec2(n: nat)
    requires
        n < 100,
    ensures
        dec2(n).len() == 2,
        all_digits(dec2(n)),
        digits_value(dec2(n)) == n,
{
    lemma_dec(n);
    if n < 10 {
        lemma_digit_char(n);
        let s = dec2(n);
        assert(s.drop_last() =~= seq!['0']);
        assert(seq!['0'].drop_last() =~= Seq::<char>::empty());
        reveal_with_fuel(digits_value, 2);
        assert(seq!['0'].last() == '0');
        assert(digits_value(seq!['0']) == 0);
    }
}

// ---------------------------------------------------------------------------
// Words and ASCII case
// ---------------------------------------------------------------------------

/// The words of `s` are non-empty, hold only characters of `s` (any property
/// of all of them carries over), and there is at least one when `s` holds a
/// character that is not whitespace.
pub proof fn lemma_split_ws_words(s: Seq<char>, q: spec_fn(char) -> bool)
    requires
        forall|m: int| 0 <= m < s.len() ==> q(#[trigger] s[m]),
    ensures
        forall|i: int| 0 <= i < split_ws(s).len() ==> #[trigger] split_ws(s)[i].len() > 0,
        forall|i: int, k: int|
            0 <= i < split_ws(s).len() && 0 <= k < split_ws(s)[i].len() ==> q(#[trigger] split_ws(s)[i][k]),
        (exists|m: int| 0 <= m < s.len() && !is_ws(#[trigger] s[m])) ==> split_ws(s).len() > 0,
    decreases s.len(),
{
    if s.len() > 0 {
        let t = s.drop_last();
        assert forall|m: int| 0 <= m < t.len() implies q(#[trigger] t[m]) by {
            assert(t[m] == s[m]);
        }
        lemma_split_ws_words(t, q);
        let pre = split_ws(t);
        let c = s.last();
        assert(q(c));
        if !is_ws(c) && s.len() >= 2 && !is_ws(s[s.len() - 2]) {
            assert(t[t.len() - 1] == s[s.len() - 2]);
            assert(pre.len() > 0);
        }
        if exists|m: int| 0 <= m < s.len() && !is_ws(#[trigger] s[m]) {
            let m = choose|m: int| 0 <= m < s.len() && !is_ws(#[trigger] s[m]);
            if is_ws(c) {
                assert(t[m] == s[m]);
            }
        }
        let r = split_ws(s);
        assert forall|i: int, k: int|
            0 <= i < r.len() && 0 <= k < r[i].len() implies q(#[trigger] r[i][k]) by {
            if !is_ws(c) && s.len() >= 2 && !is_ws(s[s.len() - 2]) && i == pre.len() - 1 {
                if k < pre.last().len() {
                    assert(r[i][k] == pre[i][k]);
                }
            } else if i < pre.len() {
                assert(r[i] == pre[i]);
            }
        }
    }
}

/// No word of `s` holds whitespace.
pub proof fn lemma_split_ws_no_ws(s: Seq<char>)
    ensures
        forall|i: int, k: int|
            0 <= i < split_ws(s).len() && 0 <= k < split_ws(s)[i].len() ==> !is_ws(#[trigger] split_ws(s)[i][k]),
    decreases s.len(),
{
    if s.len() > 0 {
        let t = s.drop_last();
        lemma_split_ws_no_ws(t);
        lemma_split_ws_words(t, |c: char| true);
        let pre = split_ws(t);
        let c = s.last();
        if !is_ws(c) && s.len() >= 2 && !is_ws(s[s.len() - 2]) {
            lemma_split_ws_words(t, |c: char| true);
            assert(t[t.len() - 1] == s[s.len() - 2]);
            assert(exists|m: int| 0 <= m < t.len() && !is_ws(#[trigger] t[m]));
            assert(pre.len() > 0);
        }
        let r = split_ws(s);
        assert forall|i: int, k: int| 0 <= i < r.len() && 0 <= k < r[i].len() implies !is_ws(#[trigger] r[i][k]) by {
            if !is_ws(c) && s.len() >= 2 && !is_ws(s[s.len() - 2]) && i == pre.len() - 1 {
                if k < pre.last().len() {
                    assert(r[i][k] == pre[i][k]);
                }
            } else if i < pre.len() {
                assert(r[i] == pre[i]);
            }
        }
    }
}

/// ASCII lower-casing keeps length and spreads over concatenation.
pub proof fn lemma_ascii_lowered_add(x: Seq<char>, y: Seq<char>)
    ensures
        ascii_lowered(x + y) == ascii_lowered(x) + ascii_lowered(y),
        ascii_lowered(x).len() == x.len(),
{
    assert(ascii_lowered(x + y) =~= ascii_lowered(x) + ascii_lowered(y));
}

/// Joining parts whose lower-cased forms agree gives texts whose lower-cased
/// forms agree.
pub proof fn lemma_join_same_lowered(ps: Seq<Seq<char>>, qs: Seq<Seq<char>>, sep: Seq<char>)
    requires
        ps.len() == qs.len(),
        forall|i: int| 0 <= i < ps.len() ==> ascii_lowered(#[trigger] ps[i]) == ascii_lowered(qs[i]),
    ensures
        ascii_lowered(join(ps, sep)) == ascii_lowered(join(qs, sep)),
    decreases ps.len(),
{
    if ps.len() == 1 {
        assert(ascii_lowered(ps[0]) == ascii_lowered(qs[0]));
    } else if ps.len() > 1 {
        let pd = ps.drop_last();
        let qd = qs.drop_last();
        assert forall|i: int| 0 <= i < pd.len() implies ascii_lowered(#[trigger] pd[i]) == ascii_lowered(qd[i]) by {
            assert(pd[i] == ps[i] && qd[i] == qs[i]);
        }
        lemma_join_same_lowered(pd, qd, sep);
        assert(ascii_lowered(ps.last()) == ascii_lowered(qs[qs.len() - 1]));
        lemma_ascii_lowered_add(join(pd, sep) + sep, ps.last());
        lemma_ascii_lowered_add(join(pd, sep), sep);
        lemma_ascii_lowered_add(join(qd, sep) + sep, qs.last());
        lemma_ascii_lowered_add(join(qd, sep), sep);
    }
}

/// A join is at least as long as its first part.
pub proof fn lemma_join_keeps_first(ps: Seq<Seq<char>>, sep: Seq<char>)
    requires
        ps.len() > 0,
    ensures
        join(ps, sep).len() >= ps[0].len(),
    decreases ps.len(),
{
    if ps.len() > 1 {
        lemma_join_keeps_first(ps.drop_last(), sep);
    }
}

/// Collapsing runs of `p`-characters into a character that is not one leaves
/// none of them.
pub proof fn lemma_collapse_removes(s: Seq<char>, p: spec_fn(char) -> bool, r: char)
    requires
        !p(r),
    ensures
        forall|k: int| 0 <= k < collapse_by(s, p, r).len() ==> !p(#[trigger] collapse_by(s, p, r)[k]),
    decreases s.len(),
{
    if s.len() > 0 {
        lemma_collapse_removes(s.drop_last(), p, r);
        let pre = collapse_by(s.drop_last(), p, r);
        assert forall|k: int| 0 <= k < collapse_by(s, p, r).len() implies !p(#[trigger] collapse_by(s, p, r)[k]) by {
            if k < pre.len() {
                assert(collapse_by(s, p, r)[k] == pre[k]);
            }
        }
    }
}

/// A join holds only characters of its parts and of the separator.
pub proof fn lemma_join_chars(ps: Seq<Seq<char>>, sep: Seq<char>, q: spec_fn(char) -> bool)
    requires
        forall|i: int, k: int| 0 <= i < ps.len() && 0 <= k < ps[i].len() ==> q(#[trigger] ps[i][k]),
        forall|k: int| 0 <= k < sep.len() ==> q(#[trigger] sep[k]),
    ensures
        forall|k: int| 0 <= k < join(ps, sep).len() ==> q(#[trigger] join(ps, sep)[k]),
    decreases ps.len(),
{
    if ps.len() == 1 {
        assert forall|k: int| 0 <= k < join(ps, sep).len() implies q(#[trigger] join(ps, sep)[k]) by {
            assert(join(ps, sep)[k] == ps[0][k]);
        }
    } else if ps.len() > 1 {
        let pd = ps.drop_last();
        assert forall|i: int, k: int| 0 <= i < pd.len() && 0 <= k < pd[i].len() implies q(#[trigger] pd[i][k]) by {
            assert(pd[i] == ps[i]);
        }
        lemma_join_chars(pd, sep, q);
        let a = join(pd, sep);
        let l = ps.last();
        assert forall|k: int| 0 <= k < join(ps, sep).len() implies q(#[trigger] join(ps, sep)[k]) by {
            let j = join(ps, sep);
            assert(j == a + sep + l);
            if k < a.len() {
                assert(j[k] == a[k]);
            } else if k < a.len() + sep.len() {
                assert(j[k] == sep[k - a.len()]);
            } else {
                assert(j[k] == l[k - a.len() - sep.len()]);
                assert(ps[ps.len() - 1][k - a.len() - sep.len()] == l[k - a.len() - sep.len()]);
            }
        }
    }
}

/// A join of non-empty parts starts with the first part's first character
/// and ends with the last part's last character.
pub proof fn lemma_join_ends(ps: Seq<Seq<char>>, sep: Seq<char>)
    requires
        ps.len() > 0,
        forall|i: int| 0 <= i < ps.len() ==> #[trigger] ps[i].len() > 0,
    ensures
        join(ps, sep).len() > 0,
        join(ps, sep)[0] == ps[0][0],
        join(ps, sep).last() == ps.last().last(),
    decreases ps.len(),
{
    if ps.len() > 1 {
        let pd = ps.drop_last();
        assert forall|i: int| 0 <= i < pd.len() implies #[trigger] pd[i].len() > 0 by {
            assert(pd[i] == ps[i]);
        }
        lemma_join_ends(pd, sep);
        assert(ps.last().len() > 0);
    }
}

/// When `s` starts (ends) with a character that is not whitespace, so does
/// its first (last) word.
pub proof fn lemma_split_ws_ends(s: Seq<char>)
    requires
        s.len() > 0,
    ensures
        !is_ws(s[0]) ==> split_ws(s).len() > 0 && split_ws(s)[0].len() > 0 && split_ws(s)[0][0] == s[0],
        !is_ws(s.last()) ==> split_ws(s).len() > 0 && split_ws(s).last().len() > 0
            && split_ws(s).last().last() == s.last(),
    decreases s.len(),
{
    lemma_split_ws_words(s, |c: char| true);
    let t = s.drop_last();
    if s.len() > 1 {
        lemma_split_ws_ends(t);
        lemma_split_ws_words(t, |c: char| true);
        assert(t[0] == s[0]);
    }
}

/// A character that lower-cases to `x`, where `x` is not a lower-case
/// letter, is `x` itself.
pub proof fn lemma_ascii_lower_nonletter(c: char, x: char)
    requires
        !('a' <= x && x <= 'z'),
        ascii_lower(c) == x,
    ensures
        c == x,
{
    if 'A' <= c && c <= 'Z' {
        assert(((c as u32) + 32) as char as u32 == (c as u32) + 32);
    }
}

} // verus!
