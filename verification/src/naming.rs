//! Path-component sanitizing and light title-casing.

use vstd::prelude::*;
use crate::tv::split_char;
use crate::text::{
    lemma_ascii_lower_nonletter, all_ascii, ascii_lower, ascii_lowered, ascii_upper, is_ws, lemma_ascii_lowered_add,
    lemma_join_keeps_first, lemma_join_same_lowered, lemma_split_ws_words,
    append_vec, chars_of, collapse_ws, collapse_ws_vec, eq_vec, is_lowercase_char,
    is_uppercase_char, join, join_vec, lowercase, lowercase_of, lowercase_prop, slice_vec,
    split_ws, split_ws_vec, string_of, subst_by, trim_set, trim_set_vec, uppercase_char,
    uppercase_of, uppercase_prop, views,
};

verus! {

// ---------------------------------------------------------------------------
// safe_component
// ---------------------------------------------------------------------------

/// Path separators, rewritten to `-`.
pub open spec fn is_dash_char(c: char) -> bool {
    c == '/' || c == '\\' || c == '|'
}

/// Reserved and control characters, dropped.
pub open spec fn is_drop_char(c: char) -> bool {
    c == ':' || c == '?' || c == '"' || c == '*' || c == '<' || c == '>' || (c as u32) <= 0x1f
}

pub open spec fn unsafe_subst(c: char) -> Seq<char> {
    if is_dash_char(c) {
        seq!['-']
    } else if is_drop_char(c) {
        seq![]
    } else {
        seq![c]
    }
}

/// The text as a single path component: separators become `-`, reserved
/// and control characters are dropped, whitespace runs become one space,
/// spaces and dots are trimmed from both ends, and an empty result is `_`.
pub open spec fn safe_component_spec(name: Seq<char>) -> Seq<char> {
    let mapped = subst_by(name, |c: char| unsafe_subst(c));
    let trimmed = trim_set(collapse_ws(mapped), seq![' ', '.']);
    if trimmed.len() == 0 {
        seq!['_']
    } else {
        trimmed
    }
}

fn unsafe_subst_vec(s: &Vec<char>) -> (r: Vec<char>)
    ensures
        r@ == subst_by(s@, |c: char| unsafe_subst(c)),
{
    let ghost f = |c: char| unsafe_subst(c);
    let mut out: Vec<char> = Vec::new();
    let mut i: usize = 0;
    while i < s.len()
        invariant
            i <= s.len(),
            f == (|c: char| unsafe_subst(c)),
            out@ == subst_by(s@.take(i as int), f),
        decreases s.len() - i,
    {
        let c = s[i];
        let ghost t = s@.take(i + 1);
        assert(t.drop_last() =~= s@.take(i as int));
        assert(t.last() == c);
        let ghost before = out@;
        if c == '/' || c == '\\' || c == '|' {
            out.push('-');
            assert(out@ =~= before + seq!['-']);
        } else if c == ':' || c == '?' || c == '"' || c == '*' || c == '<' || c == '>' || (c as u32)
            <= 0x1f {
            assert(out@ =~= before + Seq::<char>::empty());
        } else {
            out.push(c);
            assert(out@ =~= before + seq![c]);
        }
        i = i + 1;
    }
    assert(s@.take(s.len() as int) =~= s@);
    out
}

pub fn safe_component_vec(name: &Vec<char>) -> (r: Vec<char>)
    ensures
        r@ == safe_component_spec(name@),
{
    let mapped = unsafe_subst_vec(name);
    let collapsed = collapse_ws_vec(&mapped);
    let mut set: Vec<char> = Vec::new();
    set.push(' ');
    set.push('.');
    assert(set@ =~= seq![' ', '.']);
    let trimmed = trim_set_vec(&collapsed, &set);
    if trimmed.len() == 0 {
        let mut u: Vec<char> = Vec::new();
        u.push('_');
        assert(u@ =~= seq!['_']);
        u
    } else {
        trimmed
    }
}

/// Make a string safe to use as a single path component.
///
/// Titles are derived from untrusted source filenames, so separators and
/// reserved characters are rewritten rather than passed through into a path.
pub fn safe_component(name: &str) -> (r: String)
    ensures
        r@ == safe_component_spec(name@),
{
    string_of(&safe_component_vec(&chars_of(name)))
}

/// A character that may stand in a path component.
pub open spec fn component_char(c: char) -> bool {
    !is_dash_char(c) && !is_drop_char(c)
}

/// `safe_component` always yields one usable path component: never empty,
/// free of separators, reserved and control characters, and with no space or
/// dot at either end.
pub proof fn lemma_safe_component_is_safe(name: Seq<char>)
    ensures
        safe_component_spec(name).len() > 0,
        forall|k: int|
            0 <= k < safe_component_spec(name).len() ==> component_char(
                #[trigger] safe_component_spec(name)[k],
            ),
        safe_component_spec(name)[0] != ' ' && safe_component_spec(name)[0] != '.',
        safe_component_spec(name).last() != ' ' && safe_component_spec(name).last() != '.',
{
    let q = |c: char| component_char(c);
    let f = |c: char| unsafe_subst(c);
    assert forall|c: char, i: int| 0 <= i < f(c).len() implies q(#[trigger] f(c)[i]) by {}
    crate::text::lemma_subst_chars(name, f, q);
    let mapped = subst_by(name, f);
    crate::text::lemma_collapse_chars(mapped, |c: char| crate::text::is_ws(c), ' ', q);
    let collapsed = collapse_ws(mapped);
    let set = seq![' ', '.'];
    crate::text::lemma_trim_chars(collapsed, |c: char| set.contains(c), q);
    let trimmed = trim_set(collapsed, set);
    if trimmed.len() > 0 {
        assert(!set.contains(trimmed[0]));
        assert(!set.contains(trimmed.last()));
        assert(set[0] == ' ' && set[1] == '.');
    }
}

/// Text that is already a path component as `safe_component` makes them:
/// non-empty, only component characters, whitespace only as single spaces,
/// and no space or dot at either end.
pub open spec fn settled_component(s: Seq<char>) -> bool {
    &&& s.len() > 0
    &&& forall|k: int| 0 <= k < s.len() ==> component_char(#[trigger] s[k])
    &&& forall|k: int| 0 <= k < s.len() && #[trigger] crate::text::is_ws(s[k]) ==> s[k] == ' '
    &&& forall|k: int| 1 <= k < s.len() && #[trigger] s[k] == ' ' ==> s[k - 1] != ' '
    &&& s[0] != ' ' && s[0] != '.'
    &&& s.last() != ' ' && s.last() != '.'
}

proof fn lemma_subst_keeps(s: Seq<char>)
    requires
        forall|k: int| 0 <= k < s.len() ==> component_char(#[trigger] s[k]),
    ensures
        subst_by(s, |c: char| unsafe_subst(c)) == s,
    decreases s.len(),
{
    if s.len() > 0 {
        let t = s.drop_last();
        assert forall|k: int| 0 <= k < t.len() implies component_char(#[trigger] t[k]) by {
            assert(t[k] == s[k]);
        }
        lemma_subst_keeps(t);
        assert(component_char(s[s.len() - 1]));
        assert(s =~= t + seq![s.last()]);
    }
}

proof fn lemma_collapse_keeps(s: Seq<char>)
    requires
        forall|k: int| 0 <= k < s.len() && #[trigger] crate::text::is_ws(s[k]) ==> s[k] == ' ',
        forall|k: int| 1 <= k < s.len() && #[trigger] s[k] == ' ' ==> s[k - 1] != ' ',
    ensures
        collapse_ws(s) == s,
    decreases s.len(),
{
    if s.len() > 0 {
        let t = s.drop_last();
        assert forall|k: int| 0 <= k < t.len() && #[trigger] crate::text::is_ws(t[k]) implies t[k] == ' ' by {
            assert(t[k] == s[k]);
        }
        assert forall|k: int| 1 <= k < t.len() && #[trigger] t[k] == ' ' implies t[k - 1] != ' ' by {
            assert(t[k] == s[k] && t[k - 1] == s[k - 1]);
        }
        lemma_collapse_keeps(t);
        let c = s.last();
        if crate::text::is_ws(c) {
            assert(c == ' ');
            if s.len() >= 2 {
                assert(s[s.len() - 1] == ' ');
                assert(s[s.len() - 2] != ' ');
                if crate::text::is_ws(s[s.len() - 2]) {
                    assert(s[s.len() - 2] == ' ');
                }
            }
        }
        assert(s =~= t.push(c));
    }
}

/// `safe_component` leaves a settled component as it is.
pub proof fn lemma_safe_component_settled(s: Seq<char>)
    requires
        settled_component(s),
    ensures
        safe_component_spec(s) == s,
{
    lemma_subst_keeps(s);
    lemma_collapse_keeps(s);
    let set = seq![' ', '.'];
    let p = |c: char| set.contains(c);
    assert(!p(s[0])) by {
        if set.contains(s[0]) {
            let i = choose|i: int| 0 <= i < set.len() && set[i] == s[0];
        }
    }
    assert(!p(s[s.len() - 1])) by {
        if set.contains(s[s.len() - 1]) {
            let i = choose|i: int| 0 <= i < set.len() && set[i] == s[s.len() - 1];
        }
    }
    crate::text::lemma_trim_range(s, p, 0, s.len() as int);
    assert(s.subrange(0, s.len() as int) =~= s);
}

/// No whitespace but single spaces.
pub open spec fn single_spaced(s: Seq<char>) -> bool {
    &&& forall|k: int| 0 <= k < s.len() && #[trigger] crate::text::is_ws(s[k]) ==> s[k] == ' '
    &&& forall|k: int| 1 <= k < s.len() && #[trigger] s[k] == ' ' ==> s[k - 1] != ' '
}

pub proof fn lemma_collapse_single_spaced(s: Seq<char>)
    ensures
        single_spaced(collapse_ws(s)),
        s.len() > 0 ==> collapse_ws(s).len() > 0 && collapse_ws(s).last() == (if crate::text::is_ws(
            s.last(),
        ) {
            ' '
        } else {
            s.last()
        }),
    decreases s.len(),
{
    if s.len() > 0 {
        let t = s.drop_last();
        lemma_collapse_single_spaced(t);
        let pre = collapse_ws(t);
        let out = collapse_ws(s);
        let c = s.last();
        if s.len() >= 2 {
            assert(t.last() == s[s.len() - 2]);
        }
        assert forall|k: int| 0 <= k < out.len() && #[trigger] crate::text::is_ws(out[k]) implies out[k] == ' ' by {
            if k < pre.len() {
                assert(out[k] == pre[k]);
            }
        }
        assert forall|k: int| 1 <= k < out.len() && #[trigger] out[k] == ' ' implies out[k - 1] != ' ' by {
            if k < pre.len() {
                assert(out[k] == pre[k] && out[k - 1] == pre[k - 1]);
            } else {
                assert(out[k - 1] == pre.last());
            }
        }
    }
}

pub proof fn lemma_trim_single_spaced(s: Seq<char>, p: spec_fn(char) -> bool)
    requires
        single_spaced(s),
    ensures
        single_spaced(crate::text::trim_by(s, p)),
{
    lemma_trim_start_single_spaced(s, p);
    lemma_trim_end_single_spaced(crate::text::trim_start_by(s, p), p);
}

proof fn lemma_trim_start_single_spaced(s: Seq<char>, p: spec_fn(char) -> bool)
    requires
        single_spaced(s),
    ensures
        single_spaced(crate::text::trim_start_by(s, p)),
    decreases s.len(),
{
    if s.len() > 0 && p(s[0]) {
        let t = s.drop_first();
        assert forall|k: int| 0 <= k < t.len() && #[trigger] crate::text::is_ws(t[k]) implies t[k] == ' ' by {
            assert(t[k] == s[k + 1]);
        }
        assert forall|k: int| 1 <= k < t.len() && #[trigger] t[k] == ' ' implies t[k - 1] != ' ' by {
            assert(t[k] == s[k + 1] && t[k - 1] == s[k]);
        }
        lemma_trim_start_single_spaced(t, p);
    }
}

proof fn lemma_trim_end_single_spaced(s: Seq<char>, p: spec_fn(char) -> bool)
    requires
        single_spaced(s),
    ensures
        single_spaced(crate::text::trim_end_by(s, p)),
    decreases s.len(),
{
    if s.len() > 0 && p(s.last()) {
        let t = s.drop_last();
        assert forall|k: int| 0 <= k < t.len() && #[trigger] crate::text::is_ws(t[k]) implies t[k] == ' ' by {
            assert(t[k] == s[k]);
        }
        assert forall|k: int| 1 <= k < t.len() && #[trigger] t[k] == ' ' implies t[k - 1] != ' ' by {
            assert(t[k] == s[k] && t[k - 1] == s[k - 1]);
        }
        lemma_trim_end_single_spaced(t, p);
    }
}

/// What `safe_component` gives is settled, so applying it twice changes
/// nothing more.
pub proof fn lemma_safe_component_idempotent(name: Seq<char>)
    ensures
        settled_component(safe_component_spec(name)),
        safe_component_spec(safe_component_spec(name)) == safe_component_spec(name),
{
    lemma_safe_component_is_safe(name);
    let mapped = subst_by(name, |c: char| unsafe_subst(c));
    let collapsed = collapse_ws(mapped);
    lemma_collapse_single_spaced(mapped);
    let set = seq![' ', '.'];
    lemma_trim_single_spaced(collapsed, |c: char| set.contains(c));
    let out = safe_component_spec(name);
    if trim_set(collapsed, set).len() == 0 {
        assert(out =~= seq!['_']);
        assert(!crate::text::is_ws('_'));
    }
    assert(single_spaced(out));
    lemma_safe_component_settled(out);
}

// ---------------------------------------------------------------------------
// smart_title
// ---------------------------------------------------------------------------

/// Words kept lower-case inside a title (`a`, `of`, `the`, ...).
pub open spec fn small_words() -> Seq<Seq<char>> {
    seq![
        "a"@, "an"@, "the"@, "of"@, "and"@, "or"@, "in"@, "on"@, "to"@, "for"@, "vs"@, "at"@,
        "by"@, "with"@, "from"@, "as"@, "but"@, "nor"@
    ]
}

pub fn small_words_vec() -> (r: Vec<Vec<char>>)
    ensures
        views(r@) == small_words(),
{
    let mut r: Vec<Vec<char>> = Vec::new();
    push_word(&mut r, "a");
    push_word(&mut r, "an");
    push_word(&mut r, "the");
    push_word(&mut r, "of");
    push_word(&mut r, "and");
    push_word(&mut r, "or");
    push_word(&mut r, "in");
    push_word(&mut r, "on");
    push_word(&mut r, "to");
    push_word(&mut r, "for");
    push_word(&mut r, "vs");
    push_word(&mut r, "at");
    push_word(&mut r, "by");
    push_word(&mut r, "with");
    push_word(&mut r, "from");
    push_word(&mut r, "as");
    push_word(&mut r, "but");
    push_word(&mut r, "nor");
    assert(views(r@) =~= small_words());
    r
}

pub fn push_word(v: &mut Vec<Vec<char>>, w: &str)
    ensures
        views(final(v)@) == views(old(v)@).push(w@),
{
    let ghost before = views(v@);
    v.push(chars_of(w));
    assert(views(v@) =~= before.push(w@));
}

/// Whether `w` equals one of the character sequences of `list`.
pub fn contains_word(list: &Vec<Vec<char>>, w: &Vec<char>) -> (r: bool)
    ensures
        r == views(list@).contains(w@),
{
    let mut i: usize = 0;
    while i < list.len()
        invariant
            i <= list.len(),
            forall|k: int| 0 <= k < i ==> list@[k]@ != w@,
        decreases list.len() - i,
    {
        if eq_vec(&list[i], w) {
            assert(views(list@)[i as int] == w@);
            return true;
        }
        i = i + 1;
    }
    assert forall|k: int| 0 <= k < views(list@).len() implies views(list@)[k] != w@ by {
        assert(views(list@)[k] == list@[k]@);
    }
    false
}

/// The text is all capitals: some character is upper-case and none is
/// lower-case.
pub open spec fn is_upper_spec(s: Seq<char>) -> bool {
    &&& exists|i: int| 0 <= i < s.len() && uppercase_prop(#[trigger] s[i])
    &&& forall|i: int| 0 <= i < s.len() ==> !lowercase_prop(#[trigger] s[i])
}

fn is_upper(s: &Vec<char>) -> (r: bool)
    ensures
        r == is_upper_spec(s@),
{
    let mut has_cased = false;
    let mut i: usize = 0;
    while i < s.len()
        invariant
            i <= s.len(),
            forall|k: int| 0 <= k < i ==> !lowercase_prop(#[trigger] s@[k]),
            has_cased == exists|k: int| 0 <= k < i && uppercase_prop(#[trigger] s@[k]),
        decreases s.len() - i,
    {
        let c = s[i];
        if is_lowercase_char(c) {
            return false;
        }
        if is_uppercase_char(c) {
            has_cased = true;
        }
        proof {
            if !uppercase_prop(c) && has_cased {
                let k = choose|k: int| 0 <= k < i + 1 && uppercase_prop(#[trigger] s@[k]);
                assert(k < i);
            }
        }
        i = i + 1;
    }
    has_cased
}

pub open spec fn has_upper(w: Seq<char>) -> bool {
    exists|i: int| 0 <= i < w.len() && uppercase_prop(#[trigger] w[i])
}

/// How the `i`-th word of a title is cased.
pub open spec fn title_word(w: Seq<char>, i: int, all_caps: bool) -> Seq<char> {
    if !all_caps && has_upper(w) {
        w
    } else if i != 0 && small_words().contains(lowercase_of(w)) {
        lowercase_of(w)
    } else {
        let first = if w.len() > 0 {
            uppercase_of(w[0])
        } else {
            seq![]
        };
        let rest = if w.len() > 0 {
            w.drop_first()
        } else {
            seq![]
        };
        first + if all_caps {
            lowercase_of(rest)
        } else {
            rest
        }
    }
}

/// Title-cases the whitespace-separated words of `text`, joined by single
/// spaces. A text that is entirely upper-case has every word re-cased;
/// otherwise a word that already holds an upper-case letter is kept as is.
/// Small words other than the first are lower-cased.
pub open spec fn smart_title_spec(text: Seq<char>) -> Seq<char> {
    join(title_words(text), seq![' '])
}

/// The re-cased words of a title, in order.
pub open spec fn title_words(text: Seq<char>) -> Seq<Seq<char>> {
    let all_caps = is_upper_spec(text);
    let words = split_ws(text);
    Seq::new(words.len(), |i: int| title_word(words[i], i, all_caps))
}

/// A word re-cased on ASCII (only letters change case) holds no space when
/// the word holds no whitespace.
proof fn lemma_recased_no_space(w: Seq<char>, t: Seq<char>)
    requires
        ascii_lowered(t) == ascii_lowered(w),
        forall|k: int| 0 <= k < w.len() ==> !is_ws(#[trigger] w[k]),
    ensures
        forall|k: int| 0 <= k < t.len() ==> #[trigger] t[k] != ' ',
{
    assert(ascii_lowered(t).len() == t.len() && ascii_lowered(w).len() == w.len());
    assert forall|k: int| 0 <= k < t.len() implies #[trigger] t[k] != ' ' by {
        assert(ascii_lowered(t)[k] == ascii_lower(t[k]));
        assert(ascii_lowered(w)[k] == ascii_lower(w[k]));
        if t[k] == ' ' {
            lemma_ascii_lower_nonletter(w[k], ' ');
            assert(!is_ws(w[k]));
        }
    }
}

fn has_upper_exec(w: &Vec<char>) -> (r: bool)
    ensures
        r == has_upper(w@),
{
    let mut i: usize = 0;
    while i < w.len()
        invariant
            i <= w.len(),
            forall|k: int| 0 <= k < i ==> !uppercase_prop(#[trigger] w@[k]),
        decreases w.len() - i,
    {
        if is_uppercase_char(w[i]) {
            return true;
        }
        i = i + 1;
    }
    false
}

proof fn lemma_small_words_nonempty()
    ensures
        forall|k: int| 0 <= k < small_words().len() ==> #[trigger] small_words()[k].len() > 0,
{
    reveal_strlit("a");
    reveal_strlit("an");
    reveal_strlit("the");
    reveal_strlit("of");
    reveal_strlit("and");
    reveal_strlit("or");
    reveal_strlit("in");
    reveal_strlit("on");
    reveal_strlit("to");
    reveal_strlit("for");
    reveal_strlit("vs");
    reveal_strlit("at");
    reveal_strlit("by");
    reveal_strlit("with");
    reveal_strlit("from");
    reveal_strlit("as");
    reveal_strlit("but");
    reveal_strlit("nor");
}

proof fn lemma_ascii_lower_twice(w: Seq<char>)
    ensures
        ascii_lowered(ascii_lowered(w)) == ascii_lowered(w),
{
    assert forall|k: int| 0 <= k < w.len() implies #[trigger] ascii_lower(ascii_lower(w[k])) == ascii_lower(w[k]) by {
        let c = w[k];
        if 'A' <= c && c <= 'Z' {
            assert(((c as u32) + 32) as char as u32 == (c as u32) + 32);
        }
    }
    assert(ascii_lowered(ascii_lowered(w)) =~= ascii_lowered(w));
}

/// Unless the whole text is in capitals, a word that already holds a capital
/// letter is kept exactly as it is.
pub proof fn lemma_cased_word_kept(text: Seq<char>, i: int)
    requires
        0 <= i < split_ws(text).len(),
        !is_upper_spec(text),
        has_upper(split_ws(text)[i]),
    ensures
        title_word(split_ws(text)[i], i, is_upper_spec(text)) == split_ws(text)[i],
{
}

/// Re-casing a word keeps it non-empty, and on ASCII changes only the case
/// of its letters.
fn title_word_exec(w: &Vec<char>, i: usize, all_caps: bool, small: &Vec<Vec<char>>) -> (r: Vec<char>)
    requires
        views(small@) == small_words(),
    ensures
        r@ == title_word(w@, i as int, all_caps),
        w@.len() > 0 ==> r@.len() > 0,
        all_ascii(w@) ==> ascii_lowered(r@) == ascii_lowered(w@),
{
    if !all_caps && has_upper_exec(w) {
        return slice_vec(w, 0, w.len());
    }
    let lw = lowercase(w);
    if i != 0 && contains_word(small, &lw) {
        proof {
            lemma_small_words_nonempty();
            let k = choose|k: int| 0 <= k < small_words().len() && small_words()[k] == lw@;
            assert(small_words()[k].len() > 0);
            if all_ascii(w@) {
                lemma_ascii_lower_twice(w@);
            }
        }
        return lw;
    }
    let mut out: Vec<char> = if w.len() > 0 {
        uppercase_char(w[0])
    } else {
        Vec::new()
    };
    let ghost first = out@;
    let rest = if w.len() > 0 {
        slice_vec(w, 1, w.len())
    } else {
        Vec::new()
    };
    assert(w.len() > 0 ==> rest@ =~= w@.drop_first());
    proof {
        if all_ascii(w@) && w.len() > 0 {
            assert forall|k: int| 0 <= k < rest@.len() implies (#[trigger] rest@[k] as u32) < 128 by {
                assert(rest@[k] == w@[k + 1]);
            }
        }
    }
    if all_caps {
        let lr = lowercase(&rest);
        proof {
            if all_ascii(rest@) {
                lemma_ascii_lower_twice(rest@);
            }
        }
        append_vec(&mut out, &lr);
    } else {
        append_vec(&mut out, &rest);
    }
    proof {
        if all_ascii(w@) && w.len() > 0 {
            let c = w@[0];
            assert((c as u32) < 128);
            if 'a' <= c && c <= 'z' {
                assert(((c as u32) - 32) as char as u32 == (c as u32) - 32);
            }
            assert(ascii_lower(ascii_upper(c)) == ascii_lower(c));
            assert(w@ =~= seq![c] + rest@);
            lemma_ascii_lowered_add(seq![c], rest@);
            lemma_ascii_lowered_add(first, out@.subrange(first.len() as int, out@.len() as int));
            assert(out@ =~= first + out@.subrange(first.len() as int, out@.len() as int));
            assert(ascii_lowered(first) =~= ascii_lowered(seq![c]));
        }
        if all_ascii(w@) && w.len() == 0 {
            assert(ascii_lowered(out@) =~= ascii_lowered(w@));
        }
    }
    out
}

/// Title-cases `text`. For ASCII text only the case of letters changes: the
/// result lower-cased is the words of `text`, single-spaced, lower-cased. A
/// text with any character other than whitespace gives a non-empty title.
pub fn smart_title_vec(text: &Vec<char>) -> (r: Vec<char>)
    ensures
        r@ == smart_title_spec(text@),
        all_ascii(text@) ==> ascii_lowered(r@) == ascii_lowered(join(split_ws(text@), seq![' '])),
        (exists|m: int| 0 <= m < text@.len() && !is_ws(#[trigger] text@[m])) ==> r@.len() > 0,
        all_ascii(text@) && split_ws(text@).len() > 0 ==> split_char(r@, ' ') == title_words(text@),
        all_ascii(text@) && !is_upper_spec(text@) ==> forall|i: int|
            0 <= i < split_ws(text@).len() && has_upper(split_ws(text@)[i]) ==> #[trigger] split_char(
                r@,
                ' ',
            )[i] == split_ws(text@)[i],
{
    proof {
        crate::text::lemma_split_ws_no_ws(text@);
        lemma_split_ws_words(text@, |c: char| true);
        if all_ascii(text@) {
            lemma_split_ws_words(text@, |c: char| (c as u32) < 128);
        }
    }
    let all_caps = is_upper(text);
    let words = split_ws_vec(text);
    let small = small_words_vec();
    let mut out: Vec<Vec<char>> = Vec::new();
    let mut i: usize = 0;
    while i < words.len()
        invariant
            i <= words.len(),
            views(small@) == small_words(),
            views(words@) == split_ws(text@),
            all_caps == is_upper_spec(text@),
            views(out@) =~= Seq::new(
                i as nat,
                |k: int| title_word(split_ws(text@)[k], k, all_caps),
            ),
            forall|k: int| 0 <= k < split_ws(text@).len() ==> #[trigger] split_ws(text@)[k].len() > 0,
            all_ascii(text@) ==> forall|k: int|
                0 <= k < split_ws(text@).len() ==> all_ascii(#[trigger] split_ws(text@)[k]),
            forall|k: int| 0 <= k < i ==> (#[trigger] views(out@)[k]).len() > 0,
            all_ascii(text@) ==> forall|k: int|
                0 <= k < i ==> ascii_lowered(#[trigger] views(out@)[k]) == ascii_lowered(split_ws(text@)[k]),
        decreases words.len() - i,
    {
        let w = title_word_exec(&words[i], i, all_caps, &small);
        assert(views(words@)[i as int] == words@[i as int]@);
        let ghost before = views(out@);
        out.push(w);
        assert(views(out@) =~= before.push(w@));
        i = i + 1;
    }
    let mut sep: Vec<char> = Vec::new();
    sep.push(' ');
    assert(sep@ =~= seq![' ']);
    proof {
        let ws = split_ws(text@);
        let ts = views(out@);
        if all_ascii(text@) {
            lemma_join_same_lowered(ts, ws, seq![' ']);
        }
        if ws.len() > 0 {
            assert(ts[0].len() > 0);
            lemma_join_keeps_first(ts, seq![' ']);
        }
        assert(ts =~= title_words(text@));
        if all_ascii(text@) && ws.len() > 0 {
            assert forall|i: int, k: int| 0 <= i < ts.len() && 0 <= k < ts[i].len() implies #[trigger] ts[i][k]
                != ' ' by {
                assert forall|m: int| 0 <= m < ws[i].len() implies !is_ws(#[trigger] ws[i][m]) by {}
                lemma_recased_no_space(ws[i], ts[i]);
            }
            crate::tv::lemma_split_join(ts, ' ');
        }
        if all_ascii(text@) && !is_upper_spec(text@) && ws.len() > 0 {
            assert forall|i: int| 0 <= i < ws.len() && has_upper(ws[i]) implies #[trigger] split_char(
                join(ts, seq![' ']),
                ' ',
            )[i] == ws[i] by {
                lemma_cased_word_kept(text@, i);
            }
        }
    }
    join_vec(&out, &sep)
}

/// A fully shouty release name ("THE.DARK.KNIGHT") has no way to distinguish
/// real acronyms from all-caps noise, so title-case every word in that case.
/// Otherwise, a word that already carries mixed case is left alone (acronyms,
/// already-proper-cased names, etc.).
pub fn smart_title(text: &str) -> (r: String)
    ensures
        r@ == smart_title_spec(text@),
        all_ascii(text@) ==> ascii_lowered(r@) == ascii_lowered(join(split_ws(text@), seq![' '])),
        (exists|m: int| 0 <= m < text@.len() && !is_ws(#[trigger] text@[m])) ==> r@.len() > 0,
        all_ascii(text@) && split_ws(text@).len() > 0 ==> split_char(r@, ' ') == title_words(text@),
        all_ascii(text@) && !is_upper_spec(text@) ==> forall|i: int|
            0 <= i < split_ws(text@).len() && has_upper(split_ws(text@)[i]) ==> #[trigger] split_char(
                r@,
                ' ',
            )[i] == split_ws(text@)[i],
{
    string_of(&smart_title_vec(&chars_of(text)))
}

} // verus!
