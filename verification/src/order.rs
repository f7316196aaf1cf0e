//! Lexicographic order of sequences: the order of `str`, of `String` and of
//! a path's components, and its properties as a strict total order.

use vstd::prelude::*;

verus! {

/// `lt` is a strict total order on `T`.
pub open spec fn strict_total<T>(lt: spec_fn(T, T) -> bool) -> bool {
    &&& forall|x: T| !#[trigger] lt(x, x)
    &&& forall|x: T, y: T, z: T| #[trigger] lt(x, y) && #[trigger] lt(y, z) ==> lt(x, z)
    &&& forall|x: T, y: T| x != y ==> #[trigger] lt(x, y) || #[trigger] lt(y, x)
}

/// `a` comes before `b`: at the first position where they differ `a` has the
/// smaller element, or `a` is a proper prefix of `b`.
pub open spec fn lex_lt<T>(a: Seq<T>, b: Seq<T>, lt: spec_fn(T, T) -> bool) -> bool
    decreases a.len(),
{
    if a.len() == 0 {
        b.len() > 0
    } else if b.len() == 0 {
        false
    } else if a[0] == b[0] {
        lex_lt(a.drop_first(), b.drop_first(), lt)
    } else {
        lt(a[0], b[0])
    }
}

pub proof fn lemma_lex_irreflexive<T>(a: Seq<T>, lt: spec_fn(T, T) -> bool)
    requires
        strict_total(lt),
    ensures
        !lex_lt(a, a, lt),
    decreases a.len(),
{
    if a.len() > 0 {
        lemma_lex_irreflexive(a.drop_first(), lt);
    }
}

pub proof fn lemma_lex_transitive<T>(a: Seq<T>, b: Seq<T>, c: Seq<T>, lt: spec_fn(T, T) -> bool)
    requires
        strict_total(lt),
        lex_lt(a, b, lt),
        lex_lt(b, c, lt),
    ensures
        lex_lt(a, c, lt),
    decreases a.len(),
{
    if a.len() > 0 && b.len() > 0 && c.len() > 0 {
        if a[0] == b[0] && b[0] == c[0] {
            lemma_lex_transitive(a.drop_first(), b.drop_first(), c.drop_first(), lt);
        } else if a[0] == b[0] {
            assert(lt(b[0], c[0]));
        } else if b[0] == c[0] {
            assert(lt(a[0], b[0]));
        } else {
            assert(lt(a[0], b[0]) && lt(b[0], c[0]));
            if a[0] == c[0] {
                assert(lt(a[0], a[0]));
            }
        }
    }
}

pub proof fn lemma_lex_total<T>(a: Seq<T>, b: Seq<T>, lt: spec_fn(T, T) -> bool)
    requires
        strict_total(lt),
        a != b,
    ensures
        lex_lt(a, b, lt) || lex_lt(b, a, lt),
    decreases a.len(),
{
    if a.len() > 0 && b.len() > 0 {
        if a[0] == b[0] {
            if a.drop_first() == b.drop_first() {
                assert(a =~= seq![a[0]] + a.drop_first());
                assert(b =~= seq![b[0]] + b.drop_first());
            }
            lemma_lex_total(a.drop_first(), b.drop_first(), lt);
        } else {
            assert(lt(a[0], b[0]) || lt(b[0], a[0]));
        }
    } else if a.len() == 0 && b.len() == 0 {
        assert(a =~= b);
    }
}

/// The lexicographic order built on a strict total order is one too.
pub proof fn lemma_lex_strict_total<T>(lt: spec_fn(T, T) -> bool)
    requires
        strict_total(lt),
    ensures
        strict_total(|a: Seq<T>, b: Seq<T>| lex_lt(a, b, lt)),
{
    let l = |a: Seq<T>, b: Seq<T>| lex_lt(a, b, lt);
    assert forall|x: Seq<T>| !#[trigger] l(x, x) by {
        lemma_lex_irreflexive(x, lt);
    }
    assert forall|x: Seq<T>, y: Seq<T>, z: Seq<T>| #[trigger] l(x, y) && #[trigger] l(y, z) implies l(
        x,
        z,
    ) by {
        lemma_lex_transitive(x, y, z, lt);
    }
    assert forall|x: Seq<T>, y: Seq<T>| x != y implies #[trigger] l(x, y) || #[trigger] l(y, x) by {
        lemma_lex_total(x, y, lt);
    }
}

/// Order of characters by code point.
pub open spec fn char_lt(x: char, y: char) -> bool {
    (x as int) < (y as int)
}

pub open spec fn char_order() -> spec_fn(char, char) -> bool {
    |x: char, y: char| char_lt(x, y)
}

/// The order of two strings (the order of their UTF-8 bytes, which is that
/// of their code points).
pub open spec fn str_lt(a: Seq<char>, b: Seq<char>) -> bool {
    lex_lt(a, b, char_order())
}

pub open spec fn str_order() -> spec_fn(Seq<char>, Seq<char>) -> bool {
    |a: Seq<char>, b: Seq<char>| str_lt(a, b)
}

/// The order of two paths given by their components.
pub open spec fn parts_lt(a: Seq<Seq<char>>, b: Seq<Seq<char>>) -> bool {
    lex_lt(a, b, str_order())
}

pub proof fn lemma_char_order()
    ensures
        strict_total(char_order()),
{
    let l = char_order();
    assert forall|x: char, y: char| x != y implies #[trigger] l(x, y) || #[trigger] l(y, x) by {
        assert((x as int) != (y as int));
    }
}

pub proof fn lemma_str_order()
    ensures
        strict_total(str_order()),
{
    lemma_char_order();
    lemma_lex_strict_total(char_order());
    let l = |a: Seq<char>, b: Seq<char>| lex_lt(a, b, char_order());
    assert(str_order() =~= l);
}

pub proof fn lemma_parts_order()
    ensures
        strict_total(|a: Seq<Seq<char>>, b: Seq<Seq<char>>| parts_lt(a, b)),
{
    lemma_str_order();
    lemma_lex_strict_total(str_order());
    let l = |a: Seq<Seq<char>>, b: Seq<Seq<char>>| lex_lt(a, b, str_order());
    assert((|a: Seq<Seq<char>>, b: Seq<Seq<char>>| parts_lt(a, b)) =~= l);
}

pub proof fn lemma_str_lt_irreflexive(a: Seq<char>)
    ensures
        !str_lt(a, a),
{
    lemma_char_order();
    lemma_lex_irreflexive(a, char_order());
}

pub proof fn lemma_str_lt_transitive(a: Seq<char>, b: Seq<char>, c: Seq<char>)
    requires
        str_lt(a, b),
        str_lt(b, c),
    ensures
        str_lt(a, c),
{
    lemma_char_order();
    lemma_lex_transitive(a, b, c, char_order());
}

pub proof fn lemma_str_lt_total(a: Seq<char>, b: Seq<char>)
    requires
        a != b,
    ensures
        str_lt(a, b) || str_lt(b, a),
{
    lemma_char_order();
    lemma_lex_total(a, b, char_order());
}

/// `a < b` for strings.
pub fn str_lt_exec(a: &Vec<char>, b: &Vec<char>) -> (r: bool)
    ensures
        r == str_lt(a@, b@),
{
    let mut i: usize = 0;
    assert(a@.skip(0) =~= a@);
    assert(b@.skip(0) =~= b@);
    while i < a.len() && i < b.len() && a[i] == b[i]
        invariant
            i <= a.len(),
            i <= b.len(),
            str_lt(a@, b@) == str_lt(a@.skip(i as int), b@.skip(i as int)),
        decreases a.len() - i,
    {
        proof {
            let sa = a@.skip(i as int);
            let sb = b@.skip(i as int);
            assert(sa.drop_first() =~= a@.skip(i + 1));
            assert(sb.drop_first() =~= b@.skip(i + 1));
        }
        i = i + 1;
    }
    if i < a.len() && i < b.len() {
        a[i] < b[i]
    } else {
        i == a.len() && i < b.len()
    }
}

/// `a == b` for strings.
pub fn str_eq_exec(a: &Vec<char>, b: &Vec<char>) -> (r: bool)
    ensures
        r == (a@ == b@),
{
    if a.len() != b.len() {
        return false;
    }
    let mut i: usize = 0;
    while i < a.len()
        invariant
            i <= a.len() == b.len(),
            forall|k: int| 0 <= k < i ==> a@[k] == b@[k],
        decreases a.len() - i,
    {
        if a[i] != b[i] {
            return false;
        }
        i = i + 1;
    }
    assert(a@ =~= b@);
    true
}

/// `a < b` for paths given by their components.
pub fn parts_lt_exec(a: &Vec<Vec<char>>, b: &Vec<Vec<char>>) -> (r: bool)
    ensures
        r == parts_lt(a@.map_values(|v: Vec<char>| v@), b@.map_values(|v: Vec<char>| v@)),
{
    let ghost av = a@.map_values(|v: Vec<char>| v@);
    let ghost bv = b@.map_values(|v: Vec<char>| v@);
    let mut i: usize = 0;
    assert(av.skip(0) =~= av);
    assert(bv.skip(0) =~= bv);
    while i < a.len() && i < b.len() && str_eq_exec(&a[i], &b[i])
        invariant
            i <= a.len(),
            i <= b.len(),
            av == a@.map_values(|v: Vec<char>| v@),
            bv == b@.map_values(|v: Vec<char>| v@),
            parts_lt(av, bv) == parts_lt(av.skip(i as int), bv.skip(i as int)),
        decreases a.len() - i,
    {
        proof {
            let sa = av.skip(i as int);
            let sb = bv.skip(i as int);
            assert(sa.drop_first() =~= av.skip(i + 1));
            assert(sb.drop_first() =~= bv.skip(i + 1));
            assert(sa[0] == a@[i as int]@);
            assert(sb[0] == b@[i as int]@);
        }
        i = i + 1;
    }
    if i < a.len() && i < b.len() {
        proof {
            assert(av.skip(i as int)[0] == a@[i as int]@);
            assert(bv.skip(i as int)[0] == b@[i as int]@);
        }
        str_lt_exec(&a[i], &b[i])
    } else {
        i == a.len() && i < b.len()
    }
}

} // verus!
