//! Ratcliff/Obershelp similarity (`difflib.SequenceMatcher(None, a, b)`
//! without its junk heuristics): the longest common block, recursively on
//! both sides of it, and the share of matched characters.

use vstd::prelude::*;
use crate::text::chars_of;

verus! {

/// `a[i..i+k]` equals `b[j..j+k]`, inside `a[alo..ahi]` and `b[blo..bhi]`.
pub open spec fn is_block(
    a: Seq<char>,
    b: Seq<char>,
    alo: int,
    ahi: int,
    blo: int,
    bhi: int,
    i: int,
    j: int,
    k: int,
) -> bool {
    &&& 0 <= alo <= i
    &&& 0 <= k
    &&& i + k <= ahi
    &&& 0 <= blo <= j
    &&& j + k <= bhi
    &&& ahi <= a.len()
    &&& bhi <= b.len()
    &&& a.subrange(i, i + k) == b.subrange(j, j + k)
}

/// `(i, j, k)` is the longest block, and of the longest blocks the one that
/// starts earliest in `a`, then earliest in `b` (`(alo, blo, 0)` when there is
/// no common character).
pub open spec fn is_longest(
    a: Seq<char>,
    b: Seq<char>,
    alo: int,
    ahi: int,
    blo: int,
    bhi: int,
    i: int,
    j: int,
    k: int,
) -> bool {
    &&& is_block(a, b, alo, ahi, blo, bhi, i, j, k)
    &&& forall|i2: int, j2: int, k2: int| #[trigger]
        is_block(a, b, alo, ahi, blo, bhi, i2, j2, k2) ==> k2 <= k
    &&& forall|i2: int, j2: int| #[trigger]
        is_block(a, b, alo, ahi, blo, bhi, i2, j2, k) ==> i < i2 || (i == i2 && j <= j2)
}

pub open spec fn longest(a: Seq<char>, b: Seq<char>, alo: int, ahi: int, blo: int, bhi: int) -> (
    int,
    int,
    int,
) {
    choose|t: (int, int, int)| is_longest(a, b, alo, ahi, blo, bhi, t.0, t.1, t.2)
}

/// Length of the common suffix of `a[alo..=i]` and `b[blo..=j]`.
pub open spec fn suf(a: Seq<char>, b: Seq<char>, alo: int, blo: int, i: int, j: int) -> int
    decreases i + 1 - alo,
{
    if i < alo || j < blo || i >= a.len() || j >= b.len() || a[i] != b[j] {
        0
    } else {
        1 + suf(a, b, alo, blo, i - 1, j - 1)
    }
}

proof fn lemma_suf_bounds(a: Seq<char>, b: Seq<char>, alo: int, blo: int, i: int, j: int)
    ensures
        0 <= suf(a, b, alo, blo, i, j),
        suf(a, b, alo, blo, i, j) <= i + 1 - alo || suf(a, b, alo, blo, i, j) == 0,
        suf(a, b, alo, blo, i, j) <= j + 1 - blo || suf(a, b, alo, blo, i, j) == 0,
    decreases i + 1 - alo,
{
    if !(i < alo || j < blo || i >= a.len() || j >= b.len() || a[i] != b[j]) {
        lemma_suf_bounds(a, b, alo, blo, i - 1, j - 1);
    }
}

/// A common suffix of length `s` ending at `(i, j)` is a block.
proof fn lemma_suf_block(
    a: Seq<char>,
    b: Seq<char>,
    alo: int,
    ahi: int,
    blo: int,
    bhi: int,
    i: int,
    j: int,
)
    requires
        i < ahi <= a.len(),
        j < bhi <= b.len(),
        0 <= alo,
        0 <= blo,
        suf(a, b, alo, blo, i, j) > 0,
    ensures
        is_block(
            a,
            b,
            alo,
            ahi,
            blo,
            bhi,
            i - suf(a, b, alo, blo, i, j) + 1,
            j - suf(a, b, alo, blo, i, j) + 1,
            suf(a, b, alo, blo, i, j),
        ),
    decreases i + 1 - alo,
{
    let s = suf(a, b, alo, blo, i, j);
    lemma_suf_bounds(a, b, alo, blo, i, j);
    if suf(a, b, alo, blo, i - 1, j - 1) > 0 {
        lemma_suf_block(a, b, alo, ahi, blo, bhi, i - 1, j - 1);
    } else {
        lemma_suf_bounds(a, b, alo, blo, i - 1, j - 1);
    }
    let x = i - s + 1;
    let y = j - s + 1;
    assert forall|t: int| 0 <= t < s implies #[trigger] a.subrange(x, x + s)[t] == b.subrange(
        y,
        y + s,
    )[t] by {
        assert(a.subrange(x, x + s)[t] == a[x + t]);
        assert(b.subrange(y, y + s)[t] == b[y + t]);
        if t < s - 1 {
            assert(a.subrange(x, x + s - 1)[t] == a[x + t]);
            assert(b.subrange(y, y + s - 1)[t] == b[y + t]);
        }
    }
    assert(a.subrange(x, x + s) =~= b.subrange(y, y + s));
}

/// A block of length `k` ending at `(i, j)` gives a common suffix at least `k`.
proof fn lemma_block_suf(
    a: Seq<char>,
    b: Seq<char>,
    alo: int,
    ahi: int,
    blo: int,
    bhi: int,
    i0: int,
    j0: int,
    k: int,
)
    requires
        is_block(a, b, alo, ahi, blo, bhi, i0, j0, k),
        k > 0,
    ensures
        suf(a, b, alo, blo, i0 + k - 1, j0 + k - 1) >= k,
    decreases k,
{
    assert(a.subrange(i0, i0 + k)[k - 1] == b.subrange(j0, j0 + k)[k - 1]);
    assert(a[i0 + k - 1] == b[j0 + k - 1]);
    if k > 1 {
        assert(a.subrange(i0, i0 + k - 1) =~= a.subrange(i0, i0 + k).subrange(0, k - 1));
        assert(b.subrange(j0, j0 + k - 1) =~= b.subrange(j0, j0 + k).subrange(0, k - 1));
        assert(is_block(a, b, alo, ahi, blo, bhi, i0, j0, k - 1));
        lemma_block_suf(a, b, alo, ahi, blo, bhi, i0, j0, k - 1);
    }
    lemma_suf_bounds(a, b, alo, blo, i0 + k - 2, j0 + k - 2);
}

/// `(ie, je)` comes before `(i2, j2)` in row-major order.
pub open spec fn before(ie: int, je: int, i2: int, j2: int) -> bool {
    ie < i2 || (ie == i2 && je < j2)
}

/// The best block found among the cells `(i', j')` before `(i, j)`.
pub open spec fn best_so_far(
    a: Seq<char>,
    b: Seq<char>,
    alo: int,
    blo: int,
    bhi: int,
    i: int,
    j: int,
    bi: int,
    bj: int,
    bk: int,
) -> bool {
    &&& bk >= 0
    &&& (bk == 0 ==> bi == alo && bj == blo)
    &&& (bk > 0 ==> suf(a, b, alo, blo, bi + bk - 1, bj + bk - 1) == bk && before(
        bi + bk - 1,
        bj + bk - 1,
        i,
        j,
    ) && alo <= bi + bk - 1 && blo <= bj + bk - 1 && bj + bk - 1 < bhi)
    &&& forall|i2: int, j2: int|
        alo <= i2 && blo <= j2 < bhi && before(i2, j2, i, j) ==> #[trigger] suf(
            a,
            b,
            alo,
            blo,
            i2,
            j2,
        ) <= bk && (suf(a, b, alo, blo, i2, j2) == bk && bk > 0 ==> !before(
            i2,
            j2,
            bi + bk - 1,
            bj + bk - 1,
        ))
}

/// The longest common block of `a[alo..ahi]` and `b[blo..bhi]`.
pub fn find_longest_match(
    a: &Vec<char>,
    b: &Vec<char>,
    alo: usize,
    ahi: usize,
    blo: usize,
    bhi: usize,
) -> (r: (usize, usize, usize))
    requires
        alo <= ahi <= a.len(),
        blo <= bhi <= b.len(),
    ensures
        is_longest(a@, b@, alo as int, ahi as int, blo as int, bhi as int, r.0 as int, r.1 as int, r.2 as int),
{
    let w = bhi - blo;
    let mut prev: Vec<usize> = Vec::new();
    let mut z: usize = 0;
    while z < w
        invariant
            z <= w,
            prev.len() == z,
            forall|jj: int| 0 <= jj < z ==> prev@[jj] == 0,
        decreases w - z,
    {
        prev.push(0);
        z = z + 1;
    }
    let mut bi = alo;
    let mut bj = blo;
    let mut bk: usize = 0;
    let mut i = alo;
    while i < ahi
        invariant
            alo <= i <= ahi <= a.len(),
            blo <= bhi <= b.len(),
            w == bhi - blo,
            prev.len() == w,
            forall|jj: int| 0 <= jj < w ==> #[trigger] prev@[jj] == suf(a@, b@, alo as int, blo as int, i - 1, blo + jj),
            best_so_far(a@, b@, alo as int, blo as int, bhi as int, i as int, blo as int, bi as int, bj as int, bk as int),
        decreases ahi - i,
    {
        let mut cur: Vec<usize> = Vec::new();
        let mut jj: usize = 0;
        while jj < w
            invariant
                alo <= i < ahi <= a.len(),
                blo <= bhi <= b.len(),
                w == bhi - blo,
                prev.len() == w,
                jj <= w,
                cur.len() == jj,
                forall|m: int| 0 <= m < w ==> #[trigger] prev@[m] == suf(a@, b@, alo as int, blo as int, i - 1, blo + m),
                forall|m: int| 0 <= m < jj ==> #[trigger] cur@[m] == suf(a@, b@, alo as int, blo as int, i as int, blo + m),
                best_so_far(a@, b@, alo as int, blo as int, bhi as int, i as int, blo + jj, bi as int, bj as int, bk as int),
            decreases w - jj,
        {
            let j = blo + jj;
            let v: usize = if a[i] == b[j] {
                let p: usize = if jj > 0 {
                    prev[jj - 1]
                } else {
                    0
                };
                proof {
                    lemma_suf_bounds(a@, b@, alo as int, blo as int, i - 1, j - 1);
                    if jj == 0 {
                        assert(suf(a@, b@, alo as int, blo as int, i - 1, j - 1) == 0);
                    }
                }
                p + 1
            } else {
                0
            };
            assert(v == suf(a@, b@, alo as int, blo as int, i as int, j as int));
            if v > bk {
                proof {
                    lemma_suf_bounds(a@, b@, alo as int, blo as int, i as int, j as int);
                }
                bi = i + 1 - v;
                bj = j + 1 - v;
                bk = v;
            }
            cur.push(v);
            proof {
                assert forall|i2: int, j2: int|
                    alo <= i2 && blo <= j2 < bhi && before(i2, j2, i as int, j + 1) implies #[trigger] suf(
                        a@,
                        b@,
                        alo as int,
                        blo as int,
                        i2,
                        j2,
                    ) <= bk && (suf(a@, b@, alo as int, blo as int, i2, j2) == bk && bk > 0 ==> !before(
                        i2,
                        j2,
                        bi + bk - 1,
                        bj + bk - 1,
                    )) by {
                    if i2 == i && j2 == j {
                    } else {
                        assert(before(i2, j2, i as int, j as int));
                    }
                }
            }
            jj = jj + 1;
        }
        proof {
            assert forall|i2: int, j2: int|
                alo <= i2 && blo <= j2 < bhi && before(i2, j2, i + 1, blo as int) implies #[trigger] suf(
                    a@,
                    b@,
                    alo as int,
                    blo as int,
                    i2,
                    j2,
                ) <= bk && (suf(a@, b@, alo as int, blo as int, i2, j2) == bk && bk > 0 ==> !before(
                    i2,
                    j2,
                    bi + bk - 1,
                    bj + bk - 1,
                )) by {
                assert(before(i2, j2, i as int, blo + w));
            }
        }
        prev = cur;
        i = i + 1;
    }
    proof {
        let ai = alo as int;
        let bl = blo as int;
        if bk > 0 {
            lemma_suf_block(a@, b@, ai, ahi as int, bl, bhi as int, bi + bk - 1, bj + bk - 1);
        } else {
            assert(a@.subrange(ai, ai) =~= b@.subrange(bl, bl));
            assert(is_block(a@, b@, ai, ahi as int, bl, bhi as int, bi as int, bj as int, 0));
        }
        assert forall|i2: int, j2: int, k2: int| #[trigger]
            is_block(a@, b@, ai, ahi as int, bl, bhi as int, i2, j2, k2) implies k2 <= bk by {
            if k2 > 0 {
                lemma_block_suf(a@, b@, ai, ahi as int, bl, bhi as int, i2, j2, k2);
                assert(before(i2 + k2 - 1, j2 + k2 - 1, ahi as int, bl));
            }
        }
        assert forall|i2: int, j2: int| #[trigger]
            is_block(a@, b@, ai, ahi as int, bl, bhi as int, i2, j2, bk as int) implies bi < i2 || (bi == i2
            && bj <= j2) by {
            if bk > 0 {
                lemma_block_suf(a@, b@, ai, ahi as int, bl, bhi as int, i2, j2, bk as int);
                assert(before(i2 + bk - 1, j2 + bk - 1, ahi as int, bl));
                lemma_suf_bounds(a@, b@, ai, bl, i2 + bk - 1, j2 + bk - 1);
            }
        }
    }
    (bi, bj, bk)
}

proof fn lemma_longest_unique(
    a: Seq<char>,
    b: Seq<char>,
    alo: int,
    ahi: int,
    blo: int,
    bhi: int,
    i: int,
    j: int,
    k: int,
)
    requires
        is_longest(a, b, alo, ahi, blo, bhi, i, j, k),
    ensures
        longest(a, b, alo, ahi, blo, bhi) == (i, j, k),
{
    let w = (i, j, k);
    assert(is_longest(a, b, alo, ahi, blo, bhi, w.0, w.1, w.2));
    let t = longest(a, b, alo, ahi, blo, bhi);
    assert(is_longest(a, b, alo, ahi, blo, bhi, t.0, t.1, t.2));
    assert(is_block(a, b, alo, ahi, blo, bhi, t.0, t.1, t.2));
    assert(is_block(a, b, alo, ahi, blo, bhi, i, j, k));
    assert(t.2 == k);
    assert(is_block(a, b, alo, ahi, blo, bhi, i, j, t.2));
    assert(is_block(a, b, alo, ahi, blo, bhi, t.0, t.1, k));
}

/// The matching blocks of `a[alo..ahi]` and `b[blo..bhi]`: the longest block,
/// then those right of it, then those left of it.
pub open spec fn blocks(a: Seq<char>, b: Seq<char>, alo: int, ahi: int, blo: int, bhi: int) -> Seq<
    (int, int, int),
>
    decreases ahi - alo,
{
    let (i, j, k) = longest(a, b, alo, ahi, blo, bhi);
    if k <= 0 || !(alo <= i && i + k <= ahi && blo <= j && j + k <= bhi) {
        seq![]
    } else {
        seq![(i, j, k)] + blocks(a, b, i + k, ahi, j + k, bhi) + blocks(a, b, alo, i, blo, j)
    }
}

/// Total length of the matching blocks.
pub open spec fn matched(a: Seq<char>, b: Seq<char>, alo: int, ahi: int, blo: int, bhi: int) -> int
    decreases ahi - alo,
{
    let (i, j, k) = longest(a, b, alo, ahi, blo, bhi);
    if k <= 0 || !(alo <= i && i + k <= ahi && blo <= j && j + k <= bhi) {
        0
    } else {
        k + matched(a, b, i + k, ahi, j + k, bhi) + matched(a, b, alo, i, blo, j)
    }
}

pub open spec fn block_views(v: Seq<(usize, usize, usize)>) -> Seq<(int, int, int)> {
    v.map_values(|t: (usize, usize, usize)| (t.0 as int, t.1 as int, t.2 as int))
}

pub proof fn lemma_matched_bounds(a: Seq<char>, b: Seq<char>, alo: int, ahi: int, blo: int, bhi: int)
    requires
        alo <= ahi,
        blo <= bhi,
    ensures
        0 <= matched(a, b, alo, ahi, blo, bhi) <= ahi - alo,
        matched(a, b, alo, ahi, blo, bhi) <= bhi - blo,
    decreases ahi - alo,
{
    let (i, j, k) = longest(a, b, alo, ahi, blo, bhi);
    if !(k <= 0 || !(alo <= i && i + k <= ahi && blo <= j && j + k <= bhi)) {
        lemma_matched_bounds(a, b, i + k, ahi, j + k, bhi);
        lemma_matched_bounds(a, b, alo, i, blo, j);
    }
}

/// Two blocks that neither overlap nor cross: one lies wholly before the
/// other in both strings.
pub open spec fn separated(x: (int, int, int), y: (int, int, int)) -> bool {
    ||| (x.0 + x.2 <= y.0 && x.1 + x.2 <= y.1)
    ||| (y.0 + y.2 <= x.0 && y.2 + y.1 <= x.1)
}

/// No character of `a[alo..ahi]` occurs in `b[blo..bhi]`.
pub open spec fn no_common_char(a: Seq<char>, b: Seq<char>, alo: int, ahi: int, blo: int, bhi: int) -> bool {
    forall|x: int, y: int| alo <= x < ahi && blo <= y < bhi ==> #[trigger] a[x] != #[trigger] b[y]
}

/// Each of `bs` is a non-empty common block of `a[alo..ahi]` and
/// `b[blo..bhi]`, and any two of them are separated.
pub open spec fn well_placed(
    a: Seq<char>,
    b: Seq<char>,
    alo: int,
    ahi: int,
    blo: int,
    bhi: int,
    bs: Seq<(int, int, int)>,
) -> bool {
    &&& forall|p: int|
        0 <= p < bs.len() ==> #[trigger] bs[p].2 > 0 && is_block(a, b, alo, ahi, blo, bhi, bs[p].0, bs[p].1, bs[p].2)
    &&& forall|p: int, q: int|
        0 <= p < bs.len() && 0 <= q < bs.len() && p != q ==> separated(#[trigger] bs[p], #[trigger] bs[q])
}

/// A block found in a sub-range is a block of any range around it.
proof fn lemma_block_widen(
    a: Seq<char>,
    b: Seq<char>,
    alo: int,
    ahi: int,
    blo: int,
    bhi: int,
    alo2: int,
    ahi2: int,
    blo2: int,
    bhi2: int,
    t: (int, int, int),
)
    requires
        is_block(a, b, alo2, ahi2, blo2, bhi2, t.0, t.1, t.2),
        0 <= alo <= alo2,
        ahi2 <= ahi <= a.len(),
        0 <= blo <= blo2,
        bhi2 <= bhi <= b.len(),
    ensures
        is_block(a, b, alo, ahi, blo, bhi, t.0, t.1, t.2),
{
}

/// The longest block, then well-placed blocks right of it, then well-placed
/// blocks left of it, are well placed together.
proof fn lemma_blocks_combine(
    a: Seq<char>,
    b: Seq<char>,
    alo: int,
    ahi: int,
    blo: int,
    bhi: int,
    i: int,
    j: int,
    k: int,
    rv: Seq<(int, int, int)>,
    lv: Seq<(int, int, int)>,
)
    requires
        is_block(a, b, alo, ahi, blo, bhi, i, j, k),
        k > 0,
        well_placed(a, b, i + k, ahi, j + k, bhi, rv),
        well_placed(a, b, alo, i, blo, j, lv),
    ensures
        well_placed(a, b, alo, ahi, blo, bhi, seq![(i, j, k)] + rv + lv),
{
    let bs = seq![(i, j, k)] + rv + lv;
    let nr = rv.len() as int;
    assert forall|p: int| 0 <= p < bs.len() implies #[trigger] bs[p].2 > 0 && is_block(
        a,
        b,
        alo,
        ahi,
        blo,
        bhi,
        bs[p].0,
        bs[p].1,
        bs[p].2,
    ) by {
        if 1 <= p < 1 + nr {
            assert(bs[p] == rv[p - 1]);
            lemma_block_widen(a, b, alo, ahi, blo, bhi, i + k, ahi, j + k, bhi, rv[p - 1]);
        } else if p >= 1 + nr {
            assert(bs[p] == lv[p - 1 - nr]);
            lemma_block_widen(a, b, alo, ahi, blo, bhi, alo, i, blo, j, lv[p - 1 - nr]);
        }
    }
    assert forall|p: int, q: int|
        0 <= p < bs.len() && 0 <= q < bs.len() && p != q implies separated(#[trigger] bs[p], #[trigger] bs[q]) by {
        if p == 0 && 1 <= q < 1 + nr {
            assert(bs[q] == rv[q - 1]);
        } else if p == 0 {
            assert(bs[q] == lv[q - 1 - nr]);
        } else if q == 0 && p < 1 + nr {
            assert(bs[p] == rv[p - 1]);
        } else if q == 0 {
            assert(bs[p] == lv[p - 1 - nr]);
        } else if p < 1 + nr && q < 1 + nr {
            assert(bs[p] == rv[p - 1]);
            assert(bs[q] == rv[q - 1]);
        } else if p >= 1 + nr && q >= 1 + nr {
            assert(bs[p] == lv[p - 1 - nr]);
            assert(bs[q] == lv[q - 1 - nr]);
        } else if p < 1 + nr {
            assert(bs[p] == rv[p - 1]);
            assert(bs[q] == lv[q - 1 - nr]);
        } else {
            assert(bs[p] == lv[p - 1 - nr]);
            assert(bs[q] == rv[q - 1]);
        }
    }
}

/// The matching blocks, in the order the work queue yields them. Each is a
/// non-empty common block of the two ranges, no two of them overlap or
/// cross, and there are none exactly when the ranges share no character.
pub fn matching_blocks_range(
    a: &Vec<char>,
    b: &Vec<char>,
    alo: usize,
    ahi: usize,
    blo: usize,
    bhi: usize,
) -> (r: (Vec<(usize, usize, usize)>, usize))
    requires
        alo <= ahi <= a.len(),
        blo <= bhi <= b.len(),
    ensures
        block_views(r.0@) == blocks(a@, b@, alo as int, ahi as int, blo as int, bhi as int),
        r.1 == matched(a@, b@, alo as int, ahi as int, blo as int, bhi as int),
        well_placed(a@, b@, alo as int, ahi as int, blo as int, bhi as int, block_views(r.0@)),
        r.0@.len() == 0 <==> no_common_char(a@, b@, alo as int, ahi as int, blo as int, bhi as int),
    decreases ahi - alo,
{
    let (i, j, k) = find_longest_match(a, b, alo, ahi, blo, bhi);
    proof {
        lemma_longest_unique(a@, b@, alo as int, ahi as int, blo as int, bhi as int, i as int, j as int, k as int);
    }
    if k == 0 {
        let v: Vec<(usize, usize, usize)> = Vec::new();
        assert(block_views(v@) =~= Seq::<(int, int, int)>::empty());
        assert forall|x: int, y: int| alo <= x < ahi && blo <= y < bhi implies #[trigger] a@[x] != #[trigger] b@[y] by {
            if a@[x] == b@[y] {
                assert(a@.subrange(x, x + 1) =~= b@.subrange(y, y + 1));
                assert(is_block(a@, b@, alo as int, ahi as int, blo as int, bhi as int, x, y, 1));
            }
        }
        return (v, 0);
    }
    assert(a@.subrange(i as int, i + k)[0] == b@.subrange(j as int, j + k)[0]);
    assert(a@[i as int] == b@[j as int]);
    let (right, mr) = matching_blocks_range(a, b, i + k, ahi, j + k, bhi);
    let (left, ml) = matching_blocks_range(a, b, alo, i, blo, j);
    proof {
        lemma_matched_bounds(a@, b@, (i + k) as int, ahi as int, (j + k) as int, bhi as int);
        lemma_matched_bounds(a@, b@, alo as int, i as int, blo as int, j as int);
    }
    let mut out: Vec<(usize, usize, usize)> = Vec::new();
    out.push((i, j, k));
    let ghost first = block_views(out@);
    let mut r = right;
    let mut l = left;
    let ghost rv = block_views(r@);
    let ghost lv = block_views(l@);
    out.append(&mut r);
    out.append(&mut l);
    assert(block_views(out@) =~= first + rv + lv);
    proof {
        lemma_blocks_combine(
            a@,
            b@,
            alo as int,
            ahi as int,
            blo as int,
            bhi as int,
            i as int,
            j as int,
            k as int,
            rv,
            lv,
        );
    }
    (out, k + mr + ml)
}

/// Similarity of two character sequences: the matched length and both
/// lengths. Its value is `2 * matches / (len_a + len_b)`, or 1 when both
/// are empty.
pub struct Similarity {
    pub matches: usize,
    pub len_a: usize,
    pub len_b: usize,
}

pub fn ratio_vec(a: &Vec<char>, b: &Vec<char>) -> (r: Similarity)
    ensures
        r.matches == matched(a@, b@, 0, a@.len() as int, 0, b@.len() as int),
        r.len_a == a.len(),
        r.len_b == b.len(),
{
    let (_, m) = matching_blocks_range(a, b, 0, a.len(), 0, b.len());
    Similarity { matches: m, len_a: a.len(), len_b: b.len() }
}

/// Ratcliff/Obershelp similarity of two strings.
pub fn ratio(a: &str, b: &str) -> (r: Similarity)
    ensures
        r.matches == matched(a@, b@, 0, a@.len() as int, 0, b@.len() as int),
        r.len_a == a@.len(),
        r.len_b == b@.len(),
{
    ratio_vec(&chars_of(a), &chars_of(b))
}

} // verus!

verus! {

/// A sequence matched against itself is matched in full: its longest block is
/// the whole of it.
pub proof fn lemma_matched_self(a: Seq<char>)
    ensures
        matched(a, a, 0, a.len() as int, 0, a.len() as int) == a.len(),
{
    let n = a.len() as int;
    assert(is_longest(a, a, 0, n, 0, n, 0, 0, n));
    lemma_longest_unique(a, a, 0, n, 0, n, 0, 0, n);
    lemma_matched_bounds(a, a, n, n, n, n);
    lemma_matched_bounds(a, a, 0, 0, 0, 0);
}

/// The matched length never exceeds either string.
pub proof fn lemma_ratio_bounds(a: Seq<char>, b: Seq<char>)
    ensures
        0 <= matched(a, b, 0, a.len() as int, 0, b.len() as int) <= a.len(),
        matched(a, b, 0, a.len() as int, 0, b.len() as int) <= b.len(),
{
    lemma_matched_bounds(a, b, 0, a.len() as int, 0, b.len() as int);
}

} // verus!
