//! Planning a batch of file moves: one winner per destination, no
//! overwriting, and moves deferred until their destination is vacated.
//!
//! The planner works on what was read from disk before anything moved (file
//! sizes, whether a destination is occupied); the caller performs the moves
//! and the directory sweep in the order the plan gives.

use vstd::prelude::*;
use crate::order::{lemma_parts_order, parts_lt, parts_lt_exec};
use crate::scan::{leftmost, lemma_leftmost_found, lemma_leftmost_none};
use crate::text::chars_of;

verus! {

/// Counts reported after a batch of moves.
pub struct MoveResult {
    pub done: usize,
    pub skipped: usize,
    pub errors: usize,
}

/// One requested move, with what the filesystem said about it.
pub struct MoveReq {
    /// The source path, made absolute (two requests name the same file
    /// exactly when these are equal).
    pub src: String,
    /// The destination path, made absolute.
    pub dst: String,
    /// Size of the source file in bytes (0 when it cannot be read).
    pub size: u64,
    /// Length in bytes of the source's file name.
    pub name_len: usize,
    /// Components of the source path, for the final tie-break.
    pub src_parts: Vec<String>,
    /// Something already exists at the destination.
    pub dst_exists: bool,
    /// ... and it is the source file itself (a rename that only changes case
    /// on a case-insensitive filesystem).
    pub dst_same_file: bool,
}

/// A move request as plain values.
pub struct ReqSpec {
    pub src: Seq<char>,
    pub dst: Seq<char>,
    pub size: nat,
    pub name_len: nat,
    pub parts: Seq<Seq<char>>,
    pub dst_exists: bool,
    pub same: bool,
}

pub open spec fn req_view(q: MoveReq) -> ReqSpec {
    ReqSpec {
        src: q.src@,
        dst: q.dst@,
        size: q.size as nat,
        name_len: q.name_len as nat,
        parts: q.src_parts@.map_values(|p: String| p@),
        dst_exists: q.dst_exists,
        same: q.dst_same_file,
    }
}

pub open spec fn reqs_view(v: Seq<MoveReq>) -> Seq<ReqSpec> {
    v.map_values(|q: MoveReq| req_view(q))
}

/// The same request with its text as characters.
struct Req {
    src: Vec<char>,
    dst: Vec<char>,
    size: u64,
    name_len: usize,
    parts: Vec<Vec<char>>,
    dst_exists: bool,
    same: bool,
}

spec fn req_c_view(q: Req) -> ReqSpec {
    ReqSpec {
        src: q.src@,
        dst: q.dst@,
        size: q.size as nat,
        name_len: q.name_len as nat,
        parts: q.parts@.map_values(|v: Vec<char>| v@),
        dst_exists: q.dst_exists,
        same: q.same,
    }
}

spec fn reqs_c_view(v: Seq<Req>) -> Seq<ReqSpec> {
    v.map_values(|q: Req| req_c_view(q))
}

fn to_req(q: &MoveReq) -> (r: Req)
    ensures
        req_c_view(r) == req_view(*q),
{
    let mut parts: Vec<Vec<char>> = Vec::new();
    let mut i: usize = 0;
    while i < q.src_parts.len()
        invariant
            i <= q.src_parts.len(),
            parts.len() == i,
            parts@.map_values(|v: Vec<char>| v@) == q.src_parts@.take(i as int).map_values(
                |p: String| p@,
            ),
        decreases q.src_parts.len() - i,
    {
        let ghost before = parts@;
        parts.push(chars_of(q.src_parts[i].as_str()));
        proof {
            assert(q.src_parts@.take(i + 1) =~= q.src_parts@.take(i as int).push(q.src_parts@[i as int]));
            assert forall|k: int| 0 <= k < i implies #[trigger] parts@[k]@ == q.src_parts@[k]@ by {
                assert(parts@[k] == before[k]);
                assert(before.map_values(|v: Vec<char>| v@)[k] == q.src_parts@.take(i as int).map_values(
                    |p: String| p@,
                )[k]);
            }
        }
        assert(parts@.map_values(|v: Vec<char>| v@) =~= q.src_parts@.take(i + 1).map_values(
            |p: String| p@,
        ));
        i = i + 1;
    }
    assert(q.src_parts@.take(q.src_parts.len() as int) =~= q.src_parts@);
    Req {
        src: chars_of(q.src.as_str()),
        dst: chars_of(q.dst.as_str()),
        size: q.size,
        name_len: q.name_len,
        parts,
        dst_exists: q.dst_exists,
        same: q.dst_same_file,
    }
}

fn to_reqs(moves: &Vec<MoveReq>) -> (r: Vec<Req>)
    ensures
        reqs_c_view(r@) == reqs_view(moves@),
{
    let mut out: Vec<Req> = Vec::new();
    let mut i: usize = 0;
    while i < moves.len()
        invariant
            i <= moves.len(),
            out.len() == i,
            reqs_c_view(out@) == reqs_view(moves@.take(i as int)),
        decreases moves.len() - i,
    {
        let ghost before = out@;
        out.push(to_req(&moves[i]));
        assert(moves@.take(i + 1) =~= moves@.take(i as int).push(moves@[i as int]));
        assert forall|k: int| 0 <= k < i implies #[trigger] req_c_view(out@[k]) == req_view(moves@[k]) by {
            assert(out@[k] == before[k]);
            assert(reqs_c_view(before)[k] == reqs_view(moves@.take(i as int))[k]);
        }
        assert(reqs_c_view(out@) =~= reqs_view(moves@.take(i + 1)));
        i = i + 1;
    }
    assert(moves@.take(moves.len() as int) =~= moves@);
    out
}

// ---------------------------------------------------------------------------
// Grouping by destination
// ---------------------------------------------------------------------------

/// A request that actually moves something (source and destination differ).
pub open spec fn kept(q: ReqSpec) -> bool {
    q.src != q.dst
}

/// The group, among `g`, whose destination is `dst`.
pub open spec fn group_with(r: Seq<ReqSpec>, g: Seq<Seq<int>>, dst: Seq<char>) -> Option<int> {
    leftmost(|k: int| r[g[k][0]].dst == dst, 0, g.len() - 1)
}

/// The kept requests among the first `n`, grouped by destination: groups in
/// the order their destination is first seen, members in request order.
pub open spec fn groups_upto(r: Seq<ReqSpec>, n: int) -> Seq<Seq<int>>
    decreases n,
{
    if n <= 0 {
        seq![]
    } else {
        let g = groups_upto(r, n - 1);
        if !kept(r[n - 1]) {
            g
        } else {
            match group_with(r, g, r[n - 1].dst) {
                Some(k) => g.update(k, g[k].push(n - 1)),
                None => g.push(seq![n - 1]),
            }
        }
    }
}

pub open spec fn groups(r: Seq<ReqSpec>) -> Seq<Seq<int>> {
    groups_upto(r, r.len() as int)
}

pub open spec fn idx_view(v: Seq<usize>) -> Seq<int> {
    v.map_values(|x: usize| x as int)
}

pub open spec fn groups_view(g: Seq<Vec<usize>>) -> Seq<Seq<int>> {
    g.map_values(|v: Vec<usize>| idx_view(v@))
}

/// Every group is non-empty, its members are below `n` and ascending.
pub open spec fn groups_wf(r: Seq<ReqSpec>, g: Seq<Seq<int>>, n: int) -> bool {
    forall|k: int|
        0 <= k < g.len() ==> {
            &&& #[trigger] g[k].len() > 0
            &&& forall|m: int| 0 <= m < g[k].len() ==> 0 <= #[trigger] g[k][m] < n
            &&& forall|m: int, m2: int| 0 <= m < m2 < g[k].len() ==> #[trigger] g[k][m] < #[trigger] g[k][m2]
        }
}

/// The members of each group share its destination, and no two groups share
/// one.
pub open spec fn groups_apart(r: Seq<ReqSpec>, g: Seq<Seq<int>>) -> bool {
    &&& forall|k: int, m: int|
        0 <= k < g.len() && 0 <= m < g[k].len() ==> r[#[trigger] g[k][m]].dst == r[g[k][0]].dst
    &&& forall|k1: int, k2: int|
        0 <= k1 < g.len() && 0 <= k2 < g.len() && k1 != k2 ==> r[#[trigger] g[k1][0]].dst != r[#[trigger] g[k2][0]].dst
}

fn group_by_target(reqs: &Vec<Req>) -> (g: Vec<Vec<usize>>)
    ensures
        groups_view(g@) == groups(reqs_c_view(reqs@)),
        groups_wf(reqs_c_view(reqs@), groups_view(g@), reqs.len() as int),
        groups_apart(reqs_c_view(reqs@), groups_view(g@)),
{
    let ghost r = reqs_c_view(reqs@);
    let mut g: Vec<Vec<usize>> = Vec::new();
    let mut i: usize = 0;
    while i < reqs.len()
        invariant
            i <= reqs.len(),
            r == reqs_c_view(reqs@),
            groups_view(g@) == groups_upto(r, i as int),
            groups_wf(r, groups_view(g@), i as int),
            groups_apart(r, groups_view(g@)),
        decreases reqs.len() - i,
    {
        let ghost gv = groups_view(g@);
        assert(r[i as int] == req_c_view(reqs@[i as int]));
        if !crate::order::str_eq_exec(&reqs[i].src, &reqs[i].dst) {
            let ghost p = |k: int| r[gv[k][0]].dst == r[i as int].dst;
            let mut k: usize = 0;
            let mut found = false;
            while k < g.len() && !found
                invariant
                    k <= g.len(),
                    gv == groups_view(g@),
                    r == reqs_c_view(reqs@),
                    groups_wf(r, gv, i as int),
                    i < reqs.len(),
                    p == (|k: int| r[gv[k][0]].dst == r[i as int].dst),
                    forall|m: int| 0 <= m < k ==> !#[trigger] p(m),
                    found ==> k < g.len() && p(k as int),
                decreases g.len() - k + (if found { 0int } else { 1int }),
            {
                assert(gv[k as int].len() > 0);
                assert(gv[k as int][0] == g@[k as int]@[0] as int);
                let j = g[k][0];
                assert(r[j as int] == req_c_view(reqs@[j as int]));
                if crate::order::str_eq_exec(&reqs[j].dst, &reqs[i].dst) {
                    found = true;
                } else {
                    k = k + 1;
                }
            }
            if found {
                proof {
                    lemma_leftmost_found(p, 0, k as int, gv.len() - 1);
                }
                let ghost old_g = g@;
                g[k].push(i);
                proof {
                    assert(idx_view(g@[k as int]@) =~= idx_view(old_g[k as int]@).push(i as int));
                    assert(groups_view(g@) =~= gv.update(k as int, gv[k as int].push(i as int)));
                    let ng = groups_view(g@);
                    assert(p(k as int));
                    assert forall|k1: int, m: int| 0 <= k1 < ng.len() && 0 <= m < ng[k1].len() implies r[#[trigger] ng[k1][m]].dst
                        == r[ng[k1][0]].dst by {
                        if k1 == k && m < gv[k1].len() {
                            assert(ng[k1][m] == gv[k1][m]);
                        }
                    }
                    assert forall|k1: int, k2: int|
                        0 <= k1 < ng.len() && 0 <= k2 < ng.len() && k1 != k2 implies r[#[trigger] ng[k1][0]].dst
                        != r[#[trigger] ng[k2][0]].dst by {
                        assert(ng[k1][0] == gv[k1][0]);
                        assert(ng[k2][0] == gv[k2][0]);
                    }
                }
            } else {
                proof {
                    lemma_leftmost_none(p, 0, gv.len() - 1);
                }
                let mut one: Vec<usize> = Vec::new();
                one.push(i);
                g.push(one);
                proof {
                    assert(idx_view(one@) =~= seq![i as int]);
                    assert(groups_view(g@) =~= gv.push(seq![i as int]));
                    let ng = groups_view(g@);
                    assert forall|k1: int, m: int| 0 <= k1 < ng.len() && 0 <= m < ng[k1].len() implies r[#[trigger] ng[k1][m]].dst
                        == r[ng[k1][0]].dst by {
                        if k1 < gv.len() {
                            assert(ng[k1] == gv[k1]);
                        }
                    }
                    assert forall|k1: int, k2: int|
                        0 <= k1 < ng.len() && 0 <= k2 < ng.len() && k1 != k2 implies r[#[trigger] ng[k1][0]].dst
                        != r[#[trigger] ng[k2][0]].dst by {
                        if k1 < gv.len() && k2 < gv.len() {
                            assert(ng[k1] == gv[k1] && ng[k2] == gv[k2]);
                        } else if k1 < gv.len() {
                            assert(ng[k1] == gv[k1]);
                            assert(!p(k1));
                        } else {
                            assert(ng[k2] == gv[k2]);
                            assert(!p(k2));
                        }
                    }
                }
            }
        }
        i = i + 1;
    }
    g
}

// ---------------------------------------------------------------------------
// Choosing the winner of a destination
// ---------------------------------------------------------------------------

/// Request `i` is a better candidate than request `j`: a larger file, then a
/// longer file name, then the smaller path; equal on all three, the earlier
/// request.
pub open spec fn better(r: Seq<ReqSpec>, i: int, j: int) -> bool {
    ||| r[i].size > r[j].size
    ||| r[i].size == r[j].size && r[i].name_len > r[j].name_len
    ||| r[i].size == r[j].size && r[i].name_len == r[j].name_len && parts_lt(r[i].parts, r[j].parts)
    ||| r[i].size == r[j].size && r[i].name_len == r[j].name_len && r[i].parts == r[j].parts && i < j
}

/// `s` lists its requests best first.
pub open spec fn ranked(r: Seq<ReqSpec>, s: Seq<int>) -> bool {
    forall|a: int, b: int| 0 <= a < b < s.len() ==> #[trigger] better(r, s[a], s[b]) && better(r, s[a], s[b])
}

/// `s` is the members `m` ordered best first.
pub open spec fn ranks(r: Seq<ReqSpec>, m: Seq<int>, s: Seq<int>) -> bool {
    &&& s.len() == m.len()
    &&& forall|x: int| s.contains(x) <==> m.contains(x)
    &&& ranked(r, s)
}

proof fn lemma_better_transitive(r: Seq<ReqSpec>, i: int, j: int, k: int)
    requires
        better(r, i, j),
        better(r, j, k),
    ensures
        better(r, i, k),
{
    lemma_parts_order();
    let l = |a: Seq<Seq<char>>, b: Seq<Seq<char>>| parts_lt(a, b);
    if r[i].size == r[j].size && r[j].size == r[k].size && r[i].name_len == r[j].name_len
        && r[j].name_len == r[k].name_len {
        if l(r[i].parts, r[j].parts) && l(r[j].parts, r[k].parts) {
            assert(l(r[i].parts, r[k].parts));
        }
        if r[i].parts == r[k].parts && r[i].parts != r[j].parts {
            assert(l(r[i].parts, r[j].parts) && l(r[j].parts, r[i].parts));
            assert(l(r[i].parts, r[i].parts));
        }
    }
}

proof fn lemma_better_total(r: Seq<ReqSpec>, i: int, j: int)
    requires
        i != j,
    ensures
        better(r, i, j) || better(r, j, i),
{
    lemma_parts_order();
    let l = |a: Seq<Seq<char>>, b: Seq<Seq<char>>| parts_lt(a, b);
    if r[i].parts != r[j].parts {
        assert(l(r[i].parts, r[j].parts) || l(r[j].parts, r[i].parts));
    }
}

fn better_exec(reqs: &Vec<Req>, i: usize, j: usize) -> (b: bool)
    requires
        i < reqs.len(),
        j < reqs.len(),
    ensures
        b == better(reqs_c_view(reqs@), i as int, j as int),
{
    let ghost r = reqs_c_view(reqs@);
    assert(r[i as int] == req_c_view(reqs@[i as int]));
    assert(r[j as int] == req_c_view(reqs@[j as int]));
    let a = &reqs[i];
    let b = &reqs[j];
    if a.size != b.size {
        return a.size > b.size;
    }
    if a.name_len != b.name_len {
        return a.name_len > b.name_len;
    }
    if parts_lt_exec(&a.parts, &b.parts) {
        return true;
    }
    if parts_lt_exec(&b.parts, &a.parts) {
        return false;
    }
    proof {
        lemma_parts_order();
        let l = |x: Seq<Seq<char>>, y: Seq<Seq<char>>| parts_lt(x, y);
        if r[i as int].parts != r[j as int].parts {
            assert(l(r[i as int].parts, r[j as int].parts) || l(r[j as int].parts, r[i as int].parts));
        }
    }
    i < j
}

/// Inserting `x` where it belongs keeps a ranking.
proof fn lemma_insert_ranked(r: Seq<ReqSpec>, s: Seq<int>, p: int, x: int)
    requires
        ranked(r, s),
        0 <= p <= s.len(),
        forall|q: int| 0 <= q < p ==> better(r, #[trigger] s[q], x),
        p < s.len() ==> better(r, x, s[p]),
    ensures
        ranked(r, s.insert(p, x)),
{
    let t = s.insert(p, x);
    assert forall|a: int, b: int| 0 <= a < b < t.len() implies #[trigger] better(r, t[a], t[b]) by {
        if b < p {
            assert(t[a] == s[a] && t[b] == s[b]);
        } else if b == p {
            assert(t[a] == s[a] && t[b] == x);
        } else if a < p {
            assert(t[a] == s[a] && t[b] == s[b - 1]);
            if p < s.len() {
                assert(better(r, s[a], x));
                assert(better(r, x, s[p]));
                lemma_better_transitive(r, s[a], x, s[p]);
                if b - 1 > p {
                    assert(better(r, s[p], s[b - 1]));
                    lemma_better_transitive(r, s[a], s[p], s[b - 1]);
                }
            }
        } else if a == p {
            assert(t[a] == x && t[b] == s[b - 1]);
            if b - 1 > p {
                assert(better(r, s[p], s[b - 1]));
                lemma_better_transitive(r, x, s[p], s[b - 1]);
            }
        } else {
            assert(t[a] == s[a - 1] && t[b] == s[b - 1]);
            assert(better(r, s[a - 1], s[b - 1]));
        }
    }
}

/// The members of a group ordered best first (a stable insertion sort).
fn rank_group(reqs: &Vec<Req>, m: &Vec<usize>) -> (s: Vec<usize>)
    requires
        forall|k: int| 0 <= k < m.len() ==> #[trigger] m@[k] < reqs.len(),
        idx_view(m@).no_duplicates(),
    ensures
        ranks(reqs_c_view(reqs@), idx_view(m@), idx_view(s@)),
        forall|k: int| 0 <= k < s.len() ==> #[trigger] s@[k] < reqs.len(),
{
    let ghost r = reqs_c_view(reqs@);
    let mut s: Vec<usize> = Vec::new();
    let mut t: usize = 0;
    while t < m.len()
        invariant
            t <= m.len(),
            r == reqs_c_view(reqs@),
            forall|k: int| 0 <= k < m.len() ==> #[trigger] m@[k] < reqs.len(),
            idx_view(m@).no_duplicates(),
            ranks(r, idx_view(m@.take(t as int)), idx_view(s@)),
            forall|k: int| 0 <= k < s.len() ==> #[trigger] s@[k] < reqs.len(),
        decreases m.len() - t,
    {
        let x = m[t];
        let mut p: usize = 0;
        while p < s.len() && !better_exec(reqs, x, s[p])
            invariant
                p <= s.len(),
                x < reqs.len(),
                r == reqs_c_view(reqs@),
                forall|k: int| 0 <= k < s.len() ==> #[trigger] s@[k] < reqs.len(),
                forall|q: int| 0 <= q < p ==> !better(r, x as int, #[trigger] idx_view(s@)[q]),
            decreases s.len() - p,
        {
            p = p + 1;
        }
        proof {
            let sv = idx_view(s@);
            let mt = idx_view(m@.take(t as int));
            assert(!mt.contains(x as int)) by {
                if mt.contains(x as int) {
                    let q = choose|q: int| 0 <= q < mt.len() && mt[q] == x as int;
                    assert(idx_view(m@)[q] == idx_view(m@)[t as int]);
                }
            }
            assert forall|q: int| 0 <= q < p implies better(r, #[trigger] sv[q], x as int) by {
                assert(mt.contains(sv[q]));
                lemma_better_total(r, sv[q], x as int);
            }
            lemma_insert_ranked(r, sv, p as int, x as int);
        }
        let ghost before = s@;
        s.insert(p, x);
        proof {
            assert(idx_view(s@) =~= idx_view(before).insert(p as int, x as int));
            assert(idx_view(m@.take(t + 1)) =~= idx_view(m@.take(t as int)).push(x as int));
            let sv = idx_view(s@);
            let mt1 = idx_view(m@.take(t + 1));
            assert forall|y: int| sv.contains(y) <==> mt1.contains(y) by {
                let mt = idx_view(m@.take(t as int));
                if sv.contains(y) {
                    let q = choose|q: int| 0 <= q < sv.len() && sv[q] == y;
                    if q != p {
                        let q0 = if q < p { q } else { q - 1 };
                        assert(idx_view(before)[q0] == y);
                        assert(idx_view(before).contains(y));
                        assert(mt.contains(y));
                        let q1 = choose|q1: int| 0 <= q1 < mt.len() && mt[q1] == y;
                        assert(mt1[q1] == y);
                    } else {
                        assert(mt1[t as int] == y);
                    }
                }
                if mt1.contains(y) {
                    let q = choose|q: int| 0 <= q < mt1.len() && mt1[q] == y;
                    if q < t {
                        assert(idx_view(m@.take(t as int))[q] == y);
                        assert(idx_view(before).contains(y));
                        let q2 = choose|q2: int| 0 <= q2 < before.len() && idx_view(before)[q2] == y;
                        if q2 < p {
                            assert(sv[q2] == y);
                        } else {
                            assert(sv[q2 + 1] == y);
                        }
                    } else {
                        assert(sv[p as int] == y);
                    }
                }
            }
        }
        t = t + 1;
    }
    assert(m@.take(m.len() as int) =~= m@);
    s
}

// ---------------------------------------------------------------------------
// The plan
// ---------------------------------------------------------------------------

/// Something the plan refuses to do, by request index.
pub enum Problem {
    /// `skip` maps to the same destination as the better candidate `keep`.
    Duplicate { keep: usize, skip: usize },
    /// The destination of request `index` is taken by a file that stays.
    TargetExists { index: usize },
}

/// What to do with a batch of moves.
pub struct MovePlan {
    /// The requests grouped by destination, each group best candidate first.
    pub ranked: Vec<Vec<usize>>,
    /// The moves to make, in order, each with whether its destination is the
    /// source file itself.
    pub queue: Vec<(usize, bool)>,
    /// What was refused, duplicates first.
    pub problems: Vec<Problem>,
    /// How many requests were refused.
    pub skipped: usize,
}

/// The best candidate of each group.
pub open spec fn winners(g: Seq<Seq<int>>) -> Seq<int> {
    g.map_values(|m: Seq<int>| m[0])
}

/// Some winner moves away from `path`.
pub open spec fn moves_away(r: Seq<ReqSpec>, w: Seq<int>, path: Seq<char>) -> bool {
    exists|k: int| 0 <= k < w.len() && #[trigger] r[w[k]].src == path
}

/// Winner `x` may not move: its destination holds another file that is not
/// about to move away.
pub open spec fn blocked(r: Seq<ReqSpec>, w: Seq<int>, x: int) -> bool {
    r[x].dst_exists && !r[x].same && !moves_away(r, w, r[x].dst)
}

/// The losing candidates of every group, each against its group's winner.
pub open spec fn duplicates(g: Seq<Seq<int>>) -> Seq<Problem>
    decreases g.len(),
{
    if g.len() == 0 {
        seq![]
    } else {
        duplicates(g.drop_last()) + g.last().drop_first().map_values(
            |x: int| Problem::Duplicate { keep: g.last()[0] as usize, skip: x as usize },
        )
    }
}

/// The winners that may move, in group order.
pub open spec fn queue_spec(r: Seq<ReqSpec>, g: Seq<Seq<int>>) -> Seq<(usize, bool)> {
    let w = winners(g);
    w.filter(|x: int| !blocked(r, w, x)).map_values(
        |x: int| (x as usize, r[x].dst_exists && r[x].same),
    )
}

/// The winners whose destination is taken.
pub open spec fn occupied(r: Seq<ReqSpec>, g: Seq<Seq<int>>) -> Seq<Problem> {
    let w = winners(g);
    w.filter(|x: int| blocked(r, w, x)).map_values(|x: int| Problem::TargetExists { index: x as usize })
}

fn moves_away_exec(reqs: &Vec<Req>, ranked: &Vec<Vec<usize>>, path: &Vec<char>) -> (b: bool)
    requires
        forall|k: int| 0 <= k < ranked.len() ==> #[trigger] ranked@[k].len() > 0 && ranked@[k]@[0] < reqs.len(),
    ensures
        b == moves_away(reqs_c_view(reqs@), winners(groups_view(ranked@)), path@),
{
    let ghost r = reqs_c_view(reqs@);
    let ghost w = winners(groups_view(ranked@));
    let mut k: usize = 0;
    while k < ranked.len()
        invariant
            k <= ranked.len(),
            r == reqs_c_view(reqs@),
            w == winners(groups_view(ranked@)),
            forall|k: int| 0 <= k < ranked.len() ==> #[trigger] ranked@[k].len() > 0 && ranked@[k]@[0] < reqs.len(),
            forall|k2: int| 0 <= k2 < k ==> #[trigger] r[w[k2]].src != path@,
        decreases ranked.len() - k,
    {
        assert(ranked@[k as int].len() > 0);
        assert(ranked@[k as int]@[0] < reqs.len());
        let x = ranked[k][0];
        assert(w[k as int] == x as int);
        assert(r[x as int] == req_c_view(reqs@[x as int]));
        if crate::order::str_eq_exec(&reqs[x].src, path) {
            assert(r[w[k as int]].src == path@);
            return true;
        }
        k = k + 1;
    }
    false
}

/// Plans a batch of moves. Requests whose source is their destination are
/// dropped; the rest are grouped by destination in the order destinations
/// first appear. In each group the best candidate (`better`) wins and every
/// other member is refused as a duplicate. A winner whose destination is
/// taken by a file that is not itself moving away is refused too; the other
/// winners are queued, each marked when its destination is the source file
/// itself.
pub fn plan_moves(moves: &Vec<MoveReq>) -> (p: MovePlan)
    ensures
        groups_wf(reqs_view(moves@), groups(reqs_view(moves@)), moves.len() as int),
        groups_apart(reqs_view(moves@), groups(reqs_view(moves@))),
        p.ranked.len() == groups(reqs_view(moves@)).len(),
        forall|k: int|
            0 <= k < p.ranked.len() ==> ranks(
                reqs_view(moves@),
                #[trigger] groups(reqs_view(moves@))[k],
                groups_view(p.ranked@)[k],
            ),
        p.queue@ == queue_spec(reqs_view(moves@), groups_view(p.ranked@)),
        p.problems@ == duplicates(groups_view(p.ranked@)) + occupied(
            reqs_view(moves@),
            groups_view(p.ranked@),
        ),
        p.skipped == p.problems.len(),
{
    let reqs = to_reqs(moves);
    let ghost r = reqs_c_view(reqs@);
    let g = group_by_target(&reqs);
    let ghost gs = groups_view(g@);
    let mut ranked: Vec<Vec<usize>> = Vec::new();
    let mut problems: Vec<Problem> = Vec::new();
    let mut k: usize = 0;
    while k < g.len()
        invariant
            k <= g.len(),
            r == reqs_c_view(reqs@),
            gs == groups_view(g@),
            gs == groups(r),
            groups_wf(r, gs, reqs.len() as int),
            ranked.len() == k,
            forall|k2: int| 0 <= k2 < k ==> ranks(r, #[trigger] gs[k2], groups_view(ranked@)[k2]),
            forall|k2: int|
                0 <= k2 < k ==> #[trigger] ranked@[k2].len() > 0 && forall|m: int|
                    0 <= m < ranked@[k2].len() ==> #[trigger] ranked@[k2]@[m] < reqs.len(),
            problems@ == duplicates(groups_view(ranked@)),
        decreases g.len() - k,
    {
        proof {
            assert(gs[k as int] == idx_view(g@[k as int]@));
            assert forall|m: int| 0 <= m < g@[k as int].len() implies #[trigger] g@[k as int]@[m] < reqs.len() by {
                assert(gs[k as int][m] == g@[k as int]@[m] as int);
            }
            assert(idx_view(g@[k as int]@).no_duplicates()) by {
                assert forall|a: int, b: int| 0 <= a < b < gs[k as int].len() implies gs[k as int][a] != gs[k as int][b] by {
                    assert(gs[k as int][a] < gs[k as int][b]);
                }
            }
        }
        let s = rank_group(&reqs, &g[k]);
        let ghost sv = idx_view(s@);
        assert(sv.len() > 0);
        let mut t: usize = 1;
        let ghost base = problems@;
        while t < s.len()
            invariant
                1 <= t <= s.len(),
                sv == idx_view(s@),
                problems@ == base + sv.drop_first().take(t - 1).map_values(
                    |x: int| Problem::Duplicate { keep: sv[0] as usize, skip: x as usize },
                ),
            decreases s.len() - t,
        {
            problems.push(Problem::Duplicate { keep: s[0], skip: s[t] });
            proof {
                assert(sv.drop_first().take(t as int) =~= sv.drop_first().take(t - 1).push(sv[t as int]));
            }
            assert(problems@ =~= base + sv.drop_first().take(t as int).map_values(
                |x: int| Problem::Duplicate { keep: sv[0] as usize, skip: x as usize },
            ));
            t = t + 1;
        }
        let ghost before = groups_view(ranked@);
        ranked.push(s);
        proof {
            assert(groups_view(ranked@) =~= before.push(sv));
            assert(groups_view(ranked@).drop_last() =~= before);
            assert(sv.drop_first().take(sv.len() - 1) =~= sv.drop_first());
        }
        k = k + 1;
    }
    let ghost rk = groups_view(ranked@);
    let ghost w = winners(rk);
    let ghost pblocked = |x: int| blocked(r, w, x);
    let ghost pfree = |x: int| !blocked(r, w, x);
    let ghost dups = problems@;
    let mut queue: Vec<(usize, bool)> = Vec::new();
    let mut k: usize = 0;
    while k < ranked.len()
        invariant
            k <= ranked.len(),
            r == reqs_c_view(reqs@),
            rk == groups_view(ranked@),
            w == winners(rk),
            pblocked == (|x: int| blocked(r, w, x)),
            pfree == (|x: int| !blocked(r, w, x)),
            forall|k2: int|
                0 <= k2 < ranked.len() ==> #[trigger] ranked@[k2].len() > 0 && forall|m: int|
                    0 <= m < ranked@[k2].len() ==> #[trigger] ranked@[k2]@[m] < reqs.len(),
            queue@ == w.take(k as int).filter(pfree).map_values(
                |x: int| (x as usize, r[x].dst_exists && r[x].same),
            ),
            problems@ == dups + w.take(k as int).filter(pblocked).map_values(
                |x: int| Problem::TargetExists { index: x as usize },
            ),
        decreases ranked.len() - k,
    {
        assert(ranked@[k as int].len() > 0);
        assert(ranked@[k as int]@[0] < reqs.len());
        let x = ranked[k][0];
        assert(w[k as int] == x as int);
        assert(r[x as int] == req_c_view(reqs@[x as int]));
        let away = moves_away_exec(&reqs, &ranked, &reqs[x].dst);
        let taken = reqs[x].dst_exists && !reqs[x].same && !away;
        proof {
            assert(w.take(k + 1) =~= w.take(k as int).push(x as int));
            w.take(k as int).lemma_filter_push(x as int, pfree);
            w.take(k as int).lemma_filter_push(x as int, pblocked);
            assert(taken == pblocked(x as int));
        }
        if taken {
            problems.push(Problem::TargetExists { index: x });
        } else {
            queue.push((x, reqs[x].dst_exists && reqs[x].same));
        }
        assert(queue@ =~= w.take(k + 1).filter(pfree).map_values(
            |x: int| (x as usize, r[x].dst_exists && r[x].same),
        ));
        assert(problems@ =~= dups + w.take(k + 1).filter(pblocked).map_values(
            |x: int| Problem::TargetExists { index: x as usize },
        ));
        k = k + 1;
    }
    proof {
        assert(w.take(ranked.len() as int) =~= w);
        assert(pfree =~= (|x: int| !blocked(r, w, x)));
    }
    let skipped = problems.len();
    MovePlan { ranked, queue, problems, skipped }
}

// ---------------------------------------------------------------------------
// Performing the plan
// ---------------------------------------------------------------------------

/// A queued move may go now: it renames a file onto itself, or its
/// destination is free.
pub open spec fn ready_now(t: (usize, bool, bool)) -> bool {
    t.1 || !t.2
}

/// A pending move onto another file's place that is occupied now.
pub open spec fn stuck(t: (usize, bool, bool)) -> bool {
    !t.1 && t.2
}

pub open spec fn drop_occupancy(t: (usize, bool, bool)) -> (usize, bool) {
    (t.0, t.1)
}

/// One round of performing the queue: of the pending moves
/// `(index, in place, destination occupied now)`, those that may go now and
/// those that must wait, both in queue order. A round where none may go ends
/// the run, with the rest reported as blocked.
///
/// No move may go exactly when every pending move is onto another file's
/// place that is still occupied; then all of them wait. So a cycle of moves
/// onto occupied destinations (`a -> b`, `b -> a`, both present) is never
/// performed: it is reported as blocked.
pub fn split_ready(pending: &Vec<(usize, bool, bool)>) -> (r: (Vec<(usize, bool)>, Vec<(usize, bool)>))
    ensures
        r.0@ == pending@.filter(|t: (usize, bool, bool)| ready_now(t)).map_values(
            |t: (usize, bool, bool)| drop_occupancy(t),
        ),
        r.1@ == pending@.filter(|t: (usize, bool, bool)| !ready_now(t)).map_values(
            |t: (usize, bool, bool)| drop_occupancy(t),
        ),
        r.0.len() + r.1.len() == pending.len(),
        r.0.len() == 0 <==> forall|k: int| 0 <= k < pending.len() ==> stuck(#[trigger] pending@[k]),
        r.0.len() == 0 ==> r.1@ == pending@.map_values(|t: (usize, bool, bool)| drop_occupancy(t)),
{
    let ghost go = |t: (usize, bool, bool)| ready_now(t);
    let ghost wait = |t: (usize, bool, bool)| !ready_now(t);
    let mut ready: Vec<(usize, bool)> = Vec::new();
    let mut blocked: Vec<(usize, bool)> = Vec::new();
    let mut i: usize = 0;
    while i < pending.len()
        invariant
            i <= pending.len(),
            go == (|t: (usize, bool, bool)| ready_now(t)),
            wait == (|t: (usize, bool, bool)| !ready_now(t)),
            ready@ == pending@.take(i as int).filter(go).map_values(
                |t: (usize, bool, bool)| drop_occupancy(t),
            ),
            blocked@ == pending@.take(i as int).filter(wait).map_values(
                |t: (usize, bool, bool)| drop_occupancy(t),
            ),
            ready.len() + blocked.len() == i,
            ready.len() == 0 <==> forall|k: int| 0 <= k < i ==> stuck(#[trigger] pending@[k]),
            ready.len() == 0 ==> blocked@ == pending@.take(i as int).map_values(
                |t: (usize, bool, bool)| drop_occupancy(t),
            ),
        decreases pending.len() - i,
    {
        let t = pending[i];
        proof {
            assert(pending@.take(i + 1) =~= pending@.take(i as int).push(t));
            pending@.take(i as int).lemma_filter_push(t, go);
            pending@.take(i as int).lemma_filter_push(t, wait);
        }
        if t.1 || !t.2 {
            ready.push((t.0, t.1));
        } else {
            blocked.push((t.0, t.1));
        }
        assert(ready@ =~= pending@.take(i + 1).filter(go).map_values(
            |t: (usize, bool, bool)| drop_occupancy(t),
        ));
        assert(blocked@ =~= pending@.take(i + 1).filter(wait).map_values(
            |t: (usize, bool, bool)| drop_occupancy(t),
        ));
        assert(ready.len() == 0 ==> blocked@ =~= pending@.take(i + 1).map_values(
            |t: (usize, bool, bool)| drop_occupancy(t),
        ));
        i = i + 1;
    }
    assert(pending@.take(pending.len() as int) =~= pending@);
    (ready, blocked)
}

/// Directory `i` is swept before directory `j`: it is deeper, or as deep and
/// listed earlier.
pub open spec fn swept_before(depth: Seq<usize>, i: int, j: int) -> bool {
    depth[i] > depth[j] || (depth[i] == depth[j] && i < j)
}

/// `s` is every index of `depth` once, deepest first, ties in listed order.
pub open spec fn deepest_first_spec(depth: Seq<usize>, s: Seq<int>) -> bool {
    &&& s.len() == depth.len()
    &&& forall|x: int| s.contains(x) <==> 0 <= x < depth.len()
    &&& forall|a: int, b: int| 0 <= a < b < s.len() ==> #[trigger] swept_before(depth, s[a], s[b])
        && swept_before(depth, s[a], s[b])
}

/// The order in which to sweep directories for emptiness, given the depth
/// (number of path components) of each: deepest first, so that a directory
/// emptied by removing its children is seen after them.
pub fn deepest_first(depth: &Vec<usize>) -> (s: Vec<usize>)
    ensures
        deepest_first_spec(depth@, idx_view(s@)),
{
    let ghost d = depth@;
    let mut s: Vec<usize> = Vec::new();
    let mut t: usize = 0;
    while t < depth.len()
        invariant
            t <= depth.len(),
            d == depth@,
            s.len() == t,
            forall|x: int| idx_view(s@).contains(x) <==> 0 <= x < t,
            forall|a: int, b: int| 0 <= a < b < s.len() ==> #[trigger] swept_before(d, idx_view(s@)[a], idx_view(s@)[b])
                && swept_before(d, idx_view(s@)[a], idx_view(s@)[b]),
            forall|k: int| 0 <= k < s.len() ==> #[trigger] s@[k] < t,
        decreases depth.len() - t,
    {
        let mut p: usize = 0;
        while p < s.len() && !(depth[t] > depth[s[p]])
            invariant
                p <= s.len(),
                t < depth.len(),
                d == depth@,
                forall|k: int| 0 <= k < s.len() ==> #[trigger] s@[k] < t,
                forall|q: int| 0 <= q < p ==> !(d[t as int] > d[#[trigger] idx_view(s@)[q]]),
            decreases s.len() - p,
        {
            p = p + 1;
        }
        let ghost sv = idx_view(s@);
        let ghost x = t as int;
        proof {
            assert forall|q: int| 0 <= q < p implies swept_before(d, #[trigger] sv[q], x) by {
                assert(sv[q] < x);
            }
            if p < s.len() {
                assert(swept_before(d, x, sv[p as int]));
            }
        }
        s.insert(p, t);
        proof {
            let nv = idx_view(s@);
            assert(nv =~= sv.insert(p as int, x));
            assert forall|a: int, b: int| 0 <= a < b < nv.len() implies #[trigger] swept_before(d, nv[a], nv[b]) by {
                if b < p {
                    assert(nv[a] == sv[a] && nv[b] == sv[b]);
                } else if b == p {
                    assert(nv[a] == sv[a]);
                } else if a < p {
                    assert(nv[a] == sv[a] && nv[b] == sv[b - 1]);
                    assert(swept_before(d, sv[a], x));
                    assert(swept_before(d, x, sv[p as int]));
                    if b - 1 > p {
                        assert(swept_before(d, sv[p as int], sv[b - 1]));
                    }
                } else if a == p {
                    assert(nv[b] == sv[b - 1]);
                    if b - 1 > p {
                        assert(swept_before(d, sv[p as int], sv[b - 1]));
                    }
                } else {
                    assert(nv[a] == sv[a - 1] && nv[b] == sv[b - 1]);
                    assert(swept_before(d, sv[a - 1], sv[b - 1]));
                }
            }
            assert forall|y: int| nv.contains(y) <==> 0 <= y < t + 1 by {
                if nv.contains(y) {
                    let q = choose|q: int| 0 <= q < nv.len() && nv[q] == y;
                    if q < p {
                        assert(sv[q] == y && sv.contains(y));
                    } else if q > p {
                        assert(sv[q - 1] == y && sv.contains(y));
                    }
                }
                if 0 <= y < t {
                    assert(sv.contains(y));
                    let q = choose|q: int| 0 <= q < sv.len() && sv[q] == y;
                    if q < p {
                        assert(nv[q] == y);
                    } else {
                        assert(nv[q + 1] == y);
                    }
                } else if y == t {
                    assert(nv[p as int] == y);
                }
            }
        }
        t = t + 1;
    }
    s
}

// ---------------------------------------------------------------------------
// Properties of a plan
// ---------------------------------------------------------------------------

/// The largest file wins: the first of a ranked group is at least as large
/// as every member, and better than every other member.
pub proof fn lemma_winner_is_best(r: Seq<ReqSpec>, m: Seq<int>, s: Seq<int>, x: int)
    requires
        ranks(r, m, s),
        m.contains(x),
    ensures
        s.len() > 0,
        r[s[0]].size >= r[x].size,
        x != s[0] ==> better(r, s[0], x),
{
    assert(s.contains(x));
    let q = choose|q: int| 0 <= q < s.len() && s[q] == x;
    if q > 0 {
        assert(better(r, s[0], s[q]));
    }
}

/// Nothing is overwritten: every queued move's destination is free, is the
/// source itself, or holds a file that is itself moving away; and the
/// in-place flag is exactly "the destination is the source".
pub proof fn lemma_queue_never_overwrites(r: Seq<ReqSpec>, g: Seq<Seq<int>>, k: int)
    requires
        0 <= k < queue_spec(r, g).len(),
        forall|i: int| 0 <= i < g.len() ==> 0 <= #[trigger] g[i][0] <= usize::MAX,
    ensures
        ({
            let x = queue_spec(r, g)[k].0 as int;
            &&& winners(g).contains(x)
            &&& (!r[x].dst_exists || r[x].same || moves_away(r, winners(g), r[x].dst))
            &&& queue_spec(r, g)[k].1 == (r[x].dst_exists && r[x].same)
        }),
{
    let w = winners(g);
    let pfree = |x: int| !blocked(r, w, x);
    let f = w.filter(pfree);
    w.lemma_filter_len(pfree);
    w.lemma_filter_pred(pfree, k);
    let x = f[k];
    assert(f.contains(x));
    w.lemma_filter_contains_rev(pfree, x);
    assert(queue_spec(r, g)[k] == (x as usize, r[x].dst_exists && r[x].same));
    let q = choose|q: int| 0 <= q < w.len() && w[q] == x;
    assert(0 <= g[q][0] <= usize::MAX);
}

/// A cycle of moves among winners (each onto the next one's source, the last
/// onto the first's, every destination present and not the mover itself) is
/// queued whole, none of it as an in-place rename: each waits for a file that
/// moves away. When the moves are performed no destination of the cycle is
/// free, so `split_ready` lets none of them go and all are reported blocked.
pub proof fn lemma_cycle_queued_waiting(r: Seq<ReqSpec>, g: Seq<Seq<int>>, c: Seq<int>)
    requires
        c.len() >= 2,
        forall|p: int| 0 <= p < c.len() ==> winners(g).contains(#[trigger] c[p]),
        forall|p: int| 0 <= p < c.len() - 1 ==> r[#[trigger] c[p]].dst == r[c[p + 1]].src,
        r[c.last()].dst == r[c[0]].src,
        forall|p: int| 0 <= p < c.len() ==> r[#[trigger] c[p]].dst_exists && !r[c[p]].same,
    ensures
        forall|p: int|
            0 <= p < c.len() ==> !blocked(r, winners(g), #[trigger] c[p]) && winners(g).filter(
                |y: int| !blocked(r, winners(g), y),
            ).contains(c[p]) && !(r[c[p]].dst_exists && r[c[p]].same),
{
    let w = winners(g);
    assert forall|p: int| 0 <= p < c.len() implies !blocked(r, w, #[trigger] c[p]) && w.filter(
        |y: int| !blocked(r, w, y),
    ).contains(c[p]) && !(r[c[p]].dst_exists && r[c[p]].same) by {
        let nx = if p < c.len() - 1 {
            c[p + 1]
        } else {
            c[0]
        };
        assert(w.contains(nx));
        let k = choose|k: int| 0 <= k < w.len() && w[k] == nx;
        assert(r[w[k]].src == r[c[p]].dst);
        assert(moves_away(r, w, r[c[p]].dst));
        lemma_winner_queued_or_refused(r, g, c[p]);
    }
}

/// Every loser of a group is refused as a duplicate of the group's winner.
proof fn lemma_duplicates_contain(g: Seq<Seq<int>>, k: int, m: int)
    requires
        0 <= k < g.len(),
        0 < m < g[k].len(),
    ensures
        duplicates(g).contains(Problem::Duplicate { keep: g[k][0] as usize, skip: g[k][m] as usize }),
    decreases g.len(),
{
    let d = Problem::Duplicate { keep: g[k][0] as usize, skip: g[k][m] as usize };
    let pre = duplicates(g.drop_last());
    let tail = g.last().drop_first().map_values(
        |x: int| Problem::Duplicate { keep: g.last()[0] as usize, skip: x as usize },
    );
    assert(duplicates(g) == pre + tail);
    if k == g.len() - 1 {
        assert(tail[m - 1] == d);
        assert((pre + tail)[pre.len() + m - 1] == d);
    } else {
        lemma_duplicates_contain(g.drop_last(), k, m);
        assert(g.drop_last()[k] == g[k]);
        let q = choose|q: int| 0 <= q < pre.len() && pre[q] == d;
        assert((pre + tail)[q] == d);
    }
}

/// Of several requests for one destination only the best is ever queued:
/// every other member of its group is refused as a duplicate of the winner,
/// and is no group's winner, so it is never moved.
pub proof fn lemma_losers_never_queued(r: Seq<ReqSpec>, g: Seq<Seq<int>>, rk: Seq<Seq<int>>, k: int, m: int)
    requires
        r.len() <= usize::MAX,
        groups_wf(r, g, r.len() as int),
        groups_apart(r, g),
        rk.len() == g.len(),
        forall|i: int| 0 <= i < g.len() ==> ranks(r, #[trigger] g[i], rk[i]),
        0 <= k < rk.len(),
        0 < m < rk[k].len(),
    ensures
        !winners(rk).contains(rk[k][m]),
        forall|j: int| 0 <= j < queue_spec(r, rk).len() ==> #[trigger] queue_spec(r, rk)[j].0 != rk[k][m],
        duplicates(rk).contains(Problem::Duplicate { keep: rk[k][0] as usize, skip: rk[k][m] as usize }),
{
    let x = rk[k][m];
    assert(ranks(r, g[k], rk[k]));
    assert(rk[k].contains(x));
    let mx = choose|q: int| 0 <= q < g[k].len() && g[k][q] == x;
    assert(r[g[k][mx]].dst == r[g[k][0]].dst);
    if winners(rk).contains(x) {
        let k2 = choose|q: int| 0 <= q < winners(rk).len() && winners(rk)[q] == x;
        assert(winners(rk)[k2] == rk[k2][0]);
        assert(ranks(r, g[k2], rk[k2]));
        assert(rk[k2].len() == g[k2].len());
        assert(g[k2].len() > 0);
        assert(rk[k2].contains(x));
        let m2 = choose|q: int| 0 <= q < g[k2].len() && g[k2][q] == x;
        assert(r[g[k2][m2]].dst == r[g[k2][0]].dst);
        assert(k2 == k);
        assert(better(r, rk[k][0], rk[k][m]));
        lemma_parts_order();
        let l = |a: Seq<Seq<char>>, b: Seq<Seq<char>>| parts_lt(a, b);
        assert(!l(r[x].parts, r[x].parts));
    }
    assert forall|j: int| 0 <= j < queue_spec(r, rk).len() implies #[trigger] queue_spec(r, rk)[j].0 != x by {
        assert forall|i: int| 0 <= i < rk.len() implies 0 <= #[trigger] rk[i][0] <= usize::MAX by {
            assert(ranks(r, g[i], rk[i]));
            assert(g[i].len() > 0);
            assert(rk[i].contains(rk[i][0]));
            let q = choose|q: int| 0 <= q < g[i].len() && g[i][q] == rk[i][0];
            assert(0 <= g[i][q] < r.len());
        }
        lemma_queue_never_overwrites(r, rk, j);
        assert(0 <= x < r.len());
    }
    lemma_duplicates_contain(rk, k, m);
}

/// A winner is refused for an occupied destination exactly when it is not
/// queued.
pub proof fn lemma_winner_queued_or_refused(r: Seq<ReqSpec>, g: Seq<Seq<int>>, x: int)
    requires
        winners(g).contains(x),
    ensures
        blocked(r, winners(g), x) ==> winners(g).filter(|y: int| blocked(r, winners(g), y)).contains(x),
        !blocked(r, winners(g), x) ==> winners(g).filter(|y: int| !blocked(r, winners(g), y)).contains(x),
{
    let w = winners(g);
    let q = choose|q: int| 0 <= q < w.len() && w[q] == x;
    if blocked(r, w, x) {
        w.lemma_filter_contains(|y: int| blocked(r, w, y), q);
    } else {
        w.lemma_filter_contains(|y: int| !blocked(r, w, y), q);
    }
}

/// How many of the first `n` requests move something.
pub open spec fn kept_count(r: Seq<ReqSpec>, n: int) -> int
    decreases n,
{
    if n <= 0 {
        0
    } else {
        kept_count(r, n - 1) + if kept(r[n - 1]) {
            1int
        } else {
            0int
        }
    }
}

/// The number of members over all groups.
pub open spec fn total_len(g: Seq<Seq<int>>) -> int
    decreases g.len(),
{
    if g.len() == 0 {
        0
    } else {
        total_len(g.drop_last()) + g.last().len()
    }
}

proof fn lemma_total_len_update(g: Seq<Seq<int>>, k: int, x: Seq<int>)
    requires
        0 <= k < g.len(),
    ensures
        total_len(g.update(k, x)) == total_len(g) - g[k].len() + x.len(),
    decreases g.len(),
{
    let u = g.update(k, x);
    if k == g.len() - 1 {
        assert(u.drop_last() =~= g.drop_last());
    } else {
        assert(u.drop_last() =~= g.drop_last().update(k, x));
        lemma_total_len_update(g.drop_last(), k, x);
    }
}

proof fn lemma_groups_count(r: Seq<ReqSpec>, n: int)
    requires
        0 <= n <= r.len(),
    ensures
        total_len(groups_upto(r, n)) == kept_count(r, n),
    decreases n,
{
    if n > 0 {
        lemma_groups_count(r, n - 1);
        let g = groups_upto(r, n - 1);
        if kept(r[n - 1]) {
            let p = |k: int| r[g[k][0]].dst == r[n - 1].dst;
            crate::scan::lemma_leftmost_props(p, 0, g.len() - 1);
            match group_with(r, g, r[n - 1].dst) {
                Some(k) => {
                    lemma_total_len_update(g, k, g[k].push(n - 1));
                },
                None => {
                    assert(g.push(seq![n - 1]).drop_last() =~= g);
                },
            }
        }
    }
}

proof fn lemma_ranked_total(g: Seq<Seq<int>>, rk: Seq<Seq<int>>)
    requires
        rk.len() == g.len(),
        forall|k: int| 0 <= k < g.len() ==> #[trigger] rk[k].len() == g[k].len(),
    ensures
        total_len(rk) == total_len(g),
    decreases g.len(),
{
    if g.len() > 0 {
        assert(rk.last().len() == g.last().len());
        lemma_ranked_total(g.drop_last(), rk.drop_last());
    }
}

proof fn lemma_duplicates_len(g: Seq<Seq<int>>)
    requires
        forall|k: int| 0 <= k < g.len() ==> #[trigger] g[k].len() > 0,
    ensures
        duplicates(g).len() == total_len(g) - g.len(),
    decreases g.len(),
{
    if g.len() > 0 {
        assert(g.last().len() > 0);
        lemma_duplicates_len(g.drop_last());
    }
}

proof fn lemma_filter_split(w: Seq<int>, p: spec_fn(int) -> bool, q: spec_fn(int) -> bool)
    requires
        forall|x: int| #[trigger] q(x) == !p(x),
    ensures
        w.filter(p).len() + w.filter(q).len() == w.len(),
    decreases w.len(),
{
    if w.len() > 0 {
        let v = w.drop_last();
        lemma_filter_split(v, p, q);
        assert(w =~= v.push(w.last()));
        v.lemma_filter_push(w.last(), p);
        v.lemma_filter_push(w.last(), q);
        assert(q(w.last()) == !p(w.last()));
    }
}

/// Nothing is dropped silently: of the requests that move something, every
/// one is either queued or refused (as a duplicate or for an occupied
/// destination), and exactly once.
pub proof fn lemma_every_request_accounted(r: Seq<ReqSpec>, rk: Seq<Seq<int>>)
    requires
        groups_wf(r, groups(r), r.len() as int),
        rk.len() == groups(r).len(),
        forall|k: int| 0 <= k < rk.len() ==> ranks(r, #[trigger] groups(r)[k], rk[k]),
    ensures
        queue_spec(r, rk).len() + (duplicates(rk) + occupied(r, rk)).len() == kept_count(r, r.len() as int),
{
    let g = groups(r);
    lemma_groups_count(r, r.len() as int);
    assert forall|k: int| 0 <= k < g.len() implies #[trigger] rk[k].len() == g[k].len() by {
        assert(ranks(r, g[k], rk[k]));
    }
    lemma_ranked_total(g, rk);
    assert forall|k: int| 0 <= k < rk.len() implies #[trigger] rk[k].len() > 0 by {
        assert(ranks(r, g[k], rk[k]));
        assert(g[k].len() > 0);
    }
    lemma_duplicates_len(rk);
    let w = winners(rk);
    let pb = |x: int| blocked(r, w, x);
    let pf = |x: int| !blocked(r, w, x);
    lemma_filter_split(w, pf, pb);
}

} // verus!
