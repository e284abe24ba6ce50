//! Hotspot scanning: candidate targets on a grid, scored by how many short
//! streets not yet completed could be completed near each.
use std::collections::HashMap;
use vstd::prelude::*;

use crate::distance::Lengths;
use crate::graph::{
    lemma_short_complete_names_len, lengths_cover, short_complete_names, streets_completed_names,
    Street,
};

verus! {

broadcast use {vstd::std_specs::hash::group_hash_axioms, vstd::seq_lib::group_to_multiset_ensures};

/// Grid spacing of hotspot candidates: 0.01 degree, in units of 1e-7 degree.
pub const GRID_STEP: i64 = 100_000;

/// Radius, in millimetres, within which a point counts as near a hotspot
/// candidate.
pub const NEARBY_MM: u64 = 750_000;

/// The points whose distance in `dists` is under `NEARBY_MM`: those near a
/// candidate, given each point's distance to it.
pub fn points_near(dists: &HashMap<i64, u64>) -> (r: Vec<i64>)
    ensures
        forall|y: i64| r@.contains(y) <==> dists@.contains_key(y) && dists@[y] < NEARBY_MM,
        r@.no_duplicates(),
{
    let mut r: Vec<i64> = Vec::new();
    for k in it: dists.keys()
        invariant
            it.seq().unref().to_set() == dists@.dom(),
            it.seq().unref().no_duplicates(),
            forall|y: i64| r@.contains(y) <==> exists|i: int|
                0 <= i < it.index() && it.seq().unref()[i] == y && dists@[y] < NEARBY_MM,
            forall|i: int| 0 <= i < r@.len() ==> dists@.contains_key(#[trigger] r@[i]),
            r@.no_duplicates(),
    {
        let ghost sq = it.seq().unref();
        let ghost n = it.index();
        assert(sq[n] == *k);
        assert(sq.contains(*k));
        let d = *dists.get(k).unwrap();
        let ghost before = r@;
        if d < NEARBY_MM {
            assert(!before.contains(*k)) by {
                if before.contains(*k) {
                    let i = choose|i: int| 0 <= i < n && sq[i] == *k && dists@[*k] < NEARBY_MM;
                }
            }
            r.push(*k);
        }
        assert forall|y: i64| r@.contains(y) <==> exists|i: int|
            0 <= i < n + 1 && sq[i] == y && dists@[y] < NEARBY_MM by {
            if r@.contains(y) && y != *k {
                let q = choose|q: int| 0 <= q < r@.len() && r@[q] == y;
                assert(before[q] == y);
            }
            if exists|i: int| 0 <= i < n + 1 && sq[i] == y && dists@[y] < NEARBY_MM {
                let i = choose|i: int| 0 <= i < n + 1 && sq[i] == y && dists@[y] < NEARBY_MM;
                if i < n {
                    assert(before.contains(y));
                    let q = choose|q: int| 0 <= q < before.len() && before[q] == y;
                    assert(r@[q] == y);
                } else {
                    assert(r@[before.len() as int] == y);
                }
            }
        }
    }
    proof {
        assert forall|y: i64| dists@.contains_key(y) && dists@[y] < NEARBY_MM implies r@.contains(y) by {
            assert(dists@.dom().contains(y));
        }
    }
    r
}

/// The number of names of `names` that `done` does not hold.
pub open spec fn count_new(names: Seq<Seq<char>>, done: Seq<Seq<char>>) -> nat
    decreases names.len(),
{
    if names.len() == 0 {
        0
    } else {
        count_new(names.drop_last(), done) + if done.contains(names.last()) {
            0nat
        } else {
            1nat
        }
    }
}

/// No more names are new than there are names.
pub proof fn lemma_count_new_le(names: Seq<Seq<char>>, done: Seq<Seq<char>>)
    ensures
        count_new(names, done) <= names.len(),
    decreases names.len(),
{
    if names.len() > 0 {
        lemma_count_new_le(names.drop_last(), done);
    }
}

/// Whether `done` holds the name `n`.
fn contains_name(done: &Vec<String>, n: &String) -> (r: bool)
    ensures
        r == done.deep_view().contains(n@),
{
    let mut i: usize = 0;
    while i < done.len()
        invariant
            i <= done@.len(),
            forall|j: int| 0 <= j < i ==> done.deep_view()[j] != n@,
        decreases done.len() - i,
    {
        if done[i] == *n {
            assert(done.deep_view()[i as int] == n@);
            return true;
        }
        i = i + 1;
    }
    false
}

/// The score of a candidate: how many short streets that the points near it
/// (`nearby`) complete are not among `streets_done`. Never more than the
/// number of streets.
pub fn hot_spot_count(
    nearby: &[i64],
    streets: &[Street],
    lengths: &Lengths,
    streets_done: &Vec<String>,
) -> (r: usize)
    requires
        lengths_cover(lengths@, streets@),
    ensures
        r == count_new(short_complete_names(streets@, nearby@, lengths@), streets_done.deep_view()),
        r <= streets@.len(),
{
    let names = streets_completed_names(nearby, streets, lengths);
    let ghost ns = names.deep_view();
    proof {
        lemma_short_complete_names_len(streets@, nearby@, lengths@);
    }
    let mut count: usize = 0;
    let mut i: usize = 0;
    while i < names.len()
        invariant
            i <= names@.len(),
            ns == names.deep_view(),
            ns.len() <= streets@.len(),
            count == count_new(ns.subrange(0, i as int), streets_done.deep_view()),
            count <= i,
        decreases names.len() - i,
    {
        let ghost pre = ns.subrange(0, i + 1);
        assert(pre.drop_last() == ns.subrange(0, i as int));
        assert(pre.last() == names@[i as int]@);
        if !contains_name(streets_done, &names[i]) {
            count = count + 1;
        }
        i = i + 1;
    }
    assert(ns.subrange(0, ns.len() as int) == ns);
    count
}

/// Offsets of `n` grid steps either way from `c` stay within `i64`.
pub open spec fn grid_fits(c: i64, n: u32) -> bool {
    i64::MIN <= c - n * GRID_STEP && c + n * GRID_STEP <= i64::MAX
}

/// `p` is the candidate in row `i` and column `j` of the grid of half-width
/// `n` around `center`.
pub open spec fn grid_point(p: (i64, i64), center: (i64, i64), n: int, i: int, j: int) -> bool {
    p.0 == center.0 + (i - n) * GRID_STEP && p.1 == center.1 + (j - n) * GRID_STEP
}

/// A row-major index into a grid of width `w`, within the first `a` rows.
proof fn lemma_grid_index(i: int, j: int, a: int, w: int)
    requires
        0 <= i < a,
        0 <= j < w,
    ensures
        0 <= i * w + j < a * w,
        i * w + j < (i + 1) * w,
        (i + 1) * w <= a * w,
{
    assert(0 <= i * w + j < a * w) by (nonlinear_arith)
        requires
            0 <= i < a,
            0 <= j < w,
    ;
    assert(i * w + j < (i + 1) * w) by (nonlinear_arith)
        requires
            0 <= j < w,
    ;
    assert((i + 1) * w <= a * w) by (nonlinear_arith)
        requires
            i + 1 <= a,
            0 <= w,
    ;
}

/// The square grid of `(2n + 1)²` candidates around `center`, spaced
/// `GRID_STEP` apart, row by row: latitude offset by row, longitude by column.
pub fn hot_spot_grid(center: (i64, i64), n: u32) -> (r: Vec<(i64, i64)>)
    requires
        grid_fits(center.0, n),
        grid_fits(center.1, n),
    ensures
        r@.len() == (2 * n + 1) * (2 * n + 1),
        forall|k: int|
            0 <= k < r@.len() ==> grid_point(
                #[trigger] r@[k],
                center,
                n as int,
                k / (2 * n + 1),
                k % (2 * n + 1),
            ),
{
    let ghost w: int = 2 * n + 1;
    let mut r: Vec<(i64, i64)> = Vec::new();
    let mut a: u64 = 0;
    let width: u64 = 2 * (n as u64) + 1;
    while a < width
        invariant
            w == 2 * n + 1,
            width == w,
            a <= w,
            grid_fits(center.0, n),
            grid_fits(center.1, n),
            r@.len() == a * w,
            forall|i: int, j: int|
                0 <= i < a && 0 <= j < w ==> grid_point(#[trigger] r@[i * w + j], center, n as int, i, j),
        decreases width - a,
    {
        let dlat: i64 = (a as i64 - n as i64) * GRID_STEP;
        let lat: i64 = center.0 + dlat;
        let mut b: u64 = 0;
        while b < width
            invariant
                w == 2 * n + 1,
                width == w,
                a < w,
                b <= w,
                grid_fits(center.0, n),
                grid_fits(center.1, n),
                lat == center.0 + (a - n) * GRID_STEP,
                r@.len() == a * w + b,
                forall|i: int, j: int|
                    0 <= i < a && 0 <= j < w ==> grid_point(#[trigger] r@[i * w + j], center, n as int, i, j),
                forall|j: int|
                    0 <= j < b ==> grid_point(#[trigger] r@[a * w + j], center, n as int, a as int, j),
            decreases width - b,
        {
            let dlon: i64 = (b as i64 - n as i64) * GRID_STEP;
            let ghost before = r@;
            r.push((lat, center.1 + dlon));
            assert forall|i: int, j: int| 0 <= i < a && 0 <= j < w implies grid_point(#[trigger] r@[i * w + j], center, n as int, i, j) by {
                lemma_grid_index(i, j, a as int, w);
                assert(r@[i * w + j] == before[i * w + j]);
            }
            b = b + 1;
        }
        assert forall|i: int, j: int| 0 <= i < a + 1 && 0 <= j < w implies grid_point(#[trigger] r@[i * w + j], center, n as int, i, j) by {
            if i == a {
                assert(r@[a * w + j] == r@[i * w + j]);
            }
        }
        assert((a + 1) * w == a * w + w) by (nonlinear_arith);
        a = a + 1;
    }
    assert forall|k: int| 0 <= k < r@.len() implies grid_point(#[trigger] r@[k], center, n as int, k / w, k % w) by {
        lemma_grid_coords(k, w);
        assert(r@[(k / w) * w + k % w] == r@[k]);
    }
    r
}

/// Row and column of a row-major index in a square grid of width `w`.
proof fn lemma_grid_coords(k: int, w: int)
    requires
        w > 0,
        0 <= k < w * w,
    ensures
        0 <= k / w < w,
        0 <= k % w < w,
        (k / w) * w + k % w == k,
{
    vstd::arithmetic::div_mod::lemma_fundamental_div_mod(k, w);
    let i = k / w;
    let j = k % w;
    assert(0 <= j < w);
    assert(0 <= i < w) by (nonlinear_arith)
        requires
            k == w * i + j,
            0 <= j < w,
            0 <= k < w * w,
            w > 0,
    ;
    assert(i * w == w * i) by (nonlinear_arith);
}

/// Candidates ordered by score, highest first.
pub open spec fn sorted_desc(v: Seq<(usize, (i64, i64))>) -> bool {
    forall|i: int, j: int| 0 <= i < j < v.len() ==> v[i].0 >= v[j].0
}

/// The candidates of `v` that score `k`, in their order in `v`.
pub open spec fn with_score(v: Seq<(usize, (i64, i64))>, k: usize) -> Seq<(usize, (i64, i64))> {
    v.filter(scores(k))
}

/// Whether a candidate scores `k`.
pub open spec fn scores(k: usize) -> spec_fn((usize, (i64, i64))) -> bool {
    |e: (usize, (i64, i64))| e.0 == k
}

/// No candidate of `v` scores `k`: none is left by the filter.
proof fn lemma_with_score_none(v: Seq<(usize, (i64, i64))>, k: usize)
    requires
        forall|q: int| 0 <= q < v.len() ==> v[q].0 != k,
    ensures
        with_score(v, k) == Seq::<(usize, (i64, i64))>::empty(),
    decreases v.len(),
{
    if v.len() > 0 {
        lemma_with_score_none(v.drop_last(), k);
        assert(v.drop_last().push(v.last()) == v);
        v.drop_last().lemma_filter_push(v.last(), scores(k));
    } else {
        reveal(Seq::filter);
        assert(v.filter(scores(k)) =~= Seq::<(usize, (i64, i64))>::empty());
    }
}

/// Inserting `x` after every candidate scoring at least as much, and before
/// every one scoring less, appends it to the candidates of its own score.
proof fn lemma_with_score_insert(v: Seq<(usize, (i64, i64))>, pos: int, x: (usize, (i64, i64)), k: usize)
    requires
        0 <= pos <= v.len(),
        forall|q: int| pos <= q < v.len() ==> v[q].0 < x.0,
    ensures
        with_score(v.insert(pos, x), k) == if k == x.0 {
            with_score(v, k).push(x)
        } else {
            with_score(v, k)
        },
{
    let f = scores(k);
    let a = v.subrange(0, pos);
    let b = v.subrange(pos, v.len() as int);
    assert(v == a + b);
    assert(v.insert(pos, x) == a.push(x) + b);
    Seq::filter_distributes_over_add(a, b, f);
    Seq::filter_distributes_over_add(a.push(x), b, f);
    a.lemma_filter_push(x, f);
    if k == x.0 {
        lemma_with_score_none(b, k);
        assert(a.filter(f) + Seq::<(usize, (i64, i64))>::empty() == a.filter(f));
        assert(a.filter(f).push(x) + Seq::<(usize, (i64, i64))>::empty() == a.filter(f).push(x));
    }
}

/// Orders scored candidates by descending score; candidates with equal
/// scores keep their order.
pub fn rank_hot_spots(scored: &Vec<(usize, (i64, i64))>) -> (r: Vec<(usize, (i64, i64))>)
    ensures
        sorted_desc(r@),
        r@.to_multiset() == scored@.to_multiset(),
        forall|k: usize| #[trigger] with_score(r@, k) == with_score(scored@, k),
{
    let mut out: Vec<(usize, (i64, i64))> = Vec::new();
    let mut k: usize = 0;
    while k < scored.len()
        invariant
            k <= scored@.len(),
            sorted_desc(out@),
            out@.to_multiset() == scored@.subrange(0, k as int).to_multiset(),
            forall|v: usize| #[trigger] with_score(out@, v) == with_score(scored@.subrange(0, k as int), v),
        decreases scored.len() - k,
    {
        let x = scored[k];
        let mut pos: usize = 0;
        while pos < out.len() && out[pos].0 >= x.0
            invariant
                pos <= out@.len(),
                forall|q: int| 0 <= q < pos ==> out@[q].0 >= x.0,
            decreases out.len() - pos,
        {
            pos = pos + 1;
        }
        let ghost before = out@;
        out.insert(pos, x);
        assert(out@ == before.insert(pos as int, x));
        assert forall|i: int, j: int| 0 <= i < j < out@.len() implies out@[i].0 >= out@[j].0 by {
            if i < pos && j > pos {
                assert(out@[j] == before[j - 1]);
            } else if i == pos && j > pos {
                assert(out@[j] == before[j - 1]);
                assert(before[pos as int].0 < x.0);
            } else if j == pos {
                assert(out@[i] == before[i]);
            } else if j < pos {
                assert(out@[i] == before[i]);
            } else {
                assert(out@[i] == before[i - 1]);
                assert(out@[j] == before[j - 1]);
            }
        }
        assert(scored@.subrange(0, k + 1) == scored@.subrange(0, k as int).push(x));
        assert forall|v: usize| #[trigger] with_score(out@, v) == with_score(scored@.subrange(0, k + 1), v) by {
            assert forall|q: int| pos <= q < before.len() implies before[q].0 < x.0 by {
                assert(before[pos as int].0 < x.0);
            }
            lemma_with_score_insert(before, pos as int, x, v);
            scored@.subrange(0, k as int).lemma_filter_push(x, scores(v));
        }
        k = k + 1;
    }
    assert(scored@.subrange(0, scored@.len() as int) == scored@);
    out
}

/// What a scan yields before ranking: for each candidate of the grid, in
/// grid order, its score against the streets that `path` has completed, and
/// its coordinates.
pub open spec fn hot_spot_scan(
    center: (i64, i64),
    n: u32,
    nearby: Seq<Seq<i64>>,
    ss: Seq<Street>,
    t: Map<i64, HashMap<i64, u64>>,
    path: Seq<i64>,
) -> Seq<(usize, (i64, i64))> {
    let w = 2 * n + 1;
    Seq::new(
        nearby.len(),
        |k: int|
            (
                count_new(
                    short_complete_names(ss, nearby[k], t),
                    short_complete_names(ss, path, t),
                ) as usize,
                (
                    (center.0 + (k / w - n) * GRID_STEP) as i64,
                    (center.1 + (k % w - n) * GRID_STEP) as i64,
                ),
            ),
    )
}

/// Scans the grid of half-width `n` around point `node` and ranks the
/// candidates by score, highest first. `nearby[k]` lists the points close to
/// the `k`-th candidate of the grid; a candidate's score is the number of
/// short streets that those points complete and `path` has not.
pub fn hot_spots(
    node: i64,
    nodes: &HashMap<i64, (i64, i64)>,
    streets: &[Street],
    lengths: &Lengths,
    path: &[i64],
    n: u32,
    nearby: &[Vec<i64>],
) -> (r: Vec<(usize, (i64, i64))>)
    requires
        nodes@.contains_key(node),
        grid_fits(nodes@[node].0, n),
        grid_fits(nodes@[node].1, n),
        nearby@.len() == (2 * n + 1) * (2 * n + 1),
        lengths_cover(lengths@, streets@),
    ensures
        sorted_desc(r@),
        r@.to_multiset() == hot_spot_scan(
            nodes@[node],
            n,
            nearby@.map_values(|v: Vec<i64>| v@),
            streets@,
            lengths@,
            path@,
        ).to_multiset(),
        forall|k: usize| #[trigger] with_score(r@, k) == with_score(
            hot_spot_scan(nodes@[node], n, nearby@.map_values(|v: Vec<i64>| v@), streets@, lengths@, path@),
            k,
        ),
{
    let center = *nodes.get(&node).unwrap();
    let grid = hot_spot_grid(center, n);
    let done = streets_completed_names(path, streets, lengths);
    let ghost near = nearby@.map_values(|v: Vec<i64>| v@);
    let ghost scan = hot_spot_scan(center, n, near, streets@, lengths@, path@);
    let ghost w: int = 2 * n + 1;
    let mut scored: Vec<(usize, (i64, i64))> = Vec::new();
    let mut k: usize = 0;
    while k < grid.len()
        invariant
            grid@.len() == nearby@.len(),
            w == 2 * n + 1,
            grid_fits(center.0, n),
            grid_fits(center.1, n),
            forall|q: int| 0 <= q < grid@.len() ==> grid_point(#[trigger] grid@[q], center, n as int, q / w, q % w),
            near == nearby@.map_values(|v: Vec<i64>| v@),
            scan == hot_spot_scan(center, n, near, streets@, lengths@, path@),
            done.deep_view() == short_complete_names(streets@, path@, lengths@),
            lengths_cover(lengths@, streets@),
            k <= grid@.len(),
            scored@ == scan.subrange(0, k as int),
        decreases grid.len() - k,
    {
        let count = hot_spot_count(nearby[k].as_slice(), streets, lengths, &done);
        assert(nearby@[k as int]@ == near[k as int]);
        let g = grid[k];
        assert(grid_point(grid@[k as int], center, n as int, (k as int) / w, (k as int) % w));
        scored.push((count, g));
        assert(scored@ =~= scan.subrange(0, k + 1));
        k = k + 1;
    }
    assert(scan.subrange(0, scan.len() as int) == scan);
    rank_hot_spots(&scored)
}

/// Every candidate of a scan scores at least zero and at most the number of
/// tracked streets.
pub proof fn lemma_scan_scores_bounded(
    center: (i64, i64),
    n: u32,
    nearby: Seq<Seq<i64>>,
    ss: Seq<Street>,
    t: Map<i64, HashMap<i64, u64>>,
    path: Seq<i64>,
    k: int,
)
    requires
        0 <= k < nearby.len(),
    ensures
        0 <= hot_spot_scan(center, n, nearby, ss, t, path)[k].0 <= ss.len(),
{
    let names = short_complete_names(ss, nearby[k], t);
    lemma_short_complete_names_len(ss, nearby[k], t);
    lemma_count_new_le(names, short_complete_names(ss, path, t));
}

} // verus!
