//! Path lengths over a table of segment lengths.
//!
//! Lengths are whole millimetres, looked up per ordered pair of node ids.
use std::collections::HashMap;
use vstd::prelude::*;

verus! {

broadcast use vstd::std_specs::hash::group_hash_axioms;

/// Segment lengths in millimetres: `t[a][b]` is the length from `a` to `b`.
pub type Lengths = HashMap<i64, HashMap<i64, u64>>;

/// The table knows the length from `a` to `b`.
pub open spec fn has_len(t: Map<i64, HashMap<i64, u64>>, a: i64, b: i64) -> bool {
    t.contains_key(a) && t[a]@.contains_key(b)
}

/// The length from `a` to `b` in the table.
pub open spec fn len_mm(t: Map<i64, HashMap<i64, u64>>, a: i64, b: i64) -> int {
    t[a]@[b] as int
}

/// The table knows the length of every consecutive pair of `p`.
pub open spec fn pairs_known(t: Map<i64, HashMap<i64, u64>>, p: Seq<i64>) -> bool {
    forall|i: int| 1 <= i < p.len() ==> #[trigger] has_len(t, p[i - 1], p[i])
}

/// The sum of the lengths of the consecutive pairs of `p`.
pub open spec fn path_len(t: Map<i64, HashMap<i64, u64>>, p: Seq<i64>) -> int
    decreases p.len(),
{
    if p.len() <= 1 {
        0
    } else {
        path_len(t, p.drop_last()) + len_mm(t, p[p.len() - 2], p[p.len() - 1])
    }
}

/// The sum of the lengths of all segments `ls`.
pub open spec fn total_len(t: Map<i64, HashMap<i64, u64>>, ls: Seq<Seq<i64>>) -> int
    decreases ls.len(),
{
    if ls.len() == 0 {
        0
    } else {
        total_len(t, ls.drop_last()) + path_len(t, ls.last())
    }
}

/// A path length is never negative.
pub proof fn lemma_path_len_nonneg(t: Map<i64, HashMap<i64, u64>>, p: Seq<i64>)
    ensures
        path_len(t, p) >= 0,
    decreases p.len(),
{
    if p.len() > 1 {
        lemma_path_len_nonneg(t, p.drop_last());
    }
}

/// Path length is additive: the length of `p + q` is the length of `p`, plus
/// the length of `q`, plus the pair that joins them when both are non-empty.
pub proof fn lemma_path_len_concat(t: Map<i64, HashMap<i64, u64>>, p: Seq<i64>, q: Seq<i64>)
    ensures
        path_len(t, p + q) == path_len(t, p) + path_len(t, q) + if p.len() > 0 && q.len() > 0 {
            len_mm(t, p.last(), q[0])
        } else {
            0
        },
    decreases q.len(),
{
    if q.len() == 0 {
        assert(p + q == p);
    } else if q.len() == 1 {
        if p.len() > 0 {
            assert((p + q).drop_last() == p);
        } else {
            assert(p + q == q);
        }
    } else {
        lemma_path_len_concat(t, p, q.drop_last());
        assert((p + q).drop_last() == p + q.drop_last());
    }
}

/// A path of at most one point has length zero.
pub proof fn lemma_path_len_short(t: Map<i64, HashMap<i64, u64>>, p: Seq<i64>)
    requires
        p.len() <= 1,
    ensures
        path_len(t, p) == 0,
{
}

/// The length of a prefix never exceeds the length of the whole path.
pub proof fn lemma_path_len_prefix(t: Map<i64, HashMap<i64, u64>>, p: Seq<i64>, n: int)
    requires
        0 <= n <= p.len(),
    ensures
        path_len(t, p.subrange(0, n)) <= path_len(t, p),
    decreases p.len() - n,
{
    if n < p.len() {
        lemma_path_len_prefix(t, p, n + 1);
        let q = p.subrange(0, n + 1);
        if n + 1 > 1 {
            assert(q.drop_last() == p.subrange(0, n));
        } else {
            assert(path_len(t, p.subrange(0, n)) == 0);
        }
        lemma_path_len_nonneg(t, p.subrange(0, n + 1));
    } else {
        assert(p.subrange(0, n) == p);
    }
}

/// The length from `a` to `b`.
pub fn dist(a: i64, b: i64, lengths: &Lengths) -> (r: u64)
    requires
        has_len(lengths@, a, b),
    ensures
        r == len_mm(lengths@, a, b),
{
    let row = lengths.get(&a).unwrap();
    *row.get(&b).unwrap()
}

/// The length of path `p`: the sum of the lengths of its consecutive pairs.
pub fn distance_of_path_precise(p: &[i64], lengths: &Lengths) -> (r: u64)
    requires
        pairs_known(lengths@, p@),
        path_len(lengths@, p@) <= u64::MAX,
    ensures
        r == path_len(lengths@, p@),
{
    if p.len() <= 1 {
        return 0;
    }
    let mut total: u64 = 0;
    let mut i: usize = 1;
    while i < p.len()
        invariant
            1 <= i <= p@.len(),
            pairs_known(lengths@, p@),
            path_len(lengths@, p@) <= u64::MAX,
            total == path_len(lengths@, p@.subrange(0, i as int)),
        decreases p.len() - i,
    {
        let ghost q = p@.subrange(0, i + 1);
        assert(q.drop_last() == p@.subrange(0, i as int));
        assert(has_len(lengths@, p@[i - 1], p@[i as int]));
        proof {
            lemma_path_len_prefix(lengths@, p@, i + 1);
        }
        total = total + dist(p[i - 1], p[i], lengths);
        i = i + 1;
    }
    assert(p@.subrange(0, p@.len() as int) == p@);
    total
}

/// Whether the total length of the segments `ls` is below `limit`.
pub fn total_length_below(ls: &[Vec<i64>], lengths: &Lengths, limit: u64) -> (r: bool)
    requires
        forall|k: int| 0 <= k < ls@.len() ==> pairs_known(lengths@, #[trigger] ls@[k]@),
    ensures
        r == (total_len(lengths@, ls@.map_values(|v: Vec<i64>| v@)) < limit),
{
    let ghost segs = ls@.map_values(|v: Vec<i64>| v@);
    if limit == 0 {
        proof {
            if segs.len() > 0 {
                lemma_total_len_nonneg_prefix(lengths@, segs, 0);
                lemma_path_len_nonneg(lengths@, segs[0]);
            }
        }
        return false;
    }
    let mut total: u64 = 0;
    let mut k: usize = 0;
    while k < ls.len()
        invariant
            k <= ls@.len(),
            segs == ls@.map_values(|v: Vec<i64>| v@),
            forall|kk: int| 0 <= kk < ls@.len() ==> pairs_known(lengths@, #[trigger] ls@[kk]@),
            total < limit,
            total == total_len(lengths@, segs.subrange(0, k as int)),
        decreases ls.len() - k,
    {
        let seg = &ls[k];
        assert(seg@ == segs[k as int]);
        assert(segs.subrange(0, k + 1).drop_last() == segs.subrange(0, k as int));
        assert(pairs_known(lengths@, ls@[k as int]@));
        let ghost base = total as int;
        if seg.len() > 1 {
            let mut i: usize = 1;
            while i < seg.len()
                invariant
                    1 <= i <= seg@.len(),
                    k < ls@.len(),
                    segs == ls@.map_values(|v: Vec<i64>| v@),
                    seg@ == segs[k as int],
                    pairs_known(lengths@, seg@),
                    base == total_len(lengths@, segs.subrange(0, k as int)),
                    total < limit,
                    total == base + path_len(lengths@, seg@.subrange(0, i as int)),
                decreases seg.len() - i,
            {
                let ghost q = seg@.subrange(0, i + 1);
                assert(q.drop_last() == seg@.subrange(0, i as int));
                assert(has_len(lengths@, seg@[i - 1], seg@[i as int]));
                let d = dist(seg[i - 1], seg[i], lengths);
                if d >= limit - total {
                    proof {
                        lemma_path_len_prefix(lengths@, seg@, i + 1);
                        lemma_total_len_nonneg_prefix(lengths@, segs, k as int);
                    }
                    return false;
                }
                total = total + d;
                i = i + 1;
            }
            assert(seg@.subrange(0, seg@.len() as int) == seg@);
        }
        k = k + 1;
    }
    assert(segs.subrange(0, segs.len() as int) == segs);
    true
}

/// The total length only grows with more segments.
proof fn lemma_total_len_nonneg_prefix(t: Map<i64, HashMap<i64, u64>>, ls: Seq<Seq<i64>>, k: int)
    requires
        0 <= k < ls.len(),
    ensures
        total_len(t, ls.subrange(0, k)) + path_len(t, ls[k]) <= total_len(t, ls),
    decreases ls.len() - k,
{
    assert(ls.subrange(0, k + 1).drop_last() == ls.subrange(0, k));
    assert(ls.subrange(0, k + 1).last() == ls[k]);
    if k + 1 < ls.len() {
        lemma_total_len_nonneg_prefix(t, ls, k + 1);
        lemma_path_len_nonneg(t, ls[k + 1]);
    } else {
        assert(ls.subrange(0, k + 1) == ls);
    }
}

} // verus!
