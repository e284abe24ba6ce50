//! The bounded branching search that extends a route.
use std::collections::{HashMap, HashSet, VecDeque};
use vstd::prelude::*;

use crate::distance::{dist, has_len, len_mm, path_len, Lengths};
use crate::graph::{adj_has, num_complete, streets_completed, Street};

verus! {

broadcast use vstd::std_specs::hash::group_hash_axioms;

/// Fixed-point scale of a score: a score of 1.0 is held as this value.
pub const SCORE_SCALE: i128 = 1_000_000;

/// Millimetres in a kilometre.
pub const MM_PER_KM: i128 = 1_000_000;

/// A branch whose score trails the best by this much or more is not expanded
/// (1.0 in fixed point).
pub const PRUNE_MARGIN: i128 = 1_000_000;

/// A dead end may be reversed out of when its one way on is longer than this
/// (in millimetres).
pub const BACKTRACK_MM: u64 = 20_000;

/// How much the step budget grows on each retry.
pub const RETRY_STEPS: u32 = 2;

/// Largest magnitude a score can reach.
pub const SCORE_BOUND: i128 = 0x1_0000_0000_0000_0000_0000_0000_0000;

/// The settings of one route extension.
pub struct SearchParams {
    /// Branching depth of one search.
    pub steps: u32,
    /// Whether progress toward the target counts in the score.
    pub hot_spots: bool,
    /// How many times a search that found no improving route is run again
    /// with a larger budget.
    pub max_retries: u32,
    /// How many branches one search may take from its work queue.
    pub max_expansions: u64,
}

/// One entry of the work queue: a path, its length beyond the starting path,
/// and the branching steps it has left.
pub struct Branch {
    pub path: Vec<i64>,
    pub dist: u64,
    pub steps: u32,
}

/// The numerator of a score, per millimetre walked: newly completed streets
/// per kilometre, plus, when biased, the progress toward the target.
pub open spec fn score_num(done_delta: int, bias: bool, start_to_target: int, to_target: int) -> int {
    done_delta * MM_PER_KM + if bias {
        start_to_target - to_target
    } else {
        0
    }
}

/// A score in fixed point: the numerator over the distance walked, rounded
/// down, and zero when nothing was walked. Rounding down keeps the sign.
pub open spec fn score(num: int, dist: int) -> int {
    if dist <= 0 {
        0
    } else {
        (num * SCORE_SCALE) / dist
    }
}

/// `p` is `start` followed by steps along edges of `adj`.
pub open spec fn continues(start: Seq<i64>, adj: Map<i64, HashSet<i64>>, p: Seq<i64>) -> bool {
    &&& p.len() >= start.len()
    &&& p.subrange(0, start.len() as int) == start
    &&& forall|i: int| start.len() <= i < p.len() ==> #[trigger] adj_has(adj, p[i - 1], p[i])
}

/// What a search needs of its tables: a non-empty start whose last point has
/// neighbours listed, every neighbour listed in turn, a length for every edge,
/// and a distance to the target for every listed point.
pub open spec fn search_inputs(
    start: Seq<i64>,
    adj: Map<i64, HashSet<i64>>,
    lengths: Map<i64, HashMap<i64, u64>>,
    to_target: Map<i64, u64>,
) -> bool {
    &&& start.len() >= 1
    &&& adj.contains_key(start.last())
    &&& forall|a: i64, b: i64| #[trigger]
        adj_has(adj, a, b) ==> adj.contains_key(b) && has_len(lengths, a, b)
    &&& forall|a: i64| #[trigger] adj.contains_key(a) ==> to_target.contains_key(a)
}

/// The score of a branch from its counts and distances.
pub fn branch_score(
    done: usize,
    done_at_start: usize,
    bias: bool,
    start_to_target: u64,
    to_target: u64,
    dist: u64,
) -> (r: i128)
    ensures
        r == score(
            score_num(done - done_at_start, bias, start_to_target as int, to_target as int),
            dist as int,
        ),
        -SCORE_BOUND <= r <= SCORE_BOUND,
{
    let delta: i128 = done as i128 - done_at_start as i128;
    let mut num: i128 = delta * MM_PER_KM;
    if bias {
        num = num + (start_to_target as i128 - to_target as i128);
    }
    if dist == 0 {
        return 0;
    }
    let scaled: i128 = num * SCORE_SCALE;
    let d: i128 = dist as i128;
    if scaled >= 0 {
        assert(0 <= scaled / d <= scaled) by (nonlinear_arith)
            requires
                scaled >= 0,
                d >= 1,
        ;
        scaled / d
    } else {
        let m: i128 = -scaled;
        let q: i128 = (m + d - 1) / d;
        proof {
            let rr: int = (m + d - 1) as int % (d as int);
            vstd::arithmetic::div_mod::lemma_fundamental_div_mod((m + d - 1) as int, d as int);
            assert(0 <= q <= m) by (nonlinear_arith)
                requires
                    m >= 1,
                    d >= 1,
                    m + d - 1 == d * q + rr,
                    0 <= rr < d,
            ;
            assert(scaled == (-q) * d + (d - 1 - rr)) by (nonlinear_arith)
                requires
                    scaled == -m,
                    m + d - 1 == d * q + rr,
            ;
            vstd::arithmetic::div_mod::lemma_fundamental_div_mod_converse(
                scaled as int,
                d as int,
                -(q as int),
                d - 1 - rr,
            );
        }
        -q
    }
}

/// A copy of `p`.
fn copy_path(p: &[i64]) -> (r: Vec<i64>)
    ensures
        r@ == p@,
{
    let mut r: Vec<i64> = Vec::new();
    let mut i: usize = 0;
    while i < p.len()
        invariant
            i <= p@.len(),
            r@ == p@.subrange(0, i as int),
        decreases p.len() - i,
    {
        r.push(p[i]);
        i = i + 1;
    }
    assert(p@.subrange(0, p@.len() as int) == p@);
    r
}

/// `p` with `x` appended.
fn extended(p: &Vec<i64>, x: i64) -> (r: Vec<i64>)
    ensures
        r@ == p@.push(x),
{
    let mut r = copy_path(p.as_slice());
    r.push(x);
    r
}

/// The members of `s` in ascending order, so that the search tries the ways
/// on from a point in an order fixed by the table's contents alone.
pub fn neighbor_list(s: &HashSet<i64>) -> (r: Vec<i64>)
    ensures
        forall|x: i64| r@.contains(x) <==> s@.contains(x),
        r@.len() == s@.len(),
        forall|i: int, j: int| 0 <= i < j < r@.len() ==> r@[i] < r@[j],
        r@.no_duplicates(),
{
    let mut r: Vec<i64> = Vec::new();
    for x in it: s.iter()
        invariant
            r@.len() == it.index(),
            it.seq().unref().to_set() == s@,
            it.seq().len() == s@.len(),
            it.seq().unref().no_duplicates(),
            forall|i: int, j: int| 0 <= i < j < r@.len() ==> r@[i] < r@[j],
            forall|y: i64| r@.contains(y) <==> exists|i: int| 0 <= i < r@.len() && it.seq().unref()[i] == y,
            forall|i: int| 0 <= i < r@.len() ==> s@.contains(#[trigger] r@[i]),
            forall|y: i64|
                s@.contains(y) ==> r@.contains(y) || exists|i: int|
                    r@.len() <= i < it.seq().len() && it.seq().unref()[i] == y,
    {
        let ghost sq = it.seq().unref();
        let ghost n = r@.len() as int;
        assert(sq[n] == *x);
        assert(sq.contains(*x));
        assert(!r@.contains(*x)) by {
            if r@.contains(*x) {
                let i = choose|i: int| 0 <= i < n && sq[i] == *x;
            }
        }
        let mut pos: usize = 0;
        while pos < r.len() && r[pos] < *x
            invariant
                pos <= r@.len(),
                forall|q: int| 0 <= q < pos ==> r@[q] < *x,
            decreases r.len() - pos,
        {
            pos = pos + 1;
        }
        let ghost before = r@;
        r.insert(pos, *x);
        assert(r@ == before.insert(pos as int, *x));
        assert forall|i: int, j: int| 0 <= i < j < r@.len() implies r@[i] < r@[j] by {
            if pos < before.len() {
                assert(before[pos as int] != *x);
            }
            if i < pos && j > pos {
                assert(r@[j] == before[j - 1]);
                if pos < before.len() {
                    assert(before[pos as int] <= before[j - 1] || j - 1 == pos);
                }
            } else if i == pos && j > pos {
                assert(r@[j] == before[j - 1]);
                assert(before[pos as int] >= *x);
            } else if j == pos {
                assert(r@[i] == before[i]);
            } else if j < pos {
                assert(r@[i] == before[i]);
            } else {
                assert(r@[i] == before[i - 1]);
                assert(r@[j] == before[j - 1]);
            }
        }
        assert forall|y: i64| r@.contains(y) <==> exists|i: int| 0 <= i < r@.len() && sq[i] == y by {
            if r@.contains(y) {
                let q = choose|q: int| 0 <= q < r@.len() && r@[q] == y;
                if q < pos {
                    assert(before[q] == y);
                    assert(before.contains(y));
                    let i = choose|i: int| 0 <= i < n && sq[i] == y;
                    assert(0 <= i < r@.len() && sq[i] == y);
                } else if q > pos {
                    assert(before[q - 1] == y);
                    assert(before.contains(y));
                    let i = choose|i: int| 0 <= i < n && sq[i] == y;
                    assert(0 <= i < r@.len() && sq[i] == y);
                } else {
                    assert(0 <= n < r@.len() && sq[n] == y);
                }
            }
            if exists|i: int| 0 <= i < r@.len() && sq[i] == y {
                let i = choose|i: int| 0 <= i < r@.len() && sq[i] == y;
                if i == n {
                    assert(r@[pos as int] == y);
                } else {
                    assert(exists|i2: int| 0 <= i2 < n && sq[i2] == y);
                    assert(before.contains(y));
                    let q = choose|q: int| 0 <= q < before.len() && before[q] == y;
                    if q < pos {
                        assert(r@[q] == y);
                    } else {
                        assert(r@[q + 1] == y);
                    }
                }
            }
        }
        assert forall|i: int| 0 <= i < r@.len() implies s@.contains(#[trigger] r@[i]) by {
            if i < pos {
                assert(r@[i] == before[i]);
            } else if i > pos {
                assert(r@[i] == before[i - 1]);
            }
        }
        assert forall|y: i64| s@.contains(y) implies r@.contains(y) || exists|i: int|
            r@.len() <= i < it.seq().len() && it.seq().unref()[i] == y by {
            if !r@.contains(y) {
                assert(!before.contains(y) || false) by {
                    if before.contains(y) {
                        let q = choose|q: int| 0 <= q < before.len() && before[q] == y;
                        if q < pos {
                            assert(r@[q] == y);
                        } else {
                            assert(r@[q + 1] == y);
                        }
                    }
                }
                let i = choose|i: int| n <= i < it.seq().len() && it.seq().unref()[i] == y;
                if i == n {
                    assert(r@[pos as int] == y);
                }
            }
        }
    }
    r
}

/// The neighbours to branch to: all of `neighbors`, but without the
/// preceding point `prev` when it is among them and others remain. The flag
/// tells whether it was taken out.
pub fn branch_choices(neighbors: &Vec<i64>, prev: Option<i64>) -> (r: (Vec<i64>, bool))
    ensures
        r.1 == (prev is Some && neighbors@.contains(prev->0) && neighbors@.len() > 1),
        !r.1 ==> r.0@ == neighbors@,
        r.1 ==> exists|i: int|
            0 <= i < neighbors@.len() && neighbors@[i] == prev->0 && r.0@ == neighbors@.remove(i),
        forall|x: i64| r.0@.contains(x) ==> neighbors@.contains(x),
        forall|x: i64|
            neighbors@.contains(x) && !(r.1 && x == prev->0) ==> r.0@.contains(x),
        r.0@.len() == neighbors@.len() - if r.1 { 1int } else { 0int },
        neighbors@.no_duplicates() ==> r.0@.no_duplicates(),
        neighbors@.no_duplicates() && r.1 ==> !r.0@.contains(prev->0),
{
    let mut choices = copy_path(neighbors.as_slice());
    match prev {
        Some(p) => {
            if neighbors.len() > 1 {
                let mut i: usize = 0;
                while i < choices.len()
                    invariant
                        i <= choices@.len(),
                        choices@ == neighbors@,
                        prev == Some(p),
                        neighbors@.len() > 1,
                        forall|j: int| 0 <= j < i ==> choices@[j] != p,
                    decreases choices.len() - i,
                {
                    if choices[i] == p {
                        let ghost before = choices@;
                        choices.remove(i);
                        assert forall|x: i64| choices@.contains(x) implies neighbors@.contains(x) by {
                            let j = choose|j: int| 0 <= j < choices@.len() && choices@[j] == x;
                            if j < i {
                                assert(neighbors@[j] == x);
                            } else {
                                assert(neighbors@[j + 1] == x);
                            }
                        }
                        assert(neighbors@[i as int] == p);
                        assert(neighbors@.contains(p));
                        assert forall|x: i64| neighbors@.contains(x) && x != p implies choices@.contains(x) by {
                            let j = choose|j: int| 0 <= j < neighbors@.len() && neighbors@[j] == x;
                            if j < i {
                                assert(choices@[j] == x);
                            } else {
                                assert(j != i);
                                assert(choices@[j - 1] == x);
                            }
                        }
                        assert(choices@ == neighbors@.remove(i as int));
                        proof {
                          if neighbors@.no_duplicates() {
                            assert forall|a: int, c: int| 0 <= a < c < choices@.len() implies choices@[a] != choices@[c] by {
                                let a2 = if a < i { a } else { a + 1 };
                                let c2 = if c < i { c } else { c + 1 };
                                assert(choices@[a] == neighbors@[a2]);
                                assert(choices@[c] == neighbors@[c2]);
                            }
                            assert forall|c: int| 0 <= c < choices@.len() implies choices@[c] != p by {
                                let c2 = if c < i { c } else { c + 1 };
                                assert(choices@[c] == neighbors@[c2]);
                            }
                          }
                        }
                        return (choices, true);
                    }
                    i = i + 1;
                }
            }
            (choices, false)
        },
        None => (choices, false),
    }
}

/// The entry of `to_target` for point `n`.
fn target_distance(to_target: &HashMap<i64, u64>, n: i64) -> (r: u64)
    requires
        to_target@.contains_key(n),
    ensures
        r == to_target@[n],
{
    *to_target.get(&n).unwrap()
}

/// The length of the part of `p` that continues `start`, from the start's
/// last point on.
pub open spec fn walked(start: Seq<i64>, t: Map<i64, HashMap<i64, u64>>, p: Seq<i64>) -> int {
    path_len(t, p.subrange(start.len() - 1, p.len() as int))
}

/// The score of route `p` that continues `start`: newly completed streets
/// and, when `bias` is set, progress toward the target, per distance walked.
pub open spec fn path_score(
    start: Seq<i64>,
    p: Seq<i64>,
    ss: Seq<Street>,
    t: Map<i64, HashMap<i64, u64>>,
    to_target: Map<i64, u64>,
    bias: bool,
) -> int {
    score(
        score_num(
            num_complete(ss, p) - num_complete(ss, start),
            bias,
            to_target[start.last()] as int,
            to_target[p.last()] as int,
        ),
        walked(start, t, p),
    )
}

/// The point before the last of `p`, when there is one.
pub open spec fn prev_point(p: Seq<i64>) -> Option<i64> {
    if p.len() >= 2 {
        Some(p[p.len() - 2])
    } else {
        None
    }
}

/// At the end of `p` the step back is left out of the branching: the point
/// before is a neighbour and not the only one.
pub open spec fn drops_prev(p: Seq<i64>, adj: Map<i64, HashSet<i64>>) -> bool {
    prev_point(p) is Some && adj[p.last()]@.contains(prev_point(p)->0) && adj[p.last()]@.len() > 1
}

/// `x` is one of the ways on from the end of `p`.
pub open spec fn way_on(p: Seq<i64>, adj: Map<i64, HashSet<i64>>, x: i64) -> bool {
    adj[p.last()]@.contains(x) && !(drops_prev(p, adj) && x == prev_point(p)->0)
}

/// The number of ways on from the end of `p`.
pub open spec fn way_count(p: Seq<i64>, adj: Map<i64, HashSet<i64>>) -> int {
    adj[p.last()]@.len() - if drops_prev(p, adj) {
        1int
    } else {
        0int
    }
}

/// The one way on from the end of `p`, when there is exactly one.
pub open spec fn sole_way(p: Seq<i64>, adj: Map<i64, HashSet<i64>>) -> i64 {
    choose|w: i64| way_on(p, adj, w)
}

/// Stepping back to `z` reverses out of the end of `p`: the step back was
/// left out, one way on remains, and it is longer than `BACKTRACK_MM`.
pub open spec fn backtrack_to(
    p: Seq<i64>,
    adj: Map<i64, HashSet<i64>>,
    t: Map<i64, HashMap<i64, u64>>,
    z: i64,
) -> bool {
    &&& drops_prev(p, adj)
    &&& way_count(p, adj) == 1
    &&& z == prev_point(p)->0
    &&& len_mm(t, p.last(), sole_way(p, adj)) > BACKTRACK_MM
}

/// The branching rules of the search as a tree of routes: `Some(s)` when `x`
/// is a route the search may queue from `start` with a budget of `steps`,
/// `s` being the steps it has left. A route branches only while it has steps
/// left; it goes on by a way on (a step is spent when there are two or more)
/// or by stepping back out of a dead end (a step is spent), and its length
/// must fit in `u64`.
pub open spec fn node_steps(
    start: Seq<i64>,
    adj: Map<i64, HashSet<i64>>,
    t: Map<i64, HashMap<i64, u64>>,
    steps: int,
    x: Seq<i64>,
) -> Option<int>
    decreases x.len(),
{
    if x.len() < start.len() || x.subrange(0, start.len() as int) != start || walked(start, t, x)
        > u64::MAX {
        None
    } else if x.len() <= start.len() {
        Some(steps)
    } else {
        let y = x.drop_last();
        let z = x.last();
        match node_steps(start, adj, t, steps, y) {
            Some(s) => if s <= 0 {
                None
            } else if way_on(y, adj, z) {
                Some(s - if way_count(y, adj) > 1 {
                    1int
                } else {
                    0int
                })
            } else if backtrack_to(y, adj, t, z) {
                Some(s - 1)
            } else {
                None
            },
            None => None,
        }
    }
}

/// `x` is a leaf of the search tree: a route with no steps left.
pub open spec fn is_leaf(
    start: Seq<i64>,
    adj: Map<i64, HashSet<i64>>,
    t: Map<i64, HashMap<i64, u64>>,
    steps: int,
    x: Seq<i64>,
) -> bool {
    node_steps(start, adj, t, steps, x) == Some(0int)
}

/// All routes of the search tree.
pub open spec fn search_tree(
    start: Seq<i64>,
    adj: Map<i64, HashSet<i64>>,
    t: Map<i64, HashMap<i64, u64>>,
    steps: int,
) -> Set<Seq<i64>> {
    Set::new(|x: Seq<i64>| node_steps(start, adj, t, steps, x) is Some)
}

/// `q` is a prefix of `x`.
pub open spec fn is_prefix(q: Seq<i64>, x: Seq<i64>) -> bool {
    q.len() <= x.len() && x.subrange(0, q.len() as int) == q
}

/// Every proper prefix of a route of the tree, from the start on, is a route
/// of the tree with steps left.
pub proof fn lemma_node_prefix(
    start: Seq<i64>,
    adj: Map<i64, HashSet<i64>>,
    t: Map<i64, HashMap<i64, u64>>,
    steps: int,
    x: Seq<i64>,
    n: int,
)
    requires
        node_steps(start, adj, t, steps, x) is Some,
        start.len() <= n < x.len(),
    ensures
        node_steps(start, adj, t, steps, x.subrange(0, n)) is Some,
        node_steps(start, adj, t, steps, x.subrange(0, n))->0 > 0,
    decreases x.len(),
{
    let y = x.drop_last();
    if n == y.len() {
        assert(x.subrange(0, n) == y);
    } else {
        assert(y.subrange(0, start.len() as int) == x.subrange(0, start.len() as int));
        lemma_node_prefix(start, adj, t, steps, y, n);
        assert(y.subrange(0, n) == x.subrange(0, n));
    }
}

/// One more point on a route of the tree: its length, and where it stands in
/// the tree, follow from the route it extends.
pub proof fn lemma_node_child(
    start: Seq<i64>,
    adj: Map<i64, HashSet<i64>>,
    t: Map<i64, HashMap<i64, u64>>,
    steps: int,
    y: Seq<i64>,
    z: i64,
)
    requires
        start.len() >= 1,
        node_steps(start, adj, t, steps, y) is Some,
    ensures
        walked(start, t, y.push(z)) == walked(start, t, y) + len_mm(t, y.last(), z),
        walked(start, t, y.push(z)) <= u64::MAX ==> node_steps(start, adj, t, steps, y.push(z)) == (
        if node_steps(start, adj, t, steps, y)->0 <= 0 {
            None
        } else if way_on(y, adj, z) {
            Some(
                node_steps(start, adj, t, steps, y)->0 - if way_count(y, adj) > 1 {
                    1int
                } else {
                    0int
                },
            )
        } else if backtrack_to(y, adj, t, z) {
            Some(node_steps(start, adj, t, steps, y)->0 - 1)
        } else {
            None
        }),
{
    let x = y.push(z);
    assert(x.drop_last() == y);
    assert(x.subrange(0, start.len() as int) == y.subrange(0, start.len() as int));
    let q = y.subrange(start.len() - 1, y.len() as int);
    assert(x.subrange(start.len() - 1, x.len() as int) == q.push(z));
    assert(q.push(z).drop_last() == q);
}

/// A queue entry that continues `start` along `adj`, ends at a listed point,
/// has walked exactly `dist`, and is a route of the search tree with `steps`
/// steps left.
pub open spec fn branch_ok(
    b: Branch,
    start: Seq<i64>,
    adj: Map<i64, HashSet<i64>>,
    t: Map<i64, HashMap<i64, u64>>,
    budget: u32,
) -> bool {
    &&& continues(start, adj, b.path@)
    &&& b.dist == walked(start, t, b.path@)
    &&& adj.contains_key(b.path@.last())
    &&& b.steps <= budget
    &&& node_steps(start, adj, t, budget as int, b.path@) == Some(b.steps as int)
    &&& budget == 0 ==> b.path@ == start
}

/// Appends to `queue` the branch that continues `b` to `next`, unless its
/// length would not fit.
fn push_branch(
    queue: &mut VecDeque<Branch>,
    b: &Branch,
    next: i64,
    d: u64,
    steps: u32,
    Ghost(start): Ghost<Seq<i64>>,
    Ghost(adj): Ghost<Map<i64, HashSet<i64>>>,
    Ghost(t): Ghost<Map<i64, HashMap<i64, u64>>>,
    Ghost(budget): Ghost<u32>,
)
    requires
        start.len() >= 1,
        branch_ok(*b, start, adj, t, budget),
        d == len_mm(t, b.path@.last(), next),
        adj_has(adj, b.path@.last(), next),
        adj.contains_key(next),
        steps <= budget,
        budget > 0,
        b.dist + d <= u64::MAX ==> node_steps(start, adj, t, budget as int, b.path@.push(next))
            == Some(steps as int),
        forall|j: int| 0 <= j < old(queue)@.len() ==> branch_ok(#[trigger] old(queue)@[j], start, adj, t, budget),
    ensures
        forall|j: int| 0 <= j < final(queue)@.len() ==> branch_ok(#[trigger] final(queue)@[j], start, adj, t, budget),
        b.dist + d <= u64::MAX ==> final(queue)@.len() == old(queue)@.len() + 1
            && final(queue)@.last().path@ == b.path@.push(next) && final(queue)@.last().steps == steps,
        b.dist + d > u64::MAX ==> final(queue)@ == old(queue)@,
        forall|j: int| 0 <= j < old(queue)@.len() ==> #[trigger] final(queue)@[j] == old(queue)@[j],
{
    match b.dist.checked_add(d) {
        Some(nd) => {
            let path = extended(&b.path, next);
            let ghost p = path@;
            assert(p.subrange(0, start.len() as int) == b.path@.subrange(0, start.len() as int));
            assert forall|i: int| start.len() <= i < p.len() implies #[trigger] adj_has(adj, p[i - 1], p[i]) by {
                if i < p.len() - 1 {
                    assert(adj_has(adj, b.path@[i - 1], b.path@[i]));
                } else {
                    assert(p[i - 1] == b.path@.last());
                }
            }
            let ghost q = b.path@.subrange(start.len() - 1, b.path@.len() as int);
            assert(p.subrange(start.len() - 1, p.len() as int).drop_last() == q);
            assert(p.subrange(start.len() - 1, p.len() as int) == q.push(next));
            queue.push_back(Branch { path, dist: nd, steps });
        },
        None => {},
    }
}

/// Branches from `b`: appends to `queue` one entry for each way on from the
/// end of `b`'s route, and the step back when `backtrack_to` allows it;
/// exactly the children of `b` in the search tree, leaving out none but
/// those whose length would not fit.
fn expand_branch(
    queue: &mut VecDeque<Branch>,
    b: &Branch,
    adj: &HashMap<i64, HashSet<i64>>,
    lengths: &Lengths,
    Ghost(s): Ghost<Seq<i64>>,
    Ghost(to_target): Ghost<Map<i64, u64>>,
    Ghost(steps): Ghost<u32>,
)
    requires
        search_inputs(s, adj@, lengths@, to_target),
        branch_ok(*b, s, adj@, lengths@, steps),
        b.steps > 0,
        forall|j: int| 0 <= j < old(queue)@.len() ==> branch_ok(#[trigger] old(queue)@[j], s, adj@, lengths@, steps),
    ensures
        forall|j: int| 0 <= j < final(queue)@.len() ==> branch_ok(#[trigger] final(queue)@[j], s, adj@, lengths@, steps),
        final(queue)@.len() >= old(queue)@.len(),
        forall|j: int| 0 <= j < old(queue)@.len() ==> #[trigger] final(queue)@[j] == old(queue)@[j],
        forall|j: int| old(queue)@.len() <= j < final(queue)@.len() ==> (#[trigger] final(queue)@[j]).path@.len() == b.path@.len() + 1
            && final(queue)@[j].path@.drop_last() == b.path@,
        forall|i: int, j: int| old(queue)@.len() <= i < j < final(queue)@.len() ==> final(queue)@[i].path@ != final(queue)@[j].path@,
        forall|z: i64| #[trigger] node_steps(s, adj@, lengths@, steps as int, b.path@.push(z)) is Some ==> exists|j: int|
            old(queue)@.len() <= j < final(queue)@.len() && (#[trigger] final(queue)@[j]).path@ == b.path@.push(z),
{
    let ghost bp = b.path@;
    let ghost q0 = queue@;
    let last = b.path[b.path.len() - 1];
    let n = b.path.len();
    let prev: Option<i64> = if n >= 2 {
        Some(b.path[n - 2])
    } else {
        None
    };
    let neighbors = neighbor_list(adj.get(&last).unwrap());
    let (choices, removed) = branch_choices(&neighbors, prev);
    proof {
        assert(prev == prev_point(bp));
        assert(removed == drops_prev(bp, adj@));
        assert(choices@.len() == way_count(bp, adj@));
        assert forall|x: i64| choices@.contains(x) <==> #[trigger] way_on(bp, adj@, x) by {
            if choices@.contains(x) && removed {
                assert(x != prev->0);
            }
        }
    }
    let forks = choices.len() > 1;
    let next_steps: u32 = if forks {
        b.steps - 1
    } else {
        b.steps
    };
    let mut dist_to_next: u64 = 0;
    let mut i: usize = 0;
    while i < choices.len()
        invariant
            search_inputs(s, adj@, lengths@, to_target),
            branch_ok(*b, s, adj@, lengths@, steps),
            bp == b.path@,
            last == bp.last(),
            b.steps > 0,
            next_steps <= steps,
            node_steps(s, adj@, lengths@, steps as int, bp) == Some(b.steps as int),
            next_steps == b.steps - if way_count(bp, adj@) > 1 { 1int } else { 0int },
            forall|x: i64| choices@.contains(x) <==> #[trigger] way_on(bp, adj@, x),
            forall|x: i64| choices@.contains(x) ==> neighbors@.contains(x),
            forall|x: i64| neighbors@.contains(x) ==> adj@[last]@.contains(x),
            i <= choices@.len(),
            i > 0 ==> dist_to_next == len_mm(lengths@, last, choices@[i - 1]),
            choices@.no_duplicates(),
            forall|j: int| 0 <= j < queue@.len() ==> branch_ok(#[trigger] queue@[j], s, adj@, lengths@, steps),
            queue@.len() >= q0.len(),
            forall|j: int| 0 <= j < q0.len() ==> #[trigger] queue@[j] == q0[j],
            forall|j: int| q0.len() <= j < queue@.len() ==> (#[trigger] queue@[j]).path@.len() == bp.len() + 1
                && queue@[j].path@.drop_last() == bp
                && exists|k: int| 0 <= k < i && queue@[j].path@.last() == choices@[k],
            forall|a: int, c: int| q0.len() <= a < c < queue@.len() ==> queue@[a].path@ != queue@[c].path@,
            forall|k: int| 0 <= k < i && walked(s, lengths@, bp.push(choices@[k])) <= u64::MAX ==> exists|j: int|
                q0.len() <= j < queue@.len() && (#[trigger] queue@[j]).path@ == bp.push(choices@[k]),
        decreases choices.len() - i,
    {
        let next = choices[i];
        assert(choices@.contains(next));
        assert(adj_has(adj@, last, next));
        dist_to_next = dist(last, next, lengths);
        proof {
            lemma_node_child(s, adj@, lengths@, steps as int, bp, next);
        }
        let ghost qb = queue@;
        push_branch(queue, b, next, dist_to_next, next_steps, Ghost(s), Ghost(adj@), Ghost(lengths@), Ghost(steps));
        proof {
            let c = bp.push(next);
            assert(c.drop_last() == bp);
            if queue@.len() > qb.len() {
                assert(c.last() == choices@[i as int]);
                assert forall|j: int| q0.len() <= j < qb.len() implies qb[j].path@ != c by {
                    if qb[j].path@ == c {
                        let k = choose|k: int| 0 <= k < i && qb[j].path@.last() == choices@[k];
                        assert(choices@[k] == choices@[i as int]);
                    }
                }
            }
            assert forall|k: int| 0 <= k < i + 1 && walked(s, lengths@, bp.push(choices@[k])) <= u64::MAX implies exists|j: int|
                q0.len() <= j < queue@.len() && (#[trigger] queue@[j]).path@ == bp.push(choices@[k]) by {
                if k < i {
                    let j = choose|j: int| q0.len() <= j < qb.len() && (#[trigger] qb[j]).path@ == bp.push(choices@[k]);
                    assert(queue@[j] == qb[j]);
                } else {
                    assert(queue@[qb.len() as int].path@ == bp.push(choices@[k]));
                }
            }
        }
        i = i + 1;
    }
    let ghost qc = queue@;
    if removed && choices.len() == 1 && dist_to_next > BACKTRACK_MM {
        let p = prev.unwrap();
        assert(neighbors@.contains(p));
        assert(adj_has(adj@, last, p));
        let d = dist(last, p, lengths);
        proof {
            assert(way_on(bp, adj@, choices@[0]));
            assert(sole_way(bp, adj@) == choices@[0]);
            assert(backtrack_to(bp, adj@, lengths@, p));
            lemma_node_child(s, adj@, lengths@, steps as int, bp, p);
        }
        push_branch(queue, b, p, d, b.steps - 1, Ghost(s), Ghost(adj@), Ghost(lengths@), Ghost(steps));
        proof {
            let c = bp.push(p);
            assert(c.drop_last() == bp);
            assert(!choices@.contains(p));
            assert forall|j: int| q0.len() <= j < qc.len() implies qc[j].path@ != c by {
                if qc[j].path@ == c {
                    let k = choose|k: int| 0 <= k < i && qc[j].path@.last() == choices@[k];
                    assert(c.last() == p);
                }
            }
        }
    }
    proof {
        assert forall|z: i64| #[trigger] node_steps(s, adj@, lengths@, steps as int, bp.push(z)) is Some implies exists|j: int|
            q0.len() <= j < queue@.len() && (#[trigger] queue@[j]).path@ == bp.push(z) by {
            lemma_node_child(s, adj@, lengths@, steps as int, bp, z);
            let c = bp.push(z);
            assert(walked(s, lengths@, c) <= u64::MAX);
            if way_on(bp, adj@, z) {
                assert(choices@.contains(z));
                let k = choose|k: int| 0 <= k < choices@.len() && choices@[k] == z;
                let j = choose|j: int| q0.len() <= j < qc.len() && (#[trigger] qc[j]).path@ == bp.push(choices@[k]);
                assert(queue@[j] == qc[j]);
            } else {
                assert(backtrack_to(bp, adj@, lengths@, z));
                assert(way_on(bp, adj@, choices@[0]));
                assert(sole_way(bp, adj@) == choices@[0]);
                assert(queue@[qc.len() as int].path@ == c);
            }
        }
    }
}

/// Popping `bp` and queueing its children keeps the exploration's
/// bookkeeping: queued routes are new and distinct, their parents were
/// popped, and while nothing positive is found every route of the tree is
/// popped or lies under a queued route.
#[verifier::rlimit(60)]
#[verifier::spinoff_prover]
proof fn lemma_after_expand(
    s: Seq<i64>,
    adj: Map<i64, HashSet<i64>>,
    t: Map<i64, HashMap<i64, u64>>,
    steps: u32,
    q0: Seq<Branch>,
    qa: Seq<Branch>,
    qf: Seq<Branch>,
    pb: Set<Seq<i64>>,
    popped: Set<Seq<i64>>,
    bp: Seq<i64>,
    best: int,
)
    requires
        s.len() >= 1,
        q0.len() >= 1,
        bp == q0[0].path@,
        qa.len() == q0.len() - 1,
        forall|j: int| 0 <= j < qa.len() ==> #[trigger] qa[j] == q0[j + 1],
        popped == pb.insert(bp),
        !pb.contains(bp),
        forall|j: int| 0 <= j < q0.len() ==> !pb.contains(#[trigger] q0[j].path@),
        forall|i: int, j: int| 0 <= i < j < q0.len() ==> q0[i].path@ != q0[j].path@,
        forall|j: int| 0 <= j < q0.len() && (#[trigger] q0[j]).path@.len() > s.len() ==> pb.contains(q0[j].path@.drop_last()),
        forall|j: int| 0 <= j < q0.len() ==> (#[trigger] q0[j]).path@.len() >= s.len(),
        forall|p: Seq<i64>| #[trigger] pb.contains(p) ==> node_steps(s, adj, t, steps as int, p) is Some,
        forall|p: Seq<i64>| #[trigger] pb.contains(p) && p.len() > s.len() ==> pb.contains(p.drop_last()),
        node_steps(s, adj, t, steps as int, bp) is Some,
        qf.len() >= qa.len(),
        forall|j: int| 0 <= j < qa.len() ==> #[trigger] qf[j] == qa[j],
        forall|j: int| qa.len() <= j < qf.len() ==> (#[trigger] qf[j]).path@.len() == bp.len() + 1
            && qf[j].path@.drop_last() == bp,
        forall|i: int, j: int| qa.len() <= i < j < qf.len() ==> qf[i].path@ != qf[j].path@,
        forall|z: i64| #[trigger] node_steps(s, adj, t, steps as int, bp.push(z)) is Some ==> exists|j: int|
            qa.len() <= j < qf.len() && (#[trigger] qf[j]).path@ == bp.push(z),
        best == 0 ==> forall|x: Seq<i64>| #[trigger] node_steps(s, adj, t, steps as int, x) is Some
            ==> pb.contains(x) || exists|j: int| 0 <= j < q0.len() && is_prefix(#[trigger] q0[j].path@, x),
    ensures
        forall|j: int| 0 <= j < qf.len() ==> !popped.contains(#[trigger] qf[j].path@),
        forall|i: int, j: int| 0 <= i < j < qf.len() ==> qf[i].path@ != qf[j].path@,
        forall|j: int| 0 <= j < qf.len() && (#[trigger] qf[j]).path@.len() > s.len() ==> popped.contains(qf[j].path@.drop_last()),
        forall|p: Seq<i64>| #[trigger] popped.contains(p) ==> node_steps(s, adj, t, steps as int, p) is Some,
        forall|p: Seq<i64>| #[trigger] popped.contains(p) && p.len() > s.len() ==> popped.contains(p.drop_last()),
        best == 0 ==> forall|x: Seq<i64>| #[trigger] node_steps(s, adj, t, steps as int, x) is Some
            ==> popped.contains(x) || exists|j: int| 0 <= j < qf.len() && is_prefix(#[trigger] qf[j].path@, x),
{
    assert forall|j: int| 0 <= j < qf.len() implies !popped.contains(#[trigger] qf[j].path@) by {
        if j < qa.len() {
            assert(qf[j] == q0[j + 1]);
            assert(q0[0].path@ != q0[j + 1].path@);
        } else {
            let c = qf[j].path@;
            if pb.contains(c) {
                assert(pb.contains(c.drop_last()));
            }
        }
    }
    assert forall|i: int, j: int| 0 <= i < j < qf.len() implies qf[i].path@ != qf[j].path@ by {
        if j < qa.len() {
            assert(qf[i] == q0[i + 1] && qf[j] == q0[j + 1]);
        } else if i < qa.len() {
            assert(qf[i] == q0[i + 1]);
            if qf[i].path@ == qf[j].path@ {
                assert(pb.contains(q0[i + 1].path@.drop_last()));
            }
        }
    }
    assert forall|j: int| 0 <= j < qf.len() && (#[trigger] qf[j]).path@.len() > s.len() implies popped.contains(qf[j].path@.drop_last()) by {
        if j < qa.len() {
            assert(qf[j] == q0[j + 1]);
        }
    }
    assert forall|p: Seq<i64>| #[trigger] popped.contains(p) && p.len() > s.len() implies popped.contains(p.drop_last()) by {
        if p == bp {
            assert(pb.contains(q0[0].path@.drop_last()));
        }
    }
    if best == 0 {
        assert forall|x: Seq<i64>| #[trigger] node_steps(s, adj, t, steps as int, x) is Some implies popped.contains(x)
            || exists|j: int| 0 <= j < qf.len() && is_prefix(#[trigger] qf[j].path@, x) by {
            if !pb.contains(x) {
                let j = choose|j: int| 0 <= j < q0.len() && is_prefix(#[trigger] q0[j].path@, x);
                if j > 0 {
                    assert(qf[j - 1] == q0[j]);
                } else if x.len() == bp.len() {
                    assert(x == bp);
                } else {
                    let n = bp.len() + 1;
                    let c = x.subrange(0, n as int);
                    if n < x.len() {
                        lemma_node_prefix(s, adj, t, steps as int, x, n as int);
                    } else {
                        assert(c == x);
                    }
                    assert(c == bp.push(x[bp.len() as int]));
                    let k = choose|k: int| qa.len() <= k < qf.len() && (#[trigger] qf[k]).path@ == bp.push(x[bp.len() as int]);
                    assert(is_prefix(qf[k].path@, x));
                }
            }
        }
    }
}

/// Popping the leaf `bp` keeps every route of the tree popped or under a
/// queued route.
proof fn lemma_after_leaf(
    s: Seq<i64>,
    adj: Map<i64, HashSet<i64>>,
    t: Map<i64, HashMap<i64, u64>>,
    steps: u32,
    q0: Seq<Branch>,
    qa: Seq<Branch>,
    pb: Set<Seq<i64>>,
    bp: Seq<i64>,
)
    requires
        q0.len() >= 1,
        bp == q0[0].path@,
        qa.len() == q0.len() - 1,
        forall|j: int| 0 <= j < qa.len() ==> #[trigger] qa[j] == q0[j + 1],
        node_steps(s, adj, t, steps as int, bp) == Some(0int),
        forall|x: Seq<i64>| #[trigger] node_steps(s, adj, t, steps as int, x) is Some
            ==> pb.contains(x) || exists|j: int| 0 <= j < q0.len() && is_prefix(#[trigger] q0[j].path@, x),
    ensures
        forall|x: Seq<i64>| #[trigger] node_steps(s, adj, t, steps as int, x) is Some
            ==> pb.insert(bp).contains(x) || exists|j: int| 0 <= j < qa.len() && is_prefix(#[trigger] qa[j].path@, x),
{
    assert forall|x: Seq<i64>| #[trigger] node_steps(s, adj, t, steps as int, x) is Some implies pb.insert(bp).contains(x)
        || exists|j: int| 0 <= j < qa.len() && is_prefix(#[trigger] qa[j].path@, x) by {
        if !pb.contains(x) {
            let j = choose|j: int| 0 <= j < q0.len() && is_prefix(#[trigger] q0[j].path@, x);
            if j > 0 {
                assert(qa[j - 1] == q0[j]);
            } else if x.len() > bp.len() {
                lemma_node_prefix(s, adj, t, steps as int, x, bp.len() as int);
                assert(x.subrange(0, bp.len() as int) == bp);
            } else {
                assert(x == bp);
            }
        }
    }
}

/// One bounded exploration from `start`, taking at most `max_expansions`
/// branches from the work queue. Returns the best leaf found (or `start`)
/// and its score.
#[verifier::rlimit(60)]
#[verifier::spinoff_prover]
fn search_once(
    start: &[i64],
    steps: u32,
    bias: bool,
    max_expansions: u64,
    adj: &HashMap<i64, HashSet<i64>>,
    lengths: &Lengths,
    to_target: &HashMap<i64, u64>,
    streets: &[Street],
) -> (r: (Vec<i64>, i128))
    requires
        search_inputs(start@, adj@, lengths@, to_target@),
    ensures
        continues(start@, adj@, r.0@),
        r.1 == path_score(start@, r.0@, streets@, lengths@, to_target@, bias),
        r.1 >= 0,
        steps == 0 ==> r.0@ == start@,
        r.0@ != start@ ==> is_leaf(start@, adj@, lengths@, steps as int, r.0@),
        (exists|x: Seq<i64>|
            is_leaf(start@, adj@, lengths@, steps as int, x) && path_score(start@, x, streets@, lengths@, to_target@, bias) > 0)
            && search_tree(start@, adj@, lengths@, steps as int).finite()
            && search_tree(start@, adj@, lengths@, steps as int).len() <= max_expansions ==> r.1 > 0,
{
    let ghost s = start@;
    let ghost mut popped: Set<Seq<i64>> = Set::empty();
    let start_to_target = target_distance(to_target, start[start.len() - 1]);
    let done_at_start = streets_completed(start, streets);
    let mut best: Vec<i64> = copy_path(start);
    let mut best_score: i128 = 0;
    let mut queue: VecDeque<Branch> = VecDeque::new();
    assert(start@.subrange(0, start@.len() as int) == start@);
    assert(start@.subrange(start@.len() - 1, start@.len() as int).len() == 1);
    queue.push_back(Branch { path: copy_path(start), dist: 0, steps });
    let mut budget: u64 = max_expansions;
    proof {
        assert forall|x: Seq<i64>| #[trigger] node_steps(s, adj@, lengths@, steps as int, x) is Some
            implies popped.contains(x) || exists|j: int| 0 <= j < queue@.len() && is_prefix(#[trigger] queue@[j].path@, x) by {
            assert(is_prefix(queue@[0].path@, x));
        }
    }
    while budget > 0 && queue.len() > 0
        invariant
            s == start@,
            search_inputs(s, adj@, lengths@, to_target@),
            forall|j: int| 0 <= j < queue@.len() ==> branch_ok(#[trigger] queue@[j], s, adj@, lengths@, steps),
            continues(s, adj@, best@),
            best_score == path_score(s, best@, streets@, lengths@, to_target@, bias),
            start_to_target == to_target@[s.last()],
            done_at_start == num_complete(streets@, s),
            0 <= best_score <= SCORE_BOUND,
            steps == 0 ==> best@ == s,
            best@ == s || is_leaf(s, adj@, lengths@, steps as int, best@),
            budget <= max_expansions,
            popped.finite(),
            popped.len() == max_expansions - budget,
            forall|j: int| 0 <= j < queue@.len() ==> !popped.contains(#[trigger] queue@[j].path@),
            forall|i: int, j: int| 0 <= i < j < queue@.len() ==> queue@[i].path@ != queue@[j].path@,
            forall|p: Seq<i64>| #[trigger] popped.contains(p) ==> node_steps(s, adj@, lengths@, steps as int, p) is Some,
            forall|p: Seq<i64>| #[trigger] popped.contains(p) && p.len() > s.len() ==> popped.contains(p.drop_last()),
            forall|j: int| 0 <= j < queue@.len() && (#[trigger] queue@[j]).path@.len() > s.len() ==> popped.contains(queue@[j].path@.drop_last()),
            forall|p: Seq<i64>| #[trigger] popped.contains(p) && is_leaf(s, adj@, lengths@, steps as int, p)
                ==> path_score(s, p, streets@, lengths@, to_target@, bias) <= best_score,
            best_score == 0 ==> forall|x: Seq<i64>| #[trigger] node_steps(s, adj@, lengths@, steps as int, x) is Some
                ==> popped.contains(x) || exists|j: int| 0 <= j < queue@.len() && is_prefix(#[trigger] queue@[j].path@, x),
        decreases budget,
    {
        let ghost q0 = queue@;
        let ghost best0 = best_score;
        budget = budget - 1;
        let b = queue.pop_front().unwrap();
        assert(b == q0[0]);
        assert(forall|j: int| 0 <= j < queue@.len() ==> #[trigger] queue@[j] == q0[j + 1]);
        assert(branch_ok(b, s, adj@, lengths@, steps));
        let ghost bp = b.path@;
        let ghost pb = popped;
        proof {
            assert(!pb.contains(bp));
            popped = popped.insert(bp);
            assert forall|j: int| 0 <= j < queue@.len() implies !popped.contains(#[trigger] queue@[j].path@) by {
                assert(queue@[j] == q0[j + 1]);
                assert(q0[0].path@ != q0[j + 1].path@);
            }
            assert forall|j: int| 0 <= j < queue@.len() && (#[trigger] queue@[j]).path@.len() > s.len() implies pb.contains(queue@[j].path@.drop_last()) by {
                assert(queue@[j] == q0[j + 1]);
            }
        }
        let last = b.path[b.path.len() - 1];
        let done = streets_completed(&b.path, streets);
        let to_t = target_distance(to_target, last);
        let sc = branch_score(done, done_at_start, bias, start_to_target, to_t, b.dist);
        assert(sc == path_score(s, bp, streets@, lengths@, to_target@, bias));
        if b.steps == 0 {
            if sc >= best_score {
                best = b.path;
                best_score = sc;
            }
            proof {
                if best_score == 0 {
                    lemma_after_leaf(s, adj@, lengths@, steps, q0, queue@, pb, bp);
                }
            }
        } else if best_score == 0 || best_score - sc < PRUNE_MARGIN {
            let ghost qa = queue@;
            expand_branch(&mut queue, &b, adj, lengths, Ghost(s), Ghost(to_target@), Ghost(steps));
            proof {
                lemma_after_expand(s, adj@, lengths@, steps, q0, qa, queue@, pb, popped, bp, best_score as int);
            }
        }
    }
    proof {
        if best_score == 0 && (exists|x: Seq<i64>|
            is_leaf(s, adj@, lengths@, steps as int, x) && path_score(s, x, streets@, lengths@, to_target@, bias) > 0)
            && search_tree(s, adj@, lengths@, steps as int).finite()
            && search_tree(s, adj@, lengths@, steps as int).len() <= max_expansions {
            let tree = search_tree(s, adj@, lengths@, steps as int);
            let x = choose|x: Seq<i64>|
                is_leaf(s, adj@, lengths@, steps as int, x) && path_score(s, x, streets@, lengths@, to_target@, bias) > 0;
            if queue@.len() > 0 {
                let q = queue@[0].path@;
                assert(popped.insert(q).subset_of(tree));
                vstd::set_lib::lemma_len_subset(popped.insert(q), tree);
            }
            assert(popped.contains(x) || exists|j: int| 0 <= j < queue@.len() && is_prefix(#[trigger] queue@[j].path@, x));
        }
    }
    (best, best_score)
}

/// The budget of attempt `j` of a search: `RETRY_STEPS` more per retry, up
/// to the largest `u32`.
pub open spec fn retry_budget(steps: u32, j: int) -> int {
    if steps + RETRY_STEPS * j <= u32::MAX {
        steps + RETRY_STEPS * j
    } else {
        u32::MAX as int
    }
}

/// Attempt `j` of a search (the first being `0`), whose budget is
/// `steps + RETRY_STEPS * j`, is sure to find a route that scores above
/// zero: the attempt is made at all, some leaf of its tree scores above
/// zero, and the expansion cap covers the whole tree.
pub open spec fn attempt_finds(
    start: Seq<i64>,
    adj: Map<i64, HashSet<i64>>,
    t: Map<i64, HashMap<i64, u64>>,
    ss: Seq<Street>,
    to_target: Map<i64, u64>,
    bias: bool,
    steps: u32,
    max_retries: u32,
    max_expansions: u64,
    j: int,
) -> bool {
    let budget = steps + RETRY_STEPS * j;
    &&& 0 <= j <= max_retries
    &&& (j == 0 || steps > 0)
    &&& budget <= u32::MAX
    &&& exists|x: Seq<i64>| is_leaf(start, adj, t, budget, x) && path_score(start, x, ss, t, to_target, bias) > 0
    &&& search_tree(start, adj, t, budget).finite()
    &&& search_tree(start, adj, t, budget).len() <= max_expansions
}

/// Extends `starting_path` toward the target, and tells whether the route
/// improves on it (scores above zero); `false` reports that no improving
/// route was found within the retries: explores branching
/// continuations along `adj_list_all` and returns the best-scoring leaf it
/// reaches, or the start when none scores at least zero (a score is newly
/// completed streets per distance walked, plus progress toward the target
/// when `params.hot_spots` is set; see `path_score`). The exploration is a
/// heuristic: a branch trailing the best by `PRUNE_MARGIN` is not expanded.
/// A search that finds no positive score is run again with a budget larger
/// by `RETRY_STEPS`, at most `params.max_retries` times; a zero budget asks
/// for the start alone. Ways on are tried in ascending id order and, among
/// leaves of equal score, the last one evaluated wins, so the route depends
/// on the tables' contents only. The result is the start or a leaf of the
/// search tree (`is_leaf`) for one of the budgets tried; when some attempt
/// is sure to find a positive route (`attempt_finds`), the result scores
/// above zero.
/// `to_target` holds each point's distance to the target in millimetres.
pub fn search_route(
    starting_path: &[i64],
    params: &SearchParams,
    adj_list_all: &HashMap<i64, HashSet<i64>>,
    lengths: &Lengths,
    to_target: &HashMap<i64, u64>,
    streets: &[Street],
) -> (r: (Vec<i64>, bool))
    requires
        search_inputs(starting_path@, adj_list_all@, lengths@, to_target@),
    ensures
        r.0@.len() >= 1,
        continues(starting_path@, adj_list_all@, r.0@),
        path_score(starting_path@, r.0@, streets@, lengths@, to_target@, params.hot_spots) >= 0,
        params.steps == 0 ==> r.0@ == starting_path@,
        r.0@ != starting_path@ ==> exists|j: int|
            0 <= j <= params.max_retries && is_leaf(
                starting_path@,
                adj_list_all@,
                lengths@,
                #[trigger] retry_budget(params.steps, j),
                r.0@,
            ),
        forall|j: int| #[trigger] attempt_finds(
            starting_path@, adj_list_all@, lengths@, streets@, to_target@, params.hot_spots,
            params.steps, params.max_retries, params.max_expansions, j,
        ) ==> path_score(starting_path@, r.0@, streets@, lengths@, to_target@, params.hot_spots) > 0,
        r.1 == (path_score(starting_path@, r.0@, streets@, lengths@, to_target@, params.hot_spots) > 0),
{
    let mut steps = params.steps;
    let (mut best, mut best_score) = search_once(
        starting_path,
        steps,
        params.hot_spots,
        params.max_expansions,
        adj_list_all,
        lengths,
        to_target,
        streets,
    );
    let mut tries: u32 = 0;
    proof {
        if best@ != starting_path@ {
            assert(is_leaf(starting_path@, adj_list_all@, lengths@, retry_budget(params.steps, 0), best@));
        }
    }
    while steps > 0 && best_score == 0 && tries < params.max_retries
        invariant
            search_inputs(starting_path@, adj_list_all@, lengths@, to_target@),
            continues(starting_path@, adj_list_all@, best@),
            best_score == path_score(starting_path@, best@, streets@, lengths@, to_target@, params.hot_spots),
            best_score >= 0,
            params.steps == 0 ==> best@ == starting_path@,
            steps >= params.steps,
            best@ != starting_path@ ==> exists|j: int|
                0 <= j <= tries && is_leaf(
                    starting_path@,
                    adj_list_all@,
                    lengths@,
                    #[trigger] retry_budget(params.steps, j),
                    best@,
                ),
            tries <= params.max_retries,
            steps as int == retry_budget(params.steps, tries as int),
            forall|j: int| 0 <= j <= tries && #[trigger] attempt_finds(
                starting_path@, adj_list_all@, lengths@, streets@, to_target@, params.hot_spots,
                params.steps, params.max_retries, params.max_expansions, j,
            ) ==> best_score > 0,
            params.steps == 0 ==> steps == 0,
        decreases params.max_retries - tries,
    {
        steps = steps.saturating_add(RETRY_STEPS);
        let (p, sc) = search_once(
            starting_path,
            steps,
            params.hot_spots,
            params.max_expansions,
            adj_list_all,
            lengths,
            to_target,
            streets,
        );
        best = p;
        best_score = sc;
        tries = tries + 1;
        proof {
            if best@ != starting_path@ {
                assert(is_leaf(starting_path@, adj_list_all@, lengths@, retry_budget(params.steps, tries as int), best@));
            }
        }
    }
    proof {
        assert forall|j: int| #[trigger] attempt_finds(
            starting_path@, adj_list_all@, lengths@, streets@, to_target@, params.hot_spots,
            params.steps, params.max_retries, params.max_expansions, j,
        ) implies best_score > 0 by {
            if j > tries {
                assert(params.steps > 0);
            }
        }
    }
    let improved = best_score > 0;
    (best, improved)
}

/// Extends `starting_path` toward the target: the route of `search_route`.
pub fn path_bfs(
    starting_path: &[i64],
    params: &SearchParams,
    adj_list_all: &HashMap<i64, HashSet<i64>>,
    lengths: &Lengths,
    to_target: &HashMap<i64, u64>,
    streets: &[Street],
) -> (r: Vec<i64>)
    requires
        search_inputs(starting_path@, adj_list_all@, lengths@, to_target@),
    ensures
        r@.len() >= 1,
        continues(starting_path@, adj_list_all@, r@),
        path_score(starting_path@, r@, streets@, lengths@, to_target@, params.hot_spots) >= 0,
        params.steps == 0 ==> r@ == starting_path@,
        r@ != starting_path@ ==> exists|j: int|
            0 <= j <= params.max_retries && is_leaf(
                starting_path@,
                adj_list_all@,
                lengths@,
                #[trigger] retry_budget(params.steps, j),
                r@,
            ),
        forall|j: int| #[trigger] attempt_finds(
            starting_path@, adj_list_all@, lengths@, streets@, to_target@, params.hot_spots,
            params.steps, params.max_retries, params.max_expansions, j,
        ) ==> path_score(starting_path@, r@, streets@, lengths@, to_target@, params.hot_spots) > 0,
{
    search_route(starting_path, params, adj_list_all, lengths, to_target, streets).0
}

} // verus!
