//! Street, point and adjacency tables, and street completion.
use std::collections::{HashMap, HashSet};
use vstd::prelude::*;

use crate::distance::{pairs_known, total_len, total_length_below, Lengths};

verus! {

broadcast use vstd::std_specs::hash::group_hash_axioms;

/// The kind of a map element.
pub enum ElementKind {
    /// A located point.
    Node,
    /// A sequence of points.
    Way,
    /// Anything else; ignored.
    Other,
}

/// One map element. Coordinates are in units of 1e-7 degree.
pub struct JsonElement {
    pub kind: ElementKind,
    pub id: i64,
    pub lat: Option<i64>,
    pub lon: Option<i64>,
    pub nodes: Option<Vec<i64>>,
    pub name: Option<String>,
}

/// The decimal digits of `n`.
pub open spec fn digits(n: nat) -> Seq<char>
    decreases n,
{
    let d = seq!['0', '1', '2', '3', '4', '5', '6', '7', '8', '9'];
    if n < 10 {
        seq![d[n as int]]
    } else {
        digits(n / 10).push(d[(n % 10) as int])
    }
}

/// The decimal form of `i`, with a minus sign when it is negative.
pub open spec fn decimal(i: int) -> Seq<char> {
    if i < 0 {
        seq!['-'] + digits((-i) as nat)
    } else {
        digits(i as nat)
    }
}

/// Relies on the `Display` of `i64` (through `to_string`): the decimal form
/// of the value, led by a minus sign when it is negative.
#[verifier::external_body]
fn decimal_string(i: i64) -> (r: String)
    ensures
        r@ == decimal(i as int),
{
    i.to_string()
}

/// The element is a way.
pub open spec fn is_way(e: JsonElement) -> bool {
    e.kind is Way
}

/// The node ids of a way, empty when it lists none.
pub open spec fn way_nodes(e: JsonElement) -> Seq<i64> {
    match e.nodes {
        Some(v) => v@,
        None => Seq::empty(),
    }
}

/// The street a way belongs to: its name, or `unnamed_<id>` when it has none.
pub open spec fn street_key(e: JsonElement) -> Seq<char> {
    match e.name {
        Some(n) => n@,
        None => "unnamed_"@ + decimal(e.id as int),
    }
}

/// The node sequences of the ways of `es` that belong to street `key`, in
/// element order.
pub open spec fn ways_of(es: Seq<JsonElement>, key: Seq<char>) -> Seq<Seq<i64>>
    decreases es.len(),
{
    if es.len() == 0 {
        Seq::empty()
    } else {
        let e = es.last();
        ways_of(es.drop_last(), key) + if is_way(e) && street_key(e) == key {
            seq![way_nodes(e)]
        } else {
            Seq::empty()
        }
    }
}

/// Some way of `es` belongs to street `key`.
pub open spec fn has_way_named(es: Seq<JsonElement>, key: Seq<char>) -> bool {
    exists|m: int| 0 <= m < es.len() && is_way(#[trigger] es[m]) && street_key(es[m]) == key
}

/// A way named in `es` is still named after one more element.
proof fn lemma_has_way_named_push(es: Seq<JsonElement>, e: JsonElement, key: Seq<char>)
    requires
        has_way_named(es, key),
    ensures
        has_way_named(es.push(e), key),
{
    let m = choose|m: int| 0 <= m < es.len() && is_way(#[trigger] es[m]) && street_key(es[m]) == key;
    assert(es.push(e)[m] == es[m]);
}

/// The street table built from `es`: names are unique, each street holds
/// exactly the ways of its name in element order, and every way's street is
/// present.
pub open spec fn is_street_table(ss: Seq<Street>, es: Seq<JsonElement>) -> bool {
    &&& forall|i: int, j: int|
        0 <= i < ss.len() && 0 <= j < ss.len() && i != j ==> #[trigger] ss[i].name@ != #[trigger] ss[j].name@
    &&& forall|i: int| 0 <= i < ss.len() ==> segs(#[trigger] ss[i]) == ways_of(es, ss[i].name@)
    &&& forall|i: int| 0 <= i < ss.len() ==> has_way_named(es, (#[trigger] ss[i]).name@)
    &&& forall|m: int|
        0 <= m < es.len() && is_way(#[trigger] es[m]) ==> exists|i: int|
            0 <= i < ss.len() && (#[trigger] ss[i]).name@ == street_key(es[m])
}

/// A copy of the node ids of a way.
fn way_node_list(e: &JsonElement) -> (r: Vec<i64>)
    ensures
        r@ == way_nodes(*e),
{
    let mut r: Vec<i64> = Vec::new();
    match &e.nodes {
        Some(v) => {
            let mut i: usize = 0;
            while i < v.len()
                invariant
                    i <= v@.len(),
                    r@ == v@.subrange(0, i as int),
                decreases v.len() - i,
            {
                r.push(v[i]);
                i = i + 1;
            }
            assert(v@.subrange(0, v@.len() as int) == v@);
        },
        None => {},
    }
    r
}

/// The name of the street a way belongs to.
fn way_street_name(e: &JsonElement) -> (r: String)
    ensures
        r@ == street_key(*e),
{
    match &e.name {
        Some(n) => n.clone(),
        None => {
            let prefix = String::from_str("unnamed_");
            proof {
                reveal_strlit("unnamed_");
            }
            let d = decimal_string(e.id);
            prefix.concat(d.as_str())
        },
    }
}

/// Appending `e`'s nodes to the street of its name keeps the table exact.
proof fn lemma_street_table_grow(
    old_ss: Seq<Street>,
    new_ss: Seq<Street>,
    pre: Seq<JsonElement>,
    e: JsonElement,
    j: int,
)
    requires
        is_way(e),
        is_street_table(old_ss, pre),
        0 <= j < old_ss.len(),
        old_ss[j].name@ == street_key(e),
        new_ss.len() == old_ss.len(),
        forall|i: int| 0 <= i < old_ss.len() && i != j ==> new_ss[i] == old_ss[i],
        new_ss[j].name@ == old_ss[j].name@,
        segs(new_ss[j]) == segs(old_ss[j]).push(way_nodes(e)),
    ensures
        is_street_table(new_ss, pre.push(e)),
{
    let post = pre.push(e);
    assert(post.drop_last() == pre);
    assert forall|i: int| 0 <= i < new_ss.len() implies segs(#[trigger] new_ss[i]) == ways_of(post, new_ss[i].name@) by {
        if i != j {
            assert(old_ss[i].name@ != old_ss[j].name@);
            assert(ways_of(post, new_ss[i].name@) =~= ways_of(pre, new_ss[i].name@));
        } else {
            assert(ways_of(post, new_ss[i].name@) =~= ways_of(pre, new_ss[i].name@).push(way_nodes(e)));
        }
    }
    assert forall|i: int| 0 <= i < new_ss.len() implies has_way_named(post, (#[trigger] new_ss[i]).name@) by {
        assert(new_ss[i].name@ == old_ss[i].name@);
        lemma_has_way_named_push(pre, e, old_ss[i].name@);
    }
    assert forall|m: int| 0 <= m < post.len() && is_way(#[trigger] post[m]) implies exists|i: int|
        0 <= i < new_ss.len() && (#[trigger] new_ss[i]).name@ == street_key(post[m]) by {
        if m < pre.len() {
            assert(post[m] == pre[m]);
            let i = choose|i: int| 0 <= i < old_ss.len() && (#[trigger] old_ss[i]).name@ == street_key(pre[m]);
            assert(new_ss[i].name@ == old_ss[i].name@);
        } else {
            assert(new_ss[j].name@ == street_key(post[m]));
        }
    }
}

/// Adding a street for a name no street has yet keeps the table exact.
proof fn lemma_street_table_add(old_ss: Seq<Street>, st: Street, pre: Seq<JsonElement>, e: JsonElement)
    requires
        is_way(e),
        is_street_table(old_ss, pre),
        forall|i: int| 0 <= i < old_ss.len() ==> old_ss[i].name@ != street_key(e),
        st.name@ == street_key(e),
        segs(st) == seq![way_nodes(e)],
    ensures
        is_street_table(old_ss.push(st), pre.push(e)),
{
    let post = pre.push(e);
    let new_ss = old_ss.push(st);
    let k = pre.len() as int;
    assert(post.drop_last() == pre);
    assert forall|m: int| 0 <= m < pre.len() && is_way(#[trigger] pre[m]) implies street_key(pre[m]) != street_key(e) by {
        let i = choose|i: int| 0 <= i < old_ss.len() && (#[trigger] old_ss[i]).name@ == street_key(pre[m]);
    }
    lemma_ways_of_absent(pre, street_key(e));
    assert forall|i: int| 0 <= i < new_ss.len() implies segs(#[trigger] new_ss[i]) == ways_of(post, new_ss[i].name@) by {
        if i < old_ss.len() {
            assert(new_ss[i] == old_ss[i]);
            assert(ways_of(post, new_ss[i].name@) =~= ways_of(pre, new_ss[i].name@));
        } else {
            assert(ways_of(post, new_ss[i].name@) =~= seq![way_nodes(e)]);
        }
    }
    assert forall|i: int| 0 <= i < new_ss.len() implies has_way_named(post, (#[trigger] new_ss[i]).name@) by {
        if i < old_ss.len() {
            assert(new_ss[i] == old_ss[i]);
            lemma_has_way_named_push(pre, e, old_ss[i].name@);
        } else {
            assert(post[k] == e);
        }
    }
    assert forall|m: int| 0 <= m < post.len() && is_way(#[trigger] post[m]) implies exists|i: int|
        0 <= i < new_ss.len() && (#[trigger] new_ss[i]).name@ == street_key(post[m]) by {
        if m < pre.len() {
            assert(post[m] == pre[m]);
            let i = choose|i: int| 0 <= i < old_ss.len() && (#[trigger] old_ss[i]).name@ == street_key(pre[m]);
            assert(new_ss[i] == old_ss[i]);
        } else {
            assert(new_ss[old_ss.len() as int].name@ == street_key(post[m]));
        }
    }
}

/// Adds way `e` to the street table of `pre`, giving that of `pre` + `e`.
fn add_way(streets: &mut Vec<Street>, e: &JsonElement, Ghost(pre): Ghost<Seq<JsonElement>>)
    requires
        is_way(*e),
        is_street_table(old(streets)@, pre),
    ensures
        is_street_table(final(streets)@, pre.push(*e)),
{
    let key = way_street_name(e);
    let nodes = way_node_list(e);
    let mut j: usize = 0;
    let mut found = false;
    while j < streets.len() && !found
        invariant
            0 <= j <= streets@.len(),
            found ==> j < streets@.len() && streets@[j as int].name@ == key@,
            forall|i: int| 0 <= i < j ==> streets@[i].name@ != key@,
        decreases streets.len() - j + if found { 0int } else { 1int },
    {
        if streets[j].name == key {
            found = true;
        } else {
            j = j + 1;
        }
    }
    let ghost old_streets = streets@;
    if found {
        let mut st = streets.remove(j);
        let ghost before = st;
        let ghost nvec = nodes;
        st.segments.push(nodes);
        assert(st.segments@ == before.segments@.push(nvec));
        assert(nvec.deep_view() =~= nvec@);
        assert(segs(st) =~= segs(before).push(way_nodes(*e)));
        streets.insert(j, st);
        proof {
            lemma_street_table_grow(old_streets, streets@, pre, *e, j as int);
        }
    } else {
        let mut segments: Vec<Vec<i64>> = Vec::new();
        let ghost nvec = nodes;
        segments.push(nodes);
        let st = Street { name: key, segments };
        assert(nvec.deep_view() =~= nvec@);
        assert(segs(st) =~= seq![way_nodes(*e)]);
        streets.push(st);
        proof {
            lemma_street_table_add(old_streets, st, pre, *e);
        }
    }
}

/// A non-way element leaves the street table as it is.
proof fn lemma_street_table_skip(streets: Seq<Street>, pre: Seq<JsonElement>, e: JsonElement)
    requires
        !is_way(e),
        is_street_table(streets, pre),
    ensures
        is_street_table(streets, pre.push(e)),
{
    let post = pre.push(e);
    assert(post.last() == e);
    assert(post.drop_last() == pre);
    assert forall|i: int| 0 <= i < streets.len() implies segs(#[trigger] streets[i]) == ways_of(post, streets[i].name@) by {
        assert(ways_of(post, streets[i].name@) =~= ways_of(pre, streets[i].name@));
    }
    assert forall|i: int| 0 <= i < streets.len() implies has_way_named(post, (#[trigger] streets[i]).name@) by {
        lemma_has_way_named_push(pre, e, streets[i].name@);
    }
    assert forall|m: int| 0 <= m < post.len() && is_way(#[trigger] post[m]) implies exists|i: int|
        0 <= i < streets.len() && (#[trigger] streets[i]).name@ == street_key(post[m]) by {
        if m < pre.len() {
            assert(post[m] == pre[m]);
        } else {
            assert(post[m] == e);
        }
    }
}

/// Groups the ways of `elements` into streets by name; a way without a name
/// is a street of its own, named `unnamed_<id>`. The order of the streets is
/// not part of the contract.
pub fn street_dictionary(elements: &[JsonElement]) -> (r: Vec<Street>)
    ensures
        is_street_table(r@, elements@),
{
    let ghost es = elements@;
    let mut streets: Vec<Street> = Vec::new();
    let mut k: usize = 0;
    while k < elements.len()
        invariant
            es == elements@,
            k <= es.len(),
            is_street_table(streets@, es.subrange(0, k as int)),
        decreases elements.len() - k,
    {
        let ghost pre = es.subrange(0, k as int);
        assert(es.subrange(0, k + 1) == pre.push(es[k as int]));
        let e = &elements[k];
        if matches!(e.kind, ElementKind::Way) {
            add_way(&mut streets, e, Ghost(pre));
        } else {
            proof {
                lemma_street_table_skip(streets@, pre, *e);
            }
        }
        k = k + 1;
    }
    assert(es.subrange(0, es.len() as int) == es);
    streets
}

/// A name that no way of `es` carries has no ways.
proof fn lemma_ways_of_absent(es: Seq<JsonElement>, key: Seq<char>)
    requires
        forall|m: int| 0 <= m < es.len() && is_way(#[trigger] es[m]) ==> street_key(es[m]) != key,
    ensures
        ways_of(es, key) == Seq::<Seq<i64>>::empty(),
    decreases es.len(),
{
    if es.len() > 0 {
        assert forall|m: int| 0 <= m < es.drop_last().len() && is_way(#[trigger] es.drop_last()[m]) implies street_key(es.drop_last()[m]) != key by {
            assert(es.drop_last()[m] == es[m]);
        }
        lemma_ways_of_absent(es.drop_last(), key);
    }
}

/// A street: its name and the node sequences of the ways that carry it.
pub struct Street {
    pub name: String,
    pub segments: Vec<Vec<i64>>,
}

/// The node sequences of a street, as mathematical sequences.
pub open spec fn segs(s: Street) -> Seq<Seq<i64>> {
    s.segments.deep_view()
}

/// Every node of every segment of `s` occurs somewhere in `path`.
pub open spec fn street_complete(s: Street, path: Seq<i64>) -> bool {
    forall|k: int, i: int|
        0 <= k < segs(s).len() && 0 <= i < segs(s)[k].len() ==> path.contains(
            #[trigger] segs(s)[k][i],
        )
}

/// The number of streets of `ss` that are complete for `path`.
pub open spec fn num_complete(ss: Seq<Street>, path: Seq<i64>) -> nat
    decreases ss.len(),
{
    if ss.len() == 0 {
        0
    } else {
        num_complete(ss.drop_last(), path) + if street_complete(ss.last(), path) {
            1nat
        } else {
            0nat
        }
    }
}

/// Whether `n` occurs in `path`.
fn path_contains(path: &[i64], n: i64) -> (r: bool)
    ensures
        r == path@.contains(n),
{
    let mut i: usize = 0;
    while i < path.len()
        invariant
            i <= path@.len(),
            forall|j: int| 0 <= j < i ==> path@[j] != n,
        decreases path.len() - i,
    {
        if path[i] == n {
            return true;
        }
        i = i + 1;
    }
    false
}

/// Whether every node of every segment of `s` occurs in `path`.
pub fn street_is_complete(path: &[i64], s: &Street) -> (r: bool)
    ensures
        r == street_complete(*s, path@),
{
    let mut k: usize = 0;
    while k < s.segments.len()
        invariant
            k <= segs(*s).len(),
            segs(*s).len() == s.segments@.len(),
            forall|kk: int, i: int|
                0 <= kk < k && 0 <= i < segs(*s)[kk].len() ==> path@.contains(
                    #[trigger] segs(*s)[kk][i],
                ),
        decreases s.segments.len() - k,
    {
        let seg = &s.segments[k];
        assert(seg@ == segs(*s)[k as int]);
        let mut i: usize = 0;
        while i < seg.len()
            invariant
                i <= seg@.len(),
                k < segs(*s).len(),
                seg@ == segs(*s)[k as int],
                forall|j: int| 0 <= j < i ==> path@.contains(#[trigger] seg@[j]),
            decreases seg.len() - i,
        {
            if !path_contains(path, seg[i]) {
                assert(!path@.contains(segs(*s)[k as int][i as int]));
                return false;
            }
            i = i + 1;
        }
        k = k + 1;
    }
    true
}

/// The number of streets that `path` has completed.
pub fn streets_completed(path: &[i64], streets: &[Street]) -> (r: usize)
    ensures
        r == num_complete(streets@, path@),
{
    let mut count: usize = 0;
    let mut i: usize = 0;
    while i < streets.len()
        invariant
            i <= streets@.len(),
            count == num_complete(streets@.subrange(0, i as int), path@),
            count <= i,
        decreases streets.len() - i,
    {
        assert(streets@.subrange(0, i + 1).drop_last() == streets@.subrange(0, i as int));
        if street_is_complete(path, &streets[i]) {
            count = count + 1;
        }
        i = i + 1;
    }
    assert(streets@.subrange(0, streets@.len() as int) == streets@);
    count
}

/// `b` is a neighbour of `a` in the adjacency table.
pub open spec fn adj_has(adj: Map<i64, HashSet<i64>>, a: i64, b: i64) -> bool {
    adj.contains_key(a) && adj[a]@.contains(b)
}

/// Consecutive points of `seg` join `a` and `b`, in either direction.
pub open spec fn seg_pair(seg: Seq<i64>, a: i64, b: i64) -> bool {
    exists|i: int|
        0 <= i < seg.len() - 1 && #[trigger] pair_at(seg, i, a, b)
}

/// Points `i` and `i + 1` of `seg` are `a` and `b`, in either order.
pub open spec fn pair_at(seg: Seq<i64>, i: int, a: i64, b: i64) -> bool {
    (seg[i] == a && seg[i + 1] == b) || (seg[i] == b && seg[i + 1] == a)
}

/// Some segment among the first `n` of street `st` joins `a` and `b`.
pub open spec fn seg_edge_upto(st: Street, n: int, a: i64, b: i64) -> bool {
    exists|k: int| 0 <= k < n && #[trigger] seg_pair(segs(st)[k], a, b)
}

/// Some segment of some street among the first `n` of `ss` joins `a` and `b`.
pub open spec fn street_edge_upto(ss: Seq<Street>, n: int, a: i64, b: i64) -> bool {
    exists|t: int| 0 <= t < n && #[trigger] seg_edge_upto(ss[t], segs(ss[t]).len() as int, a, b)
}

/// Some segment of some street of `ss` joins `a` and `b`.
pub open spec fn street_edge(ss: Seq<Street>, a: i64, b: i64) -> bool {
    street_edge_upto(ss, ss.len() as int, a, b)
}

/// Every listed point has at least one neighbour.
pub open spec fn rows_nonempty(adj: Map<i64, HashSet<i64>>) -> bool {
    forall|a: i64| #[trigger] adj.contains_key(a) ==> exists|b: i64| adj[a]@.contains(b)
}

/// `adj` is the adjacency table of the streets `ss`: exactly the pairs that
/// some segment joins, and no point without a neighbour.
pub open spec fn is_adjacency(adj: Map<i64, HashSet<i64>>, ss: Seq<Street>) -> bool {
    &&& forall|a: i64, b: i64| #[trigger] adj_has(adj, a, b) <==> street_edge(ss, a, b)
    &&& rows_nonempty(adj)
}

/// Records `b` as a neighbour of `a`.
fn add_neighbor(adj: &mut HashMap<i64, HashSet<i64>>, a: i64, b: i64)
    requires
        rows_nonempty(old(adj)@),
    ensures
        rows_nonempty(final(adj)@),
        forall|x: i64, y: i64| #[trigger]
            adj_has(final(adj)@, x, y) <==> (adj_has(old(adj)@, x, y) || (x == a && y == b)),
{
    let ghost before = adj@;
    let mut row = match adj.remove(&a) {
        Some(r) => r,
        None => HashSet::new(),
    };
    row.insert(b);
    adj.insert(a, row);
    assert forall|x: i64| #[trigger] adj@.contains_key(x) implies exists|y: i64| adj@[x]@.contains(y) by {
        if x == a {
            assert(adj@[x]@.contains(b));
        } else {
            assert(before.contains_key(x));
        }
    }
}

/// Records both directions of every consecutive pair of `seg`.
fn add_segment(adj: &mut HashMap<i64, HashSet<i64>>, seg: &Vec<i64>)
    requires
        rows_nonempty(old(adj)@),
    ensures
        rows_nonempty(final(adj)@),
        forall|x: i64, y: i64| #[trigger]
            adj_has(final(adj)@, x, y) <==> (adj_has(old(adj)@, x, y) || seg_pair(seg@, x, y)),
{
    let ghost before = adj@;
    let mut i: usize = 1;
    while i < seg.len()
        invariant
            1 <= i,
            rows_nonempty(adj@),
            forall|x: i64, y: i64| #[trigger]
                adj_has(adj@, x, y) <==> (adj_has(before, x, y) || exists|j: int|
                    0 <= j < i - 1 && j < seg@.len() - 1 && #[trigger] pair_at(seg@, j, x, y)),
        decreases seg.len() - i,
    {
        add_neighbor(adj, seg[i - 1], seg[i]);
        add_neighbor(adj, seg[i], seg[i - 1]);
        assert forall|x: i64, y: i64| #[trigger] adj_has(adj@, x, y) implies (adj_has(before, x, y) || exists|j: int|
            0 <= j < i && j < seg@.len() - 1 && #[trigger] pair_at(seg@, j, x, y)) by {
            if (x == seg@[i - 1] && y == seg@[i as int]) || (x == seg@[i as int] && y == seg@[i - 1]) {
                assert(pair_at(seg@, i - 1, x, y));
            }
        }
        i = i + 1;
    }
    assert forall|x: i64, y: i64| #[trigger] adj_has(adj@, x, y) == (adj_has(before, x, y) || seg_pair(seg@, x, y)) by {
        if seg_pair(seg@, x, y) {
            let j = choose|j: int| 0 <= j < seg@.len() - 1 && #[trigger] pair_at(seg@, j, x, y);
            assert(0 <= j < i - 1 || seg@.len() <= 1);
        }
    }
}

/// The undirected adjacency table of the streets: both directions of every
/// consecutive pair of every segment.
pub fn adjacency_list(streets: &[Street]) -> (r: HashMap<i64, HashSet<i64>>)
    ensures
        is_adjacency(r@, streets@),
{
    let ghost ss = streets@;
    let mut adj: HashMap<i64, HashSet<i64>> = HashMap::new();
    let mut t: usize = 0;
    while t < streets.len()
        invariant
            ss == streets@,
            t <= ss.len(),
            rows_nonempty(adj@),
            forall|x: i64, y: i64| #[trigger] adj_has(adj@, x, y) <==> street_edge_upto(ss, t as int, x, y),
        decreases streets.len() - t,
    {
        let st = &streets[t];
        let mut k: usize = 0;
        while k < st.segments.len()
            invariant
                ss == streets@,
                t < ss.len(),
                *st == ss[t as int],
                k <= segs(*st).len(),
                segs(*st).len() == st.segments@.len(),
                rows_nonempty(adj@),
                forall|x: i64, y: i64| #[trigger] adj_has(adj@, x, y) <==> (street_edge_upto(ss, t as int, x, y) || seg_edge_upto(*st, k as int, x, y)),
            decreases st.segments.len() - k,
        {
            assert(st.segments@[k as int]@ == segs(*st)[k as int]);
            add_segment(&mut adj, &st.segments[k]);
            assert forall|x: i64, y: i64| #[trigger] adj_has(adj@, x, y) implies (street_edge_upto(ss, t as int, x, y) || seg_edge_upto(*st, k + 1, x, y)) by {
                if seg_pair(segs(*st)[k as int], x, y) {
                    assert(seg_edge_upto(*st, k + 1, x, y));
                }
            }
            assert forall|x: i64, y: i64| (street_edge_upto(ss, t as int, x, y) || seg_edge_upto(*st, k + 1, x, y)) implies #[trigger] adj_has(adj@, x, y) by {
                if seg_edge_upto(*st, k + 1, x, y) && !seg_edge_upto(*st, k as int, x, y) {
                    let kk = choose|kk: int| 0 <= kk < k + 1 && #[trigger] seg_pair(segs(*st)[kk], x, y);
                    assert(kk == k);
                }
            }
            k = k + 1;
        }
        assert forall|x: i64, y: i64| #[trigger] adj_has(adj@, x, y) == street_edge_upto(ss, t + 1, x, y) by {
            if seg_edge_upto(ss[t as int], segs(ss[t as int]).len() as int, x, y) {
                assert(street_edge_upto(ss, t + 1, x, y));
            }
            if street_edge_upto(ss, t + 1, x, y) && !street_edge_upto(ss, t as int, x, y) {
                let tt = choose|tt: int| 0 <= tt < t + 1 && #[trigger] seg_edge_upto(ss[tt], segs(ss[tt]).len() as int, x, y);
                assert(tt == t);
            }
        }
        t = t + 1;
    }
    adj
}

/// Adjacency is symmetric: in the table built from any streets, `b` is a
/// neighbour of `a` exactly when `a` is a neighbour of `b`.
pub proof fn lemma_adjacency_symmetric(adj: Map<i64, HashSet<i64>>, ss: Seq<Street>, a: i64, b: i64)
    requires
        is_adjacency(adj, ss),
    ensures
        adj_has(adj, a, b) <==> adj_has(adj, b, a),
{
    if street_edge(ss, a, b) {
        let t = choose|t: int| 0 <= t < ss.len() && #[trigger] seg_edge_upto(ss[t], segs(ss[t]).len() as int, a, b);
        let k = choose|k: int| 0 <= k < segs(ss[t]).len() && #[trigger] seg_pair(segs(ss[t])[k], a, b);
        let i = choose|i: int| 0 <= i < segs(ss[t])[k].len() - 1 && #[trigger] pair_at(segs(ss[t])[k], i, a, b);
        assert(pair_at(segs(ss[t])[k], i, b, a));
        assert(seg_pair(segs(ss[t])[k], b, a));
        assert(seg_edge_upto(ss[t], segs(ss[t]).len() as int, b, a));
    }
    if street_edge(ss, b, a) {
        let t = choose|t: int| 0 <= t < ss.len() && #[trigger] seg_edge_upto(ss[t], segs(ss[t]).len() as int, b, a);
        let k = choose|k: int| 0 <= k < segs(ss[t]).len() && #[trigger] seg_pair(segs(ss[t])[k], b, a);
        let i = choose|i: int| 0 <= i < segs(ss[t])[k].len() - 1 && #[trigger] pair_at(segs(ss[t])[k], i, b, a);
        assert(pair_at(segs(ss[t])[k], i, a, b));
        assert(seg_pair(segs(ss[t])[k], a, b));
        assert(seg_edge_upto(ss[t], segs(ss[t]).len() as int, a, b));
    }
}

/// Completion only grows along a route: every street complete for `p` is
/// complete for any extension `p + q`, so the count never drops.
pub proof fn lemma_completion_monotonic(ss: Seq<Street>, p: Seq<i64>, q: Seq<i64>)
    ensures
        forall|i: int| 0 <= i < ss.len() && street_complete(ss[i], p) ==> #[trigger] street_complete(ss[i], p + q),
        num_complete(ss, p) <= num_complete(ss, p + q),
    decreases ss.len(),
{
    assert forall|i: int| 0 <= i < ss.len() && street_complete(ss[i], p) implies #[trigger] street_complete(ss[i], p + q) by {
        lemma_complete_extends(ss[i], p, q);
    }
    if ss.len() > 0 {
        lemma_completion_monotonic(ss.drop_last(), p, q);
        lemma_complete_extends(ss.last(), p, q);
    }
}

/// A street complete for `p` is complete for `p + q`.
pub proof fn lemma_complete_extends(s: Street, p: Seq<i64>, q: Seq<i64>)
    ensures
        street_complete(s, p) ==> street_complete(s, p + q),
{
    if street_complete(s, p) {
        assert forall|k: int, i: int| 0 <= k < segs(s).len() && 0 <= i < segs(s)[k].len() implies (p + q).contains(#[trigger] segs(s)[k][i]) by {
            let j = choose|j: int| 0 <= j < p.len() && p[j] == segs(s)[k][i];
            assert((p + q)[j] == p[j]);
        }
    }
}

/// The element is a point with both coordinates.
pub open spec fn is_located(e: JsonElement) -> bool {
    e.kind is Node && e.lat is Some && e.lon is Some
}

/// The coordinates of the last located point of `es` with id `id`, if any.
pub open spec fn last_point(es: Seq<JsonElement>, id: i64) -> Option<(i64, i64)>
    decreases es.len(),
{
    if es.len() == 0 {
        None
    } else if is_located(es.last()) && es.last().id == id {
        Some((es.last().lat->0, es.last().lon->0))
    } else {
        last_point(es.drop_last(), id)
    }
}

/// The point table: each located point's id to its coordinates; a later
/// element with the same id wins. Points missing a coordinate are skipped.
pub fn node_dictionary(elements: &[JsonElement]) -> (r: HashMap<i64, (i64, i64)>)
    ensures
        forall|id: i64| #[trigger] r@.contains_key(id) == last_point(elements@, id) is Some,
        forall|id: i64| r@.contains_key(id) ==> #[trigger] r@[id] == last_point(elements@, id)->0,
{
    let ghost es = elements@;
    let mut points: HashMap<i64, (i64, i64)> = HashMap::new();
    let mut k: usize = 0;
    while k < elements.len()
        invariant
            es == elements@,
            k <= es.len(),
            forall|id: i64| #[trigger] points@.contains_key(id) == last_point(es.subrange(0, k as int), id) is Some,
            forall|id: i64| points@.contains_key(id) ==> #[trigger] points@[id] == last_point(es.subrange(0, k as int), id)->0,
        decreases elements.len() - k,
    {
        let ghost post = es.subrange(0, k + 1);
        assert(post.drop_last() == es.subrange(0, k as int));
        assert(post.last() == es[k as int]);
        let e = &elements[k];
        if matches!(e.kind, ElementKind::Node) {
            match (e.lat, e.lon) {
                (Some(lat), Some(lon)) => {
                    points.insert(e.id, (lat, lon));
                },
                _ => {},
            }
        }
        k = k + 1;
    }
    assert(es.subrange(0, es.len() as int) == es);
    points
}

/// Longest total length, in millimetres, of a street that counts toward a
/// hotspot.
pub const SHORT_STREET_MM: u64 = 200_000;

/// The segments of every street have all their lengths in the table.
pub open spec fn lengths_cover(t: Map<i64, HashMap<i64, u64>>, ss: Seq<Street>) -> bool {
    forall|i: int, k: int|
        0 <= i < ss.len() && 0 <= k < segs(ss[i]).len() ==> pairs_known(t, #[trigger] segs(ss[i])[k])
}

/// The street is complete for `path` and shorter than `SHORT_STREET_MM`.
pub open spec fn short_complete(s: Street, path: Seq<i64>, t: Map<i64, HashMap<i64, u64>>) -> bool {
    street_complete(s, path) && total_len(t, segs(s)) < SHORT_STREET_MM
}

/// The names of the short streets of `ss` that `path` completes, in order.
pub open spec fn short_complete_names(
    ss: Seq<Street>,
    path: Seq<i64>,
    t: Map<i64, HashMap<i64, u64>>,
) -> Seq<Seq<char>>
    decreases ss.len(),
{
    if ss.len() == 0 {
        Seq::empty()
    } else {
        let rest = short_complete_names(ss.drop_last(), path, t);
        if short_complete(ss.last(), path, t) {
            rest.push(ss.last().name@)
        } else {
            rest
        }
    }
}

/// There are no more such names than streets.
pub proof fn lemma_short_complete_names_len(
    ss: Seq<Street>,
    path: Seq<i64>,
    t: Map<i64, HashMap<i64, u64>>,
)
    ensures
        short_complete_names(ss, path, t).len() <= ss.len(),
    decreases ss.len(),
{
    if ss.len() > 0 {
        lemma_short_complete_names_len(ss.drop_last(), path, t);
    }
}

/// The names of the streets that `path` completes and whose total length is
/// under `SHORT_STREET_MM`, in street order.
pub fn streets_completed_names(path: &[i64], streets: &[Street], lengths: &Lengths) -> (r: Vec<String>)
    requires
        lengths_cover(lengths@, streets@),
    ensures
        r.deep_view() == short_complete_names(streets@, path@, lengths@),
{
    let mut names: Vec<String> = Vec::new();
    let mut i: usize = 0;
    while i < streets.len()
        invariant
            i <= streets@.len(),
            lengths_cover(lengths@, streets@),
            names.deep_view() == short_complete_names(streets@.subrange(0, i as int), path@, lengths@),
        decreases streets.len() - i,
    {
        let ghost pre = streets@.subrange(0, i + 1);
        assert(pre.drop_last() == streets@.subrange(0, i as int));
        assert(pre.last() == streets@[i as int]);
        let st = &streets[i];
        assert forall|k: int| 0 <= k < st.segments@.len() implies pairs_known(lengths@, #[trigger] st.segments@[k]@) by {
            assert(st.segments@[k]@ == segs(*st)[k]);
        }
        assert forall|k: int| 0 <= k < st.segments@.len() implies #[trigger] st.segments@[k].deep_view() == st.segments@[k]@ by {
            assert(st.segments@[k].deep_view() =~= st.segments@[k]@);
        }
        assert(st.segments@.map_values(|v: Vec<i64>| v@) =~= segs(*st));
        if street_is_complete(path, st) && total_length_below(st.segments.as_slice(), lengths, SHORT_STREET_MM) {
            let ghost before = names.deep_view();
            names.push(st.name.clone());
            assert(names.deep_view() =~= before.push(st.name@));
        }
        i = i + 1;
    }
    assert(streets@.subrange(0, streets@.len() as int) == streets@);
    names
}

} // verus!
