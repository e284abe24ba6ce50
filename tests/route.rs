use std::collections::{HashMap, HashSet};

use city_strides_utils::distance::{distance_of_path_precise, dist, total_length_below, Lengths};
use city_strides_utils::graph::{
    adjacency_list, node_dictionary, street_dictionary, street_is_complete, streets_completed,
    streets_completed_names, ElementKind, JsonElement, Street,
};
use city_strides_utils::hotspot::{hot_spot_count, hot_spot_grid, hot_spots, points_near, rank_hot_spots};
use city_strides_utils::search::{branch_choices, branch_score, neighbor_list, path_bfs, search_route, SearchParams};
use city_strides_utils::session::{choose_target, keep_going, needs_rescan};

fn street(name: &str, segments: Vec<Vec<i64>>) -> Street {
    Street { name: name.to_string(), segments }
}

fn way(id: i64, nodes: Option<Vec<i64>>, name: Option<&str>) -> JsonElement {
    JsonElement {
        kind: ElementKind::Way,
        id,
        lat: None,
        lon: None,
        nodes,
        name: name.map(|n| n.to_string()),
    }
}

fn point(id: i64, lat: Option<i64>, lon: Option<i64>) -> JsonElement {
    JsonElement { kind: ElementKind::Node, id, lat, lon, nodes: None, name: None }
}

/// Every edge of `adj` gets length `mm`.
fn uniform_lengths(adj: &HashMap<i64, HashSet<i64>>, mm: u64) -> Lengths {
    let mut t: Lengths = HashMap::new();
    for (a, row) in adj {
        for b in row {
            t.entry(*a).or_default().insert(*b, mm);
        }
    }
    t
}

fn lengths_of(pairs: &[(i64, i64, u64)]) -> Lengths {
    let mut t: Lengths = HashMap::new();
    for (a, b, mm) in pairs {
        t.entry(*a).or_default().insert(*b, *mm);
        t.entry(*b).or_default().insert(*a, *mm);
    }
    t
}

fn find<'a>(streets: &'a [Street], name: &str) -> &'a Street {
    streets.iter().find(|s| s.name == name).expect("street present")
}

fn params(steps: u32, hot_spots: bool) -> SearchParams {
    SearchParams { steps, hot_spots, max_retries: 2, max_expansions: 10_000 }
}

#[test]
fn main_street_completion_scenario() {
    let streets = vec![street("Main", vec![vec![1, 2, 3]])];
    let adj = adjacency_list(&streets);
    assert_eq!(adj[&1], HashSet::from([2]));
    assert_eq!(adj[&2], HashSet::from([1, 3]));
    assert_eq!(adj[&3], HashSet::from([2]));
    assert_eq!(streets_completed(&[1], &streets), 0);
    assert_eq!(streets_completed(&[1, 2, 3], &streets), 1);
}

#[test]
fn disjoint_streets_one_completed() {
    let streets = vec![street("North", vec![vec![1, 2, 3]]), street("South", vec![vec![10, 11]])];
    assert_eq!(streets_completed(&[3, 1, 2], &streets), 1);
    assert_eq!(streets_completed(&[10, 11, 1, 2, 3], &streets), 2);
    assert_eq!(streets_completed(&[], &streets), 0);
}

#[test]
fn street_with_several_segments_needs_all() {
    let s = street("Ring", vec![vec![1, 2], vec![3, 4]]);
    assert!(!street_is_complete(&[1, 2, 3], &s));
    assert!(street_is_complete(&[4, 3, 2, 1], &s));
    let empty = street("Empty", vec![vec![]]);
    assert!(street_is_complete(&[], &empty));
}

#[test]
fn adjacency_is_symmetric() {
    let streets = vec![
        street("A", vec![vec![1, 2, 3, 4], vec![2, 5]]),
        street("B", vec![vec![5, 6], vec![7]]),
        street("C", vec![vec![6, 1]]),
    ];
    let adj = adjacency_list(&streets);
    for (a, row) in &adj {
        assert!(!row.is_empty());
        for b in row {
            assert!(adj[b].contains(a), "{} -> {} without the way back", a, b);
        }
    }
    assert!(!adj.contains_key(&7));
    assert_eq!(adj[&2], HashSet::from([1, 3, 5]));
    assert_eq!(adj[&6], HashSet::from([5, 1]));
}

#[test]
fn adjacency_of_no_streets_is_empty() {
    assert!(adjacency_list(&[]).is_empty());
}

#[test]
fn completion_is_monotonic_along_a_route() {
    let streets = vec![
        street("A", vec![vec![1, 2]]),
        street("B", vec![vec![2, 3, 4]]),
        street("C", vec![vec![9]]),
    ];
    let route = [1, 2, 3, 4, 9];
    let mut last = 0;
    for n in 0..=route.len() {
        let c = streets_completed(&route[..n], &streets);
        assert!(c >= last);
        last = c;
    }
    assert_eq!(last, 3);
}

#[test]
fn street_dictionary_groups_by_name() {
    let elements = vec![
        way(10, Some(vec![1, 2]), Some("Main")),
        point(1, Some(5), Some(6)),
        way(11, Some(vec![2, 3]), Some("Main")),
        way(12, None, Some("Side")),
    ];
    let streets = street_dictionary(&elements);
    assert_eq!(streets.len(), 2);
    assert_eq!(find(&streets, "Main").segments, vec![vec![1, 2], vec![2, 3]]);
    assert_eq!(find(&streets, "Side").segments, vec![Vec::<i64>::new()]);
}

#[test]
fn street_dictionary_names_unnamed_ways_by_id() {
    let elements = vec![way(42, Some(vec![1, 2]), None), way(-7, Some(vec![3]), None)];
    let streets = street_dictionary(&elements);
    assert_eq!(streets.len(), 2);
    assert_eq!(find(&streets, "unnamed_42").segments, vec![vec![1, 2]]);
    assert_eq!(find(&streets, "unnamed_-7").segments, vec![vec![3]]);
}

#[test]
fn node_dictionary_skips_points_without_coordinates() {
    let elements = vec![
        point(1, Some(100), Some(200)),
        point(2, None, Some(5)),
        point(3, Some(5), None),
        way(4, Some(vec![1]), None),
        point(1, Some(300), Some(400)),
    ];
    let nodes = node_dictionary(&elements);
    assert_eq!(nodes.len(), 1);
    assert_eq!(nodes[&1], (300, 400));
}

#[test]
fn path_length_is_sum_of_pairs() {
    let t = lengths_of(&[(1, 2, 1_500), (2, 3, 2_250), (3, 4, 10)]);
    assert_eq!(dist(1, 2, &t), 1_500);
    assert_eq!(dist(2, 1, &t), 1_500);
    assert_eq!(distance_of_path_precise(&[1, 2, 3, 4], &t), 3_760);
    assert_eq!(distance_of_path_precise(&[1, 2, 1], &t), 3_000);
    assert_eq!(distance_of_path_precise(&[4], &t), 0);
    assert_eq!(distance_of_path_precise(&[], &t), 0);
}

#[test]
fn total_length_threshold() {
    let t = lengths_of(&[(1, 2, 100_000), (3, 4, 99_999)]);
    let segs = vec![vec![1, 2], vec![3, 4]];
    assert!(!total_length_below(&segs, &t, 199_999));
    assert!(total_length_below(&segs, &t, 200_000));
    assert!(!total_length_below(&[], &t, 0));
    assert!(total_length_below(&[], &t, 1));
}

#[test]
fn completed_names_keep_only_short_streets() {
    let streets = vec![street("Short", vec![vec![1, 2]]), street("Long", vec![vec![3, 4]])];
    let t = lengths_of(&[(1, 2, 199_999), (3, 4, 200_000)]);
    let names = streets_completed_names(&[1, 2, 3, 4], &streets, &t);
    assert_eq!(names, vec!["Short".to_string()]);
}

#[test]
fn hot_spot_count_excludes_done_streets() {
    let streets = vec![
        street("A", vec![vec![1, 2]]),
        street("B", vec![vec![3, 4]]),
        street("C", vec![vec![5, 6]]),
    ];
    let t = lengths_of(&[(1, 2, 10), (3, 4, 10), (5, 6, 10)]);
    let done = vec!["A".to_string()];
    assert_eq!(hot_spot_count(&[1, 2, 3, 4], &streets, &t, &done), 1);
    assert_eq!(hot_spot_count(&[1, 2, 3, 4, 5, 6], &streets, &t, &vec![]), 3);
    assert_eq!(hot_spot_count(&[], &streets, &t, &vec![]), 0);
}

#[test]
fn hot_spot_scores_are_bounded_by_street_count() {
    let streets = vec![street("A", vec![vec![1, 2]]), street("B", vec![vec![2, 3]])];
    let t = lengths_of(&[(1, 2, 10), (2, 3, 10)]);
    for near in [vec![], vec![1], vec![1, 2], vec![1, 2, 3]] {
        let c = hot_spot_count(&near, &streets, &t, &vec![]);
        assert!(c <= streets.len());
    }
}

#[test]
fn hot_spot_grid_layout() {
    let g = hot_spot_grid((1_000_000, 2_000_000), 1);
    assert_eq!(g.len(), 9);
    assert_eq!(g[0], (900_000, 1_900_000));
    assert_eq!(g[1], (900_000, 2_000_000));
    assert_eq!(g[4], (1_000_000, 2_000_000));
    assert_eq!(g[8], (1_100_000, 2_100_000));
    assert_eq!(hot_spot_grid((5, 6), 0), vec![(5, 6)]);
}

#[test]
fn hot_spot_scan_of_zero_width_gives_one_candidate() {
    let streets = vec![street("A", vec![vec![1, 2]])];
    let t = lengths_of(&[(1, 2, 10)]);
    let nodes = HashMap::from([(1, (10, 20)), (2, (11, 21))]);
    let r = hot_spots(1, &nodes, &streets, &t, &[1], 0, &[vec![]]);
    assert_eq!(r, vec![(0, (10, 20))]);
}

#[test]
fn hot_spots_rank_by_score() {
    let streets = vec![street("A", vec![vec![1, 2]]), street("B", vec![vec![3, 4]])];
    let t = lengths_of(&[(1, 2, 10), (3, 4, 10)]);
    let nodes = HashMap::from([(1, (0, 0))]);
    let mut nearby = vec![vec![]; 9];
    nearby[5] = vec![1, 2];
    nearby[7] = vec![1, 2, 3, 4];
    let r = hot_spots(1, &nodes, &streets, &t, &[], 1, &nearby);
    assert_eq!(r.len(), 9);
    assert_eq!(r[0], (2, (100_000, 0)));
    assert_eq!(r[1], (1, (0, 100_000)));
    assert!(r[2..].iter().all(|c| c.0 == 0));
}

#[test]
fn ranking_sorts_descending_and_keeps_items() {
    let scored = vec![(1, (0, 0)), (3, (1, 1)), (2, (2, 2)), (3, (3, 3))];
    let r = rank_hot_spots(&scored);
    assert_eq!(r.len(), 4);
    assert!(r.windows(2).all(|w| w[0].0 >= w[1].0));
    for s in &scored {
        assert!(r.contains(s));
    }
    assert!(rank_hot_spots(&vec![]).is_empty());
}

#[test]
fn branch_score_values() {
    assert_eq!(branch_score(3, 1, false, 0, 0, 500_000), 4_000_000);
    assert_eq!(branch_score(1, 1, true, 1_000, 500, 1_000), 500_000);
    assert_eq!(branch_score(1, 1, true, 500, 1_000, 1_000), -500_000);
    assert_eq!(branch_score(1, 1, true, 0, 1, 3), -333_334);
    assert_eq!(branch_score(5, 0, true, 100, 0, 0), 0);
}

#[test]
fn branch_choices_drop_the_previous_point() {
    let (c, removed) = branch_choices(&vec![4, 7, 9], Some(7));
    assert!(removed);
    assert_eq!(c, vec![4, 9]);
    let (c, removed) = branch_choices(&vec![7], Some(7));
    assert!(!removed);
    assert_eq!(c, vec![7]);
    let (c, removed) = branch_choices(&vec![4, 9], None);
    assert!(!removed);
    assert_eq!(c, vec![4, 9]);
    let (c, removed) = branch_choices(&vec![4, 9], Some(1));
    assert!(!removed);
    assert_eq!(c, vec![4, 9]);
}

#[test]
fn neighbor_list_lists_the_set() {
    let s = HashSet::from([3, 1, 2]);
    assert_eq!(neighbor_list(&s), vec![1, 2, 3]);
    assert_eq!(neighbor_list(&HashSet::from([9, -4, 0, 7])), vec![-4, 0, 7, 9]);
    assert!(neighbor_list(&HashSet::new()).is_empty());
}

/// A star: 1 in the middle, arms 1-2-3, 1-4, 1-5-6.
fn star() -> (Vec<Street>, HashMap<i64, HashSet<i64>>, Lengths, HashMap<i64, u64>) {
    let streets = vec![
        street("East", vec![vec![1, 2, 3]]),
        street("North", vec![vec![1, 4]]),
        street("West", vec![vec![1, 5, 6]]),
    ];
    let adj = adjacency_list(&streets);
    let lengths = uniform_lengths(&adj, 50_000);
    let to_target: HashMap<i64, u64> = adj.keys().map(|k| (*k, 1_000_000)).collect();
    (streets, adj, lengths, to_target)
}

fn is_walk(start: &[i64], r: &[i64], adj: &HashMap<i64, HashSet<i64>>) -> bool {
    r.len() >= start.len()
        && r[..start.len()] == *start
        && (start.len()..r.len()).all(|i| adj[&r[i - 1]].contains(&r[i]))
}

#[test]
fn extend_with_zero_budget_returns_start() {
    let (streets, adj, lengths, to_target) = star();
    let start = vec![2, 1];
    let r = path_bfs(&start, &params(0, true), &adj, &lengths, &to_target, &streets);
    assert_eq!(r, start);
}

#[test]
fn extend_returns_a_walk_from_the_start() {
    let (streets, adj, lengths, to_target) = star();
    for steps in 1..4 {
        for start in [vec![1], vec![2, 1], vec![3]] {
            let r = path_bfs(&start, &params(steps, false), &adj, &lengths, &to_target, &streets);
            assert!(!r.is_empty());
            assert!(is_walk(&start, &r, &adj), "{:?} from {:?}", r, start);
        }
    }
}

#[test]
fn extend_completes_a_street_when_it_can() {
    let (streets, adj, lengths, to_target) = star();
    let r = path_bfs(&[1], &params(1, false), &adj, &lengths, &to_target, &streets);
    assert_eq!(r, vec![1, 4]);
    assert_eq!(streets_completed(&r, &streets), 1);
}

#[test]
fn extend_with_no_expansions_returns_start() {
    let (streets, adj, lengths, to_target) = star();
    let p = SearchParams { steps: 2, hot_spots: false, max_retries: 3, max_expansions: 0 };
    assert_eq!(path_bfs(&[1], &p, &adj, &lengths, &to_target, &streets), vec![1]);
}

#[test]
fn extend_follows_a_corridor_for_free() {
    let streets = vec![street("Lane", vec![vec![1, 2, 3, 4]]), street("Cross", vec![vec![4, 5], vec![4, 6]])];
    let adj = adjacency_list(&streets);
    let lengths = uniform_lengths(&adj, 30_000);
    let to_target: HashMap<i64, u64> = adj.keys().map(|k| (*k, 0)).collect();
    let r = path_bfs(&[1, 2], &params(1, false), &adj, &lengths, &to_target, &streets);
    assert!(is_walk(&[1, 2], &r, &adj));
    assert_eq!(&r[..4], &[1, 2, 3, 4]);
    assert_eq!(r.len(), 5);
}

#[test]
fn session_decisions() {
    assert!(needs_rescan(None, 10_000_000));
    assert!(needs_rescan(Some((1, 2)), 499_999));
    assert!(!needs_rescan(Some((1, 2)), 500_000));
    assert_eq!(choose_target(&vec![(3, (7, 8)), (1, (9, 9))], Some((1, 1))), Some((7, 8)));
    assert_eq!(choose_target(&vec![], Some((1, 1))), Some((1, 1)));
    assert_eq!(choose_target(&vec![], None), None);
    assert!(keep_going(0, 1));
    assert!(!keep_going(5, 5));
}

#[test]
fn extend_heads_toward_the_target_when_biased() {
    let streets = vec![street("Lane", vec![vec![1, 2, 3]]), street("Other", vec![vec![1, 4, 5]])];
    let adj = adjacency_list(&streets);
    let lengths = uniform_lengths(&adj, 50_000);
    let to_target = HashMap::from([(1, 1_000_000), (2, 1_100_000), (3, 1_200_000), (4, 900_000), (5, 800_000)]);
    let r = path_bfs(&[1], &params(1, true), &adj, &lengths, &to_target, &streets);
    assert_eq!(r, vec![1, 4]);
}

#[test]
fn ranking_keeps_scan_order_among_equal_scores() {
    let scored = vec![(1, (0, 0)), (3, (1, 1)), (1, (2, 2)), (3, (3, 3)), (0, (4, 4)), (1, (5, 5))];
    let r = rank_hot_spots(&scored);
    assert_eq!(r, vec![(3, (1, 1)), (3, (3, 3)), (1, (0, 0)), (1, (2, 2)), (1, (5, 5)), (0, (4, 4))]);
}

#[test]
fn points_near_keep_those_under_the_radius() {
    let dists = HashMap::from([(1, 0), (2, 749_999), (3, 750_000), (4, 10_000_000)]);
    let mut near = points_near(&dists);
    near.sort();
    assert_eq!(near, vec![1, 2]);
    assert!(points_near(&HashMap::new()).is_empty());
}

#[test]
fn search_route_reports_whether_it_improves() {
    let (streets, adj, lengths, to_target) = star();
    let (r, improved) = search_route(&[1], &params(1, false), &adj, &lengths, &to_target, &streets);
    assert_eq!(r, vec![1, 4]);
    assert!(improved);
    let (r, improved) = search_route(&[1, 4], &params(0, false), &adj, &lengths, &to_target, &streets);
    assert_eq!(r, vec![1, 4]);
    assert!(!improved);
}
