//! Scenario checks for the clustering engine's stated properties.
use aoc2025::p_08::{cluster_bounded, find_bridging_edge, Pos};

fn points(coords: &[(i64, i64, i64)]) -> Vec<Pos> {
    coords.iter().map(|&(x, y, z)| Pos::new(x, y, z)).collect()
}

fn sorted(mut v: Vec<usize>) -> Vec<usize> {
    v.sort();
    v
}

#[test]
fn sizes_sum_to_point_count_for_every_k() {
    let pts = points(&[(0, 0, 0), (1, 0, 0), (10, 0, 0), (11, 0, 0), (5, 5, 0)]);
    // 5 points make 10 candidate edges; every prefix length partitions all
    // 5 points.
    for k in 0..=10 {
        let sizes = cluster_bounded(&pts, k);
        assert_eq!(sizes.iter().sum::<usize>(), 5);
    }
}

#[test]
fn zero_edges_give_singletons() {
    let pts = points(&[(0, 0, 0), (1, 0, 0), (10, 0, 0)]);
    assert_eq!(cluster_bounded(&pts, 0), vec![1, 1, 1]);
    let one = points(&[(7, 7, 7)]);
    assert_eq!(cluster_bounded(&one, 0), vec![1]);
    assert_eq!(cluster_bounded(&one, 99), vec![1]);
    assert_eq!(find_bridging_edge(&one), None);
    let none = points(&[]);
    assert_eq!(find_bridging_edge(&none), None);
    assert_eq!(cluster_bounded(&none, 3), Vec::<usize>::new());
}

#[test]
fn growing_k_only_coarsens() {
    // As K grows, cluster counts never increase and the largest cluster
    // never shrinks: clusters merge, they never split.
    let pts = points(&[(0, 0, 0), (1, 0, 0), (10, 0, 0), (11, 0, 0), (5, 5, 0), (6, 5, 0)]);
    let mut prev_count = usize::MAX;
    let mut prev_largest = 0usize;
    for k in 0..=15 {
        let sizes = cluster_bounded(&pts, k);
        let count = sizes.len();
        let largest = *sizes.iter().max().unwrap();
        assert!(count <= prev_count);
        assert!(largest >= prev_largest);
        prev_count = count;
        prev_largest = largest;
    }
}

#[test]
fn bridging_edge_exists_exactly_for_two_or_more() {
    for n in 0..6 {
        let coords: Vec<(i64, i64, i64)> = (0..n).map(|i| (i as i64 * 3, 0, 0)).collect();
        let pts = points(&coords);
        let r = find_bridging_edge(&pts);
        assert_eq!(r.is_some(), n >= 2);
        if let Some((u, v)) = r {
            assert!(u != v);
        }
    }
}

#[test]
fn permuted_points_give_the_same_size_multiset() {
    let a = points(&[(0, 0, 0), (1, 0, 0), (10, 0, 0), (11, 0, 0), (5, 5, 0)]);
    let b = points(&[(5, 5, 0), (11, 0, 0), (0, 0, 0), (10, 0, 0), (1, 0, 0)]);
    for k in 0..=10 {
        assert_eq!(sorted(cluster_bounded(&a, k)), sorted(cluster_bounded(&b, k)));
    }
}

#[test]
fn tie_break_takes_the_first_enumerated_pair() {
    // Both pairs are at squared distance 1; K = 1 must join the pair that
    // the i < j enumeration finds first.
    let pts = points(&[(0, 0, 0), (1, 0, 0), (10, 0, 0), (11, 0, 0)]);
    let sizes = cluster_bounded(&pts, 1);
    assert_eq!(sorted(sizes), vec![1, 1, 2]);
    // The bridging edge on the same tie follows the enumeration order too.
    let two_pairs = points(&[(0, 0, 0), (1, 0, 0), (2, 0, 0)]);
    let (u, v) = find_bridging_edge(&two_pairs).unwrap();
    // Edges (0,1) and (1,2) tie at distance 1; (0,1) is applied first, so
    // (1,2) closes the chain.
    assert_eq!((u, v), (Pos::new(1, 0, 0), Pos::new(2, 0, 0)));
}

#[test]
fn well_separated_groups_bridge_on_the_short_gap() {
    let pts = points(&[
        (0, 0, 0),
        (0, 1, 0),
        (0, 2, 0),
        (40, 0, 0),
        (40, 1, 0),
        (40, 2, 0),
        (40, 3, 0),
    ]);
    let sizes = cluster_bounded(&pts, 5);
    assert_eq!(sorted(sizes), vec![3, 4]);
    let (u, v) = find_bridging_edge(&pts).unwrap();
    assert_eq!((u.x, v.x), (0, 40));
}
