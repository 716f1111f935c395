use aoc2025::p_08::{build_edges, build_mst, cluster_bounded, find_bridging_edge, Pos, UnionFind};

fn points(coords: &[(i64, i64, i64)]) -> Vec<Pos> {
    coords.iter().map(|&(x, y, z)| Pos::new(x, y, z)).collect()
}

fn top3_product(mut sizes: Vec<usize>) -> usize {
    sizes.sort_by(|a, b| b.cmp(a));
    sizes.iter().take(3).product()
}

#[test]
fn p_08_test_sample_1() {
    // Two tight pairs far apart; generous K joins everything.
    let pts = points(&[(0, 0, 0), (1, 0, 0), (10, 0, 0), (11, 0, 0)]);
    let sizes = cluster_bounded(&pts, 10);
    println!("The solution is : {}", top3_product(sizes.clone()));
    assert_eq!(top3_product(sizes), 4);
}

#[test]
fn p_08_test_1() {
    // Three and four points in two far-apart groups; K = 1000 exceeds the
    // edge count, so one cluster of seven remains.
    let pts = points(&[
        (0, 0, 0),
        (1, 0, 0),
        (2, 0, 0),
        (100, 0, 0),
        (101, 0, 0),
        (102, 0, 0),
        (103, 0, 0),
    ]);
    let sizes = cluster_bounded(&pts, 1000);
    println!("The solution is : {}", top3_product(sizes.clone()));
    assert_eq!(sizes, vec![7]);
    // K = (3-1)+(4-1) merges each group fully but never bridges them.
    let sizes5 = cluster_bounded(&pts, 5);
    let mut sorted = sizes5.clone();
    sorted.sort();
    assert_eq!(sorted, vec![3, 4]);
    assert_eq!(top3_product(sizes5), 12);
}

#[test]
fn p_08_test_sample_2() {
    // The bridging edge joins the two groups: its x product identifies it.
    let pts = points(&[
        (0, 0, 0),
        (1, 0, 0),
        (2, 0, 0),
        (100, 0, 0),
        (101, 0, 0),
        (102, 0, 0),
        (103, 0, 0),
    ]);
    let (u, v) = build_mst(&pts);
    println!("The solution is : {}", u.x * v.x);
    assert_eq!((u.x, v.x), (2, 100));
    assert_eq!(u.x * v.x, 200);
}

#[test]
fn p_08_test_2() {
    let pts = points(&[(0, 0, 0), (1, 0, 0), (10, 0, 0), (11, 0, 0)]);
    let (u, v) = build_mst(&pts);
    // Intra-pair edges come first; the bridge is (1,0,0)-(10,0,0).
    println!("The solution is : {}", u.x * v.x);
    assert_eq!((u, v), (Pos::new(1, 0, 0), Pos::new(10, 0, 0)));
}

#[test]
fn union_find_counts_components() {
    let mut uf = UnionFind::new(5);
    assert_eq!(uf.num_components(), 5);
    assert!(uf.union(0, 1));
    assert!(uf.union(3, 4));
    assert_eq!(uf.num_components(), 3);
    assert_eq!(uf.find(0), uf.find(1));
    assert!(uf.find(0) != uf.find(2));
}

#[test]
fn union_is_idempotent() {
    // Merging the same two clusters twice changes nothing: the second
    // union reports no merge and the component count stays put.
    let mut uf = UnionFind::new(4);
    assert!(uf.union(1, 2));
    assert_eq!(uf.num_components(), 3);
    assert!(!uf.union(1, 2));
    assert_eq!(uf.num_components(), 3);
    assert!(!uf.union(2, 1));
    assert_eq!(uf.num_components(), 3);
}

#[test]
fn duplicate_points_stay_distinct_members() {
    // Two points at identical coordinates still count as two members.
    let pts = points(&[(5, 5, 5), (5, 5, 5), (50, 0, 0)]);
    let sizes = cluster_bounded(&pts, 1);
    let mut sorted = sizes;
    sorted.sort();
    assert_eq!(sorted, vec![1, 2]);
}

#[test]
fn distance_is_squared_euclidean() {
    let a = Pos::new(1, 2, 3);
    let b = Pos::new(4, 6, 3);
    assert_eq!(a.dist(&b), 9 + 16);
    assert_eq!(b.dist(&a), 25);
    assert_eq!(a.dist(&a), 0);
}

#[test]
fn edge_catalog_is_complete() {
    let pts = points(&[(0, 0, 0), (3, 0, 0), (0, 4, 0)]);
    let edges = build_edges(&pts);
    assert_eq!(edges.len(), 3);
    assert_eq!(edges[0].dist, 9);
    assert_eq!(edges[1].dist, 16);
    assert_eq!(edges[2].dist, 25);
}
