//! Property-oriented tests: the documented laws of the solution checked on
//! concrete and randomized graphs, against an independent reference.

use floyd_warshall::floyd_warshall;
use floyd_warshall::Edge;
use floyd_warshall::PathMatrix;

fn edge(u: usize, v: usize, w: usize) -> Edge {
    Edge { u, v, w }
}

/// The lightest edge joining `i` and `j`, if any: the effective direct
/// distance of the pair.
fn min_edge_weight(edges: &[Edge], i: usize, j: usize) -> Option<usize> {
    let mut best: Option<usize> = None;
    for e in edges {
        let joins = i != j && ((e.u == i && e.v == j) || (e.u == j && e.v == i));
        if joins && best.map_or(true, |b| e.w < b) {
            best = Some(e.w);
        }
    }
    best
}

/// Reference distances by Bellman-Ford from one source, with unbounded sums.
fn bellman_ford(n: usize, edges: &[Edge], src: usize) -> Vec<Option<u128>> {
    let mut dist: Vec<Option<u128>> = vec![None; n];
    dist[src] = Some(0);
    for _ in 0..n {
        for e in edges {
            if e.u == e.v {
                continue;
            }
            for (a, b) in [(e.u, e.v), (e.v, e.u)] {
                if let Some(da) = dist[a] {
                    let cand = da + e.w as u128;
                    if dist[b].map_or(true, |db| cand < db) {
                        dist[b] = Some(cand);
                    }
                }
            }
        }
    }
    dist
}

/// Checks the walk implied by the recorded path of `(i, j)`: every hop is an
/// edge and the weights sum to the recorded distance.
fn check_path_consistency(m: &PathMatrix<usize>, edges: &[Edge], i: usize, j: usize) {
    if !m.does_path_exist(i, j) || i == j {
        return;
    }
    // Stored paths walk from the smaller endpoint to the larger one.
    let mut route: Vec<usize> = vec![i.min(j)];
    route.extend(m.get_path_iter(i, j));
    route.push(i.max(j));
    let mut total: u128 = 0;
    for h in 0..route.len() - 1 {
        let w = min_edge_weight(edges, route[h], route[h + 1]);
        assert!(w.is_some(), "hop {}-{} is not an edge", route[h], route[h + 1]);
        total += w.unwrap() as u128;
    }
    assert_eq!(total, m.get_path_len(i, j) as u128);
}

fn check_against_reference(n: usize, edges: &[Edge], m: &PathMatrix<usize>) {
    for src in 0..n {
        let dist = bellman_ford(n, edges, src);
        for dst in 0..n {
            assert_eq!(m.does_path_exist(src, dst), dist[dst].is_some());
            if let Some(d) = dist[dst] {
                assert_eq!(m.get_path_len(src, dst) as u128, d);
            }
        }
    }
}

fn random_graph(n: usize) -> Vec<Edge> {
    let mut edges = Vec::new();
    for v1 in 0..n {
        for v2 in 0..n {
            if v1 != v2 && rand::random::<f32>() < 0.1 {
                let w = rand::random::<u64>() as usize % 100;
                edges.push(edge(v1, v2, w));
            }
        }
    }
    edges
}

#[test]
fn test_random() {
    let n = 10;
    let labels: Vec<usize> = (0..n).collect();
    let edges = random_graph(n);

    let m = floyd_warshall(n, &edges, &labels);
    println!("{:?}", m);
}

#[test]
fn test_random_matches_reference() {
    for _ in 0..30 {
        let n = 10;
        let labels: Vec<usize> = (0..n).collect();
        let edges = random_graph(n);
        let m = floyd_warshall(n, &edges, &labels);

        check_against_reference(n, &edges, &m);
        for i in 0..n {
            for j in 0..n {
                check_path_consistency(&m, &edges, i, j);
            }
        }
    }
}

#[test]
fn test_distance_to_self_is_zero() {
    let n = 6;
    let labels: Vec<usize> = (0..n).collect();
    let edges = vec![edge(0, 1, 4), edge(1, 2, 1), edge(3, 4, 9), edge(0, 0, 3)];
    let m = floyd_warshall(n, &edges, &labels);
    for v in 0..n {
        assert!(m.does_path_exist(v, v));
        assert_eq!(m.get_path_len(v, v), 0);
    }
}

#[test]
fn test_symmetry() {
    let n = 8;
    let labels: Vec<usize> = (0..n).collect();
    let edges = vec![
        edge(0, 1, 3),
        edge(1, 2, 4),
        edge(2, 3, 1),
        edge(0, 3, 10),
        edge(4, 5, 2),
        edge(5, 6, 2),
    ];
    let m = floyd_warshall(n, &edges, &labels);
    for i in 0..n {
        for j in 0..n {
            assert_eq!(m.does_path_exist(i, j), m.does_path_exist(j, i));
            if m.does_path_exist(i, j) {
                assert_eq!(m.get_path_len(i, j), m.get_path_len(j, i));
            }
        }
    }
}

#[test]
fn test_triangle_inequality() {
    let n = 7;
    let labels: Vec<usize> = (0..n).collect();
    let edges = vec![
        edge(0, 1, 5),
        edge(1, 2, 7),
        edge(0, 2, 20),
        edge(2, 3, 1),
        edge(3, 4, 1),
        edge(2, 4, 3),
        edge(5, 6, 8),
    ];
    let m = floyd_warshall(n, &edges, &labels);
    for i in 0..n {
        for j in 0..n {
            for h in 0..n {
                if m.does_path_exist(i, h) && m.does_path_exist(h, j) {
                    assert!(m.does_path_exist(i, j));
                    let legs = m.get_path_len(i, h).saturating_add(m.get_path_len(h, j));
                    assert!(m.get_path_len(i, j) <= legs);
                }
            }
        }
    }
}

#[test]
fn test_path_length_consistency() {
    let n = 5;
    let labels: Vec<usize> = (0..n).collect();
    let edges = vec![
        edge(0, 1, 2),
        edge(1, 2, 2),
        edge(2, 3, 2),
        edge(0, 3, 9),
        edge(3, 4, 1),
    ];
    let m = floyd_warshall(n, &edges, &labels);
    assert_eq!(m.get_path_len(0, 3), 6);
    assert_eq!(m.get_path_iter(0, 3), vec![1, 2]);
    assert_eq!(m.get_path_len(0, 4), 7);
    for i in 0..n {
        for j in 0..n {
            check_path_consistency(&m, &edges, i, j);
        }
    }
}

#[test]
fn test_adding_edge_never_increases_distances() {
    for _ in 0..20 {
        let n = 9;
        let labels: Vec<usize> = (0..n).collect();
        let edges = random_graph(n);
        let before = floyd_warshall(n, &edges, &labels);

        let u = rand::random::<u64>() as usize % n;
        let v = rand::random::<u64>() as usize % n;
        let w = rand::random::<u64>() as usize % 50;
        let mut more = edges.clone();
        more.push(edge(u, v, w));
        let after = floyd_warshall(n, &more, &labels);

        for i in 0..n {
            for j in 0..n {
                if before.does_path_exist(i, j) {
                    assert!(after.does_path_exist(i, j));
                    assert!(after.get_path_len(i, j) <= before.get_path_len(i, j));
                }
            }
        }
    }
}
