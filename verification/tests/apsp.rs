//! Scenario tests for the Floyd-Warshall engine and the packed matrix.

use floyd_warshall::floyd_warshall;
use floyd_warshall::Edge;
use floyd_warshall::PathMatrix;

fn edge(u: usize, v: usize, w: usize) -> Edge {
    Edge { u, v, w }
}

#[test]
fn test_no_intermediate() {
    // A complete graph on four nodes, every edge of weight one.
    let edges = vec![
        edge(0, 1, 1),
        edge(0, 2, 1),
        edge(0, 3, 1),
        edge(1, 2, 1),
        edge(1, 3, 1),
        edge(2, 3, 1),
    ];
    let labels: Vec<usize> = vec![0, 1, 2, 3];

    let m = floyd_warshall(4, &edges, &labels);
    println!("{:?}", m);

    for i in 0..4 {
        for j in 0..4 {
            if i == j {
                assert_eq!(m.get_path_len(i, j), 0);
            } else {
                assert_eq!(m.get_path_len(i, j), 1);
            }
        }
    }
}

#[test]
fn test_intermediate() {
    // A path graph a-b-c with a heavier direct edge a-c: the route through b
    // wins.
    let edges = vec![edge(0, 1, 1), edge(1, 2, 1), edge(0, 2, 3)];
    let labels: Vec<usize> = vec![0, 1, 2];

    let m = floyd_warshall(3, &edges, &labels);
    println!("{:?}", m);

    assert_eq!(m.get_path_len(0, 0), 0);
    assert_eq!(m.get_path_len(1, 1), 0);
    assert_eq!(m.get_path_len(2, 2), 0);

    assert_eq!(m.get_path_len(0, 1), 1);
    assert_eq!(m.get_path_len(1, 2), 1);
    assert_eq!(m.get_path_len(0, 2), 2);
}

#[test]
fn test_path_through_intermediate_contains_it() {
    let edges = vec![edge(0, 1, 1), edge(1, 2, 1), edge(0, 2, 3)];
    let labels: Vec<usize> = vec![0, 1, 2];

    let m = floyd_warshall(3, &edges, &labels);

    // The recorded route from 0 to 2 passes through 1.
    assert_eq!(m.get_path(0, 2).get_slice(), &[1]);
    assert_eq!(m.get_path_iter(0, 2), vec![1]);
    // Adjacent pairs have no intermediate nodes.
    assert_eq!(m.get_path(0, 1).get_slice(), &[] as &[usize]);
    assert_eq!(m.get_path(1, 2).get_slice(), &[] as &[usize]);
}

#[test]
fn test_disconnected_components() {
    // Two components: {0, 1} and {2, 3}. Cross-component pairs report no
    // path.
    let edges = vec![edge(0, 1, 1), edge(2, 3, 2)];
    let labels: Vec<usize> = vec![0, 1, 2, 3];

    let m = floyd_warshall(4, &edges, &labels);

    assert!(m.does_path_exist(0, 1));
    assert!(m.does_path_exist(2, 3));
    for v in 0..4 {
        assert!(m.does_path_exist(v, v));
        assert_eq!(m.get_path_len(v, v), 0);
    }
    for &(i, j) in &[(0, 2), (0, 3), (1, 2), (1, 3)] {
        assert!(!m.does_path_exist(i, j));
        assert!(!m.does_path_exist(j, i));
    }
    assert_eq!(m.get_path_len(0, 1), 1);
    assert_eq!(m.get_path_len(2, 3), 2);
}

#[test]
fn test_duplicate_edges_lightest_wins() {
    let edges = vec![edge(0, 1, 5), edge(0, 1, 2), edge(1, 0, 7)];
    let labels: Vec<usize> = vec![0, 1];

    let m = floyd_warshall(2, &edges, &labels);
    assert_eq!(m.get_path_len(0, 1), 2);
    assert_eq!(m.get_path_len(1, 0), 2);
}

#[test]
fn test_self_loop_is_ignored() {
    let edges = vec![edge(0, 0, 5), edge(0, 1, 3)];
    let labels: Vec<usize> = vec![0, 1];

    let m = floyd_warshall(2, &edges, &labels);
    assert_eq!(m.get_path_len(0, 0), 0);
    assert_eq!(m.get_path_len(1, 1), 0);
    assert_eq!(m.get_path_len(0, 1), 3);
}

#[test]
fn test_saturating_distances() {
    // Two maximal edges in a row saturate instead of wrapping around.
    let edges = vec![edge(0, 1, usize::MAX), edge(1, 2, usize::MAX)];
    let labels: Vec<usize> = vec![0, 1, 2];

    let m = floyd_warshall(3, &edges, &labels);
    assert_eq!(m.get_path_len(0, 1), usize::MAX);
    assert!(m.does_path_exist(0, 2));
    assert_eq!(m.get_path_len(0, 2), usize::MAX);
}

#[test]
fn test_empty_and_singleton_graphs() {
    let no_edges: Vec<Edge> = Vec::new();
    let no_labels: Vec<usize> = Vec::new();
    let _m: PathMatrix<usize> = floyd_warshall(0, &no_edges, &no_labels);

    let one_label: Vec<usize> = vec![7];
    let m = floyd_warshall(1, &no_edges, &one_label);
    assert!(m.does_path_exist(0, 0));
    assert_eq!(m.get_path_len(0, 0), 0);
}

#[test]
fn test_labels_materialized_in_paths() {
    // The path stores node labels, not indices.
    let edges = vec![edge(0, 1, 1), edge(1, 2, 1)];
    let labels: Vec<char> = vec!['a', 'b', 'c'];

    let m = floyd_warshall(3, &edges, &labels);
    assert_eq!(m.get_path(0, 2).get_slice(), &['b']);
    assert_eq!(m.get_path_len(0, 2), 2);
}

#[test]
fn test_matrix_direct_use() {
    // The packed matrix as a plain container: every unordered pair has its
    // own slot, shared by both orders.
    let n = 5;
    let mut m: PathMatrix<usize> = PathMatrix::new(n);
    for i in 0..n {
        for j in i..n {
            assert!(!m.does_path_exist(i, j));
            m.set_path_len(i, j, 100 * i + j);
        }
    }
    for i in 0..n {
        for j in i..n {
            assert!(m.does_path_exist(i, j));
            assert_eq!(m.get_path_len(i, j), 100 * i + j);
            assert_eq!(m.get_path_len(j, i), 100 * i + j);
        }
    }
}

#[test]
fn test_path_default_has_no_route() {
    let p: floyd_warshall::Path<usize> = Default::default();
    assert!(!p.does_exist());
    assert_eq!(p.get_slice(), &[] as &[usize]);
    assert_eq!(p.iter(), Vec::<usize>::new());
}
