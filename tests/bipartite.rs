use labisu::bipartite::find_bipartite;
use labisu::graphs::Graph;
use std::collections::HashSet;

fn names(n: usize) -> Vec<String> {
    (0..n).map(|i| format!("n{}", i)).collect()
}

#[test]
fn find_bipartite_complete_300() {
    let k300 = Graph::complete(300);
    let (left, right) = find_bipartite(&k300, 10, 3);
    assert_eq!(left, HashSet::from([0, 1, 2]));
    assert_eq!(right, HashSet::from([10, 11, 12]));
    for u in &left {
        for v in &right {
            assert!(k300.neighbours_idx(*u).unwrap().contains(v));
        }
    }
}

#[test]
fn find_bipartite_single_edge() {
    for (s, k) in [(1, 1), (5, 2), (50, 70), (0, 0)] {
        let mut g = Graph::from_names(names(10));
        g.add_edge_idx(3, 7);
        let (left, right) = find_bipartite(&g, s, k);
        assert_eq!(left, HashSet::from([3]));
        assert_eq!(right, HashSet::from([7]));
    }
}

#[test]
fn find_bipartite_sparse_takes_first_vertex() {
    let mut g = Graph::from_names(names(8));
    g.add_edge_idx(5, 6);
    g.add_edge_idx(2, 7);
    g.add_edge_idx(2, 4);
    let (left, right) = find_bipartite(&g, 3, 2);
    assert_eq!(left, HashSet::from([2]));
    assert_eq!(right, HashSet::from([4]));
}

#[test]
fn find_bipartite_no_edges_finds_nothing() {
    let g = Graph::from_names(names(6));
    let (left, right) = find_bipartite(&g, 3, 2);
    assert!(left.is_empty());
    assert!(right.is_empty());
}

/// A dense graph: a complete graph on 280 vertices with the edges between
/// vertices 0..8 and 8..16 removed except where both are even.
fn dense_with_holes() -> Graph {
    let mut g = Graph::from_names(names(280));
    for a in 0..280 {
        for b in a + 1..280 {
            let hole = a < 8 && (8..16).contains(&b) && !(a % 2 == 0 && b % 2 == 0);
            if !hole {
                g.add_edge_idx(a, b);
            }
        }
    }
    g
}

#[test]
fn find_bipartite_walks_past_first_subset() {
    let g = dense_with_holes();
    assert!(!g.is_sparse());
    let pool = g.highest_degree_vertices(12);
    let (left, right) = find_bipartite(&g, 12, 3);
    assert_eq!(3, left.len());
    assert_eq!(3, right.len());
    assert!(left.iter().all(|v| pool.contains(v)));
    assert!(right.iter().all(|v| !pool.contains(v)));
    for u in &left {
        for v in &right {
            assert!(g.neighbours_idx(*u).unwrap().contains(v));
            assert!(g.neighbours_idx(*v).unwrap().contains(u));
        }
    }
}

#[test]
fn find_bipartite_counts_match_recount() {
    // every returned pair must be complete, checked from scratch on several
    // pool and subset sizes
    let g = dense_with_holes();
    for (s, k) in [(4, 1), (6, 2), (8, 3), (16, 4)] {
        let (left, right) = find_bipartite(&g, s, k);
        if left.is_empty() {
            assert!(right.is_empty());
            continue;
        }
        assert_eq!(k, left.len());
        assert_eq!(k, right.len());
        let pool = g.highest_degree_vertices(s);
        let outside: Vec<usize> = g
            .vertices()
            .filter(|v| !pool.contains(v))
            .filter(|v| left.iter().all(|u| g.neighbours_idx(*u).unwrap().contains(v)))
            .collect();
        assert!(outside.len() >= s);
        let expected: HashSet<usize> = outside.into_iter().take(k).collect();
        assert_eq!(expected, right);
    }
}

#[test]
fn find_bipartite_single_edge_added_backwards() {
    let mut g = Graph::from_names(names(10));
    g.add_edge_idx(7, 3);
    let (left, right) = find_bipartite(&g, 4, 2);
    assert_eq!(left, HashSet::from([3]));
    assert_eq!(right, HashSet::from([7]));
}

#[test]
fn find_bipartite_same_graph_same_answer() {
    let g1 = dense_with_holes();
    let g2 = dense_with_holes();
    assert_eq!(find_bipartite(&g1, 12, 3), find_bipartite(&g2, 12, 3));
}

#[test]
fn find_bipartite_sparse_ignores_edge_order() {
    let mut g1 = Graph::from_names(vec!["a".to_string(), "b".to_string(), "c".to_string()]);
    g1.add_edge_idx(0, 1);
    g1.add_edge_idx(0, 2);
    let mut g2 = Graph::from_names(vec!["a".to_string(), "b".to_string(), "c".to_string()]);
    g2.add_edge_idx(0, 2);
    g2.add_edge_idx(0, 1);
    assert_eq!(find_bipartite(&g1, 1, 1), find_bipartite(&g2, 1, 1));
    assert_eq!(find_bipartite(&g2, 1, 1), (HashSet::from([0]), HashSet::from([1])));
}
