use labisu::graphs::Graph;
use std::collections::HashSet;

fn names(list: &[&str]) -> Vec<String> {
    list.iter().map(|s| s.to_string()).collect()
}

#[test]
fn get_num_of_vertices_counts_names() {
    let e2 = Graph::from_names(names(&["vertex_0", "vertex_1"]));
    assert_eq!(2, e2.get_num_of_vertices());
}

#[test]
fn get_num_of_edges_counts_once() {
    let mut e2 = Graph::from_names(names(&["vertex_0", "vertex_1"]));
    e2.add_edge_idx(0, 1);
    assert_eq!(1, e2.get_num_of_edges());
}

#[test]
fn idx_to_name_known_and_unknown() {
    let e1 = Graph::from_names(names(&["vertex_0"]));
    assert_eq!(Some("vertex_0".to_string()), e1.idx_to_name(0));
    assert_eq!(None, e1.idx_to_name(1));
}

#[test]
fn name_to_idx_known_and_unknown() {
    let e1 = Graph::from_names(names(&["vertex_0"]));
    assert_eq!(Some(0), e1.name_to_idx("vertex_0"));
    assert_eq!(None, e1.name_to_idx("vertex_1"));
}

#[test]
fn empty_has_nothing() {
    let empty = Graph::empty();
    assert_eq!(0, empty.get_num_of_vertices());
    assert_eq!(0, empty.get_num_of_edges());
}

#[test]
fn complete_two_vertices() {
    let k2 = Graph::complete(2);
    assert!(k2.neighbours_idx(1).unwrap().contains(&0));
    assert!(k2.neighbours_idx(0).unwrap().contains(&1));
}

#[test]
fn complete_counts_and_names() {
    let k5 = Graph::complete(5);
    assert_eq!(5, k5.get_num_of_vertices());
    assert_eq!(10, k5.get_num_of_edges());
    assert_eq!(Some("vertex_0".to_string()), k5.idx_to_name(0));
    assert_eq!(Some("vertex_4".to_string()), k5.idx_to_name(4));
    assert_eq!(Some(3), k5.name_to_idx("vertex_3"));
    assert_eq!(HashSet::from([0, 1, 3, 4]), k5.neighbours_idx(2).unwrap());
    let k12 = Graph::complete(12);
    assert_eq!(Some("vertex_11".to_string()), k12.idx_to_name(11));
    assert_eq!(66, k12.get_num_of_edges());
    let k0 = Graph::complete(0);
    assert_eq!(0, k0.get_num_of_vertices());
    assert_eq!(0, k0.get_num_of_edges());
}

#[test]
fn from_names_builds_mapping() {
    let e2 = Graph::from_names(names(&["vertex_0", "vertex_1"]));
    assert_eq!(2, e2.get_num_of_vertices());
    assert_eq!(0, e2.name_to_idx("vertex_0").unwrap());
    assert_eq!("vertex_1", e2.idx_to_name(1).unwrap());
}

#[test]
fn add_vertex_ignores_taken_name() {
    let mut k_one = Graph::empty();
    k_one.add_vertex("vertex_0");
    k_one.add_vertex("vertex_0");
    assert_eq!(1, k_one.get_num_of_vertices());
    assert_eq!("vertex_0", k_one.idx_to_name(0).unwrap());
    assert_eq!(0, k_one.name_to_idx("vertex_0").unwrap());
}

#[test]
fn remove_vertex_renumbers() {
    let mut k5 = Graph::complete(5);
    assert!(k5.remove_vertex("vertex_2"));
    assert!(!k5.remove_vertex("vertex_2"));
    assert_eq!(4, k5.get_num_of_vertices());
    assert_eq!(6, k5.get_num_of_edges());
    assert_eq!(k5.neighbours_idx(0).unwrap(), HashSet::from([1, 2, 3]));
    assert_eq!(Some(2), k5.name_to_idx("vertex_3"));
    assert_eq!(Some("vertex_4".to_string()), k5.idx_to_name(3));
}

#[test]
fn remove_vertex_keeps_edges_consistent() {
    let mut g = Graph::from_names(names(&["a", "b", "c", "d"]));
    g.add_edge("a", "b");
    g.add_edge("b", "c");
    g.add_edge("c", "d");
    g.add_edge("d", "a");
    assert!(g.remove_vertex("b"));
    assert_eq!(3, g.get_num_of_vertices());
    assert_eq!(2, g.get_num_of_edges());
    assert_eq!(HashSet::from([2]), g.neighbours_idx(0).unwrap());
    assert_eq!(HashSet::from([2]), g.neighbours_idx(1).unwrap());
    assert_eq!(HashSet::from([0, 1]), g.neighbours_idx(2).unwrap());
    let degree_sum: usize = g.vertices().map(|v| g.neighbours_idx(v).unwrap().len()).sum();
    assert_eq!(2 * g.get_num_of_edges(), degree_sum);
}

#[test]
fn vertices_is_index_range() {
    let e2 = Graph::from_names(names(&["vertex_0", "vertex_1"]));
    assert_eq!((0..2), e2.vertices());
}

#[test]
fn contains_vertex_by_name() {
    let e1 = Graph::from_names(names(&["vertex_0"]));
    assert!(e1.contains_vertex("vertex_0"));
    assert!(!e1.contains_vertex("vertex_1"));
}

#[test]
fn add_edge_idx_both_directions() {
    let mut k2 = Graph::from_names(names(&["vertex_0", "vertex_1"]));
    assert!(k2.add_edge_idx(0, 1));
    assert!(k2.neighbours_idx(0).unwrap().contains(&1));
    assert!(k2.neighbours_idx(1).unwrap().contains(&0));
}

#[test]
fn add_edge_idx_rejects() {
    let mut g = Graph::from_names(names(&["a", "b", "c"]));
    assert!(g.add_edge_idx(0, 1));
    assert!(!g.add_edge_idx(1, 0));
    assert!(!g.add_edge_idx(0, 1));
    assert!(!g.add_edge_idx(2, 2));
    assert!(!g.add_edge_idx(0, 3));
    assert!(!g.add_edge_idx(7, 1));
    assert_eq!(1, g.get_num_of_edges());
}

#[test]
fn add_edge_by_names() {
    let mut k2 = Graph::from_names(names(&["vertex_0", "vertex_1"]));
    assert!(k2.add_edge("vertex_0", "vertex_1"));
    assert!(k2.neighbours_idx(0).unwrap().contains(&1));
    assert!(k2.neighbours_idx(1).unwrap().contains(&0));
    assert!(!k2.add_edge("vertex_0", "vertex_9"));
    assert!(!k2.add_edge("vertex_1", "vertex_1"));
    assert!(!k2.add_edge("vertex_1", "vertex_0"));
    assert_eq!(1, k2.get_num_of_edges());
}

#[test]
fn neighbours_idx_values_and_error() {
    let mut k2 = Graph::from_names(names(&["vertex_0", "vertex_1"]));
    k2.add_edge("vertex_0", "vertex_1");
    assert_eq!(k2.neighbours_idx(0), Ok(HashSet::from([1])));
    assert_eq!(k2.neighbours_idx(1), Ok(HashSet::from([0])));
    assert_eq!(k2.neighbours_idx(2), Err("Index does not exist in the graph."));
}

fn g4() -> Graph {
    let mut g4 = Graph::from_names(names(&["v_0", "v_1", "v_2", "v_3"]));
    g4.add_edge("v_3", "v_0");
    g4.add_edge("v_3", "v_1");
    g4.add_edge("v_3", "v_2");
    g4.add_edge("v_2", "v_1");
    g4
}

#[test]
fn highest_degree_vertices_order() {
    assert_eq!(g4().highest_degree_vertices(3), vec![3, 1, 2]);
    assert_eq!(g4().highest_degree_vertices(4), vec![3, 1, 2, 0]);
    assert_eq!(g4().highest_degree_vertices(0), Vec::<usize>::new());
}

#[test]
fn lowest_degree_vertices_order() {
    assert_eq!(g4().lowest_degree_vertices(3), vec![0, 1, 2]);
    assert_eq!(g4().lowest_degree_vertices(4), vec![0, 1, 2, 3]);
}

#[test]
fn degree_ties_by_index() {
    let k6 = Graph::complete(6);
    assert_eq!(k6.highest_degree_vertices(4), vec![0, 1, 2, 3]);
    assert_eq!(k6.lowest_degree_vertices(2), vec![0, 1]);
}

#[test]
fn is_bipartite_small_complete() {
    let k2 = Graph::complete(2);
    let k3 = Graph::complete(3);
    assert!(k2.is_bipartite());
    assert!(!k3.is_bipartite());
}

#[test]
fn is_bipartite_cycles_and_components() {
    let mut even = Graph::from_names(names(&["a", "b", "c", "d", "e", "f"]));
    for (a, b) in [(0, 1), (1, 2), (2, 3), (3, 0), (4, 5)] {
        even.add_edge_idx(a, b);
    }
    assert!(even.is_bipartite());
    let mut odd = Graph::from_names(names(&["a", "b", "c", "d", "e", "f"]));
    for (a, b) in [(0, 1), (4, 5), (2, 3), (3, 4), (4, 2)] {
        odd.add_edge_idx(a, b);
    }
    assert!(!odd.is_bipartite());
    assert!(Graph::empty().is_bipartite());
}

#[test]
fn reduce_to_dense_trims_a_leaf() {
    let mut k256 = Graph::complete(256);
    let mut rand1024_with_leaf = Graph::random_given_edges(1024, 262145);
    rand1024_with_leaf.add_vertex("leaf");
    rand1024_with_leaf.add_edge_idx(1024, 0);
    assert!(rand1024_with_leaf.reduce_to_dense());
    assert_eq!(1024, rand1024_with_leaf.get_num_of_vertices());
    assert_eq!(262145, rand1024_with_leaf.get_num_of_edges());
    assert!(!rand1024_with_leaf.contains_vertex("leaf"));
    assert!(!k256.reduce_to_dense());
    assert_eq!(0, k256.get_num_of_vertices());
}

#[test]
fn reduce_to_dense_keeps_dense_graph() {
    let mut k300 = Graph::complete(300);
    assert!(k300.reduce_to_dense());
    assert_eq!(300, k300.get_num_of_vertices());
    assert_eq!(44850, k300.get_num_of_edges());
}

#[test]
fn reduce_to_dense_counts_stay_consistent() {
    let mut g = Graph::complete(270);
    for i in 0..40 {
        g.add_vertex(&format!("pendant_{}", i));
        let last = g.get_num_of_vertices() - 1;
        g.add_edge_idx(last, i);
    }
    assert!(g.reduce_to_dense());
    // 36 pendant vertices go before 274 vertices and 36319 edges are dense
    assert_eq!(274, g.get_num_of_vertices());
    assert_eq!(36319, g.get_num_of_edges());
    let degree_sum: usize = g.vertices().map(|v| g.neighbours_idx(v).unwrap().len()).sum();
    assert_eq!(2 * g.get_num_of_edges(), degree_sum);
}

#[test]
fn random_given_edges_counts() {
    let rand42 = Graph::random_given_edges(42, 42);
    assert_eq!(rand42.get_num_of_edges(), 42);
    assert_eq!(rand42.get_num_of_vertices(), 42);
    assert_eq!(Some("v12".to_string()), rand42.idx_to_name(12));
    let degree_sum: usize = rand42.vertices().map(|v| rand42.neighbours_idx(v).unwrap().len()).sum();
    assert_eq!(84, degree_sum);
    let full = Graph::random_given_edges(7, 21);
    assert_eq!(21, full.get_num_of_edges());
    let none = Graph::random_given_edges(5, 0);
    assert_eq!(0, none.get_num_of_edges());
}

#[test]
fn with_given_edges_is_reproducible() {
    let first = Graph::with_given_edges(4, 3, &vec![0, 0, 0]);
    assert_eq!(HashSet::from([1, 2, 3]), first.neighbours_idx(0).unwrap());
    let moved = Graph::with_given_edges(4, 2, &vec![5, 1]);
    // pairs (0,1) (0,2) (0,3) (1,2) (1,3) (2,3); step 0 swaps 0 with 5, step 1 swaps 1 with 2,
    // which leaves (2,3) and (0,3) in front
    assert_eq!(HashSet::from([3]), moved.neighbours_idx(2).unwrap());
    assert_eq!(HashSet::from([0, 2]), moved.neighbours_idx(3).unwrap());
    assert_eq!(HashSet::from([3]), moved.neighbours_idx(0).unwrap());
    assert_eq!(2, moved.get_num_of_edges());
}

#[test]
fn name_round_trip_after_changes() {
    let mut g = Graph::complete(6);
    g.add_vertex("extra");
    assert!(g.remove_vertex("vertex_1"));
    assert!(g.remove_vertex("vertex_4"));
    g.add_vertex("late");
    for v in g.vertices() {
        let name = g.idx_to_name(v).unwrap();
        let idx = g.name_to_idx(&name).unwrap();
        assert_eq!(v, idx);
        assert_eq!(Some(name), g.idx_to_name(idx));
    }
}

#[test]
fn parts_round_trip() {
    let mut g = Graph::from_names(names(&["a", "b", "c"]));
    g.add_edge_idx(0, 2);
    g.add_edge_idx(1, 2);
    let back = Graph::from_parts(3, 2, g.neighbour_lists(), g.names()).unwrap();
    assert_eq!(2, back.get_num_of_edges());
    assert_eq!(HashSet::from([0, 1]), back.neighbours_idx(2).unwrap());
    assert_eq!(Some(1), back.name_to_idx("b"));
}

#[test]
fn parts_rejected() {
    let lists = vec![vec![1], vec![]];
    assert!(Graph::from_parts(2, 1, lists, names(&["a", "b"])).is_none());
    let lists = vec![vec![1], vec![0]];
    assert!(Graph::from_parts(2, 2, lists.clone(), names(&["a", "b"])).is_none());
    assert!(Graph::from_parts(3, 1, lists.clone(), names(&["a", "b"])).is_none());
    assert!(Graph::from_parts(2, 1, lists, names(&["a", "b"])).is_some());
    let looped = vec![vec![0]];
    assert!(Graph::from_parts(1, 0, looped, names(&["a"])).is_none());
    let repeated = vec![vec![1, 1], vec![0]];
    assert!(Graph::from_parts(2, 1, repeated, names(&["a", "b"])).is_none());
}

#[test]
fn is_sparse_threshold() {
    let mut g = Graph::from_names(names(&["a", "b"]));
    assert!(!g.is_sparse());
    g.add_edge_idx(0, 1);
    assert!(g.is_sparse());
    assert!(!Graph::complete(300).is_sparse());
    assert!(Graph::complete(200).is_sparse());
}

#[test]
fn from_names_keeps_first_of_repeated_names() {
    let mut g = Graph::from_names(names(&["a", "b", "a", "c"]));
    assert_eq!(3, g.get_num_of_vertices());
    assert_eq!(Some(0), g.name_to_idx("a"));
    assert_eq!(Some(2), g.name_to_idx("c"));
    assert!(g.remove_vertex("a"));
    assert_eq!(None, g.name_to_idx("a"));
    assert_eq!(2, g.get_num_of_vertices());
}

#[test]
fn parts_with_repeated_names_rejected() {
    let lists = vec![vec![], vec![]];
    assert!(Graph::from_parts(2, 0, lists, names(&["a", "a"])).is_none());
}

#[test]
fn with_edge_choices_picks_pairs() {
    // pairs (0,1) (0,2) (0,3) (1,2) (1,3) (2,3)
    let g = Graph::with_edge_choices(4, &vec![true, false, false, false, true, true]);
    assert_eq!(3, g.get_num_of_edges());
    assert_eq!(HashSet::from([1]), g.neighbours_idx(0).unwrap());
    assert_eq!(HashSet::from([0, 3]), g.neighbours_idx(1).unwrap());
    assert_eq!(HashSet::from([1, 2]), g.neighbours_idx(3).unwrap());
    assert_eq!(Some("vertex_3".to_string()), g.idx_to_name(3));
    let empty = Graph::with_edge_choices(1, &vec![]);
    assert_eq!(1, empty.get_num_of_vertices());
}
