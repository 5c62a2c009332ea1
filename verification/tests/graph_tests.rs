use kcolor::graph::Graph;
use std::collections::{HashMap, HashSet};

#[test]
fn new_graph_is_empty() {
    let g = Graph::new();
    assert_eq!(g.len(), 0);
    assert!(!g.has_vertex(0));
    assert!(g.neighbors(0).is_none());
    assert_eq!(g.position(7), None);
}

#[test]
fn add_vertex_reports_whether_new() {
    let mut g = Graph::new();
    assert!(g.add_vertex(5));
    assert!(g.add_vertex(2));
    assert!(!g.add_vertex(5));
    assert_eq!(g.len(), 2);
    assert_eq!(g.vertex(0), 2);
    assert_eq!(g.vertex(1), 5);
    assert_eq!(g.neighbors(5), Some(&vec![]));
}

#[test]
fn add_edge_is_symmetric() {
    let mut g = Graph::new();
    assert!(g.add_edge(3, 1));
    assert!(g.has_edge(1, 3));
    assert!(g.has_edge(3, 1));
    assert!(!g.has_edge(1, 1));
    assert!(!g.has_edge(1, 2));
    assert_eq!(g.len(), 2);
    assert_eq!(g.neighbors(1), Some(&vec![3]));
    assert_eq!(g.neighbors(3), Some(&vec![1]));
}

#[test]
fn add_edge_refuses_a_self_loop() {
    let mut g = Graph::new();
    assert!(!g.add_edge(4, 4));
    assert_eq!(g.len(), 0);
    assert!(g.add_edge(4, 5));
    assert!(!g.add_edge(5, 5));
    assert_eq!(g.neighbors(5), Some(&vec![4]));
}

#[test]
fn add_edge_twice_changes_nothing() {
    let mut g = Graph::new();
    assert!(g.add_edge(1, 2));
    assert!(g.add_edge(2, 1));
    assert_eq!(g.neighbors(1), Some(&vec![2]));
    assert_eq!(g.neighbors(2), Some(&vec![1]));
}

#[test]
fn vertices_and_neighbors_come_in_increasing_order() {
    let mut g = Graph::new();
    for (u, v) in [(9, 4), (4, 7), (4, 1), (7, 9), (4, 20)] {
        g.add_edge(u, v);
    }
    let ids: Vec<u64> = (0..g.len()).map(|i| g.vertex(i)).collect();
    assert_eq!(ids, vec![1, 4, 7, 9, 20]);
    assert_eq!(g.neighbors(4), Some(&vec![1, 7, 9, 20]));
    assert_eq!(g.neighbors_at(3), &vec![4, 7]);
    assert_eq!(g.position(9), Some(3));
    assert_eq!(g.position(8), None);
}

#[test]
fn induced_keeps_edges_between_kept_vertices_only() {
    let mut g = Graph::new();
    for (u, v) in [(1, 2), (2, 3), (3, 4), (4, 1), (1, 3)] {
        g.add_edge(u, v);
    }
    let keep: HashSet<u64> = [1, 3, 4, 99].into_iter().collect();
    let sub = g.induced(&keep);
    assert_eq!(sub.len(), 3);
    assert!(!sub.has_vertex(2));
    assert!(!sub.has_vertex(99));
    assert_eq!(sub.neighbors(1), Some(&vec![3, 4]));
    assert_eq!(sub.neighbors(3), Some(&vec![1, 4]));
    assert_eq!(sub.neighbors(4), Some(&vec![1, 3]));
}

#[test]
fn induced_on_nothing_is_empty() {
    let mut g = Graph::new();
    g.add_edge(1, 2);
    let sub = g.induced(&HashSet::new());
    assert_eq!(sub.len(), 0);
}

fn table(rows: &[(u64, &[u64])]) -> HashMap<u64, HashSet<u64>> {
    rows.iter().map(|(v, ns)| (*v, ns.iter().cloned().collect())).collect()
}

#[test]
fn from_adjacency_takes_an_undirected_graph() {
    let g = Graph::from_adjacency(&table(&[(3, &[1, 2]), (1, &[3]), (2, &[3]), (8, &[])]))
        .expect("the table is symmetric");
    assert_eq!(g.len(), 4);
    assert_eq!(g.neighbors(1), Some(&vec![3]));
    assert_eq!(g.neighbors(2), Some(&vec![3]));
    assert_eq!(g.neighbors(3), Some(&vec![1, 2]));
    assert_eq!(g.neighbors(8), Some(&vec![]));
    let empty = Graph::from_adjacency(&HashMap::new()).expect("nothing can be wrong");
    assert_eq!(empty.len(), 0);
}

#[test]
fn from_adjacency_refuses_an_edge_listed_from_one_end() {
    assert!(Graph::from_adjacency(&table(&[(1, &[2]), (2, &[])])).is_none());
    assert!(Graph::from_adjacency(&table(&[(1, &[2, 3]), (2, &[1]), (3, &[2])])).is_none());
}

#[test]
fn from_adjacency_refuses_a_self_loop() {
    assert!(Graph::from_adjacency(&table(&[(1, &[1])])).is_none());
    assert!(Graph::from_adjacency(&table(&[(1, &[2]), (2, &[1, 2])])).is_none());
}

#[test]
fn from_adjacency_refuses_a_neighbor_that_is_no_vertex() {
    assert!(Graph::from_adjacency(&table(&[(1, &[2])])).is_none());
}
