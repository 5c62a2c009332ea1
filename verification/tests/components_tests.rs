use kcolor::components::{connected_components, find_component, prune_degree};
use kcolor::graph::Graph;
use std::collections::HashMap;

fn build(edges: &[(u64, u64)]) -> Graph {
    let mut g = Graph::new();
    for &(u, v) in edges {
        assert!(g.add_edge(u, v));
    }
    g
}

fn edges_of(g: &Graph) -> Vec<(u64, Vec<u64>)> {
    (0..g.len()).map(|i| (g.vertex(i), g.neighbors_at(i).clone())).collect()
}

#[test]
fn empty_graph_has_no_components() {
    assert_eq!(connected_components(&Graph::new()).len(), 0);
    assert_eq!(prune_degree(&Graph::new(), 0).len(), 0);
}

#[test]
fn components_come_in_order_of_their_lowest_vertex() {
    let mut g = build(&[(7, 8), (1, 5), (5, 9), (3, 4), (4, 6), (6, 3)]);
    g.add_vertex(2);
    let parts = connected_components(&g);
    assert_eq!(parts.len(), 4);
    assert_eq!(edges_of(&parts[0]), vec![(1, vec![5]), (5, vec![1, 9]), (9, vec![5])]);
    assert_eq!(edges_of(&parts[1]), vec![(2, vec![])]);
    assert_eq!(
        edges_of(&parts[2]),
        vec![(3, vec![4, 6]), (4, vec![3, 6]), (6, vec![3, 4])]
    );
    assert_eq!(edges_of(&parts[3]), vec![(7, vec![8]), (8, vec![7])]);
}

#[test]
fn a_connected_graph_is_its_own_single_component() {
    let g = build(&[(1, 2), (2, 3), (3, 4), (4, 1), (2, 5)]);
    let parts = connected_components(&g);
    assert_eq!(parts.len(), 1);
    assert_eq!(edges_of(&parts[0]), edges_of(&g));
    let again = connected_components(&parts[0]);
    assert_eq!(again.len(), 1);
    assert_eq!(edges_of(&again[0]), edges_of(&g));
}

#[test]
fn every_component_splits_into_itself() {
    let g = build(&[(1, 2), (3, 4), (4, 5), (6, 7), (7, 8), (8, 6)]);
    for part in connected_components(&g) {
        let again = connected_components(&part);
        assert_eq!(again.len(), 1);
        assert_eq!(edges_of(&again[0]), edges_of(&part));
    }
}

#[test]
fn find_component_labels_what_is_connected_to_the_root() {
    let g = build(&[(1, 2), (2, 3), (4, 5)]);
    let mut labels: HashMap<u64, usize> = HashMap::new();
    find_component(&g, &mut labels, 2, 7);
    let mut found: Vec<(u64, usize)> = labels.iter().map(|(v, l)| (*v, *l)).collect();
    found.sort();
    assert_eq!(found, vec![(1, 7), (2, 7), (3, 7)]);
    find_component(&g, &mut labels, 5, 8);
    let mut found: Vec<(u64, usize)> = labels.iter().map(|(v, l)| (*v, *l)).collect();
    found.sort();
    assert_eq!(found, vec![(1, 7), (2, 7), (3, 7), (4, 8), (5, 8)]);
}

#[test]
fn pruning_drops_vertices_of_low_degree_once() {
    // 1-2-3-4 form a square with the diagonal 1-3; 5 hangs off 4; 6-7 is apart.
    let g = build(&[(1, 2), (2, 3), (3, 4), (4, 1), (1, 3), (4, 5), (6, 7)]);
    let parts = prune_degree(&g, 3);
    // degrees: 1 -> 3, 2 -> 2, 3 -> 3, 4 -> 3, 5 -> 1, 6 -> 1, 7 -> 1
    assert_eq!(parts.len(), 1);
    assert_eq!(
        edges_of(&parts[0]),
        vec![(1, vec![3, 4]), (3, vec![1, 4]), (4, vec![1, 3])]
    );
    // pruning is not repeated: what is left has degree two, below k
}

#[test]
fn pruning_with_zero_keeps_everything() {
    let mut g = build(&[(1, 2), (3, 4)]);
    g.add_vertex(5);
    let parts = prune_degree(&g, 0);
    assert_eq!(parts.len(), 3);
    assert_eq!(edges_of(&parts[2]), vec![(5, vec![])]);
    let parts = prune_degree(&g, 1);
    assert_eq!(parts.len(), 2);
    assert_eq!(prune_degree(&g, 2).len(), 0);
}

#[test]
fn pruning_can_leave_isolated_vertices() {
    // a star: only the center has degree three
    let g = build(&[(1, 2), (1, 3), (1, 4)]);
    let parts = prune_degree(&g, 3);
    assert_eq!(parts.len(), 1);
    assert_eq!(edges_of(&parts[0]), vec![(1, vec![])]);
}

#[test]
fn find_component_does_nothing_for_a_labelled_root() {
    let g = build(&[(1, 2), (2, 3)]);
    let mut labels: HashMap<u64, usize> = HashMap::new();
    labels.insert(2, 4);
    find_component(&g, &mut labels, 2, 9);
    let mut found: Vec<(u64, usize)> = labels.iter().map(|(v, l)| (*v, *l)).collect();
    found.sort();
    assert_eq!(found, vec![(2, 4)]);
}

#[test]
fn find_component_stops_at_labelled_vertices() {
    let g = build(&[(1, 2), (2, 3), (1, 4), (4, 5)]);
    let mut labels: HashMap<u64, usize> = HashMap::new();
    labels.insert(2, 0);
    find_component(&g, &mut labels, 1, 7);
    let mut found: Vec<(u64, usize)> = labels.iter().map(|(v, l)| (*v, *l)).collect();
    found.sort();
    // 3 lies behind the labelled vertex 2 and is not reached
    assert_eq!(found, vec![(1, 7), (2, 0), (4, 7), (5, 7)]);
}
