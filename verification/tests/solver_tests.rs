use kcolor::graph::Graph;
use kcolor::solver::{solve, Strategy};
use std::collections::HashMap;

fn make(edges: &[(u64, u64)]) -> Graph {
    let mut g = Graph::new();
    for &(u, v) in edges {
        assert!(g.add_edge(u, v));
    }
    g
}

fn strategies() -> Vec<Strategy> {
    vec![
        Strategy::Backtracking,
        Strategy::ForwardChecking,
        Strategy::LocalSearch { max_flips: 100_000 },
    ]
}

fn proper_on(g: &Graph, coloring: &HashMap<u64, u64>, k: u64) -> bool {
    coloring.iter().all(|(v, c)| {
        *c < k
            && match g.neighbors(*v) {
                Some(row) => row.iter().all(|n| coloring.get(n) != Some(c)),
                None => false,
            }
    })
}

#[test]
fn two_edges_apart_with_one_color_fail() {
    let g = make(&[(1, 2), (3, 4)]);
    for s in strategies() {
        assert!(solve(&g, 1, s).is_none());
    }
}

#[test]
fn two_edges_apart_with_one_more_color_succeed() {
    let g = make(&[(1, 2), (3, 4)]);
    // with k = 2 every vertex has fewer than k neighbors and is left out
    for s in strategies() {
        assert_eq!(solve(&g, 2, s), Some(HashMap::new()));
    }
}

#[test]
fn solve_colors_what_pruning_leaves() {
    // two squares with both diagonals (two copies of K4), joined by a path
    let g = make(&[
        (1, 2), (1, 3), (1, 4), (2, 3), (2, 4), (3, 4),
        (11, 12), (11, 13), (11, 14), (12, 13), (12, 14), (13, 14),
        (4, 20), (20, 11),
    ]);
    for s in strategies() {
        assert!(solve(&g, 3, s).is_none());
    }
    for s in strategies() {
        // with k = 4 only 4 and 11 have four neighbors; they are not adjacent
        let c = solve(&g, 4, s).expect("two vertices apart");
        assert_eq!(c.len(), 2);
        assert!(c.contains_key(&4) && c.contains_key(&11));
        assert!(proper_on(&g, &c, 4));
    }
}

#[test]
fn one_failing_component_fails_the_whole() {
    // a triangle and, apart from it, K4; with k = 2 nothing is pruned
    let g = make(&[
        (1, 2), (2, 3), (3, 1),
        (5, 6), (5, 7), (5, 8), (6, 7), (6, 8), (7, 8),
        (10, 11), (11, 12), (12, 13), (13, 10),
    ]);
    assert!(solve(&g, 2, Strategy::Backtracking).is_none());
    assert!(solve(&g, 2, Strategy::ForwardChecking).is_none());
    assert!(solve(&g, 2, Strategy::LocalSearch { max_flips: 1_000 }).is_none());
}

#[test]
fn colorings_of_components_are_put_together() {
    let g = make(&[(1, 2), (2, 3), (3, 4), (4, 1), (10, 11), (11, 12), (12, 13), (13, 10)]);
    for s in strategies() {
        let c = solve(&g, 2, s).expect("two squares");
        assert_eq!(c.len(), 8);
        assert!(proper_on(&g, &c, 2));
    }
}

#[test]
fn pruned_vertices_can_be_colored_afterwards() {
    // a wheel: hub 0 joined to the cycle 1..=6, and pendant vertices at each rim vertex
    let mut edges: Vec<(u64, u64)> = Vec::new();
    for i in 1..=6u64 {
        edges.push((0, i));
        edges.push((i, if i == 6 { 1 } else { i + 1 }));
        edges.push((i, 100 + i));
    }
    let g = make(&edges);
    let k = 4;
    for s in strategies() {
        let mut c = solve(&g, k, s).expect("the wheel can be colored with four colors");
        assert!(proper_on(&g, &c, k));
        // only the vertices with at least four neighbors were colored
        assert_eq!(c.len(), 7);
        for i in 0..g.len() {
            let v = g.vertex(i);
            if c.contains_key(&v) {
                continue;
            }
            let row = g.neighbors_at(i);
            assert!((row.len() as u64) < k);
            let free = (0..k).find(|x| row.iter().all(|n| c.get(n) != Some(x)));
            c.insert(v, free.expect("fewer than k neighbors leave a color"));
        }
        assert_eq!(c.len(), g.len());
        assert!(proper_on(&g, &c, k));
    }
}

#[test]
fn both_kinds_of_backtracking_give_the_same_coloring() {
    let g = make(&[
        (1, 2), (2, 3), (3, 4), (4, 1), (1, 3), (2, 4),
        (10, 11), (11, 12), (12, 13), (13, 14), (14, 10), (10, 12), (11, 13),
    ]);
    for k in 0..6 {
        assert_eq!(solve(&g, k, Strategy::Backtracking), solve(&g, k, Strategy::ForwardChecking));
    }
}

#[test]
fn empty_graph_is_solved_by_the_empty_coloring() {
    for s in strategies() {
        assert_eq!(solve(&Graph::new(), 3, s), Some(HashMap::new()));
    }
    assert_eq!(solve(&Graph::new(), 0, Strategy::Backtracking), Some(HashMap::new()));
}

#[test]
fn local_search_without_budget_fails_on_what_is_left() {
    // with k = 1 nothing is pruned from an edge
    let g = make(&[(1, 2)]);
    assert!(solve(&g, 1, Strategy::LocalSearch { max_flips: 0 }).is_none());
    // with k = 2 everything is pruned, and nothing is left to fail on
    assert_eq!(solve(&g, 2, Strategy::LocalSearch { max_flips: 0 }), Some(HashMap::new()));
}

#[test]
fn local_search_succeeds_where_pruning_leaves_no_edge() {
    // two stars: only the centers have three neighbors
    let g = make(&[(1, 2), (1, 3), (1, 4), (10, 11), (10, 12), (10, 13)]);
    let c = solve(&g, 3, Strategy::LocalSearch { max_flips: 1 }).expect("no edge is left");
    assert_eq!(c.len(), 2);
    assert!(c[&1] < 3 && c[&10] < 3);
}
