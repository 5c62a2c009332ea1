use kcolor::graph::Graph;
use kcolor::search::{
    color, color_dfs, forward_check, neighbor_stats, order_colors, select_vertex,
};
use std::collections::HashMap;

fn graph_of(edges: &[(u64, u64)]) -> Graph {
    let mut g = Graph::new();
    for &(u, v) in edges {
        assert!(g.add_edge(u, v));
    }
    g
}

fn coloring_of(pairs: &[(u64, u64)]) -> HashMap<u64, u64> {
    pairs.iter().cloned().collect()
}

fn is_k_coloring(g: &Graph, coloring: &HashMap<u64, u64>, k: u64) -> bool {
    if coloring.len() != g.len() {
        return false;
    }
    for i in 0..g.len() {
        let v = g.vertex(i);
        let c = match coloring.get(&v) {
            Some(c) => *c,
            None => return false,
        };
        if c >= k {
            return false;
        }
        for n in g.neighbors_at(i) {
            if coloring.get(n) == Some(&c) {
                return false;
            }
        }
    }
    true
}

fn complete_graph(n: u64) -> Graph {
    let mut g = Graph::new();
    for u in 1..=n {
        g.add_vertex(u);
        for v in (u + 1)..=n {
            g.add_edge(u, v);
        }
    }
    g
}

#[test]
fn path_of_three_with_two_colors() {
    let g = graph_of(&[(1, 2), (2, 3)]);
    for forward in [false, true] {
        let c = color(&g, 2, forward).expect("a path can be colored with two colors");
        let first = coloring_of(&[(1, 0), (2, 1), (3, 0)]);
        let second = coloring_of(&[(1, 1), (2, 0), (3, 1)]);
        assert!(c == first || c == second);
    }
}

#[test]
fn triangle_with_two_colors_fails() {
    let g = graph_of(&[(1, 2), (2, 3), (1, 3)]);
    assert!(color(&g, 2, false).is_none());
    assert!(color(&g, 2, true).is_none());
}

#[test]
fn triangle_with_three_colors_uses_all_three() {
    let g = graph_of(&[(1, 2), (2, 3), (1, 3)]);
    for forward in [false, true] {
        let c = color(&g, 3, forward).expect("a triangle can be colored with three colors");
        assert!(is_k_coloring(&g, &c, 3));
        let mut used: Vec<u64> = c.values().cloned().collect();
        used.sort();
        assert_eq!(used, vec![0, 1, 2]);
    }
}

#[test]
fn every_returned_coloring_is_valid() {
    let petersen = graph_of(&[
        (0, 1), (1, 2), (2, 3), (3, 4), (4, 0),
        (0, 5), (1, 6), (2, 7), (3, 8), (4, 9),
        (5, 7), (7, 9), (9, 6), (6, 8), (8, 5),
    ]);
    for forward in [false, true] {
        assert!(color(&petersen, 2, forward).is_none());
        for k in 3..6 {
            let c = color(&petersen, k, forward).expect("the Petersen graph needs three colors");
            assert!(is_k_coloring(&petersen, &c, k));
        }
    }
}

#[test]
fn backtracking_finds_the_chromatic_number_of_cliques_and_cycles() {
    for n in 1..7u64 {
        let g = complete_graph(n);
        for k in 0..9u64 {
            for forward in [false, true] {
                assert_eq!(color(&g, k, forward).is_some(), k >= n);
            }
        }
    }
    let odd_cycle = graph_of(&[(1, 2), (2, 3), (3, 4), (4, 5), (5, 1)]);
    assert!(color(&odd_cycle, 2, false).is_none());
    assert!(color(&odd_cycle, 3, false).is_some());
    let even_cycle = graph_of(&[(1, 2), (2, 3), (3, 4), (4, 1)]);
    assert!(color(&even_cycle, 1, true).is_none());
    assert!(color(&even_cycle, 2, true).is_some());
}

#[test]
fn clique_of_one_more_than_k_fails() {
    for k in 1..6u64 {
        let g = complete_graph(k + 1);
        assert!(color(&g, k, false).is_none());
        assert!(color(&g, k, true).is_none());
    }
}

#[test]
fn empty_graph_has_the_empty_coloring() {
    let g = Graph::new();
    assert_eq!(color(&g, 0, false), Some(HashMap::new()));
    assert_eq!(color(&g, 3, true), Some(HashMap::new()));
}

#[test]
fn no_colors_for_a_vertex_fails() {
    let mut g = Graph::new();
    g.add_vertex(1);
    assert!(color(&g, 0, false).is_none());
    assert_eq!(color(&g, 1, false), Some(coloring_of(&[(1, 0)])));
}

#[test]
fn a_graph_in_several_pieces_is_colored_whole() {
    let mut g = graph_of(&[(1, 2), (3, 4), (4, 5), (5, 3)]);
    g.add_vertex(9);
    for forward in [false, true] {
        assert!(color(&g, 2, forward).is_none());
        let c = color(&g, 3, forward).expect("three colors are enough");
        assert!(is_k_coloring(&g, &c, 3));
    }
}

#[test]
fn color_dfs_completes_a_partial_coloring() {
    let g = graph_of(&[(1, 2), (2, 3), (3, 4)]);
    let mut colored = coloring_of(&[(2, 1)]);
    let found = color_dfs(&g, 2, &mut colored, false).expect("the path can be completed");
    assert_eq!(found, coloring_of(&[(1, 0), (2, 1), (3, 0), (4, 1)]));
    assert_eq!(colored, found);
}

#[test]
fn color_dfs_leaves_the_coloring_alone_on_failure() {
    let g = graph_of(&[(1, 2), (2, 3), (1, 3)]);
    let start = coloring_of(&[(1, 0)]);
    for forward in [false, true] {
        let mut colored = start.clone();
        assert!(color_dfs(&g, 2, &mut colored, forward).is_none());
        assert_eq!(colored, start);
    }
}

#[test]
fn neighbor_stats_counts_colors_and_colored_neighbors() {
    let g = graph_of(&[(1, 2), (1, 3), (1, 4), (1, 5)]);
    let colored = coloring_of(&[(2, 7), (3, 7), (4, 1)]);
    let (colors, count) = neighbor_stats(&g, &colored, 0);
    assert_eq!(count, 3);
    let mut seen: Vec<u64> = colors.into_iter().collect();
    seen.sort();
    assert_eq!(seen, vec![1, 7]);
    let (colors, count) = neighbor_stats(&g, &colored, 1);
    assert_eq!(count, 0);
    assert!(colors.is_empty());
}

#[test]
fn first_vertex_has_the_most_neighbors_and_the_lowest_id() {
    let g = graph_of(&[(1, 2), (3, 4), (3, 5), (6, 7), (6, 8)]);
    let nothing = HashMap::new();
    let at = select_vertex(&g, &nothing).expect("there are vertices");
    assert_eq!(g.vertex(at), 3);
}

#[test]
fn next_vertex_is_the_most_saturated_on_the_frontier() {
    // 10 and 11 are colored; 1 sees two colors, 2 sees one color twice,
    // 3 sees one color once but has many uncolored neighbors.
    let g = graph_of(&[
        (1, 10), (1, 11), (2, 10), (2, 12), (3, 10), (3, 20), (3, 21), (3, 22), (3, 23),
    ]);
    let colored = coloring_of(&[(10, 0), (11, 1), (12, 0)]);
    let at = select_vertex(&g, &colored).expect("there are uncolored vertices");
    assert_eq!(g.vertex(at), 1);
    // without the second color at 1: two colored neighbors beat one
    let colored = coloring_of(&[(10, 0), (12, 0)]);
    let at = select_vertex(&g, &colored).expect("there are uncolored vertices");
    assert_eq!(g.vertex(at), 2);
    // without 12: 1, 2 and 3 each see one colored neighbor; 3 has the most uncolored ones
    let colored = coloring_of(&[(10, 0)]);
    let at = select_vertex(&g, &colored).expect("there are uncolored vertices");
    assert_eq!(g.vertex(at), 3);
}

#[test]
fn equal_frontier_vertices_are_told_apart_by_id() {
    let g = graph_of(&[(1, 5), (2, 5), (3, 5)]);
    let colored = coloring_of(&[(5, 0)]);
    let at = select_vertex(&g, &colored).expect("there are uncolored vertices");
    assert_eq!(g.vertex(at), 3);
}

#[test]
fn select_vertex_of_a_colored_graph_is_none() {
    let g = graph_of(&[(1, 2)]);
    let colored = coloring_of(&[(1, 0), (2, 1)]);
    assert_eq!(select_vertex(&g, &colored), None);
}

#[test]
fn colors_are_tried_most_used_first_then_by_id() {
    let g = graph_of(&[(1, 10), (1, 11), (2, 10), (2, 12), (10, 11)]);
    let colored = coloring_of(&[(10, 2), (11, 2), (12, 0)]);
    assert_eq!(order_colors(&g, &colored, 5), vec![2, 0, 1, 3, 4]);
    let colored = coloring_of(&[(10, 3), (11, 1), (12, 1)]);
    assert_eq!(order_colors(&g, &colored, 5), vec![1, 3, 0, 2, 4]);
    assert_eq!(order_colors(&g, &HashMap::new(), 3), vec![0, 1, 2]);
    // a color that is not below k is not counted, and not listed
    let colored = coloring_of(&[(10, 7), (11, 1), (12, 2)]);
    assert_eq!(order_colors(&g, &colored, 4), vec![1, 2, 0, 3]);
    assert_eq!(order_colors(&g, &colored, 0), Vec::<u64>::new());
}

#[test]
fn forward_check_sees_a_neighbor_run_out_of_colors() {
    // 2 is uncolored and already sees color 0 at 3; with k = 2, giving 1 the
    // color 1 leaves 2 nothing, giving it 0 leaves 2 the color 1.
    let g = graph_of(&[(1, 2), (2, 3)]);
    let colored = coloring_of(&[(3, 0)]);
    assert!(forward_check(&g, &colored, 2, 0, 1));
    assert!(!forward_check(&g, &colored, 2, 0, 0));
    assert!(!forward_check(&g, &colored, 3, 0, 1));
    // a colored neighbor is not looked at
    let colored = coloring_of(&[(2, 1), (3, 0)]);
    assert!(!forward_check(&g, &colored, 2, 0, 0));
}

fn queens(n: u64) -> Graph {
    // one vertex per square of an n by n board; edges join the squares that
    // a queen on the one attacks on the other
    let mut g = Graph::new();
    for a in 0..n * n {
        for b in (a + 1)..n * n {
            let (r1, c1, r2, c2) = (a / n, a % n, b / n, b % n);
            let diagonal = r1.abs_diff(r2) == c1.abs_diff(c2);
            if r1 == r2 || c1 == c2 || diagonal {
                g.add_edge(a, b);
            }
        }
    }
    g
}

#[test]
fn queens_on_a_board_of_five_need_five_colors() {
    let g = queens(5);
    assert_eq!(g.len(), 25);
    for forward in [false, true] {
        assert!(color(&g, 4, forward).is_none());
        let c = color(&g, 5, forward).expect("five colors are enough");
        assert!(is_k_coloring(&g, &c, 5));
    }
}

#[test]
fn a_grid_is_colored_with_two_colors() {
    let side = 12u64;
    let mut g = Graph::new();
    for r in 0..side {
        for c in 0..side {
            let v = r * side + c;
            if c + 1 < side {
                g.add_edge(v, v + 1);
            }
            if r + 1 < side {
                g.add_edge(v, v + side);
            }
        }
    }
    for forward in [false, true] {
        assert!(color(&g, 1, forward).is_none());
        let c = color(&g, 2, forward).expect("a grid is bipartite");
        assert!(is_k_coloring(&g, &c, 2));
        assert_eq!(c[&0], c[&(side + 1)]);
        assert_ne!(c[&0], c[&1]);
    }
}

#[test]
fn forward_pruning_never_changes_the_result() {
    let graphs = [
        queens(4),
        graph_of(&[(1, 2), (2, 3), (3, 4), (4, 5), (5, 1), (1, 3)]),
        graph_of(&[(1, 2), (1, 3), (1, 4), (2, 3), (2, 4), (3, 4), (4, 5), (5, 6)]),
    ];
    for g in &graphs {
        for k in 0..7 {
            let plain = color(g, k, false);
            let pruning = color(g, k, true);
            assert_eq!(plain, pruning);
            if let Some(c) = plain {
                assert!(is_k_coloring(g, &c, k));
            }
        }
    }
}

fn exhaustive(g: &Graph, k: u64) -> bool {
    // tries every way to give one of k colors to each vertex
    let n = g.len();
    let mut colors = vec![0u64; n];
    if n > 0 && k == 0 {
        return false;
    }
    loop {
        let ok = (0..n).all(|i| {
            g.neighbors_at(i).iter().all(|w| colors[g.position(*w).unwrap()] != colors[i])
        });
        if ok {
            return true;
        }
        let mut i = 0;
        loop {
            if i == n {
                return false;
            }
            colors[i] += 1;
            if colors[i] < k {
                break;
            }
            colors[i] = 0;
            i += 1;
        }
    }
}

#[test]
fn backtracking_agrees_with_exhaustive_search_on_small_graphs() {
    let mut state: u64 = 0x2545_f491_4f6c_dd1d;
    for round in 0..60 {
        let n = 2 + round % 6;
        let mut g = Graph::new();
        for v in 0..n {
            g.add_vertex(v * 3);
        }
        for u in 0..n {
            for v in (u + 1)..n {
                state = state.wrapping_mul(6364136223846793005).wrapping_add(1442695040888963407);
                if (state >> 33) % 100 < 45 {
                    g.add_edge(u * 3, v * 3);
                }
            }
        }
        for k in 0..5 {
            let expected = exhaustive(&g, k);
            for forward in [false, true] {
                let found = color(&g, k, forward);
                assert_eq!(found.is_some(), expected);
                if let Some(c) = found {
                    assert!(is_k_coloring(&g, &c, k));
                }
            }
        }
    }
}
