use kcolor::graph::Graph;
use kcolor::local::{
    clash_count, color_local, color_local_seeded, find_conflicts, flip, free_colors,
    local_search_from,
    local_step, most_conflicted, pick_color, pick_target, random_colors, random_start,
    start_coloring,
};
use rand::rngs::StdRng;
use rand::SeedableRng;
use std::collections::HashMap;

fn graph_from(edges: &[(u64, u64)]) -> Graph {
    let mut g = Graph::new();
    for &(u, v) in edges {
        assert!(g.add_edge(u, v));
    }
    g
}

fn colors_from(pairs: &[(u64, u64)]) -> HashMap<u64, u64> {
    pairs.iter().cloned().collect()
}

fn valid(g: &Graph, coloring: &HashMap<u64, u64>, k: u64) -> bool {
    coloring.len() == g.len()
        && (0..g.len()).all(|i| {
            let v = g.vertex(i);
            match coloring.get(&v) {
                Some(c) => *c < k && g.neighbors_at(i).iter().all(|n| coloring.get(n) != Some(c)),
                None => false,
            }
        })
}

#[test]
fn local_search_colors_bipartite_graphs() {
    let graphs = [
        graph_from(&[(1, 2), (2, 3), (3, 4), (4, 5), (5, 6)]),
        graph_from(&[(1, 2), (2, 3), (3, 4), (4, 1), (4, 5)]),
        graph_from(&[(1, 4), (1, 5), (1, 6), (2, 4), (2, 5), (2, 6), (3, 4), (3, 5), (3, 6)]),
    ];
    for g in &graphs {
        for _ in 0..5 {
            let c = color_local(g, 2, 100_000).expect("a bipartite graph has a 2-coloring");
            assert!(valid(g, &c, 2));
        }
    }
}

#[test]
fn seeded_local_search_can_be_repeated() {
    let g = graph_from(&[(1, 2), (2, 3), (3, 4), (4, 5), (5, 1), (1, 6), (6, 7), (7, 3)]);
    for seed in [0u64, 1, 42, u64::MAX] {
        let first = color_local_seeded(&g, 3, 100_000, seed);
        let second = color_local_seeded(&g, 3, 100_000, seed);
        assert_eq!(first, second);
        let c = first.expect("three colors are enough");
        assert!(valid(&g, &c, 3));
    }
}

#[test]
fn seeded_local_search_keeps_to_its_budget() {
    let mut g = Graph::new();
    for u in 0..4u64 {
        for v in (u + 1)..4 {
            g.add_edge(u, v);
        }
    }
    assert!(color_local_seeded(&g, 3, 500, 7).is_none());
    assert!(color_local_seeded(&g, 4, 0, 7).is_none());
    let c = color_local_seeded(&g, 4, 100_000, 7).expect("four colors are enough");
    assert!(valid(&g, &c, 4));
}

#[test]
fn local_search_result_stays_below_k() {
    let g = graph_from(&[(1, 2), (2, 3), (3, 1), (3, 4)]);
    for k in 3..7 {
        let c = color_local(&g, k, 100_000).expect("three colors are enough");
        assert!(valid(&g, &c, k));
    }
}

#[test]
fn local_search_fails_on_a_clique_of_one_more_than_k() {
    for k in 1..5u64 {
        let mut g = Graph::new();
        for u in 0..=k {
            for v in (u + 1)..=k {
                g.add_edge(u, v);
            }
        }
        assert!(color_local(&g, k, 2_000).is_none());
    }
}

#[test]
fn local_search_without_flips_fails() {
    let mut g = Graph::new();
    g.add_vertex(1);
    assert!(color_local(&g, 3, 0).is_none());
    assert!(color_local(&Graph::new(), 3, 0).is_none());
}

#[test]
fn local_search_without_edges_succeeds_at_once() {
    let mut g = Graph::new();
    for v in 0..10 {
        g.add_vertex(v);
    }
    let c = color_local(&g, 1, 1).expect("nothing can clash");
    assert!(valid(&g, &c, 1));
    assert_eq!(color_local(&Graph::new(), 0, 1), Some(HashMap::new()));
}

#[test]
fn local_search_without_colors_fails() {
    let mut g = Graph::new();
    g.add_vertex(1);
    assert!(color_local(&g, 0, 10).is_none());
}

#[test]
fn clash_count_counts_neighbors_of_the_same_color() {
    let g = graph_from(&[(1, 2), (1, 3), (1, 4), (2, 3)]);
    let colored = colors_from(&[(1, 0), (2, 0), (3, 1), (4, 0)]);
    assert_eq!(clash_count(&g, &colored, 0), 2);
    assert_eq!(clash_count(&g, &colored, 1), 1);
    assert_eq!(clash_count(&g, &colored, 2), 0);
    assert_eq!(clash_count(&g, &colored, 3), 1);
}

#[test]
fn find_conflicts_lists_conflicted_vertices_in_order() {
    let g = graph_from(&[(1, 2), (1, 3), (1, 4), (2, 3), (5, 6)]);
    let colored = colors_from(&[(1, 0), (2, 0), (3, 1), (4, 0), (5, 2), (6, 3)]);
    assert_eq!(find_conflicts(&g, &colored), vec![(1, 2), (2, 1), (4, 1)]);
    let proper = colors_from(&[(1, 0), (2, 1), (3, 2), (4, 1), (5, 0), (6, 1)]);
    assert_eq!(find_conflicts(&g, &proper), vec![]);
}

#[test]
fn most_conflicted_is_the_last_of_the_largest() {
    assert_eq!(most_conflicted(&vec![(4, 1)]), 4);
    assert_eq!(most_conflicted(&vec![(4, 1), (7, 3), (2, 2)]), 7);
    assert_eq!(most_conflicted(&vec![(4, 3), (7, 1), (2, 3), (9, 2)]), 2);
}

#[test]
fn free_colors_are_those_no_neighbor_holds() {
    let g = graph_from(&[(1, 2), (1, 3), (1, 4)]);
    let colored = colors_from(&[(1, 0), (2, 0), (3, 2), (4, 2)]);
    assert_eq!(free_colors(&g, &colored, 4, 0), vec![1, 3]);
    assert_eq!(free_colors(&g, &colored, 1, 0), Vec::<u64>::new());
    assert_eq!(free_colors(&g, &colored, 3, 1), vec![1, 2]);
    assert_eq!(free_colors(&g, &colored, 0, 1), Vec::<u64>::new());
}

#[test]
fn local_search_colors_a_path_of_three() {
    let g = graph_from(&[(1, 2), (2, 3)]);
    let first = colors_from(&[(1, 0), (2, 1), (3, 0)]);
    let second = colors_from(&[(1, 1), (2, 0), (3, 1)]);
    for seed in 0..20u64 {
        let c = color_local_seeded(&g, 2, 100_000, seed).expect("a path has a 2-coloring");
        assert!(c == first || c == second);
    }
    let c = color_local(&g, 2, 100_000).expect("a path has a 2-coloring");
    assert!(c == first || c == second);
}

#[test]
fn local_search_on_a_triangle() {
    let g = graph_from(&[(1, 2), (2, 3), (1, 3)]);
    assert!(color_local(&g, 2, 10_000).is_none());
    let c = color_local(&g, 3, 100_000).expect("a triangle has a 3-coloring");
    let mut used: Vec<u64> = c.values().cloned().collect();
    used.sort();
    assert_eq!(used, vec![0, 1, 2]);
}

#[test]
fn pick_target_follows_the_coin() {
    let list = vec![(4, 3), (7, 1), (2, 3), (9, 2)];
    assert_eq!(pick_target(&list, 0, 0), 4);
    assert_eq!(pick_target(&list, 0, 1), 7);
    assert_eq!(pick_target(&list, 0, 3), 9);
    // with any other coin the position is not looked at
    assert_eq!(pick_target(&list, 1, 0), 2);
    assert_eq!(pick_target(&list, 1, 3), 2);
    let shuffled = vec![(2, 3), (9, 2), (4, 3), (7, 1)];
    assert_eq!(pick_target(&shuffled, 1, 0), 4);
}

#[test]
fn pick_color_takes_a_free_color_where_there_is_one() {
    assert_eq!(pick_color(&vec![1, 3, 6], 0), 1);
    assert_eq!(pick_color(&vec![1, 3, 6], 2), 6);
    assert_eq!(pick_color(&vec![], 0), 0);
    assert_eq!(pick_color(&vec![], 5), 5);
}

#[test]
fn start_coloring_gives_each_vertex_its_color() {
    let g = graph_from(&[(5, 2), (2, 9)]);
    let start = start_coloring(&g, &vec![7, 0, 3]);
    assert_eq!(start, colors_from(&[(2, 7), (5, 0), (9, 3)]));
    assert_eq!(start_coloring(&Graph::new(), &vec![]), HashMap::new());
}

#[test]
fn random_colors_stay_below_k() {
    let mut rng = StdRng::seed_from_u64(3);
    let colors = random_colors(&mut rng, 200, 3);
    assert_eq!(colors.len(), 200);
    assert!(colors.iter().all(|c| *c < 3));
    assert!(colors.iter().any(|c| *c != colors[0]));
    assert_eq!(random_colors(&mut rng, 0, 0), Vec::<u64>::new());
    let g = graph_from(&[(1, 2), (2, 3)]);
    let start = random_start(&g, 4, &mut rng);
    assert_eq!(start.len(), 3);
    assert!(start.values().all(|c| *c < 4));
}

#[test]
fn local_step_leaves_a_proper_coloring_alone() {
    let g = graph_from(&[(1, 2), (2, 3)]);
    let mut rng = StdRng::seed_from_u64(1);
    let proper = colors_from(&[(1, 0), (2, 1), (3, 0)]);
    let mut colored = proper.clone();
    assert_eq!(local_step(&g, 2, &mut colored, &mut rng), None);
    assert_eq!(colored, proper);
}

#[test]
fn local_step_recolors_one_conflicted_vertex() {
    // 1, 2 and 3 clash; 4 does not; color 2 is free everywhere
    let g = graph_from(&[(1, 2), (2, 3), (3, 1), (3, 4)]);
    let before = colors_from(&[(1, 0), (2, 0), (3, 0), (4, 1)]);
    for seed in 0..30u64 {
        let mut rng = StdRng::seed_from_u64(seed);
        let mut colored = before.clone();
        assert_eq!(local_step(&g, 3, &mut colored, &mut rng), Some(3));
        let changed: Vec<u64> = (1..=4).filter(|v| colored[v] != before[v]).collect();
        assert_eq!(changed.len(), 1);
        let v = changed[0];
        assert!(v != 4);
        // the new color is one that no neighbor held
        let row = g.neighbors(v).unwrap();
        assert!(row.iter().all(|n| before[n] != colored[&v]));
        assert!(colored[&v] < 3);
    }
}

#[test]
fn local_step_takes_any_color_where_none_is_free() {
    // the middle of a path, with both colors held by its neighbors
    let g = graph_from(&[(1, 2), (2, 3)]);
    let before = colors_from(&[(1, 0), (2, 1), (3, 1)]);
    for seed in 0..30u64 {
        let mut rng = StdRng::seed_from_u64(seed);
        let mut colored = before.clone();
        assert_eq!(local_step(&g, 2, &mut colored, &mut rng), Some(2));
        assert_eq!(colored[&1], 0);
        assert!(colored[&2] < 2 && colored[&3] < 2);
        // 3 can only take the free color 0; 2 has no free color and takes any
        assert!(colored[&3] == 1 || colored[&2] == 1);
    }
}

#[test]
fn local_search_returns_a_proper_start_at_once() {
    let g = graph_from(&[(1, 2), (2, 3), (3, 4)]);
    let start = colors_from(&[(1, 2), (2, 0), (3, 2), (4, 1)]);
    let mut rng = StdRng::seed_from_u64(9);
    assert_eq!(local_search_from(&g, 3, start.clone(), 1, &mut rng), Some(start.clone()));
    assert_eq!(local_search_from(&g, 3, start.clone(), 0, &mut rng), None);
}

#[test]
fn local_search_settles_one_edge_in_two_flips() {
    let g = graph_from(&[(5, 6)]);
    let first = colors_from(&[(5, 0), (6, 1)]);
    let second = colors_from(&[(5, 1), (6, 0)]);
    for seed in 0..40u64 {
        let c = color_local_seeded(&g, 2, 2, seed).expect("two flips are enough");
        assert!(c == first || c == second);
        let mut rng = StdRng::seed_from_u64(seed);
        let clash = colors_from(&[(5, 1), (6, 1)]);
        let c = local_search_from(&g, 2, clash.clone(), 2, &mut rng).expect("one flip settles it");
        assert!(c == first || c == second);
        let mut rng = StdRng::seed_from_u64(seed);
        assert_eq!(local_search_from(&g, 2, clash, 1, &mut rng), None);
    }
}

#[test]
fn flip_gives_the_target_its_new_color() {
    let mut colored = colors_from(&[(1, 0), (2, 0), (3, 1)]);
    flip(&mut colored, 2, &vec![2, 4], 1);
    assert_eq!(colored, colors_from(&[(1, 0), (2, 4), (3, 1)]));
    flip(&mut colored, 3, &vec![], 0);
    assert_eq!(colored, colors_from(&[(1, 0), (2, 4), (3, 0)]));
}
