//! Backtracking search for a `k`-coloring, guided by saturation degree.

use crate::coloring::{
    blocked, color_order, colorable, colored_neighbors, completable, extends, k_coloring,
    lemma_extend_proper, lemma_palette_len, lemma_starved_blocks, lemma_used_blocks,
    most_saturated, neighbor_colors, next_vertex, on_frontier, outranks, palette, pressure,
    proper, starves, tried_before, uncolored, usage, widest,
};
use crate::graph::{valid_graph, Graph};
use std::collections::HashMap;
use std::collections::HashSet;
use vstd::prelude::*;
use vstd::std_specs::hash::*;

verus! {

/// The vertex that the search colors next, if one is left.
pub open spec fn chosen_vertex(g: Map<u64, Set<u64>>, c: Map<u64, u64>) -> Option<u64> {
    if exists|v: u64| next_vertex(g, c, v) {
        Some(choose|v: u64| next_vertex(g, c, v))
    } else {
        None
    }
}

/// The order in which the search tries the colors below `k`.
pub open spec fn chosen_order(g: Map<u64, Set<u64>>, c: Map<u64, u64>, k: u64) -> Seq<u64> {
    choose|s: Seq<u64>| color_order(g, c, k, s)
}

/// How many vertices of `g` are left uncolored by `c`.
pub open spec fn remaining(g: Map<u64, Set<u64>>, c: Map<u64, u64>) -> nat {
    g.dom().difference(c.dom()).len()
}

/// What the search returns when it starts from the partial coloring `c`:
/// `c` itself once every vertex is colored; else what comes of trying the
/// colors, in their order, on the vertex chosen next.
pub open spec fn search(g: Map<u64, Set<u64>>, c: Map<u64, u64>, k: u64, forward: bool) -> Option<
    Map<u64, u64>,
>
    decreases remaining(g, c), 1nat, 0nat,
    when g.dom().finite()
{
    match chosen_vertex(g, c) {
        None => Some(c),
        Some(v) => try_colors(g, c, k, forward, v, chosen_order(g, c, k), 0),
    }
}

/// What the search returns when it tries on `v` the colors of `order` from
/// position `i` on: a color that a neighbor holds is passed over, and so is,
/// with `forward` set, one that would leave a neighbor without a color; the
/// first color under which the rest of the search succeeds decides.
pub open spec fn try_colors(
    g: Map<u64, Set<u64>>,
    c: Map<u64, u64>,
    k: u64,
    forward: bool,
    v: u64,
    order: Seq<u64>,
    i: int,
) -> Option<Map<u64, u64>>
    decreases remaining(g, c), 0nat, order.len() - i,
    when g.dom().finite() && uncolored(g, c, v) && i >= 0
    via try_colors_decreases
{
    if i >= order.len() {
        None
    } else if neighbor_colors(g, c, v).contains(order[i]) || (forward && starves(
        g,
        c,
        k,
        v,
        order[i],
    )) {
        try_colors(g, c, k, forward, v, order, i + 1)
    } else {
        match search(g, c.insert(v, order[i]), k, forward) {
            Some(e) => Some(e),
            None => try_colors(g, c, k, forward, v, order, i + 1),
        }
    }
}

#[via_fn]
proof fn try_colors_decreases(
    g: Map<u64, Set<u64>>,
    c: Map<u64, u64>,
    k: u64,
    forward: bool,
    v: u64,
    order: Seq<u64>,
    i: int,
) {
    if i < order.len() {
        lemma_remaining_drops(g, c, v, order[i]);
    }
}

/// Coloring one more vertex leaves one vertex less to color.
pub proof fn lemma_remaining_drops(g: Map<u64, Set<u64>>, c: Map<u64, u64>, v: u64, x: u64)
    requires
        g.dom().finite(),
        uncolored(g, c, v),
    ensures
        remaining(g, c.insert(v, x)) + 1 == remaining(g, c),
{
    let before = g.dom().difference(c.dom());
    let after = g.dom().difference(c.insert(v, x).dom());
    assert(after =~= before.remove(v));
    assert(before.contains(v));
}

/// Only one vertex can be the next.
proof fn lemma_next_vertex_unique(g: Map<u64, Set<u64>>, c: Map<u64, u64>, v: u64, w: u64)
    requires
        next_vertex(g, c, v),
        next_vertex(g, c, w),
    ensures
        v == w,
{
    if v != w {
        if exists|u: u64| on_frontier(g, c, u) {
            assert(outranks(g, c, v, w));
            assert(outranks(g, c, w, v));
        } else {
            assert(uncolored(g, c, v) && uncolored(g, c, w));
        }
    }
}

/// Two orders of the same colors agree up to any position.
proof fn lemma_color_order_agrees(
    g: Map<u64, Set<u64>>,
    c: Map<u64, u64>,
    k: u64,
    s1: Seq<u64>,
    s2: Seq<u64>,
    i: int,
)
    requires
        color_order(g, c, k, s1),
        color_order(g, c, k, s2),
        0 <= i < k,
    ensures
        forall|j: int| 0 <= j <= i ==> s1[j] == s2[j],
    decreases i,
{
    if i > 0 {
        lemma_color_order_agrees(g, c, k, s1, s2, i - 1);
    }
    let a = s1[i];
    let b = s2[i];
    if a != b {
        assert(s2.contains(a));
        let p = s2.index_of(a);
        assert(s2[p] == a);
        if p < i {
            assert(s1[p] == a);
            assert(tried_before(g, c, s1[p], s1[i]));
        }
        assert(tried_before(g, c, s2[i], s2[p]));
        assert(s1.contains(b));
        let q = s1.index_of(b);
        assert(s1[q] == b);
        if q < i {
            assert(s2[q] == b);
            assert(tried_before(g, c, s2[q], s2[i]));
        }
        assert(tried_before(g, c, s1[i], s1[q]));
    }
}

/// There is only one order in which the colors are tried.
proof fn lemma_color_order_unique(g: Map<u64, Set<u64>>, c: Map<u64, u64>, k: u64, s: Seq<u64>)
    requires
        color_order(g, c, k, s),
    ensures
        chosen_order(g, c, k) == s,
{
    let t = chosen_order(g, c, k);
    assert(color_order(g, c, k, t));
    if k > 0 {
        lemma_color_order_agrees(g, c, k, s, t, k - 1);
    }
    assert(s =~= t);
}

/// The coloring that `r` holds, as a map.
pub open spec fn found(r: Option<HashMap<u64, u64>>) -> Option<Map<u64, u64>> {
    match r {
        Some(e) => Some(e@),
        None => None,
    }
}

/// For the `i`-th vertex: the set of colors that its colored neighbors
/// hold, and how many of its neighbors are colored.
pub fn neighbor_stats(graph: &Graph, colored: &HashMap<u64, u64>, i: usize) -> (r: (
    HashSet<u64>,
    usize,
))
    requires
        graph.wf(),
        i < graph.vertex_seq().len(),
    ensures
        r.0@ == neighbor_colors(graph@, colored@, graph.vertex_seq()[i as int]),
        r.1 == colored_neighbors(graph@, colored@, graph.vertex_seq()[i as int]).len(),
        colored_neighbors(graph@, colored@, graph.vertex_seq()[i as int]).finite(),
{
    broadcast use group_hash_axioms;

    proof {
        graph.lemma_structure();
    }
    let row = graph.neighbors_at(i);
    let ghost v = graph.vertex_seq()[i as int];
    let mut colors: HashSet<u64> = HashSet::new();
    let mut count: usize = 0;
    let ghost mut seen: Set<u64> = Set::empty();
    let mut j: usize = 0;
    while j < row.len()
        invariant
            j <= row@.len(),
            row@.no_duplicates(),
            forall|x: u64|
                colors@.contains(x) <==> exists|t: int|
                    0 <= t < j && colored@.dom().contains(#[trigger] row@[t]) && colored@[row@[t]]
                        == x,
            forall|n: u64|
                seen.contains(n) <==> colored@.dom().contains(n) && exists|t: int|
                    0 <= t < j && #[trigger] row@[t] == n,
            seen.finite(),
            count == seen.len(),
            count <= j,
        decreases row@.len() - j,
    {
        let n = row[j];
        let ghost old_colors = colors@;
        let ghost old_seen = seen;
        match colored.get(&n) {
            Some(c) => {
                colors.insert(*c);
                count += 1;
                proof {
                    seen = seen.insert(n);
                    assert(!old_seen.contains(n));
                }
            },
            None => {},
        }
        proof {
            assert forall|x: u64|
                colors@.contains(x) <==> exists|t: int|
                    0 <= t < j + 1 && colored@.dom().contains(#[trigger] row@[t])
                        && colored@[row@[t]] == x by {
                if colors@.contains(x) {
                    if old_colors.contains(x) {
                        let t = choose|t: int|
                            0 <= t < j && colored@.dom().contains(#[trigger] row@[t])
                                && colored@[row@[t]] == x;
                        assert(0 <= t < j + 1 && colored@.dom().contains(row@[t])
                            && colored@[row@[t]] == x);
                    } else {
                        assert(colored@.dom().contains(row@[j as int]) && colored@[row@[j as int]]
                            == x);
                    }
                }
                if exists|t: int|
                    0 <= t < j + 1 && colored@.dom().contains(#[trigger] row@[t])
                        && colored@[row@[t]] == x {
                    let t = choose|t: int|
                        0 <= t < j + 1 && colored@.dom().contains(#[trigger] row@[t])
                            && colored@[row@[t]] == x;
                    if t < j {
                        assert(old_colors.contains(x));
                    }
                }
            }
            assert forall|m: u64|
                seen.contains(m) <==> colored@.dom().contains(m) && exists|t: int|
                    0 <= t < j + 1 && #[trigger] row@[t] == m by {
                if seen.contains(m) {
                    if old_seen.contains(m) {
                        let t = choose|t: int| 0 <= t < j && #[trigger] row@[t] == m;
                        assert(0 <= t < j + 1 && row@[t] == m);
                    } else {
                        assert(row@[j as int] == m);
                    }
                }
                if colored@.dom().contains(m) && exists|t: int|
                    0 <= t < j + 1 && #[trigger] row@[t] == m {
                    let t = choose|t: int| 0 <= t < j + 1 && #[trigger] row@[t] == m;
                    if t < j {
                        assert(old_seen.contains(m));
                    }
                }
            }
        }
        j += 1;
    }
    proof {
        assert forall|x: u64| colors@.contains(x) <==> neighbor_colors(
            graph@,
            colored@,
            v,
        ).contains(x) by {
            if colors@.contains(x) {
                let t = choose|t: int|
                    0 <= t < j && colored@.dom().contains(#[trigger] row@[t]) && colored@[row@[t]]
                        == x;
                assert(row@.to_set().contains(row@[t]));
            }
            if neighbor_colors(graph@, colored@, v).contains(x) {
                let n = choose|n: u64| #[trigger]
                    graph@[v].contains(n) && colored@.dom().contains(n) && colored@[n] == x;
                assert(row@.to_set().contains(n));
                let t = row@.index_of(n);
                assert(row@[t] == n);
            }
        }
        assert(colors@ =~= neighbor_colors(graph@, colored@, v));
        assert forall|n: u64| seen.contains(n) <==> colored_neighbors(
            graph@,
            colored@,
            v,
        ).contains(n) by {
            if seen.contains(n) {
                let t = choose|t: int| 0 <= t < j && #[trigger] row@[t] == n;
                assert(row@.to_set().contains(row@[t]));
            }
            if colored_neighbors(graph@, colored@, v).contains(n) {
                assert(row@.to_set().contains(n));
                let t = row@.index_of(n);
                assert(row@[t] == n);
            }
        }
        assert(seen =~= colored_neighbors(graph@, colored@, v));
    }
    (colors, count)
}

/// The position of the vertex to color next, or `None` when every vertex is
/// colored.
pub fn select_vertex(graph: &Graph, colored: &HashMap<u64, u64>) -> (r: Option<usize>)
    requires
        graph.wf(),
    ensures
        match r {
            Some(i) => i < graph.vertex_seq().len() && next_vertex(
                graph@,
                colored@,
                graph.vertex_seq()[i as int],
            ),
            None => forall|v: u64| !uncolored(graph@, colored@, v),
        },
{
    broadcast use group_hash_axioms;

    proof {
        graph.lemma_structure();
    }
    let ghost g = graph@;
    let ghost c = colored@;
    let ghost vs = graph.vertex_seq();
    let n: usize = graph.len();
    let mut front: Option<usize> = None;
    let mut front_sat: usize = 0;
    let mut front_cn: usize = 0;
    let mut front_rest: usize = 0;
    let mut wide: Option<usize> = None;
    let mut wide_deg: usize = 0;
    let mut i: usize = 0;
    while i < n
        invariant
            graph.wf(),
            g == graph@,
            c == colored@,
            vs == graph.vertex_seq(),
            n == vs.len(),
            i <= n,
            match front {
                Some(b) => {
                    &&& b < i
                    &&& on_frontier(g, c, vs[b as int])
                    &&& front_sat == neighbor_colors(g, c, vs[b as int]).len()
                    &&& front_cn == colored_neighbors(g, c, vs[b as int]).len()
                    &&& front_rest == g[vs[b as int]].len() - front_cn
                    &&& forall|t: int|
                        0 <= t < i && t != b && on_frontier(g, c, #[trigger] vs[t]) ==> outranks(
                            g,
                            c,
                            vs[b as int],
                            vs[t],
                        )
                },
                None => forall|t: int| 0 <= t < i ==> !on_frontier(g, c, #[trigger] vs[t]),
            },
            match wide {
                Some(b) => {
                    &&& b < i
                    &&& uncolored(g, c, vs[b as int])
                    &&& wide_deg == g[vs[b as int]].len()
                    &&& forall|t: int|
                        0 <= t < i && t != b && uncolored(g, c, #[trigger] vs[t]) ==> g[vs[t]].len()
                            < wide_deg || (g[vs[t]].len() == wide_deg && b < t)
                },
                None => forall|t: int| 0 <= t < i ==> !uncolored(g, c, #[trigger] vs[t]),
            },
        decreases n - i,
    {
        let v: u64 = graph.vertex(i);
        proof {
            graph.lemma_structure();
        }
        if !colored.contains_key(&v) {
            let row = graph.neighbors_at(i);
            let deg: usize = row.len();
            let (colors, cn) = neighbor_stats(graph, colored, i);
            let sat: usize = colors.len();
            proof {
                graph.lemma_structure();
                vstd::set_lib::lemma_len_subset(colored_neighbors(g, c, v), g[v]);
            }
            let rest: usize = deg - cn;
            if cn > 0 {
                let better: bool = match front {
                    None => true,
                    Some(b) => sat > front_sat || (sat == front_sat && (cn > front_cn || (cn
                        == front_cn && rest >= front_rest))),
                };
                if better {
                    front = Some(i);
                    front_sat = sat;
                    front_cn = cn;
                    front_rest = rest;
                }
            }
            let wider: bool = match wide {
                None => true,
                Some(b) => deg > wide_deg,
            };
            if wider {
                wide = Some(i);
                wide_deg = deg;
            }
        }
        i += 1;
    }
    match front {
        Some(b) => {
            proof {
                let w = vs[b as int];
                assert forall|u: u64| #[trigger] on_frontier(g, c, u) && u != w implies outranks(
                    g,
                    c,
                    w,
                    u,
                ) by {
                    let t = vs.index_of(u);
                    assert(vs.contains(u));
                    assert(vs[t] == u);
                }
            }
            Some(b)
        },
        None => {
            proof {
                assert forall|u: u64| !on_frontier(g, c, u) by {
                    if on_frontier(g, c, u) {
                        assert(vs.contains(u));
                        let t = vs.index_of(u);
                        assert(vs[t] == u);
                    }
                }
            }
            match wide {
                Some(b) => {
                    proof {
                        let w = vs[b as int];
                        assert forall|u: u64| #[trigger] uncolored(g, c, u) && u != w implies g[u].len()
                            < g[w].len() || (g[u].len() == g[w].len() && w < u) by {
                            assert(vs.contains(u));
                            let t = vs.index_of(u);
                            assert(vs[t] == u);
                        }
                    }
                    Some(b)
                },
                None => {
                    proof {
                        assert forall|u: u64| !uncolored(g, c, u) by {
                            if uncolored(g, c, u) {
                                assert(vs.contains(u));
                                let t = vs.index_of(u);
                                assert(vs[t] == u);
                            }
                        }
                    }
                    None
                },
            }
        },
    }
}

/// The pairs of `pairs` whose second vertex holds the color `x`.
spec fn tally(pairs: Set<(u64, u64)>, c: Map<u64, u64>, x: u64) -> Set<(u64, u64)> {
    pairs.filter(|p: (u64, u64)| c[p.1] == x)
}

proof fn lemma_tally_insert(pairs: Set<(u64, u64)>, c: Map<u64, u64>, p: (u64, u64), x: u64)
    requires
        pairs.finite(),
        !pairs.contains(p),
    ensures
        tally(pairs, c, x).finite(),
        tally(pairs.insert(p), c, x).finite(),
        tally(pairs, c, x).len() <= pairs.len(),
        tally(pairs.insert(p), c, x).len() == tally(pairs, c, x).len() + (if c[p.1] == x {
            1nat
        } else {
            0nat
        }),
{
    vstd::set_lib::lemma_set_subset_finite(pairs, tally(pairs, c, x));
    vstd::set_lib::lemma_len_subset(tally(pairs, c, x), pairs);
    if c[p.1] == x {
        assert(tally(pairs.insert(p), c, x) =~= tally(pairs, c, x).insert(p));
    } else {
        assert(tally(pairs.insert(p), c, x) =~= tally(pairs, c, x));
    }
}

/// `p` is an adjacent pair of an uncolored vertex and a colored one that
/// stands before the cursor `(i, j)`: its first vertex is among the first
/// `i` vertices, or is the `i`-th and its second is among the first `j`
/// entries of `row`.
spec fn counted(
    g: Map<u64, Set<u64>>,
    c: Map<u64, u64>,
    vs: Seq<u64>,
    i: int,
    row: Seq<u64>,
    j: int,
    p: (u64, u64),
) -> bool {
    &&& uncolored(g, c, p.0)
    &&& g[p.0].contains(p.1)
    &&& c.dom().contains(p.1)
    &&& (exists|t: int| 0 <= t < i && #[trigger] vs[t] == p.0) || (0 <= i < vs.len() && vs[i] == p.0
        && exists|t: int| 0 <= t < j && #[trigger] row[t] == p.1)
}

/// For each color below `k` that some neighbor of an uncolored vertex holds:
/// how often it occurs there. The second component lists those colors.
fn tally_colors(graph: &Graph, colored: &HashMap<u64, u64>, k: u64) -> (r: (
    HashMap<u64, u128>,
    Vec<u64>,
))
    requires
        graph.wf(),
    ensures
        forall|x: u64| #[trigger]
            r.0@.contains_key(x) <==> x < k && usage(graph@, colored@, x) > 0,
        forall|x: u64| r.0@.contains_key(x) ==> #[trigger] r.0@[x] == usage(graph@, colored@, x),
        r.1@.no_duplicates(),
        forall|x: u64| r.1@.contains(x) <==> r.0@.contains_key(x),
{
    broadcast use group_hash_axioms;

    proof {
        graph.lemma_structure();
    }
    let ghost g = graph@;
    let ghost c = colored@;
    let ghost vs = graph.vertex_seq();
    let n: usize = graph.len();
    let mut counts: HashMap<u64, u128> = HashMap::new();
    let mut seen: Vec<u64> = Vec::new();
    let ghost mut pairs: Set<(u64, u64)> = Set::empty();
    let mut i: usize = 0;
    proof {
        assert forall|x: u64| tally(pairs, c, x) =~= Set::<(u64, u64)>::empty() by {}
    }
    while i < n
        invariant
            graph.wf(),
            g == graph@,
            c == colored@,
            vs == graph.vertex_seq(),
            n == vs.len(),
            i <= n,
            pairs.finite(),
            pairs.len() <= i * 0x1_0000_0000_0000_0000,
            forall|p: (u64, u64)|
                pairs.contains(p) <==> counted(g, c, vs, i as int, Seq::<u64>::empty(), 0, p),
            forall|x: u64| #[trigger]
                counts@.contains_key(x) <==> x < k && tally(pairs, c, x).len() > 0,
            forall|x: u64|
                counts@.contains_key(x) ==> #[trigger] counts@[x] == tally(pairs, c, x).len(),
            seen@.no_duplicates(),
            forall|x: u64|
                #![trigger seen@.contains(x)]
                #![trigger counts@.contains_key(x)]
                seen@.contains(x) <==> counts@.contains_key(x),
        decreases n - i,
    {
        let v: u64 = graph.vertex(i);
        proof {
            graph.lemma_structure();
        }
        if !colored.contains_key(&v) {
            let row = graph.neighbors_at(i);
            let mut j: usize = 0;
            while j < row.len()
                invariant
                    g == graph@,
                    c == colored@,
                    vs == graph.vertex_seq(),
                    n == vs.len(),
                    i < n,
                    v == vs[i as int],
                    uncolored(g, c, v),
                    vs.no_duplicates(),
                    row@ == graph.neighbor_seq(i as int),
                    row@.no_duplicates(),
                    row@.to_set() == g[v],
                    j <= row@.len(),
                    pairs.finite(),
                    pairs.len() <= i * 0x1_0000_0000_0000_0000 + j,
                    forall|p: (u64, u64)|
                        pairs.contains(p) <==> counted(g, c, vs, i as int, row@, j as int, p),
                    forall|x: u64| #[trigger]
                        counts@.contains_key(x) <==> x < k && tally(pairs, c, x).len() > 0,
                    forall|x: u64|
                        counts@.contains_key(x) ==> #[trigger] counts@[x] == tally(pairs, c, x).len(),
                    seen@.no_duplicates(),
                    forall|x: u64|
                #![trigger seen@.contains(x)]
                #![trigger counts@.contains_key(x)]
                seen@.contains(x) <==> counts@.contains_key(x),
                decreases row@.len() - j,
            {
                let ne: u64 = row[j];
                let ghost old_pairs = pairs;
                let ghost old_seen = seen@;
                let ghost old_counts = counts@;
                match colored.get(&ne) {
                    Some(color) => {
                        let x: u64 = *color;
                        let ghost p = (v, ne);
                        proof {
                            assert(!old_pairs.contains(p)) by {
                                if old_pairs.contains(p) {
                                    assert(counted(g, c, vs, i as int, row@, j as int, p));
                                }
                            }
                            pairs = old_pairs.insert(p);
                            lemma_tally_insert(old_pairs, c, p, x);
                        }
                        if x < k {
                            match counts.get(&x) {
                                Some(old_count) => {
                                    let next: u128 = *old_count + 1;
                                    counts.insert(x, next);
                                    proof {
                                        assert(counts@.dom() =~= old_counts.dom());
                                        assert forall|y: u64|
                                            #![trigger seen@.contains(y)]
                                            #![trigger counts@.contains_key(y)]
                                            seen@.contains(y) <==> counts@.contains_key(y) by {
                                            assert(old_seen.contains(y) <==> old_counts.contains_key(
                                                y,
                                            ));
                                        }
                                    }
                                },
                                None => {
                                    counts.insert(x, 1);
                                    seen.push(x);
                                    proof {
                                        assert(!old_seen.contains(x));
                                        assert forall|y: u64|
                                            seen@.contains(y) <==> (old_seen.contains(y) || y
                                                == x) by {
                                            if old_seen.contains(y) {
                                                let t = old_seen.index_of(y);
                                                assert(seen@[t] == y);
                                            }
                                            if y == x {
                                                assert(seen@[old_seen.len() as int] == y);
                                            }
                                        }
                                        assert forall|y: u64|
                                            #![trigger seen@.contains(y)]
                                            #![trigger counts@.contains_key(y)]
                                            seen@.contains(y) <==> counts@.contains_key(y) by {
                                            assert(old_seen.contains(y) <==> old_counts.contains_key(
                                                y,
                                            ));
                                        }
                                    }
                                },
                            }
                        }
                        proof {
                            assert forall|y: u64| #[trigger]
                                counts@.contains_key(y) <==> y < k && tally(pairs, c, y).len()
                                    > 0 by {
                                lemma_tally_insert(old_pairs, c, p, y);
                            }
                            assert forall|y: u64| counts@.contains_key(y) implies #[trigger] counts@[y]
                                == tally(pairs, c, y).len() by {
                                lemma_tally_insert(old_pairs, c, p, y);
                            }
                        }
                    },
                    None => {},
                }
                proof {
                    assert(row@.to_set().contains(row@[j as int]));
                    assert forall|p: (u64, u64)|
                        pairs.contains(p) <==> counted(
                            g,
                            c,
                            vs,
                            i as int,
                            row@,
                            j as int + 1,
                            p,
                        ) by {
                        if counted(g, c, vs, i as int, row@, j as int + 1, p) && !counted(
                            g,
                            c,
                            vs,
                            i as int,
                            row@,
                            j as int,
                            p,
                        ) {
                            let t = choose|t: int| 0 <= t < j + 1 && #[trigger] row@[t] == p.1;
                            assert(t == j);
                        }
                        if counted(g, c, vs, i as int, row@, j as int, p) {
                            if !(exists|t: int| 0 <= t < i && #[trigger] vs[t] == p.0) {
                                let t = choose|t: int| 0 <= t < j && #[trigger] row@[t] == p.1;
                                assert(0 <= t < j + 1 && row@[t] == p.1);
                            }
                        }
                    }
                }
                j += 1;
            }
            proof {
                assert forall|p: (u64, u64)|
                    pairs.contains(p) <==> counted(
                        g,
                        c,
                        vs,
                        i as int + 1,
                        Seq::<u64>::empty(),
                        0,
                        p,
                    ) by {
                    if counted(g, c, vs, i as int, row@, j as int, p) {
                        if !(exists|t: int| 0 <= t < i && #[trigger] vs[t] == p.0) {
                            assert(vs[i as int] == p.0);
                        } else {
                            let t = choose|t: int| 0 <= t < i && #[trigger] vs[t] == p.0;
                            assert(0 <= t < i + 1 && vs[t] == p.0);
                        }
                    }
                    if counted(g, c, vs, i as int + 1, Seq::<u64>::empty(), 0, p) {
                        let t = choose|t: int| 0 <= t < i + 1 && #[trigger] vs[t] == p.0;
                        if t == i {
                            assert(row@.to_set().contains(p.1));
                            let s = row@.index_of(p.1);
                            assert(0 <= s < j && row@[s] == p.1);
                        } else {
                            assert(0 <= t < i && vs[t] == p.0);
                        }
                    }
                }
            }
        } else {
            proof {
                assert forall|p: (u64, u64)|
                    pairs.contains(p) <==> counted(
                        g,
                        c,
                        vs,
                        i as int + 1,
                        Seq::<u64>::empty(),
                        0,
                        p,
                    ) by {
                    if counted(g, c, vs, i as int, Seq::<u64>::empty(), 0, p) {
                        let t = choose|t: int| 0 <= t < i && #[trigger] vs[t] == p.0;
                        assert(0 <= t < i + 1 && vs[t] == p.0);
                    }
                    if counted(g, c, vs, i as int + 1, Seq::<u64>::empty(), 0, p) {
                        let t = choose|t: int| 0 <= t < i + 1 && #[trigger] vs[t] == p.0;
                        assert(t != i);
                        assert(0 <= t < i && vs[t] == p.0);
                    }
                }
            }
        }
        i += 1;
    }
    proof {
        assert forall|x: u64| tally(pairs, c, x) =~= pressure(g, c, x) by {
            assert forall|p: (u64, u64)| pressure(g, c, x).contains(p) implies tally(
                pairs,
                c,
                x,
            ).contains(p) by {
                assert(vs.contains(p.0));
                let t = vs.index_of(p.0);
                assert(0 <= t < n && vs[t] == p.0);
            }
        }
        assert forall|x: u64| #[trigger]
            counts@.contains_key(x) <==> x < k && usage(g, c, x) > 0 by {
            assert(tally(pairs, c, x) =~= pressure(g, c, x));
        }
        assert forall|x: u64| counts@.contains_key(x) implies #[trigger] counts@[x] == usage(
            g,
            c,
            x,
        ) by {
            assert(tally(pairs, c, x) =~= pressure(g, c, x));
        }
    }
    (counts, seen)
}

/// By `counts`, `a` goes before `b`: the larger count first, the lower
/// color first among equal counts.
spec fn ranked_before(counts: Map<u64, u128>, a: u64, b: u64) -> bool {
    counts[a] > counts[b] || (counts[a] == counts[b] && a < b)
}

/// `s` is in the order of `ranked_before`.
spec fn ranked(counts: Map<u64, u128>, s: Seq<u64>) -> bool {
    forall|i: int, j: int| 0 <= i < j < s.len() ==> ranked_before(counts, s[i], s[j])
}

/// Puts `x` into `order` at its place.
fn insert_ranked(order: &mut Vec<u64>, counts: &HashMap<u64, u128>, x: u64)
    requires
        ranked(counts@, old(order)@),
        forall|i: int| 0 <= i < old(order)@.len() ==> counts@.contains_key(#[trigger] old(order)@[i]),
        counts@.contains_key(x),
        !old(order)@.contains(x),
    ensures
        ranked(counts@, final(order)@),
        final(order)@.len() == old(order)@.len() + 1,
        forall|y: u64| final(order)@.contains(y) <==> old(order)@.contains(y) || y == x,
        forall|i: int|
            0 <= i < final(order)@.len() ==> counts@.contains_key(#[trigger] final(order)@[i]),
{
    broadcast use group_hash_axioms;

    let ghost before = order@;
    let cx: u128 = *counts.get(&x).unwrap();
    let mut pos: usize = 0;
    let mut found: bool = false;
    while pos < order.len() && !found
        invariant
            order@ == before,
            pos <= order@.len(),
            cx == counts@[x],
            found ==> pos < before.len() && ranked_before(counts@, x, before[pos as int]),
            forall|i: int| 0 <= i < before.len() ==> counts@.contains_key(#[trigger] before[i]),
            !before.contains(x),
            forall|t: int| 0 <= t < pos ==> ranked_before(counts@, #[trigger] before[t], x),
        decreases order@.len() - pos, (if found { 0int } else { 1int }),
    {
        let y: u64 = order[pos];
        let cy: u128 = *counts.get(&y).unwrap();
        if cx > cy || (cx == cy && x < y) {
            found = true;
        } else {
            assert(before.contains(y));
            pos += 1;
        }
    }
    order.insert(pos, x);
    proof {
        let after = order@;
        assert(after == before.insert(pos as int, x));
        assert forall|i: int, j: int| 0 <= i < j < after.len() implies ranked_before(
            counts@,
            after[i],
            after[j],
        ) by {
            if j < pos {
                assert(after[i] == before[i] && after[j] == before[j]);
            } else if j == pos {
                assert(after[i] == before[i]);
            } else if i < pos {
                assert(after[i] == before[i] && after[j] == before[j - 1]);
            } else if i == pos {
                assert(after[j] == before[j - 1]);
                assert(ranked_before(counts@, x, before[pos as int]));
                if j - 1 > pos {
                    assert(ranked_before(counts@, before[pos as int], before[j - 1]));
                }
            } else {
                assert(after[i] == before[i - 1] && after[j] == before[j - 1]);
            }
        }
        assert forall|y: u64| after.contains(y) <==> before.contains(y) || y == x by {
            if after.contains(y) {
                let t = after.index_of(y);
                if t < pos {
                    assert(before[t] == y);
                } else if t > pos {
                    assert(before[t - 1] == y);
                }
            }
            if before.contains(y) {
                let t = before.index_of(y);
                if t < pos {
                    assert(after[t] == y);
                } else {
                    assert(after[t + 1] == y);
                }
            }
            if y == x {
                assert(after[pos as int] == y);
            }
        }
        assert forall|i: int| 0 <= i < after.len() implies counts@.contains_key(
            #[trigger] after[i],
        ) by {
            if i < pos {
                assert(after[i] == before[i]);
            } else if i > pos {
                assert(after[i] == before[i - 1]);
            }
        }
    }
}

/// The colors below `k` in the order in which the search tries them.
pub fn order_colors(graph: &Graph, colored: &HashMap<u64, u64>, k: u64) -> (order: Vec<u64>)
    requires
        graph.wf(),
    ensures
        color_order(graph@, colored@, k, order@),
{
    broadcast use group_hash_axioms;

    let ghost g = graph@;
    let ghost c = colored@;
    let (counts, seen) = tally_colors(graph, colored, k);
    let mut order: Vec<u64> = Vec::new();
    let mut t: usize = 0;
    while t < seen.len()
        invariant
            t <= seen@.len(),
            seen@.no_duplicates(),
            forall|x: u64|
                #![trigger seen@.contains(x)]
                #![trigger counts@.contains_key(x)]
                seen@.contains(x) <==> counts@.contains_key(x),
            ranked(counts@, order@),
            order@.len() == t,
            forall|i: int| 0 <= i < order@.len() ==> counts@.contains_key(#[trigger] order@[i]),
            forall|y: u64|
                order@.contains(y) <==> exists|s: int| 0 <= s < t && #[trigger] seen@[s] == y,
        decreases seen@.len() - t,
    {
        let x: u64 = seen[t];
        let ghost prev = order@;
        proof {
            assert(seen@.contains(x));
            if prev.contains(x) {
                let s = choose|s: int| 0 <= s < t && #[trigger] seen@[s] == x;
                assert(seen@[s] == seen@[t as int]);
            }
        }
        insert_ranked(&mut order, &counts, x);
        proof {
            assert forall|y: u64|
                order@.contains(y) <==> exists|s: int|
                    0 <= s < t + 1 && #[trigger] seen@[s] == y by {
                if prev.contains(y) {
                    let s = choose|s: int| 0 <= s < t && #[trigger] seen@[s] == y;
                    assert(0 <= s < t + 1 && seen@[s] == y);
                }
                if exists|s: int| 0 <= s < t + 1 && #[trigger] seen@[s] == y {
                    let s = choose|s: int| 0 <= s < t + 1 && #[trigger] seen@[s] == y;
                    if s < t {
                        assert(prev.contains(y));
                    }
                }
            }
        }
        t += 1;
    }
    let m: usize = order.len();
    proof {
        assert forall|y: u64| order@.contains(y) <==> counts@.contains_key(y) by {
            if counts@.contains_key(y) {
                assert(seen@.contains(y));
                let s = seen@.index_of(y);
                assert(0 <= s < t && seen@[s] == y);
            }
            if order@.contains(y) {
                let s = choose|s: int| 0 <= s < t && #[trigger] seen@[s] == y;
                assert(seen@.contains(seen@[s]));
            }
        }
    }
    let ghost head = order@;
    let mut x: u64 = 0;
    while x < k
        invariant
            x <= k,
            m == head.len(),
            m <= order@.len(),
            order@.subrange(0, m as int) == head,
            forall|i: int| 0 <= i < head.len() ==> counts@.contains_key(#[trigger] head[i]),
            forall|i: int|
                m <= i < order@.len() ==> !counts@.contains_key(#[trigger] order@[i]) && order@[i]
                    < x,
            forall|i: int, j: int| m <= i < j < order@.len() ==> order@[i] < order@[j],
            forall|y: u64| y < x && !counts@.contains_key(y) ==> order@.contains(y),
        decreases k - x,
    {
        let ghost prev = order@;
        if !counts.contains_key(&x) {
            order.push(x);
            proof {
                assert(order@.subrange(0, m as int) =~= prev.subrange(0, m as int));
                assert(order@[prev.len() as int] == x);
                assert forall|y: u64| y < x + 1 && !counts@.contains_key(y) implies order@.contains(
                    y,
                ) by {
                    if y < x {
                        let s = prev.index_of(y);
                        assert(prev.contains(y));
                        assert(order@[s] == y);
                    }
                }
            }
        }
        x += 1;
    }
    proof {
        let s = order@;
        assert forall|i: int| 0 <= i < m implies s[i] == #[trigger] head[i] by {
            assert(s.subrange(0, m as int)[i] == s[i]);
        }
        assert forall|i: int| 0 <= i < s.len() implies #[trigger] s[i] < k by {
            if i < m {
                assert(counts@.contains_key(head[i]));
            }
        }
        assert forall|y: u64| y < k implies s.contains(y) by {
            if counts@.contains_key(y) {
                assert(head.contains(y));
                let i = head.index_of(y);
                assert(s[i] == y);
            }
        }
        assert forall|i: int, j: int| 0 <= i < j < s.len() implies tried_before(
            g,
            c,
            s[i],
            s[j],
        ) by {
            if j < m {
                assert(ranked_before(counts@, head[i], head[j]));
                assert(counts@.contains_key(head[i]));
                assert(counts@.contains_key(head[j]));
            } else if i < m {
                assert(counts@.contains_key(head[i]));
                assert(!counts@.contains_key(s[j]));
            } else {
                assert(!counts@.contains_key(s[i]));
                assert(!counts@.contains_key(s[j]));
            }
        }
        assert(s.no_duplicates()) by {
            assert forall|i: int, j: int| 0 <= i < s.len() && 0 <= j < s.len() && i != j implies s[i]
                != s[j] by {
                if i < j {
                    assert(tried_before(g, c, s[i], s[j]));
                } else {
                    assert(tried_before(g, c, s[j], s[i]));
                }
            }
        }
        s.unique_seq_to_set();
        assert(s.to_set() =~= palette(k)) by {
            assert forall|y: u64| s.to_set().contains(y) <==> palette(k).contains(y) by {
                if s.to_set().contains(y) {
                    let i = s.index_of(y);
                    assert(s[i] < k);
                }
            }
        }
        lemma_palette_len(k);
    }
    order
}

/// Whether giving the color `x` to the `i`-th vertex would leave one of its
/// uncolored neighbors without a color.
pub fn forward_check(graph: &Graph, colored: &HashMap<u64, u64>, k: u64, i: usize, x: u64) -> (r:
    bool)
    requires
        graph.wf(),
        i < graph.vertex_seq().len(),
    ensures
        r == starves(graph@, colored@, k, graph.vertex_seq()[i as int], x),
{
    broadcast use group_hash_axioms;

    proof {
        graph.lemma_structure();
    }
    let ghost g = graph@;
    let ghost c = colored@;
    let ghost v = graph.vertex_seq()[i as int];
    let row = graph.neighbors_at(i);
    let mut j: usize = 0;
    while j < row.len()
        invariant
            graph.wf(),
            g == graph@,
            c == colored@,
            valid_graph(g),
            i < graph.vertex_seq().len(),
            v == graph.vertex_seq()[i as int],
            g.dom().contains(v),
            row@.to_set() == g[v],
            j <= row@.len(),
            forall|t: int|
                0 <= t < j ==> c.dom().contains(#[trigger] row@[t]) || neighbor_colors(
                    g,
                    c,
                    row@[t],
                ).insert(x).len() < k,
        decreases row@.len() - j,
    {
        let n: u64 = row[j];
        assert(row@.to_set().contains(n));
        if !colored.contains_key(&n) {
            match graph.position(n) {
                Some(at) => {
                    let (mut colors, _) = neighbor_stats(graph, colored, at);
                    colors.insert(x);
                    if colors.len() as u64 >= k {
                        proof {
                            assert(colors@ == neighbor_colors(g, c, n).insert(x));
                            assert(g[v].contains(n) && !c.dom().contains(n) && neighbor_colors(
                                g,
                                c,
                                n,
                            ).insert(x).len() >= k);
                        }
                        return true;
                    }
                },
                None => {
                    assert(false);
                },
            }
        }
        j += 1;
    }
    proof {
        if starves(g, c, k, v, x) {
            let n = choose|n: u64| #[trigger]
                g[v].contains(n) && !c.dom().contains(n) && neighbor_colors(g, c, n).insert(
                    x,
                ).len() >= k;
            assert(row@.to_set().contains(n));
            let t = row@.index_of(n);
            assert(row@[t] == n);
        }
    }
    false
}

/// Searches, depth first, for a way to complete `colored` to a `k`-coloring
/// of `graph`. With `forward_prune` set, a color is passed over where it
/// would leave a neighbor without any color. On success the coloring found
/// is returned and `colored` holds it too; on failure `colored` is as it was.
pub fn color_dfs(
    graph: &Graph,
    k: u64,
    colored: &mut HashMap<u64, u64>,
    forward_prune: bool,
) -> (r: Option<HashMap<u64, u64>>)
    requires
        graph.wf(),
        proper(graph@, old(colored)@, k),
    ensures
        match r {
            Some(e) => {
                &&& k_coloring(graph@, e@, k)
                &&& extends(e@, old(colored)@)
                &&& final(colored)@ == e@
            },
            None => !completable(graph@, old(colored)@, k) && final(colored)@ == old(colored)@,
        },
        found(r) == search(graph@, old(colored)@, k, forward_prune),
    decreases graph@.dom().len() - old(colored)@.dom().len(),
{
    broadcast use group_hash_axioms;

    proof {
        graph.lemma_structure();
    }
    let ghost g = graph@;
    let ghost base = colored@;
    match select_vertex(graph, colored) {
        None => {
            let done = colored.clone();
            proof {
                assert forall|v: u64| g.dom().contains(v) implies base.dom().contains(v) by {
                    assert(!uncolored(g, base, v));
                }
                assert(base.dom() =~= g.dom());
                assert forall|v: u64| !next_vertex(g, base, v) by {
                    assert(!uncolored(g, base, v));
                }
                assert(chosen_vertex(g, base) == None::<u64>);
            }
            Some(done)
        },
        Some(i) => {
            let node: u64 = graph.vertex(i);
            let (used, _) = neighbor_stats(graph, colored, i);
            let order = order_colors(graph, colored, k);
            proof {
                if exists|u: u64| on_frontier(g, base, u) {
                    assert(most_saturated(g, base, node));
                } else {
                    assert(widest(g, base, node));
                }
                assert(uncolored(g, base, node));
                assert(next_vertex(g, base, node));
                let w = choose|v: u64| next_vertex(g, base, v);
                lemma_next_vertex_unique(g, base, node, w);
                assert(chosen_vertex(g, base) == Some(node));
                lemma_color_order_unique(g, base, k, order@);
            }
            let mut t: usize = 0;
            while t < order.len()
                invariant
                    graph.wf(),
                    g == graph@,
                    valid_graph(g),
                    base == old(colored)@,
                    colored@ == base,
                    proper(g, base, k),
                    i < graph.vertex_seq().len(),
                    node == graph.vertex_seq()[i as int],
                    uncolored(g, base, node),
                    used@ == neighbor_colors(g, base, node),
                    color_order(g, base, k, order@),
                    t <= order@.len(),
                    forall|s: int| 0 <= s < t ==> blocked(g, base, k, node, #[trigger] order@[s]),
                    search(g, base, k, forward_prune) == try_colors(
                        g,
                        base,
                        k,
                        forward_prune,
                        node,
                        order@,
                        t as int,
                    ),
                decreases order@.len() - t,
            {
                let x: u64 = order[t];
                if used.contains(&x) {
                    proof {
                        lemma_used_blocks(g, base, k, node, x);
                    }
                } else if forward_prune && forward_check(graph, colored, k, i, x) {
                    proof {
                        lemma_starved_blocks(g, base, k, node, x);
                    }
                } else {
                    proof {
                        lemma_extend_proper(g, base, k, node, x);
                    }
                    colored.insert(node, x);
                    let found = color_dfs(graph, k, colored, forward_prune);
                    match found {
                        Some(e) => {
                            proof {
                                assert forall|v: u64| #[trigger]
                                    base.dom().contains(v) implies e@.dom().contains(v) && e@[v]
                                    == base[v] by {
                                    assert(base.insert(node, x).dom().contains(v));
                                }
                            }
                            return Some(e);
                        },
                        None => {
                            colored.remove(&node);
                            proof {
                                assert(colored@ =~= base);
                                assert forall|e: Map<u64, u64>|
                                    k_coloring(g, e, k) && #[trigger] extends(
                                        e,
                                        base,
                                    ) implies e[node] != x by {
                                    if e[node] == x {
                                        assert(extends(e, base.insert(node, x)));
                                    }
                                }
                            }
                        },
                    }
                }
                t += 1;
            }
            proof {
                assert forall|e: Map<u64, u64>| k_coloring(g, e, k) implies !#[trigger] extends(
                    e,
                    base,
                ) by {
                    if extends(e, base) {
                        assert(e.dom().contains(node));
                        let x = e[node];
                        assert(order@.contains(x));
                        let s = order@.index_of(x);
                        assert(blocked(g, base, k, node, order@[s]));
                    }
                }
            }
            None
        },
    }
}

/// Decides whether `graph` has a `k`-coloring, and returns one if it does.
/// `forward_prune` turns on the one-step look-ahead, which saves work and
/// changes nothing else: the coloring returned is the same with it and
/// without.
pub fn color(graph: &Graph, k: u64, forward_prune: bool) -> (r: Option<HashMap<u64, u64>>)
    requires
        graph.wf(),
    ensures
        r is Some <==> colorable(graph@, k),
        r matches Some(e) ==> k_coloring(graph@, e@, k),
        found(r) == search(graph@, Map::empty(), k, forward_prune),
        found(r) == search(graph@, Map::empty(), k, false),
{
    let mut colored: HashMap<u64, u64> = HashMap::new();
    let ghost g = graph@;
    let r = color_dfs(graph, k, &mut colored, forward_prune);
    proof {
        let empty = Map::<u64, u64>::empty();
        graph.lemma_structure();
        crate::theory::lemma_forward_pruning_is_harmless(g, empty, k);
        if colorable(g, k) {
            let e = choose|e: Map<u64, u64>| k_coloring(g, e, k);
            assert(extends(e, empty));
        }
    }
    r
}

} // verus!
