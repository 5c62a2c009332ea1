//! What holds of colorings, of pruning, of components and of the search,
//! whatever the graph.

use crate::coloring::{
    admissible, blocked, clashes, color_order, colorable, colored_neighbors, completable,
    conflicted, extends, fair_run, k_coloring, lemma_extend_proper, lemma_palette_len,
    lemma_starved_blocks, lemma_used_blocks, local_run, most_saturated, neighbor_colors,
    next_vertex, on_frontier, outranks, palette, proper, replay, starves, tried_before,
    uncolored, valid_start, widest,
};
use crate::components::{
    component_of, component_split, connected, lemma_component_connected, lemma_induced_valid,
};
use crate::graph::{induced, valid_graph, Graph};
use crate::search::{
    chosen_order, chosen_vertex, lemma_remaining_drops, remaining, search, try_colors,
};
use crate::solver::pruned;
use vstd::prelude::*;

verus! {

/// A `k`-coloring gives different colors to the two ends of every edge.
pub proof fn lemma_edges_are_bichromatic(
    g: Map<u64, Set<u64>>,
    e: Map<u64, u64>,
    k: u64,
    u: u64,
    v: u64,
)
    requires
        valid_graph(g),
        k_coloring(g, e, k),
        g.dom().contains(u),
        g[u].contains(v),
    ensures
        e[u] != e[v],
        e[u] < k,
        e[v] < k,
{
    assert(g.dom().contains(v));
    assert(e.dom().contains(u) && e.dom().contains(v));
}

/// More colors never hurt: a graph that can be colored with `k` colors can
/// be colored with any larger number.
pub proof fn lemma_colorable_monotone(g: Map<u64, Set<u64>>, k: u64, more: u64)
    requires
        colorable(g, k),
        k <= more,
    ensures
        colorable(g, more),
{
    let e = choose|e: Map<u64, u64>| k_coloring(g, e, k);
    assert(k_coloring(g, e, more));
}

/// `x` is the chromatic number of `g`: the least number of colors with which
/// `g` can be colored.
pub open spec fn is_chromatic_number(g: Map<u64, Set<u64>>, x: u64) -> bool {
    colorable(g, x) && forall|j: u64| j < x ==> !colorable(g, j)
}

/// A graph can be colored with `k` colors exactly when `k` is at least its
/// chromatic number. So the backtracking search, which finds a coloring
/// exactly when there is one, succeeds from the chromatic number on and
/// fails below it.
pub proof fn lemma_chromatic_threshold(g: Map<u64, Set<u64>>, x: u64, k: u64)
    requires
        is_chromatic_number(g, x),
    ensures
        colorable(g, k) <==> x <= k,
{
    if x <= k {
        lemma_colorable_monotone(g, x, k);
    }
}

/// A vertex with fewer than `k` neighbors can always be given a color
/// afterwards: whatever proper coloring the rest has, one of the `k` colors
/// is held by none of its neighbors.
pub proof fn lemma_restore_vertex(g: Map<u64, Set<u64>>, c: Map<u64, u64>, k: u64, v: u64)
    requires
        valid_graph(g),
        proper(g, c, k),
        uncolored(g, c, v),
        g[v].len() < k,
    ensures
        exists|x: u64|
            x < k && !neighbor_colors(g, c, v).contains(x) && proper(g, #[trigger] c.insert(v, x), k),
{
    let around = colored_neighbors(g, c, v);
    let held = neighbor_colors(g, c, v);
    let color_of = |n: u64| c[n];
    assert(g[v].subset_of(g.dom()));
    vstd::set_lib::lemma_set_subset_finite(g.dom(), g[v]);
    vstd::set_lib::lemma_len_subset(around, g[v]);
    assert(around.map(color_of) =~= held) by {
        assert forall|x: u64| around.map(color_of).contains(x) <==> held.contains(x) by {
            if around.map(color_of).contains(x) {
                let n = choose|n: u64| around.contains(n) && x == color_of(n);
                assert(g[v].contains(n) && c.dom().contains(n) && c[n] == x);
            }
            if held.contains(x) {
                let n = choose|n: u64| #[trigger]
                    g[v].contains(n) && c.dom().contains(n) && c[n] == x;
                assert(around.contains(n) && x == color_of(n));
            }
        }
    }
    vstd::set_lib::lemma_map_size_bound(around, held, color_of);
    lemma_palette_len(k);
    if palette(k).subset_of(held) {
        vstd::set_lib::lemma_len_subset(palette(k), held);
    }
    let x = choose|x: u64| palette(k).contains(x) && !held.contains(x);
    lemma_extend_proper(g, c, k, v, x);
}

/// Vertices with fewer than `k` neighbors each, as many as there are, can
/// be colored one after the other on top of any proper coloring.
proof fn lemma_restore_all(g: Map<u64, Set<u64>>, c: Map<u64, u64>, k: u64, rest: Set<u64>)
    requires
        valid_graph(g),
        proper(g, c, k),
        rest.finite(),
        forall|v: u64| rest.contains(v) ==> uncolored(g, c, v) && g[v].len() < k,
    ensures
        exists|e: Map<u64, u64>|
            proper(g, e, k) && #[trigger] extends(e, c) && e.dom() == c.dom().union(rest),
    decreases rest.len(),
{
    if rest.len() == 0 {
        assert(rest =~= Set::<u64>::empty());
        assert(c.dom().union(rest) =~= c.dom());
        assert(extends(c, c));
    } else {
        let v = rest.choose();
        assert(rest.contains(v)) by {
            if !rest.contains(v) {
                assert(rest =~= Set::<u64>::empty()) by {
                    assert forall|w: u64| !rest.contains(w) by {
                        if rest.contains(w) {
                            assert(rest.contains(rest.choose()));
                        }
                    }
                }
            }
        }
        lemma_restore_vertex(g, c, k, v);
        let x = choose|x: u64|
            x < k && !neighbor_colors(g, c, v).contains(x) && proper(
                g,
                #[trigger] c.insert(v, x),
                k,
            );
        let next = c.insert(v, x);
        lemma_restore_all(g, next, k, rest.remove(v));
        let e = choose|e: Map<u64, u64>|
            proper(g, e, k) && #[trigger] extends(e, next) && e.dom() == next.dom().union(
                rest.remove(v),
            );
        assert(extends(e, c)) by {
            assert forall|w: u64| #[trigger] c.dom().contains(w) implies e.dom().contains(w) && e[w]
                == c[w] by {
                assert(next.dom().contains(w));
            }
        }
        assert(e.dom() =~= c.dom().union(rest));
    }
}

/// Leaving out the vertices with fewer than `k` neighbors does not change
/// whether the graph can be colored with `k` colors.
pub proof fn lemma_pruning_keeps_colorability(g: Map<u64, Set<u64>>, k: u64)
    requires
        valid_graph(g),
    ensures
        colorable(g, k) <==> colorable(pruned(g, k), k),
{
    let h = pruned(g, k);
    if colorable(g, k) {
        let e = choose|e: Map<u64, u64>| k_coloring(g, e, k);
        let f = e.restrict(h.dom());
        assert(f.dom() =~= h.dom());
        assert forall|u: u64, v: u64|
            f.dom().contains(u) && f.dom().contains(v) && #[trigger] h[u].contains(v) implies f[u]
            != f[v] by {
            assert(g[u].contains(v));
        }
        assert(k_coloring(h, f, k));
    }
    if colorable(h, k) {
        let f = choose|f: Map<u64, u64>| k_coloring(h, f, k);
        assert(proper(g, f, k)) by {
            assert forall|u: u64, v: u64|
                f.dom().contains(u) && f.dom().contains(v) && #[trigger] g[u].contains(
                    v,
                ) implies f[u] != f[v] by {
                assert(h[u].contains(v));
            }
        }
        let rest = g.dom().difference(h.dom());
        lemma_restore_all(g, f, k, rest);
        let e = choose|e: Map<u64, u64>|
            proper(g, e, k) && #[trigger] extends(e, f) && e.dom() == f.dom().union(rest);
        assert(e.dom() =~= g.dom());
        assert(k_coloring(g, e, k));
    }
}

/// More than `k` vertices that are all adjacent to each other cannot be
/// colored with `k` colors, and so neither can a graph that holds them.
pub proof fn lemma_clique_needs_colors(g: Map<u64, Set<u64>>, clique: Set<u64>, k: u64)
    requires
        clique.finite(),
        clique.len() > k,
        clique.subset_of(g.dom()),
        forall|u: u64, v: u64|
            clique.contains(u) && clique.contains(v) && u != v ==> #[trigger] g[u].contains(v),
    ensures
        !colorable(g, k),
{
    if colorable(g, k) {
        let e = choose|e: Map<u64, u64>| k_coloring(g, e, k);
        let color_of = |n: u64| e[n];
        let held = clique.map(color_of);
        assert(vstd::relations::injective_on(color_of, clique)) by {
            assert forall|u: u64, v: u64|
                clique.contains(u) && clique.contains(v) && #[trigger] color_of(u)
                    == #[trigger] color_of(v) implies u == v by {
                if u != v {
                    assert(g[u].contains(v));
                    assert(e.dom().contains(u) && e.dom().contains(v));
                }
            }
        }
        vstd::set_lib::lemma_map_size(clique, held, color_of);
        lemma_palette_len(k);
        assert(held.subset_of(palette(k))) by {
            assert forall|x: u64| held.contains(x) implies palette(k).contains(x) by {
                let n = choose|n: u64| clique.contains(n) && x == color_of(n);
                assert(e.dom().contains(n));
            }
        }
        vstd::set_lib::lemma_len_subset(held, palette(k));
    }
}

/// Every two vertices of `g` are connected, and there is at least one.
pub open spec fn is_connected(g: Map<u64, Set<u64>>) -> bool {
    &&& exists|v: u64| g.dom().contains(v)
    &&& forall|u: u64, v: u64| g.dom().contains(u) && g.dom().contains(v) ==> connected(g, u, v)
}

/// Splitting a connected graph into components gives back the graph itself,
/// as the one component.
pub proof fn lemma_connected_graph_is_one_component(g: Map<u64, Set<u64>>, parts: Seq<Graph>)
    requires
        valid_graph(g),
        is_connected(g),
        component_split(g, parts),
    ensures
        parts.len() == 1,
        parts[0]@ == g,
{
    let v = choose|v: u64| g.dom().contains(v);
    let c = choose|c: int| 0 <= c < parts.len() && (#[trigger] parts[c])@.dom().contains(v);
    assert(0 <= c < parts.len());
    assert forall|d: int| 0 <= d < parts.len() implies (#[trigger] parts[d])@ == g by {
        let r = parts[d].vertex_seq()[0];
        let h = induced(g, component_of(g, r));
        assert(h.dom() =~= g.dom());
        assert forall|u: u64| g.dom().contains(u) implies #[trigger] h[u] =~= g[u] by {
            assert forall|w: u64| g[u].contains(w) implies component_of(g, r).contains(w) by {
                assert(g.dom().contains(w));
            }
        }
        assert(h =~= g);
    }
    if parts.len() > 1 {
        parts[0].lemma_structure();
        parts[1].lemma_structure();
        let r0 = parts[0].vertex_seq()[0];
        assert(parts[0]@.dom().contains(r0));
        assert(parts[1]@.dom().contains(r0));
    }
}

/// Every component of a split is a connected graph.
pub proof fn lemma_components_are_connected(g: Map<u64, Set<u64>>, parts: Seq<Graph>, c: int)
    requires
        valid_graph(g),
        component_split(g, parts),
        0 <= c < parts.len(),
    ensures
        is_connected(parts[c]@),
{
    let r = parts[c].vertex_seq()[0];
    let h = parts[c]@;
    assert(h == induced(g, component_of(g, r)));
    crate::components::lemma_connected_self(g, r);
    assert(h.dom().contains(r));
    assert forall|u: u64, v: u64| h.dom().contains(u) && h.dom().contains(v) implies connected(
        h,
        u,
        v,
    ) by {
        lemma_component_connected(g, r, u, v);
    }
}

/// Splitting a component once more gives back that component and nothing
/// else.
pub proof fn lemma_split_is_idempotent(
    g: Map<u64, Set<u64>>,
    parts: Seq<Graph>,
    c: int,
    again: Seq<Graph>,
)
    requires
        valid_graph(g),
        component_split(g, parts),
        0 <= c < parts.len(),
        component_split(parts[c]@, again),
    ensures
        again.len() == 1,
        again[0]@ == parts[c]@,
{
    lemma_components_are_connected(g, parts, c);
    lemma_induced_valid(g, component_of(g, parts[c].vertex_seq()[0]));
    lemma_connected_graph_is_one_component(parts[c]@, again);
}

/// A graph can be colored with `k` colors exactly when each of its
/// components can: the components may be colored one by one.
pub proof fn lemma_components_decide(g: Map<u64, Set<u64>>, parts: Seq<Graph>, k: u64)
    requires
        valid_graph(g),
        component_split(g, parts),
    ensures
        colorable(g, k) <==> forall|c: int|
            0 <= c < parts.len() ==> colorable(#[trigger] parts[c]@, k),
{
    if colorable(g, k) {
        let e = choose|e: Map<u64, u64>| k_coloring(g, e, k);
        assert forall|c: int| 0 <= c < parts.len() implies colorable(#[trigger] parts[c]@, k) by {
            let r = parts[c].vertex_seq()[0];
            crate::solver::lemma_coloring_restricts(g, e, k, r);
            assert(k_coloring(parts[c]@, e.restrict(parts[c]@.dom()), k));
        }
    }
    if forall|c: int| 0 <= c < parts.len() ==> colorable(#[trigger] parts[c]@, k) {
        let part_of = |v: u64|
            choose|c: int| 0 <= c < parts.len() && (#[trigger] parts[c])@.dom().contains(v);
        let coloring_of = |c: int| choose|f: Map<u64, u64>| k_coloring(parts[c]@, f, k);
        let e = Map::new(|v: u64| g.dom().contains(v), |v: u64| coloring_of(part_of(v))[v]);
        assert forall|v: u64| g.dom().contains(v) implies {
            &&& 0 <= part_of(v) < parts.len()
            &&& parts[part_of(v)]@.dom().contains(v)
            &&& k_coloring(parts[part_of(v)]@, coloring_of(part_of(v)), k)
        } by {
            let c = part_of(v);
            assert(colorable(parts[c]@, k));
        }
        assert forall|v: u64| e.dom().contains(v) implies #[trigger] e[v] < k by {
            assert(coloring_of(part_of(v)).dom().contains(v));
        }
        assert forall|u: u64, v: u64|
            e.dom().contains(u) && e.dom().contains(v) && #[trigger] g[u].contains(v) implies e[u]
            != e[v] by {
            let c = part_of(u);
            let d = part_of(v);
            let r = parts[c].vertex_seq()[0];
            assert(parts[c]@ == induced(g, component_of(g, r)));
            crate::components::lemma_connected_step(g, r, u, v);
            assert(parts[c]@.dom().contains(v));
            assert(c == d) by {
                if c < d {
                    assert(!parts[d]@.dom().contains(v));
                } else if d < c {
                    assert(!parts[c]@.dom().contains(v));
                }
            }
            assert(parts[c]@[u].contains(v));
            assert(coloring_of(c).dom().contains(u) && coloring_of(c).dom().contains(v));
        }
        assert(e.dom() =~= g.dom());
        assert(k_coloring(g, e, k));
    }
}

/// A finite set that is not empty has a member that stands above all
/// others, whatever the order, as long as it tells any two members apart and
/// is transitive.
proof fn lemma_top_exists(s: Set<u64>, above: spec_fn(u64, u64) -> bool)
    requires
        s.finite(),
        s.len() > 0,
        forall|a: u64, b: u64|
            s.contains(a) && s.contains(b) && a != b ==> #[trigger] above(a, b) || #[trigger] above(
                b,
                a,
            ),
        forall|a: u64, b: u64, c: u64|
            s.contains(a) && s.contains(b) && s.contains(c) && #[trigger] above(a, b)
                && #[trigger] above(b, c) ==> above(a, c),
    ensures
        exists|m: u64|
            s.contains(m) && forall|u: u64| s.contains(u) && u != m ==> #[trigger] above(m, u),
    decreases s.len(),
{
    let x = s.choose();
    assert(s.contains(x)) by {
        if !s.contains(x) {
            assert(s =~= Set::<u64>::empty());
        }
    }
    let rest = s.remove(x);
    if rest.len() == 0 {
        assert forall|u: u64| s.contains(u) && u != x implies #[trigger] above(x, u) by {
            assert(rest.contains(u));
            assert(rest =~= Set::<u64>::empty());
        }
    } else {
        lemma_top_exists(rest, above);
        let m = choose|m: u64|
            rest.contains(m) && forall|u: u64| rest.contains(u) && u != m ==> #[trigger] above(m, u);
        if above(m, x) {
            assert forall|u: u64| s.contains(u) && u != m implies #[trigger] above(m, u) by {
                if u != x {
                    assert(rest.contains(u));
                }
            }
        } else {
            assert(above(x, m));
            assert forall|u: u64| s.contains(u) && u != x implies #[trigger] above(x, u) by {
                assert(rest.contains(u));
                if u != m {
                    assert(above(m, u));
                }
            }
        }
    }
}

/// While a vertex is left uncolored, there is a vertex to color next.
pub proof fn lemma_next_vertex_exists(g: Map<u64, Set<u64>>, c: Map<u64, u64>)
    requires
        valid_graph(g),
        exists|v: u64| uncolored(g, c, v),
    ensures
        exists|v: u64| next_vertex(g, c, v),
{
    if exists|u: u64| on_frontier(g, c, u) {
        let s = Set::new(|v: u64| on_frontier(g, c, v));
        let above = |a: u64, b: u64| outranks(g, c, a, b);
        let w = choose|u: u64| on_frontier(g, c, u);
        assert(s.contains(w));
        assert(s.subset_of(g.dom()));
        vstd::set_lib::lemma_set_subset_finite(g.dom(), s);
        assert(s.len() > 0) by {
            if s.len() == 0 {
                assert(s =~= Set::<u64>::empty());
            }
        }
        lemma_top_exists(s, above);
        let m = choose|m: u64|
            s.contains(m) && forall|u: u64| s.contains(u) && u != m ==> #[trigger] above(m, u);
        assert forall|u: u64| #[trigger] on_frontier(g, c, u) && u != m implies outranks(
            g,
            c,
            m,
            u,
        ) by {
            assert(s.contains(u));
            assert(above(m, u));
        }
        assert(most_saturated(g, c, m));
        assert(next_vertex(g, c, m));
    } else {
        let s = Set::new(|v: u64| uncolored(g, c, v));
        let above = |a: u64, b: u64|
            g[b].len() < g[a].len() || (g[b].len() == g[a].len() && a < b);
        let w = choose|v: u64| uncolored(g, c, v);
        assert(s.contains(w));
        assert(s.subset_of(g.dom()));
        vstd::set_lib::lemma_set_subset_finite(g.dom(), s);
        assert(s.len() > 0) by {
            if s.len() == 0 {
                assert(s =~= Set::<u64>::empty());
            }
        }
        lemma_top_exists(s, above);
        let m = choose|m: u64|
            s.contains(m) && forall|u: u64| s.contains(u) && u != m ==> #[trigger] above(m, u);
        assert forall|u: u64| #[trigger] uncolored(g, c, u) && u != m implies g[u].len()
            < g[m].len() || (g[u].len() == g[m].len() && m < u) by {
            assert(s.contains(u));
            assert(above(m, u));
        }
        assert(widest(g, c, m));
        assert(next_vertex(g, c, m));
    }
}

/// The colors of `s` stand in the order in which they are tried.
spec fn in_order(g: Map<u64, Set<u64>>, c: Map<u64, u64>, s: Seq<u64>) -> bool {
    forall|i: int, j: int| 0 <= i < j < s.len() ==> tried_before(g, c, s[i], s[j])
}

/// `s` with the color `x` put in before the first color that is tried after
/// it.
spec fn slotted(g: Map<u64, Set<u64>>, c: Map<u64, u64>, s: Seq<u64>, x: u64) -> Seq<u64>
    decreases s.len(),
{
    if s.len() == 0 {
        seq![x]
    } else if tried_before(g, c, x, s[0]) {
        seq![x] + s
    } else {
        seq![s[0]] + slotted(g, c, s.drop_first(), x)
    }
}

/// Putting a new color into its slot keeps the order and adds just that
/// color.
proof fn lemma_slotted(g: Map<u64, Set<u64>>, c: Map<u64, u64>, s: Seq<u64>, x: u64)
    requires
        in_order(g, c, s),
        !s.contains(x),
    ensures
        slotted(g, c, s, x).len() == s.len() + 1,
        forall|y: u64| slotted(g, c, s, x).contains(y) <==> s.contains(y) || y == x,
        in_order(g, c, slotted(g, c, s, x)),
    decreases s.len(),
{
    let t = slotted(g, c, s, x);
    if s.len() == 0 {
        assert(t[0] == x);
        assert forall|y: u64| t.contains(y) <==> s.contains(y) || y == x by {
            if t.contains(y) {
                let i = t.index_of(y);
                assert(t[i] == y);
            }
        }
    } else if tried_before(g, c, x, s[0]) {
        assert(t[0] == x);
        assert forall|i: int| 1 <= i < t.len() implies t[i] == s[i - 1] by {}
        assert forall|y: u64| t.contains(y) <==> s.contains(y) || y == x by {
            if t.contains(y) {
                let i = t.index_of(y);
                if i > 0 {
                    assert(s[i - 1] == y);
                }
            }
            if s.contains(y) {
                let i = s.index_of(y);
                assert(t[i + 1] == y);
            }
        }
        assert forall|i: int, j: int| 0 <= i < j < t.len() implies tried_before(
            g,
            c,
            t[i],
            t[j],
        ) by {
            if i == 0 {
                if j > 1 {
                    assert(tried_before(g, c, s[0], s[j - 1]));
                }
            } else {
                assert(tried_before(g, c, s[i - 1], s[j - 1]));
            }
        }
    } else {
        let rest = s.drop_first();
        let inner = slotted(g, c, rest, x);
        assert forall|i: int| 0 <= i < rest.len() implies rest[i] == s[i + 1] by {}
        assert(in_order(g, c, rest)) by {
            assert forall|i: int, j: int| 0 <= i < j < rest.len() implies tried_before(
                g,
                c,
                rest[i],
                rest[j],
            ) by {
                assert(tried_before(g, c, s[i + 1], s[j + 1]));
            }
        }
        assert(!rest.contains(x)) by {
            if rest.contains(x) {
                let i = rest.index_of(x);
                assert(s[i + 1] == x);
            }
        }
        lemma_slotted(g, c, rest, x);
        assert(t[0] == s[0]);
        assert forall|i: int| 1 <= i < t.len() implies t[i] == inner[i - 1] by {}
        assert(s.contains(s[0]));
        assert forall|y: u64| t.contains(y) <==> s.contains(y) || y == x by {
            if t.contains(y) {
                let i = t.index_of(y);
                if i > 0 {
                    assert(inner.contains(inner[i - 1]));
                    if rest.contains(y) {
                        let j = rest.index_of(y);
                        assert(s[j + 1] == y);
                    }
                }
            }
            if s.contains(y) {
                let i = s.index_of(y);
                if i > 0 {
                    assert(rest[i - 1] == y);
                    assert(rest.contains(y));
                    assert(inner.contains(y));
                    let j = inner.index_of(y);
                    assert(t[j + 1] == y);
                }
            }
            if y == x {
                assert(inner.contains(x));
                let j = inner.index_of(x);
                assert(t[j + 1] == y);
            }
        }
        assert forall|i: int, j: int| 0 <= i < j < t.len() implies tried_before(
            g,
            c,
            t[i],
            t[j],
        ) by {
            if i == 0 {
                let y = inner[j - 1];
                assert(inner.contains(y));
                if rest.contains(y) {
                    let a = rest.index_of(y);
                    assert(tried_before(g, c, s[0], s[a + 1]));
                }
            } else {
                assert(tried_before(g, c, inner[i - 1], inner[j - 1]));
            }
        }
    }
}

/// The colors below any `k` can be put in the order in which they are tried.
pub proof fn lemma_color_order_exists(g: Map<u64, Set<u64>>, c: Map<u64, u64>, k: u64)
    ensures
        exists|s: Seq<u64>| color_order(g, c, k, s),
    decreases k,
{
    if k == 0 {
        assert(color_order(g, c, k, Seq::<u64>::empty()));
    } else {
        let x = (k - 1) as u64;
        lemma_color_order_exists(g, c, x);
        let s = choose|s: Seq<u64>| color_order(g, c, x, s);
        assert(!s.contains(x)) by {
            if s.contains(x) {
                let i = s.index_of(x);
                assert(s[i] < x);
            }
        }
        lemma_slotted(g, c, s, x);
        let t = slotted(g, c, s, x);
        assert forall|i: int| 0 <= i < t.len() implies #[trigger] t[i] < k by {
            assert(t.contains(t[i]));
            if s.contains(t[i]) {
                let j = s.index_of(t[i]);
                assert(s[j] < x);
            }
        }
        assert forall|y: u64| y < k implies t.contains(y) by {
            if y < x {
                assert(s.contains(y));
            }
        }
        assert forall|i: int, j: int| 0 <= i < j < t.len() implies tried_before(
            g,
            c,
            t[i],
            t[j],
        ) by {}
        assert(color_order(g, c, k, t));
    }
}

/// Trying colors on `v` from position `i` on either finds a `k`-coloring
/// that agrees with `c`, or shows that none of those colors is of use at
/// `v`.
proof fn lemma_try_colors_decides(
    g: Map<u64, Set<u64>>,
    c: Map<u64, u64>,
    k: u64,
    forward: bool,
    v: u64,
    order: Seq<u64>,
    i: int,
)
    requires
        valid_graph(g),
        proper(g, c, k),
        uncolored(g, c, v),
        0 <= i <= order.len(),
        forall|j: int| 0 <= j < order.len() ==> #[trigger] order[j] < k,
    ensures
        match try_colors(g, c, k, forward, v, order, i) {
            Some(e) => k_coloring(g, e, k) && extends(e, c),
            None => forall|j: int| i <= j < order.len() ==> blocked(g, c, k, v, #[trigger] order[j]),
        },
    decreases remaining(g, c), 0nat, order.len() - i,
{
    if i < order.len() {
        let x = order[i];
        if neighbor_colors(g, c, v).contains(x) {
            lemma_used_blocks(g, c, k, v, x);
            lemma_try_colors_decides(g, c, k, forward, v, order, i + 1);
        } else if forward && starves(g, c, k, v, x) {
            lemma_starved_blocks(g, c, k, v, x);
            lemma_try_colors_decides(g, c, k, forward, v, order, i + 1);
        } else {
            let next = c.insert(v, x);
            lemma_extend_proper(g, c, k, v, x);
            lemma_remaining_drops(g, c, v, x);
            lemma_search_decides(g, next, k, forward);
            match search(g, next, k, forward) {
                Some(e) => {
                    assert forall|w: u64| #[trigger] c.dom().contains(w) implies e.dom().contains(w)
                        && e[w] == c[w] by {
                        assert(next.dom().contains(w));
                    }
                },
                None => {
                    assert forall|e: Map<u64, u64>|
                        k_coloring(g, e, k) && #[trigger] extends(e, c) implies e[v] != x by {
                        if e[v] == x {
                            assert(extends(e, next));
                        }
                    }
                    lemma_try_colors_decides(g, c, k, forward, v, order, i + 1);
                },
            }
        }
    }
}

/// The search decides: started from a proper partial coloring, it returns a
/// `k`-coloring that agrees with it, or there is none and it returns
/// nothing.
pub proof fn lemma_search_decides(g: Map<u64, Set<u64>>, c: Map<u64, u64>, k: u64, forward: bool)
    requires
        valid_graph(g),
        proper(g, c, k),
    ensures
        match search(g, c, k, forward) {
            Some(e) => k_coloring(g, e, k) && extends(e, c),
            None => !completable(g, c, k),
        },
    decreases remaining(g, c), 1nat, 0nat,
{
    match chosen_vertex(g, c) {
        None => {
            if exists|v: u64| uncolored(g, c, v) {
                lemma_next_vertex_exists(g, c);
            }
            assert(c.dom() =~= g.dom()) by {
                assert forall|v: u64| g.dom().contains(v) implies c.dom().contains(v) by {
                    assert(!uncolored(g, c, v));
                }
            }
        },
        Some(v) => {
            assert(next_vertex(g, c, v));
            assert(uncolored(g, c, v)) by {
                if exists|u: u64| on_frontier(g, c, u) {
                    assert(most_saturated(g, c, v));
                } else {
                    assert(widest(g, c, v));
                }
            }
            lemma_color_order_exists(g, c, k);
            let order = chosen_order(g, c, k);
            assert(color_order(g, c, k, order));
            lemma_try_colors_decides(g, c, k, forward, v, order, 0);
            if search(g, c, k, forward) is None {
                assert forall|e: Map<u64, u64>| k_coloring(g, e, k) implies !#[trigger] extends(
                    e,
                    c,
                ) by {
                    if extends(e, c) {
                        assert(e.dom().contains(v));
                        let x = e[v];
                        assert(order.contains(x));
                        let j = order.index_of(x);
                        assert(blocked(g, c, k, v, order[j]));
                    }
                }
            }
        },
    }
}

/// With or without the look-ahead, trying colors from position `i` on comes
/// to the same.
proof fn lemma_try_colors_either_way(
    g: Map<u64, Set<u64>>,
    c: Map<u64, u64>,
    k: u64,
    v: u64,
    order: Seq<u64>,
    i: int,
)
    requires
        valid_graph(g),
        proper(g, c, k),
        uncolored(g, c, v),
        0 <= i <= order.len(),
        forall|j: int| 0 <= j < order.len() ==> #[trigger] order[j] < k,
    ensures
        try_colors(g, c, k, true, v, order, i) == try_colors(g, c, k, false, v, order, i),
    decreases remaining(g, c), 0nat, order.len() - i,
{
    if i < order.len() {
        let x = order[i];
        if neighbor_colors(g, c, v).contains(x) {
            lemma_try_colors_either_way(g, c, k, v, order, i + 1);
        } else {
            let next = c.insert(v, x);
            lemma_extend_proper(g, c, k, v, x);
            lemma_remaining_drops(g, c, v, x);
            if starves(g, c, k, v, x) {
                lemma_starved_blocks(g, c, k, v, x);
                lemma_search_decides(g, next, k, false);
                match search(g, next, k, false) {
                    Some(e) => {
                        assert forall|w: u64| #[trigger] c.dom().contains(w) implies e.dom().contains(
                            w,
                        ) && e[w] == c[w] by {
                            assert(next.dom().contains(w));
                        }
                        assert(extends(e, c));
                        assert(next.dom().contains(v));
                        assert(e[v] == x);
                        assert(false);
                    },
                    None => {},
                }
            } else {
                lemma_forward_pruning_is_harmless(g, next, k);
            }
            lemma_try_colors_either_way(g, c, k, v, order, i + 1);
        }
    }
}

/// The look-ahead saves work and changes nothing else: with it the search
/// returns what it returns without it.
pub proof fn lemma_forward_pruning_is_harmless(g: Map<u64, Set<u64>>, c: Map<u64, u64>, k: u64)
    requires
        valid_graph(g),
        proper(g, c, k),
    ensures
        search(g, c, k, true) == search(g, c, k, false),
    decreases remaining(g, c), 1nat, 0nat,
{
    match chosen_vertex(g, c) {
        None => {},
        Some(v) => {
            assert(next_vertex(g, c, v));
            assert(uncolored(g, c, v)) by {
                if exists|u: u64| on_frontier(g, c, u) {
                    assert(most_saturated(g, c, v));
                } else {
                    assert(widest(g, c, v));
                }
            }
            lemma_color_order_exists(g, c, k);
            let order = chosen_order(g, c, k);
            assert(color_order(g, c, k, order));
            lemma_try_colors_either_way(g, c, k, v, order, 0);
        },
    }
}

/// On a single edge with two colors, one flip settles any conflict: every
/// run of the local search with a budget of two or more succeeds.
pub proof fn lemma_one_edge_settles(
    g: Map<u64, Set<u64>>,
    a: u64,
    b: u64,
    start: Map<u64, u64>,
    max_flips: nat,
    moves: Seq<(u64, u64)>,
)
    requires
        a != b,
        g.dom() == set![a, b],
        g[a] == set![b],
        g[b] == set![a],
        valid_start(g, start, 2),
        fair_run(g, 2, start, max_flips, moves),
        max_flips >= 2,
    ensures
        local_run(start, max_flips, moves) is Some,
{
    if moves.len() >= 2 {
        reveal_with_fuel(replay, 3);
        let first = moves[0];
        let t = first.0;
        let x = first.1;
        assert(replay(start, moves, 0) == start);
        assert(admissible(g, start, 2, t, x));
        let other = if t == a {
            b
        } else {
            a
        };
        assert(t == a || t == b);
        assert(g[t] =~= set![other]);
        assert(start.dom().contains(a) && start.dom().contains(b));
        assert(start[other] == start[t]) by {
            let n = clashes(g, start, t).choose();
            if !clashes(g, start, t).contains(n) {
                assert(clashes(g, start, t) =~= Set::<u64>::empty());
            }
            assert(g[t].contains(n));
        }
        let held = start[other];
        let spare: u64 = if held == 0 {
            1
        } else {
            0
        };
        assert(!neighbor_colors(g, start, t).contains(spare)) by {
            if neighbor_colors(g, start, t).contains(spare) {
                let n = choose|n: u64| #[trigger]
                    g[t].contains(n) && start.dom().contains(n) && start[n] == spare;
                assert(n == other);
            }
        }
        assert(neighbor_colors(g, start, t).contains(held)) by {
            assert(g[t].contains(other));
        }
        assert(x != held);
        let after = replay(start, moves, 1);
        assert(after == start.insert(t, x));
        let second = moves[1];
        assert(admissible(g, after, 2, second.0, second.1));
        let u = second.0;
        assert(conflicted(g, after, u));
        let n = clashes(g, after, u).choose();
        if !clashes(g, after, u).contains(n) {
            assert(clashes(g, after, u) =~= Set::<u64>::empty());
        }
        assert(g[u].contains(n));
        assert(after[t] == x && after[other] == held);
        assert(false);
    }
}

} // verus!
