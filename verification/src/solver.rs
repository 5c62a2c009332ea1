//! From a graph to its coloring: prune, split into components, color each
//! component, and put the colorings together.

use crate::coloring::{colorable, complete, edgeless, k_coloring, local_outcome};
use crate::components::{
    component_of, component_split, connected, high_degree, lemma_induced_valid,
    lemma_same_component, prune_degree,
};
use crate::graph::{induced, valid_graph, Graph};
use crate::local::color_local;
use crate::search::{color, search};
use std::collections::HashMap;
use vstd::prelude::*;
use vstd::std_specs::hash::*;

verus! {

/// How a component is colored.
#[derive(Clone, Copy, Debug)]
pub enum Strategy {
    /// Backtracking search.
    Backtracking,
    /// Backtracking search with one step of look-ahead.
    ForwardChecking,
    /// Randomized local search with a budget of recolorings.
    LocalSearch { max_flips: usize },
}

/// `g` without its vertices of fewer than `k` neighbors. This is the graph
/// that `solve` colors.
pub open spec fn pruned(g: Map<u64, Set<u64>>, k: u64) -> Map<u64, Set<u64>> {
    induced(g, high_degree(g, k))
}

/// The coloring that backtracking gives to `h` when it colors each
/// component of `h` by itself: every vertex has the color that the search
/// on its own component gives it.
pub open spec fn piecewise(h: Map<u64, Set<u64>>, k: u64) -> Map<u64, u64> {
    Map::new(
        |v: u64| h.dom().contains(v),
        |v: u64| search(induced(h, component_of(h, v)), Map::empty(), k, false)->0[v],
    )
}

/// A `k`-coloring of a graph, cut down to one of its components, is a
/// `k`-coloring of that component.
pub proof fn lemma_coloring_restricts(g: Map<u64, Set<u64>>, e: Map<u64, u64>, k: u64, r: u64)
    requires
        k_coloring(g, e, k),
    ensures
        k_coloring(
            induced(g, component_of(g, r)),
            e.restrict(induced(g, component_of(g, r)).dom()),
            k,
        ),
{
    let part = induced(g, component_of(g, r));
    let f = e.restrict(part.dom());
    assert(f.dom() =~= part.dom());
    assert forall|u: u64, v: u64|
        f.dom().contains(u) && f.dom().contains(v) && #[trigger] part[u].contains(v) implies f[u]
        != f[v] by {
        assert(g[u].contains(v));
    }
}

/// Writes the colors of `colors`, a coloring of all of `part`, into `full`.
fn merge(full: &mut HashMap<u64, u64>, part: &Graph, colors: &HashMap<u64, u64>)
    requires
        part.wf(),
        complete(part@, colors@),
    ensures
        final(full)@.dom() == old(full)@.dom().union(colors@.dom()),
        forall|v: u64| colors@.dom().contains(v) ==> final(full)@[v] == colors@[v],
        forall|v: u64|
            old(full)@.dom().contains(v) && !colors@.dom().contains(v) ==> final(full)@[v] == old(
                full,
            )@[v],
{
    broadcast use group_hash_axioms;

    proof {
        part.lemma_structure();
    }
    let ghost before = full@;
    let ghost e = colors@;
    let ghost vs = part.vertex_seq();
    let n: usize = part.len();
    let mut i: usize = 0;
    while i < n
        invariant
            part.wf(),
            vs == part.vertex_seq(),
            n == vs.len(),
            i <= n,
            e == colors@,
            complete(part@, e),
            forall|t: int| 0 <= t < n ==> part@.dom().contains(#[trigger] vs[t]),
            full@.dom() == before.dom().union(vs.take(i as int).to_set()),
            forall|v: u64|
                before.dom().contains(v) && !e.dom().contains(v) ==> full@[v] == before[v],
            forall|t: int| 0 <= t < i ==> full@[#[trigger] vs[t]] == e[vs[t]],
        decreases n - i,
    {
        let v: u64 = part.vertex(i);
        let x: u64 = *colors.get(&v).unwrap();
        let ghost prev = full@;
        full.insert(v, x);
        proof {
            assert(vs.take(i as int + 1) =~= vs.take(i as int).push(v));
            assert(vs.take(i as int + 1).to_set() =~= vs.take(i as int).to_set().insert(v)) by {
                vs.take(i as int).lemma_push_to_set_commute(v);
            }
            assert forall|t: int| 0 <= t < i + 1 implies full@[#[trigger] vs[t]] == e[vs[t]] by {
                if t < i {
                    assert(prev[vs[t]] == e[vs[t]]);
                }
            }
        }
        i += 1;
    }
    proof {
        assert(vs.take(n as int) =~= vs);
        assert(vs.to_set() =~= e.dom()) by {
            assert forall|w: u64| vs.to_set().contains(w) <==> e.dom().contains(w) by {}
        }
        assert forall|w: u64| e.dom().contains(w) implies full@[w] == e[w] by {
            assert(vs.contains(w));
            let t = vs.index_of(w);
            assert(0 <= t < n && vs[t] == w);
        }
    }
}

/// Colorings of the components, put together, are a coloring of the whole.
proof fn lemma_merged(
    h: Map<u64, Set<u64>>,
    parts: Seq<Graph>,
    found: Seq<Map<u64, u64>>,
    e: Map<u64, u64>,
    k: u64,
)
    requires
        valid_graph(h),
        component_split(h, parts),
        found.len() == parts.len(),
        forall|d: int| 0 <= d < parts.len() ==> k_coloring(parts[d]@, #[trigger] found[d], k),
        forall|d: int, v: u64|
            0 <= d < parts.len() && #[trigger] found[d].dom().contains(v) ==> e.dom().contains(v)
                && e[v] == found[d][v],
        forall|v: u64|
            e.dom().contains(v) ==> exists|d: int|
                0 <= d < parts.len() && (#[trigger] found[d]).dom().contains(v),
    ensures
        k_coloring(h, e, k),
{
    let c = parts.len();
    assert forall|v: u64| e.dom().contains(v) <==> h.dom().contains(v) by {
        if e.dom().contains(v) {
            let d = choose|d: int| 0 <= d < c && (#[trigger] found[d]).dom().contains(v);
            assert(parts[d]@.dom().contains(v));
        }
        if h.dom().contains(v) {
            let d = choose|d: int| 0 <= d < parts.len() && (#[trigger] parts[d])@.dom().contains(v);
            assert(found[d].dom().contains(v));
        }
    }
    assert(e.dom() =~= h.dom());
    assert forall|v: u64| e.dom().contains(v) implies #[trigger] e[v] < k by {
        let d = choose|d: int| 0 <= d < c && (#[trigger] found[d]).dom().contains(v);
        assert(found[d][v] < k);
    }
    assert forall|u: u64, v: u64|
        e.dom().contains(u) && e.dom().contains(v) && #[trigger] h[u].contains(v) implies e[u]
        != e[v] by {
        let d = choose|d: int| 0 <= d < c && (#[trigger] found[d]).dom().contains(u);
        let root = parts[d].vertex_seq()[0];
        assert(parts[d]@ == induced(h, component_of(h, root)));
        assert(parts[d]@.dom().contains(u));
        assert(connected(h, root, u));
        crate::components::lemma_connected_step(h, root, u, v);
        assert(parts[d]@.dom().contains(v));
        assert(parts[d]@[u].contains(v));
        assert(found[d].dom().contains(v));
        assert(found[d][u] != found[d][v]);
    }
}

/// Where each component has the coloring that backtracking gives it, the
/// whole has the coloring that `piecewise` names.
proof fn lemma_merged_piecewise(
    h: Map<u64, Set<u64>>,
    parts: Seq<Graph>,
    found: Seq<Map<u64, u64>>,
    e: Map<u64, u64>,
    k: u64,
)
    requires
        valid_graph(h),
        component_split(h, parts),
        found.len() == parts.len(),
        k_coloring(h, e, k),
        forall|d: int| 0 <= d < parts.len() ==> k_coloring(parts[d]@, #[trigger] found[d], k),
        forall|d: int|
            0 <= d < parts.len() ==> search(parts[d]@, Map::empty(), k, false) == Some(
                #[trigger] found[d],
            ),
        forall|d: int, v: u64|
            0 <= d < parts.len() && #[trigger] found[d].dom().contains(v) ==> e.dom().contains(v)
                && e[v] == found[d][v],
        forall|v: u64|
            e.dom().contains(v) ==> exists|d: int|
                0 <= d < parts.len() && (#[trigger] found[d]).dom().contains(v),
    ensures
        e == piecewise(h, k),
{
    let want = piecewise(h, k);
    assert forall|v: u64| e.dom().contains(v) implies #[trigger] e[v] == want[v] by {
        let d = choose|d: int| 0 <= d < parts.len() && (#[trigger] found[d]).dom().contains(v);
        let root = parts[d].vertex_seq()[0];
        assert(parts[d]@ == induced(h, component_of(h, root)));
        assert(parts[d]@.dom().contains(v));
        lemma_same_component(h, root, v);
        assert(search(parts[d]@, Map::empty(), k, false) == Some(found[d]));
    }
    assert(e =~= want);
}

/// In the coloring put together, every vertex's component has the coloring
/// that was found for it.
proof fn lemma_merged_part(
    h: Map<u64, Set<u64>>,
    parts: Seq<Graph>,
    found: Seq<Map<u64, u64>>,
    e: Map<u64, u64>,
    k: u64,
    v: u64,
)
    requires
        valid_graph(h),
        component_split(h, parts),
        found.len() == parts.len(),
        k_coloring(h, e, k),
        h.dom().contains(v),
        forall|d: int| 0 <= d < parts.len() ==> k_coloring(parts[d]@, #[trigger] found[d], k),
        forall|d: int, v: u64|
            0 <= d < parts.len() && #[trigger] found[d].dom().contains(v) ==> e.dom().contains(v)
                && e[v] == found[d][v],
    ensures
        exists|d: int|
            0 <= d < parts.len() && parts[d]@ == induced(h, component_of(h, v))
                && #[trigger] found[d] == e.restrict(component_of(h, v)),
{
    let d = choose|d: int| 0 <= d < parts.len() && (#[trigger] parts[d])@.dom().contains(v);
    let root = parts[d].vertex_seq()[0];
    assert(parts[d]@ == induced(h, component_of(h, root)));
    lemma_same_component(h, root, v);
    let cut = e.restrict(component_of(h, v));
    assert(cut.dom() =~= found[d].dom()) by {
        assert forall|w: u64| cut.dom().contains(w) <==> found[d].dom().contains(w) by {
            if found[d].dom().contains(w) {
                assert(parts[d]@.dom().contains(w));
            }
            if cut.dom().contains(w) {
                assert(h.dom().contains(w));
                assert(parts[d]@.dom().contains(w));
            }
        }
    }
    assert(cut =~= found[d]);
}

/// A graph with a vertex has a component.
proof fn lemma_some_part(h: Map<u64, Set<u64>>, parts: Seq<Graph>)
    requires
        valid_graph(h),
        component_split(h, parts),
        h.dom().len() > 0,
    ensures
        parts.len() > 0,
{
    let v = h.dom().choose();
    assert(h.dom().contains(v)) by {
        if !h.dom().contains(v) {
            assert(h.dom() =~= Set::<u64>::empty());
        }
    }
    let d = choose|d: int| 0 <= d < parts.len() && (#[trigger] parts[d])@.dom().contains(v);
    assert(0 <= d < parts.len());
}

/// Colors one component the way that `strategy` says.
fn color_part(part: &Graph, k: u64, strategy: Strategy) -> (r: Option<HashMap<u64, u64>>)
    requires
        part.wf(),
    ensures
        r matches Some(e) ==> k_coloring(part@, e@, k),
        !(strategy is LocalSearch) ==> {
            &&& r is Some <==> colorable(part@, k)
            &&& crate::search::found(r) == search(part@, Map::empty(), k, false)
        },
        strategy matches Strategy::LocalSearch { max_flips } ==> {
            &&& max_flips == 0 ==> r is None
            &&& max_flips > 0 && edgeless(part@) && (k > 0 || part@.dom().len() == 0) ==> r is Some
            &&& k > 0 ==> local_outcome(part@, k, max_flips as nat, crate::search::found(r))
        },
{
    match strategy {
        Strategy::Backtracking => color(part, k, false),
        Strategy::ForwardChecking => color(part, k, true),
        Strategy::LocalSearch { max_flips } => color_local(part, k, max_flips),
    }
}

/// Colors `graph` with `k` colors, component by component, after leaving
/// out the vertices of fewer than `k` neighbors. The coloring returned
/// covers the vertices that were not left out. As soon as one component
/// fails, the whole fails.
pub fn solve(graph: &Graph, k: u64, strategy: Strategy) -> (r: Option<HashMap<u64, u64>>)
    requires
        graph.wf(),
    ensures
        r matches Some(e) ==> k_coloring(pruned(graph@, k), e@, k),
        !(strategy is LocalSearch) ==> (r is Some <==> colorable(graph@, k)),
        r is Some ==> colorable(graph@, k),
        !(strategy is LocalSearch) ==> (r matches Some(e) ==> e@ == piecewise(pruned(graph@, k), k)),
        strategy matches Strategy::LocalSearch { max_flips } ==> {
            &&& max_flips > 0 && edgeless(pruned(graph@, k)) && (k > 0 || pruned(
                graph@,
                k,
            ).dom().len() == 0) ==> r is Some
            &&& max_flips == 0 && pruned(graph@, k).dom().len() > 0 ==> r is None
            &&& r matches Some(e) ==> forall|v: u64| #[trigger]
                pruned(graph@, k).dom().contains(v) ==> local_outcome(
                    induced(pruned(graph@, k), component_of(pruned(graph@, k), v)),
                    k,
                    max_flips as nat,
                    Some(e@.restrict(component_of(pruned(graph@, k), v))),
                )
            &&& r is None && k > 0 ==> exists|v: u64| #[trigger]
                pruned(graph@, k).dom().contains(v) && local_outcome(
                    induced(pruned(graph@, k), component_of(pruned(graph@, k), v)),
                    k,
                    max_flips as nat,
                    None,
                )
        },
{
    broadcast use group_hash_axioms;

    let ghost h = pruned(graph@, k);
    proof {
        graph.lemma_structure();
        crate::theory::lemma_pruning_keeps_colorability(graph@, k);
        lemma_induced_valid(graph@, high_degree(graph@, k));
    }
    let parts: Vec<Graph> = prune_degree(graph, k);
    let mut full: HashMap<u64, u64> = HashMap::new();
    let ghost mut found: Seq<Map<u64, u64>> = Seq::empty();
    let mut c: usize = 0;
    while c < parts.len()
        invariant
            h == pruned(graph@, k),
            valid_graph(h),
            colorable(graph@, k) <==> colorable(h, k),
            !(strategy is LocalSearch) ==> forall|d: int|
                0 <= d < c ==> search(parts@[d]@, Map::empty(), k, false) == Some(
                    #[trigger] found[d],
                ),
            component_split(h, parts@),
            c <= parts@.len(),
            c > 0 ==> !(strategy matches Strategy::LocalSearch { max_flips } && max_flips == 0),
            strategy matches Strategy::LocalSearch { max_flips } ==> forall|d: int|
                0 <= d < c ==> local_outcome(
                    parts@[d]@,
                    k,
                    max_flips as nat,
                    Some(#[trigger] found[d]),
                ),
            found.len() == c,
            forall|d: int| 0 <= d < c ==> k_coloring(parts@[d]@, #[trigger] found[d], k),
            forall|d: int, v: u64|
                0 <= d < c && #[trigger] found[d].dom().contains(v) ==> full@.dom().contains(v)
                    && full@[v] == found[d][v],
            forall|v: u64|
                full@.dom().contains(v) ==> exists|d: int|
                    0 <= d < c && (#[trigger] found[d]).dom().contains(v),
        decreases parts@.len() - c,
    {
        let part: &Graph = &parts[c];
        let result: Option<HashMap<u64, u64>> = color_part(part, k, strategy);
        match result {
            Some(colors) => {
                let ghost before = full@;
                let ghost e = colors@;
                merge(&mut full, part, &colors);
                proof {
                    let old_found = found;
                    found = found.push(e);
                    assert forall|d: int| 0 <= d < c + 1 implies k_coloring(
                        parts@[d]@,
                        #[trigger] found[d],
                        k,
                    ) by {
                        if d < c {
                            assert(found[d] == old_found[d]);
                        }
                    }
                    if let Strategy::LocalSearch { max_flips } = strategy {
                        assert(k > 0) by {
                            part.lemma_structure();
                            assert(e.dom().contains(part.vertex_seq()[0]));
                            assert(e[part.vertex_seq()[0]] < k);
                        }
                        assert forall|d: int| 0 <= d < c + 1 implies local_outcome(
                            parts@[d]@,
                            k,
                            max_flips as nat,
                            Some(#[trigger] found[d]),
                        ) by {
                            if d < c {
                                assert(found[d] == old_found[d]);
                            }
                        }
                    }
                    if !(strategy is LocalSearch) {
                        assert forall|d: int| 0 <= d < c + 1 implies search(
                            parts@[d]@,
                            Map::empty(),
                            k,
                            false,
                        ) == Some(#[trigger] found[d]) by {
                            if d < c {
                                assert(found[d] == old_found[d]);
                            }
                        }
                    }
                    assert forall|d: int, v: u64|
                        0 <= d < c + 1 && #[trigger] found[d].dom().contains(
                            v,
                        ) implies full@.dom().contains(v) && full@[v] == found[d][v] by {
                        if d < c {
                            assert(found[d] == old_found[d]);
                            assert(old_found[d].dom().contains(v));
                            assert(parts@[d]@.dom().contains(v));
                            assert(!parts@[c as int]@.dom().contains(v));
                        }
                    }
                    assert forall|v: u64| full@.dom().contains(v) implies exists|d: int|
                        0 <= d < c + 1 && (#[trigger] found[d]).dom().contains(v) by {
                        if before.dom().contains(v) {
                            let d = choose|d: int|
                                0 <= d < c && (#[trigger] old_found[d]).dom().contains(v);
                            assert(found[d].dom().contains(v));
                        } else {
                            assert(found[c as int].dom().contains(v));
                        }
                    }
                }
            },
            None => {
                proof {
                    if strategy is LocalSearch && k > 0 {
                        let root = parts@[c as int].vertex_seq()[0];
                        assert(parts@[c as int]@ == induced(h, component_of(h, root)));
                        assert(h.dom().contains(root));
                    }
                    if strategy is LocalSearch && edgeless(h) {
                        part.lemma_structure();
                        assert(edgeless(part@)) by {
                            assert forall|u: u64, v: u64|
                                part@.dom().contains(u) implies !#[trigger] part@[u].contains(v) by {
                                assert(h.dom().contains(u));
                                assert(!h[u].contains(v));
                            }
                        }
                        assert(h.dom().contains(part.vertex_seq()[0]));
                        if h.dom().len() == 0 {
                            assert(h.dom() =~= Set::<u64>::empty());
                        }
                    }
                    if !(strategy is LocalSearch) {
                        let root = parts@[c as int].vertex_seq()[0];
                        assert(parts@[c as int]@ == induced(h, component_of(h, root)));
                        assert forall|e: Map<u64, u64>| !k_coloring(h, e, k) by {
                            if k_coloring(h, e, k) {
                                lemma_coloring_restricts(h, e, k, root);
                                let f = e.restrict(induced(h, component_of(h, root)).dom());
                                assert(k_coloring(part@, f, k));
                                assert(colorable(part@, k));
                            }
                        }
                    }
                }
                return None;
            },
        }
        c += 1;
    }
    proof {
        lemma_merged(h, parts@, found, full@, k);
        if h.dom().len() > 0 {
            lemma_some_part(h, parts@);
        }
        if !(strategy is LocalSearch) {
            lemma_merged_piecewise(h, parts@, found, full@, k);
        }
        if let Strategy::LocalSearch { max_flips } = strategy {
            assert forall|v: u64| #[trigger] h.dom().contains(v) implies local_outcome(
                induced(h, component_of(h, v)),
                k,
                max_flips as nat,
                Some(full@.restrict(component_of(h, v))),
            ) by {
                lemma_merged_part(h, parts@, found, full@, k, v);
                let d = choose|d: int|
                    0 <= d < parts@.len() && parts@[d]@ == induced(h, component_of(h, v))
                        && #[trigger] found[d] == full@.restrict(component_of(h, v));
            }
        }
    }
    Some(full)
}

} // verus!
