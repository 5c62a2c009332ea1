//! Splitting a graph into its connected components, and leaving out the
//! vertices of low degree first.

use crate::graph::{ascending, induced, rows_ok, valid_graph, Graph};
use std::collections::HashMap;
use std::collections::HashSet;
use vstd::prelude::*;
use vstd::std_specs::hash::*;

verus! {

/// `p` is a walk in `g`: a vertex of `g`, then, step by step, a neighbor of
/// the vertex before.
pub open spec fn is_path(g: Map<u64, Set<u64>>, p: Seq<u64>) -> bool {
    &&& p.len() > 0
    &&& g.dom().contains(p[0])
    &&& forall|i: int, j: int|
        0 <= i && j == i + 1 && j < p.len() ==> g[#[trigger] p[i]].contains(#[trigger] p[j])
}

/// Some walk in `g` leads from `u` to `v`.
#[verifier::opaque]
pub open spec fn connected(g: Map<u64, Set<u64>>, u: u64, v: u64) -> bool {
    exists|p: Seq<u64>| #[trigger] is_path(g, p) && p[0] == u && p[p.len() - 1] == v
}

/// The vertices that a walk from `r` reaches.
pub open spec fn component_of(g: Map<u64, Set<u64>>, r: u64) -> Set<u64> {
    Set::new(|v: u64| connected(g, r, v))
}

/// A vertex is connected to itself.
pub proof fn lemma_connected_self(g: Map<u64, Set<u64>>, r: u64)
    requires
        g.dom().contains(r),
    ensures
        connected(g, r, r),
{
    reveal(connected);
    let p = seq![r];
    assert(is_path(g, p));
    assert(p[0] == r && p[p.len() - 1] == r);
}

/// A walk can be continued along an edge.
pub proof fn lemma_connected_step(g: Map<u64, Set<u64>>, r: u64, v: u64, w: u64)
    requires
        connected(g, r, v),
        g[v].contains(w),
    ensures
        connected(g, r, w),
{
    reveal(connected);
    let p = choose|p: Seq<u64>| #[trigger] is_path(g, p) && p[0] == r && p[p.len() - 1] == v;
    let q = p.push(w);
    assert forall|i: int, j: int|
        0 <= i && j == i + 1 && j < q.len() implies g[#[trigger] q[i]].contains(
        #[trigger] q[j],
    ) by {
        if j < p.len() {
            assert(q[i] == p[i] && q[j] == p[j]);
        } else {
            assert(q[i] == p[p.len() - 1]);
        }
    }
    assert(is_path(g, q));
    assert(q[0] == r && q[q.len() - 1] == w);
}

/// A walk that starts inside a set which no edge leaves stays inside it.
proof fn lemma_walk_stays(g: Map<u64, Set<u64>>, s: Set<u64>, p: Seq<u64>, i: int)
    requires
        is_path(g, p),
        s.contains(p[0]),
        forall|a: u64, b: u64| s.contains(a) && #[trigger] g[a].contains(b) ==> s.contains(b),
        0 <= i < p.len(),
    ensures
        s.contains(p[i]),
    decreases i,
{
    if i > 0 {
        lemma_walk_stays(g, s, p, i - 1);
        assert(g[p[i - 1]].contains(p[i]));
    }
}

/// A set which no edge leaves holds whatever is connected to one of its
/// members.
pub proof fn lemma_closed_holds_component(g: Map<u64, Set<u64>>, s: Set<u64>, r: u64, v: u64)
    requires
        s.contains(r),
        forall|a: u64, b: u64| s.contains(a) && #[trigger] g[a].contains(b) ==> s.contains(b),
        connected(g, r, v),
    ensures
        s.contains(v),
{
    reveal(connected);
    let p = choose|p: Seq<u64>| #[trigger] is_path(g, p) && p[0] == r && p[p.len() - 1] == v;
    lemma_walk_stays(g, s, p, p.len() - 1);
}

/// A walk never leaves the graph.
proof fn lemma_walk_in_graph(g: Map<u64, Set<u64>>, p: Seq<u64>, i: int)
    requires
        valid_graph(g),
        is_path(g, p),
        0 <= i < p.len(),
    ensures
        g.dom().contains(p[i]),
{
    lemma_walk_stays(g, g.dom(), p, i);
}

/// Every vertex of a walk is connected to where the walk started from, and
/// to whatever that is connected to.
proof fn lemma_walk_reaches(g: Map<u64, Set<u64>>, u: u64, p: Seq<u64>, i: int)
    requires
        connected(g, u, p[0]),
        is_path(g, p),
        0 <= i < p.len(),
    ensures
        connected(g, u, p[i]),
    decreases i,
{
    if i > 0 {
        lemma_walk_reaches(g, u, p, i - 1);
        assert(g[p[i - 1]].contains(p[i]));
        lemma_connected_step(g, u, p[i - 1], p[i]);
    }
}

/// Walks can be joined.
pub proof fn lemma_connected_transitive(g: Map<u64, Set<u64>>, u: u64, v: u64, w: u64)
    requires
        connected(g, u, v),
        connected(g, v, w),
    ensures
        connected(g, u, w),
{
    reveal(connected);
    let p = choose|p: Seq<u64>| #[trigger] is_path(g, p) && p[0] == v && p[p.len() - 1] == w;
    lemma_walk_reaches(g, u, p, p.len() - 1);
}

/// Every vertex of a walk leads back to where the walk started from.
proof fn lemma_walk_returns(g: Map<u64, Set<u64>>, p: Seq<u64>, i: int)
    requires
        valid_graph(g),
        is_path(g, p),
        0 <= i < p.len(),
    ensures
        connected(g, p[i], p[0]),
    decreases i,
{
    if i == 0 {
        lemma_connected_self(g, p[0]);
    } else {
        lemma_walk_returns(g, p, i - 1);
        lemma_walk_in_graph(g, p, i - 1);
        lemma_walk_in_graph(g, p, i);
        assert(g[p[i - 1]].contains(p[i]));
        assert(g[p[i]].contains(p[i - 1]));
        lemma_connected_self(g, p[i]);
        lemma_connected_step(g, p[i], p[i], p[i - 1]);
        lemma_connected_transitive(g, p[i], p[i - 1], p[0]);
    }
}

/// In an undirected graph a walk can be walked back.
pub proof fn lemma_connected_symmetric(g: Map<u64, Set<u64>>, u: u64, v: u64)
    requires
        valid_graph(g),
        connected(g, u, v),
    ensures
        connected(g, v, u),
{
    reveal(connected);
    let p = choose|p: Seq<u64>| #[trigger] is_path(g, p) && p[0] == u && p[p.len() - 1] == v;
    lemma_walk_returns(g, p, p.len() - 1);
}

/// Two connected vertices have the same component.
pub proof fn lemma_same_component(g: Map<u64, Set<u64>>, u: u64, v: u64)
    requires
        valid_graph(g),
        connected(g, u, v),
    ensures
        component_of(g, u) == component_of(g, v),
{
    lemma_connected_symmetric(g, u, v);
    assert forall|w: u64| component_of(g, u).contains(w) <==> component_of(g, v).contains(w) by {
        if connected(g, u, w) {
            lemma_connected_transitive(g, v, u, w);
        }
        if connected(g, v, w) {
            lemma_connected_transitive(g, u, v, w);
        }
    }
    assert(component_of(g, u) =~= component_of(g, v));
}

/// The part of an undirected graph within any set of vertices is an
/// undirected graph.
pub proof fn lemma_induced_valid(g: Map<u64, Set<u64>>, keep: Set<u64>)
    requires
        valid_graph(g),
    ensures
        valid_graph(induced(g, keep)),
{
    let h = induced(g, keep);
    assert(h.dom().subset_of(g.dom()));
    vstd::set_lib::lemma_set_subset_finite(g.dom(), h.dom());
    assert forall|u: u64, v: u64| h.dom().contains(u) && #[trigger] h[u].contains(v) implies {
        &&& h.dom().contains(v)
        &&& h[v].contains(u)
        &&& u != v
    } by {
        assert(g[u].contains(v));
    }
}

/// A walk from `r` is a walk in the component of `r`, up to any position.
proof fn lemma_walk_in_component(g: Map<u64, Set<u64>>, r: u64, p: Seq<u64>, i: int)
    requires
        valid_graph(g),
        is_path(g, p),
        p[0] == r,
        0 <= i < p.len(),
    ensures
        connected(induced(g, component_of(g, r)), r, p[i]),
    decreases i,
{
    let h = induced(g, component_of(g, r));
    lemma_connected_self(g, r);
    if i == 0 {
        lemma_connected_self(h, r);
    } else {
        lemma_walk_in_component(g, r, p, i - 1);
        lemma_walk_reaches(g, r, p, i - 1);
        lemma_walk_reaches(g, r, p, i);
        lemma_walk_in_graph(g, p, i - 1);
        assert(g[p[i - 1]].contains(p[i]));
        assert(h.dom().contains(p[i - 1]));
        assert(h[p[i - 1]].contains(p[i]));
        lemma_connected_step(h, r, p[i - 1], p[i]);
    }
}

/// Within a component, every two vertices are connected.
pub proof fn lemma_component_connected(g: Map<u64, Set<u64>>, r: u64, u: u64, v: u64)
    requires
        valid_graph(g),
        connected(g, r, u),
        connected(g, r, v),
    ensures
        connected(induced(g, component_of(g, r)), u, v),
{
    let h = induced(g, component_of(g, r));
    lemma_induced_valid(g, component_of(g, r));
    assert(connected(h, r, u) && connected(h, r, v)) by {
        reveal(connected);
        let p = choose|p: Seq<u64>| #[trigger] is_path(g, p) && p[0] == r && p[p.len() - 1] == u;
        lemma_walk_in_component(g, r, p, p.len() - 1);
        let q = choose|q: Seq<u64>| #[trigger] is_path(g, q) && q[0] == r && q[q.len() - 1] == v;
        lemma_walk_in_component(g, r, q, q.len() - 1);
    }
    lemma_connected_symmetric(h, r, u);
    lemma_connected_transitive(h, u, r, v);
}

/// The part of `g` that lies outside `taken`.
pub open spec fn outside(g: Map<u64, Set<u64>>, taken: Set<u64>) -> Map<u64, Set<u64>> {
    induced(g, taken.complement())
}

/// What anything is connected to is a vertex.
pub proof fn lemma_connected_from_vertex(g: Map<u64, Set<u64>>, u: u64, v: u64)
    requires
        connected(g, u, v),
    ensures
        g.dom().contains(u),
{
    reveal(connected);
}

/// A walk in a part of a graph is a walk in the graph.
proof fn lemma_walk_in_whole(g: Map<u64, Set<u64>>, keep: Set<u64>, p: Seq<u64>)
    requires
        valid_graph(g),
        is_path(induced(g, keep), p),
    ensures
        is_path(g, p),
        forall|i: int| 0 <= i < p.len() ==> keep.contains(#[trigger] p[i]),
{
    let h = induced(g, keep);
    lemma_induced_valid(g, keep);
    assert forall|i: int| 0 <= i < p.len() implies h.dom().contains(#[trigger] p[i]) by {
        lemma_walk_in_graph(h, p, i);
    }
    assert forall|i: int, j: int|
        0 <= i && j == i + 1 && j < p.len() implies g[#[trigger] p[i]].contains(
        #[trigger] p[j],
    ) by {
        assert(h.dom().contains(p[i]));
        assert(h[p[i]].contains(p[j]));
    }
}

/// A walk that starts inside a set which no edge leaves is, up to any
/// position, a walk in the part of the graph within that set.
proof fn lemma_walk_in_part(g: Map<u64, Set<u64>>, keep: Set<u64>, p: Seq<u64>, i: int)
    requires
        valid_graph(g),
        is_path(g, p),
        keep.contains(p[0]),
        forall|a: u64, b: u64|
            keep.contains(a) && g.dom().contains(a) && #[trigger] g[a].contains(b) ==> keep.contains(
                b,
            ),
        0 <= i < p.len(),
    ensures
        keep.contains(p[i]),
        connected(induced(g, keep), p[0], p[i]),
    decreases i,
{
    let h = induced(g, keep);
    if i == 0 {
        lemma_connected_self(h, p[0]);
    } else {
        lemma_walk_in_part(g, keep, p, i - 1);
        lemma_walk_in_graph(g, p, i - 1);
        assert(g[p[i - 1]].contains(p[i]));
        assert(h.dom().contains(p[i - 1]));
        assert(h[p[i - 1]].contains(p[i]));
        lemma_connected_step(h, p[0], p[i - 1], p[i]);
    }
}

/// Where whole components are taken out of a graph, what is left of a
/// vertex's component is all of it: a vertex outside is connected to the
/// same vertices outside as in the whole graph.
pub proof fn lemma_outside_whole_components(
    g: Map<u64, Set<u64>>,
    taken: Set<u64>,
    root: u64,
    v: u64,
)
    requires
        valid_graph(g),
        g.dom().contains(root),
        !taken.contains(root),
        forall|a: u64, b: u64|
            taken.contains(a) && g.dom().contains(a) && #[trigger] g[a].contains(b)
                ==> taken.contains(b),
    ensures
        connected(outside(g, taken), root, v) <==> connected(g, root, v),
        connected(g, root, v) ==> !taken.contains(v) && g.dom().contains(v),
{
    let keep = taken.complement();
    let h = outside(g, taken);
    reveal(connected);
    if connected(h, root, v) {
        let p = choose|p: Seq<u64>| #[trigger] is_path(h, p) && p[0] == root && p[p.len() - 1] == v;
        lemma_walk_in_whole(g, keep, p);
        assert(is_path(g, p));
    }
    if connected(g, root, v) {
        let p = choose|p: Seq<u64>| #[trigger] is_path(g, p) && p[0] == root && p[p.len() - 1] == v;
        assert forall|a: u64, b: u64|
            keep.contains(a) && g.dom().contains(a) && #[trigger] g[a].contains(
                b,
            ) implies keep.contains(b) by {
            if taken.contains(b) {
                assert(g.dom().contains(b));
                assert(g[b].contains(a));
            }
        }
        lemma_walk_in_part(g, keep, p, p.len() - 1);
        lemma_walk_in_graph(g, p, p.len() - 1);
    }
}

/// Gives the label `id` to every vertex that a depth-first walk from `root`
/// reaches over vertices without a label. Labels that were there stay, and
/// the walk does not pass a labelled vertex: where `root` has a label
/// already, nothing changes.
pub fn find_component(graph: &Graph, labels: &mut HashMap<u64, usize>, root: u64, id: usize)
    requires
        graph.wf(),
        graph@.dom().contains(root) || old(labels)@.dom().contains(root),
    ensures
        forall|v: u64|
            #![trigger final(labels)@.dom().contains(v)]
            #![trigger connected(outside(graph@, old(labels)@.dom()), root, v)]
            final(labels)@.dom().contains(v) <==> old(labels)@.dom().contains(v) || connected(
                outside(graph@, old(labels)@.dom()),
                root,
                v,
            ),
        forall|v: u64| old(labels)@.dom().contains(v) ==> final(labels)@[v] == old(labels)@[v],
        forall|v: u64| #[trigger]
            connected(outside(graph@, old(labels)@.dom()), root, v) ==> final(labels)@[v] == id,
{
    broadcast use group_hash_axioms;

    let ghost g = graph@;
    let ghost base = labels@;
    let ghost h = outside(g, base.dom());
    if labels.contains_key(&root) {
        proof {
            assert forall|v: u64| !connected(h, root, v) by {
                if connected(h, root, v) {
                    lemma_connected_from_vertex(h, root, v);
                }
            }
        }
        return ;
    }
    proof {
        graph.lemma_structure();
        lemma_connected_self(h, root);
    }
    let mut stack: Vec<u64> = Vec::new();
    labels.insert(root, id);
    stack.push(root);
    let ghost mut found: Set<u64> = Set::empty().insert(root);
    proof {
        assert(stack@[0] == root);
        assert(stack@.contains(root));
        assert(g.dom().difference(labels@.dom()).finite());
    }
    while stack.len() > 0
        invariant
            graph.wf(),
            g == graph@,
            valid_graph(g),
            base == old(labels)@,
            h == outside(g, base.dom()),
            labels@.dom() == base.dom().union(found),
            forall|v: u64|
                found.contains(v) ==> {
                    &&& connected(h, root, v)
                    &&& !base.dom().contains(v)
                    &&& labels@[v] == id
                    &&& g.dom().contains(v)
                },
            forall|v: u64| base.dom().contains(v) ==> labels@[v] == base[v],
            forall|t: int| 0 <= t < stack@.len() ==> found.contains(#[trigger] stack@[t]),
            forall|a: u64, b: u64|
                found.contains(a) && !stack@.contains(a) && #[trigger] h[a].contains(b)
                    ==> found.contains(b),
            found.contains(root),
        decreases g.dom().difference(labels@.dom()).len(), stack@.len(),
    {
        let ghost stack0 = stack@;
        let ghost labels0 = labels@;
        let v: u64 = stack.pop().unwrap();
        assert(stack0[stack0.len() - 1] == v);
        assert(found.contains(v));
        proof {
            graph.lemma_structure();
            assert forall|a: u64| a != v && !stack@.contains(a) implies !stack0.contains(a) by {
                if stack0.contains(a) {
                    let t = stack0.index_of(a);
                    assert(stack0[t] == a);
                    assert(t < stack@.len());
                    assert(stack@[t] == a);
                }
            }
        }
        match graph.position(v) {
            Some(at) => {
                let row = graph.neighbors_at(at);
                let mut j: usize = 0;
                while j < row.len()
                    invariant
                        g == graph@,
                        valid_graph(g),
                        h == outside(g, base.dom()),
                        labels@.dom() == base.dom().union(found),
                        forall|v: u64|
                            found.contains(v) ==> {
                                &&& connected(h, root, v)
                                &&& !base.dom().contains(v)
                                &&& labels@[v] == id
                                &&& g.dom().contains(v)
                            },
                        forall|v: u64| base.dom().contains(v) ==> labels@[v] == base[v],
                        forall|t: int| 0 <= t < stack@.len() ==> found.contains(#[trigger] stack@[t]),
                        forall|a: u64, b: u64|
                            found.contains(a) && a != v && !stack@.contains(a)
                                && #[trigger] h[a].contains(b) ==> found.contains(b),
                        found.contains(root),
                        found.contains(v),
                        g.dom().finite(),
                        row@.to_set() == g[v],
                        j <= row@.len(),
                        forall|t: int|
                            0 <= t < j ==> base.dom().contains(#[trigger] row@[t]) || found.contains(
                                row@[t],
                            ),
                        stack@.len() + 1 >= stack0.len(),
                        g.dom().difference(labels0.dom()).len() - g.dom().difference(
                            labels@.dom(),
                        ).len() == stack@.len() - (stack0.len() - 1),
                    decreases row@.len() - j,
                {
                    let n: u64 = row[j];
                    assert(row@.to_set().contains(n));
                    assert(g[v].contains(n));
                    let ghost stack1 = stack@;
                    let ghost labels1 = labels@;
                    if !labels.contains_key(&n) {
                        labels.insert(n, id);
                        stack.push(n);
                        proof {
                            assert(h.dom().contains(v));
                            assert(h[v].contains(n));
                            lemma_connected_step(h, root, v, n);
                            found = found.insert(n);
                            assert(stack@[stack1.len() as int] == n);
                            assert forall|a: u64| !stack@.contains(a) implies !stack1.contains(
                                a,
                            ) by {
                                if stack1.contains(a) {
                                    let t = stack1.index_of(a);
                                    assert(stack@[t] == a);
                                }
                            }
                            assert(g.dom().difference(labels@.dom()) =~= g.dom().difference(
                                labels1.dom(),
                            ).remove(n));
                            assert(g.dom().difference(labels1.dom()).contains(n));
                        }
                    }
                    j += 1;
                }
                proof {
                    assert forall|b: u64| h[v].contains(b) implies found.contains(b) by {
                        assert(h.dom().contains(v));
                        assert(g[v].contains(b));
                        assert(row@.to_set().contains(b));
                        let t = row@.index_of(b);
                        assert(row@[t] == b);
                    }
                }
            },
            None => {
                assert(false);
            },
        }
    }
    proof {
        assert forall|a: u64, b: u64|
            found.contains(a) && #[trigger] h[a].contains(b) implies found.contains(b) by {
            assert(!stack@.contains(a));
        }
        assert forall|v: u64| #[trigger] connected(h, root, v) implies found.contains(v)
            && labels@[v] == id by {
            lemma_closed_holds_component(h, found, root, v);
        }
    }
}

/// `parts` are the connected components of `g`, each as the part of `g`
/// that lies within it, in increasing order of their lowest vertex.
pub open spec fn component_split(g: Map<u64, Set<u64>>, parts: Seq<Graph>) -> bool {
    &&& forall|c: int|
        0 <= c < parts.len() ==> {
            &&& (#[trigger] parts[c]).wf()
            &&& parts[c].vertex_seq().len() > 0
            &&& g.dom().contains(parts[c].vertex_seq()[0])
            &&& parts[c]@ == induced(g, component_of(g, parts[c].vertex_seq()[0]))
        }
    &&& forall|c: int, d: int|
        0 <= c < d < parts.len() ==> (#[trigger] parts[c]).vertex_seq()[0] < (
        #[trigger] parts[d]).vertex_seq()[0]
    &&& forall|v: u64|
        g.dom().contains(v) ==> exists|c: int|
            0 <= c < parts.len() && (#[trigger] parts[c])@.dom().contains(v)
    &&& forall|c: int, d: int, v: u64|
        0 <= c < d < parts.len() && #[trigger] parts[c]@.dom().contains(v)
            ==> !#[trigger] parts[d]@.dom().contains(v)
}

/// The vertices of `g` with at least `k` neighbors.
pub open spec fn high_degree(g: Map<u64, Set<u64>>, k: u64) -> Set<u64> {
    Set::new(|v: u64| g.dom().contains(v) && g[v].len() >= k)
}

/// `labels` sorts some whole components of `g` by number, `roots[c]` being
/// the lowest vertex of the component numbered `c`.
#[verifier::opaque]
spec fn labelling(g: Map<u64, Set<u64>>, labels: Map<u64, usize>, roots: Seq<u64>) -> bool {
    &&& labels.dom().subset_of(g.dom())
    &&& forall|a: u64, b: u64|
        labels.dom().contains(a) && #[trigger] g[a].contains(b) ==> labels.dom().contains(b)
    &&& ascending(roots)
    &&& forall|c: int| 0 <= c < roots.len() ==> g.dom().contains(#[trigger] roots[c])
    &&& forall|v: u64| #[trigger]
        labels.dom().contains(v) ==> labels[v] < roots.len() && connected(
            g,
            roots[labels[v] as int],
            v,
        )
    &&& forall|c: int, v: u64|
        0 <= c < roots.len() && #[trigger] connected(g, roots[c], v) ==> labels.dom().contains(v)
            && labels[v] == c && roots[c] <= v
}

/// `nodes` and `rows` hold, in order, those of the first `i` vertices that
/// carry the label `c`, each with its neighbors.
#[verifier::opaque]
spec fn part_ok(
    g: Map<u64, Set<u64>>,
    labels: Map<u64, usize>,
    vs: Seq<u64>,
    i: int,
    c: int,
    nodes: Seq<u64>,
    rows: Seq<Vec<u64>>,
) -> bool {
    &&& nodes.len() == rows.len()
    &&& ascending(nodes)
    &&& forall|a: int, t: int|
        0 <= a < nodes.len() && i <= t < vs.len() ==> #[trigger] nodes[a] < #[trigger] vs[t]
    &&& forall|v: u64|
        nodes.contains(v) <==> labels.dom().contains(v) && labels[v] == c && exists|t: int|
            0 <= t < i && #[trigger] vs[t] == v
    &&& forall|a: int|
        0 <= a < rows.len() ==> ascending(#[trigger] rows[a]@) && rows[a]@.to_set() == g[nodes[a]]
}

/// The vertices with one label, each with all its neighbors, are a graph in
/// ordered form, and its lowest vertex is the root of that label.
proof fn lemma_part_rows(
    g: Map<u64, Set<u64>>,
    labels: Map<u64, usize>,
    roots: Seq<u64>,
    vs: Seq<u64>,
    c: int,
    nodes: Seq<u64>,
    rows: Seq<Vec<u64>>,
)
    requires
        valid_graph(g),
        labelling(g, labels, roots),
        ascending(vs),
        forall|v: u64| g.dom().contains(v) <==> vs.contains(v),
        labels.dom() == g.dom(),
        0 <= c < roots.len(),
        part_ok(g, labels, vs, vs.len() as int, c, nodes, rows),
    ensures
        rows_ok(nodes, Seq::new(rows.len(), |i: int| rows[i]@)),
        nodes.len() > 0,
        nodes[0] == roots[c],
        forall|v: u64| nodes.contains(v) <==> connected(g, roots[c], v),
{
    reveal(labelling);
    reveal(part_ok);
    let rs = Seq::new(rows.len(), |i: int| rows[i]@);
    assert forall|v: u64| nodes.contains(v) <==> connected(g, roots[c], v) by {
        if connected(g, roots[c], v) {
            assert(labels.dom().contains(v) && labels[v] == c);
            assert(vs.contains(v));
            let t = vs.index_of(v);
            assert(0 <= t < vs.len() && vs[t] == v);
        }
        if nodes.contains(v) {
            assert(labels.dom().contains(v));
        }
    }
    lemma_connected_self(g, roots[c]);
    assert(nodes.contains(roots[c]));
    assert(nodes.contains(nodes[0]));
    assert(connected(g, roots[c], nodes[0]));
    assert forall|i: int| 0 <= i < rs.len() implies ascending(#[trigger] rs[i]) by {
        assert(ascending(rows[i]@));
    }
    assert forall|i: int, j: int| 0 <= i < rs.len() && 0 <= j < rs[i].len() implies {
        &&& nodes.contains(#[trigger] rs[i][j])
        &&& rs[i][j] != nodes[i]
    } by {
        let y = rs[i][j];
        assert(ascending(rows[i]@));
        assert(rows[i]@.to_set().contains(y));
        assert(nodes.contains(nodes[i]));
        assert(g[nodes[i]].contains(y));
        lemma_connected_step(g, roots[c], nodes[i], y);
    }
    assert forall|i: int, j: int|
        0 <= i < rs.len() && 0 <= j < rs.len() && rs[i].contains(
            nodes[j],
        ) implies #[trigger] rs[j].contains(nodes[i]) by {
        assert(ascending(rows[i]@));
        assert(ascending(rows[j]@));
        assert(rows[i]@.to_set().contains(nodes[j]));
        assert(nodes.contains(nodes[i]));
        assert(nodes.contains(nodes[j]));
        assert(g[nodes[i]].contains(nodes[j]));
        assert(g[nodes[j]].contains(nodes[i]));
        assert(rows[j]@.to_set().contains(nodes[i]));
    }
}

/// A graph whose vertices are those connected to `r` in `g`, each with all
/// its neighbors, is the part of `g` within the component of `r`.
proof fn lemma_part_view(g: Map<u64, Set<u64>>, part: Graph, r: u64)
    requires
        valid_graph(g),
        part.wf(),
        forall|v: u64| part.vertex_seq().contains(v) <==> connected(g, r, v),
        forall|v: u64| connected(g, r, v) ==> g.dom().contains(v),
        forall|a: int|
            0 <= a < part.vertex_seq().len() ==> (#[trigger] part.rows()[a]).to_set()
                == g[part.vertex_seq()[a]],
    ensures
        part@ == induced(g, component_of(g, r)),
{
    part.lemma_structure();
    let h = part@;
    let want = induced(g, component_of(g, r));
    let ns = part.vertex_seq();
    assert(h.dom() =~= want.dom());
    assert forall|w: u64| h.dom().contains(w) implies #[trigger] h[w] =~= want[w] by {
        let a = ns.index_of(w);
        assert(ns[a] == w);
        assert(h[ns[a]] == part.neighbor_seq(a).to_set());
        assert(part.rows()[a] == part.neighbor_seq(a));
        assert forall|y: u64| g[w].contains(y) implies component_of(g, r).contains(y) by {
            lemma_connected_step(g, r, w, y);
        }
    }
    assert(h =~= want);
}

/// Numbers the connected components of `graph` in increasing order of their
/// lowest vertex. Returns the number of each vertex's component, and the
/// lowest vertex of each component.
fn label_components(graph: &Graph) -> (r: (HashMap<u64, usize>, Vec<u64>))
    requires
        graph.wf(),
    ensures
        labelling(graph@, r.0@, r.1@),
        r.0@.dom() == graph@.dom(),
        forall|v: u64| r.0@.dom().contains(v) ==> #[trigger] r.0@[v] < r.1@.len(),
{
    broadcast use group_hash_axioms;

    proof {
        reveal(labelling);
        graph.lemma_structure();
    }
    let ghost g = graph@;
    let ghost vs = graph.vertex_seq();
    let n: usize = graph.len();
    let mut labels: HashMap<u64, usize> = HashMap::new();
    let mut roots: Vec<u64> = Vec::new();
    let mut i: usize = 0;
    while i < n
        invariant
            graph.wf(),
            g == graph@,
            valid_graph(g),
            vs == graph.vertex_seq(),
            ascending(vs),
            forall|v: u64| g.dom().contains(v) <==> vs.contains(v),
            n == vs.len(),
            i <= n,
            labelling(g, labels@, roots@),
            forall|t: int| 0 <= t < i ==> labels@.dom().contains(#[trigger] vs[t]),
            forall|c: int, t: int|
                0 <= c < roots@.len() && i <= t < n ==> #[trigger] roots@[c] < #[trigger] vs[t],
        decreases n - i,
    {
        let v: u64 = graph.vertex(i);
        assert(vs.contains(v));
        proof {
            reveal(labelling);
        }
        if !labels.contains_key(&v) {
            let ghost old_labels = labels@;
            let ghost old_roots = roots@;
            let id: usize = roots.len();
            find_component(graph, &mut labels, v, id);
            roots.push(v);
            proof {
                let l2 = labels@;
                let r2 = roots@;
                assert forall|u: u64|
                    #![trigger l2.dom().contains(u)]
                    #![trigger connected(g, v, u)]
                    (l2.dom().contains(u) <==> old_labels.dom().contains(u) || connected(g, v, u))
                        && (connected(g, v, u) ==> !old_labels.dom().contains(u) && l2[u] == id
                        && g.dom().contains(u)) by {
                    lemma_outside_whole_components(g, old_labels.dom(), v, u);
                }
                assert(l2.dom().subset_of(g.dom()));
                assert forall|a: u64, b: u64|
                    l2.dom().contains(a) && #[trigger] g[a].contains(b) implies l2.dom().contains(
                    b,
                ) by {
                    if !old_labels.dom().contains(a) {
                        lemma_connected_step(g, v, a, b);
                    }
                }
                assert forall|u: u64| #[trigger] l2.dom().contains(u) implies l2[u] < r2.len()
                    && connected(g, r2[l2[u] as int], u) by {
                    if old_labels.dom().contains(u) {
                        assert(r2[old_labels[u] as int] == old_roots[old_labels[u] as int]);
                    } else {
                        assert(connected(g, v, u));
                    }
                }
                assert forall|c: int, u: u64|
                    0 <= c < r2.len() && #[trigger] connected(g, r2[c], u) implies l2.dom().contains(
                    u,
                ) && l2[u] == c && r2[c] <= u by {
                    if c < old_roots.len() {
                        assert(r2[c] == old_roots[c]);
                        assert(old_labels.dom().contains(u));
                    } else {
                        assert(r2[c] == v);
                        assert(l2.dom().contains(u));
                        assert(vs.contains(u));
                        let t = vs.index_of(u);
                        assert(vs[t] == u);
                        if t < i {
                            assert(old_labels.dom().contains(vs[t]));
                        }
                    }
                }
                assert(ascending(r2));
                assert(labelling(g, l2, r2));
                lemma_connected_self(g, v);
                assert forall|t: int| 0 <= t < i + 1 implies l2.dom().contains(#[trigger] vs[t]) by {
                    if t < i {
                        assert(old_labels.dom().contains(vs[t]));
                    }
                }
            }
        }
        i += 1;
    }
    proof {
        reveal(labelling);
        assert(labels@.dom() =~= g.dom()) by {
            assert forall|v: u64| g.dom().contains(v) implies labels@.dom().contains(v) by {
                assert(vs.contains(v));
                let t = vs.index_of(v);
                assert(vs[t] == v);
            }
        }
    }
    (labels, roots)
}

/// Sorts the vertices of `graph`, each with its neighbors, into `count`
/// lists by their labels.
fn distribute(graph: &Graph, labels: &HashMap<u64, usize>, count: usize) -> (r: (
    Vec<Vec<u64>>,
    Vec<Vec<Vec<u64>>>,
))
    requires
        graph.wf(),
        labels@.dom() == graph@.dom(),
        forall|v: u64| labels@.dom().contains(v) ==> #[trigger] labels@[v] < count,
    ensures
        r.0@.len() == count,
        r.1@.len() == count,
        forall|d: int|
            0 <= d < count ==> part_ok(
                graph@,
                labels@,
                graph.vertex_seq(),
                graph.vertex_seq().len() as int,
                d,
                (#[trigger] r.0@[d])@,
                r.1@[d]@,
            ),
{
    broadcast use group_hash_axioms;

    proof {
        graph.lemma_structure();
    }
    let ghost g = graph@;
    let ghost vs = graph.vertex_seq();
    let n: usize = graph.len();
    let mut node_lists: Vec<Vec<u64>> = Vec::new();
    let mut row_lists: Vec<Vec<Vec<u64>>> = Vec::new();
    let mut c: usize = 0;
    while c < count
        invariant
            c <= count,
            node_lists@.len() == c,
            row_lists@.len() == c,
            forall|d: int| 0 <= d < c ==> (#[trigger] node_lists@[d])@.len() == 0,
            forall|d: int| 0 <= d < c ==> (#[trigger] row_lists@[d])@.len() == 0,
        decreases count - c,
    {
        node_lists.push(Vec::new());
        row_lists.push(Vec::new());
        c += 1;
    }
    proof {
        reveal(part_ok);
        assert forall|d: int| 0 <= d < count implies part_ok(
            g,
            labels@,
            vs,
            0,
            d,
            (#[trigger] node_lists@[d])@,
            row_lists@[d]@,
        ) by {
            assert(row_lists@[d]@.len() == 0);
        }
    }
    let mut i: usize = 0;
    while i < n
        invariant
            graph.wf(),
            g == graph@,
            valid_graph(g),
            vs == graph.vertex_seq(),
            ascending(vs),
            n == vs.len(),
            i <= n,
            labels@.dom() == g.dom(),
            forall|v: u64| labels@.dom().contains(v) ==> #[trigger] labels@[v] < count,
            forall|t: int| 0 <= t < n ==> g.dom().contains(#[trigger] vs[t]),
            node_lists@.len() == count,
            row_lists@.len() == count,
            forall|d: int|
                0 <= d < count ==> part_ok(
                    g,
                    labels@,
                    vs,
                    i as int,
                    d,
                    (#[trigger] node_lists@[d])@,
                    row_lists@[d]@,
                ),
        decreases n - i,
    {
        let v: u64 = graph.vertex(i);
        let at: usize = *labels.get(&v).unwrap();
        let row: Vec<u64> = graph.neighbors_at(i).clone();
        let ghost old_nodes = node_lists@;
        let ghost old_rows = row_lists@;
        proof {
            reveal(part_ok);
            graph.lemma_structure();
            assert(part_ok(
                g,
                labels@,
                vs,
                i as int,
                at as int,
                old_nodes[at as int]@,
                old_rows[at as int]@,
            ));
        }
        node_lists[at].push(v);
        row_lists[at].push(row);
        proof {
            assert forall|d: int| 0 <= d < count implies part_ok(
                g,
                labels@,
                vs,
                i as int + 1,
                d,
                (#[trigger] node_lists@[d])@,
                row_lists@[d]@,
            ) by {
                let before = old_nodes[d]@;
                let after = node_lists@[d]@;
                assert(part_ok(g, labels@, vs, i as int, d, before, old_rows[d]@));
                if d == at {
                    assert(after == before.push(v));
                    assert(row_lists@[d]@ == old_rows[d]@.push(row));
                    assert forall|w: u64|
                        after.contains(w) <==> labels@.dom().contains(w) && labels@[w] == d
                            && exists|t: int| 0 <= t < i + 1 && #[trigger] vs[t] == w by {
                        if after.contains(w) {
                            let a = after.index_of(w);
                            if a < before.len() {
                                assert(before.contains(w));
                                let t = choose|t: int| 0 <= t < i && #[trigger] vs[t] == w;
                                assert(0 <= t < i + 1 && vs[t] == w);
                            } else {
                                assert(vs[i as int] == w);
                            }
                        }
                        if labels@.dom().contains(w) && labels@[w] == d && exists|t: int|
                            0 <= t < i + 1 && #[trigger] vs[t] == w {
                            let t = choose|t: int| 0 <= t < i + 1 && #[trigger] vs[t] == w;
                            if t < i {
                                assert(before.contains(w));
                                let a = before.index_of(w);
                                assert(after[a] == w);
                            } else {
                                assert(after[before.len() as int] == w);
                            }
                        }
                    }
                    assert forall|a: int| 0 <= a < row_lists@[d]@.len() implies ascending(
                        #[trigger] row_lists@[d]@[a]@,
                    ) && row_lists@[d]@[a]@.to_set() == g[after[a]] by {
                        if a < before.len() {
                            assert(row_lists@[d]@[a] == old_rows[d]@[a]);
                            assert(after[a] == before[a]);
                        }
                    }
                } else {
                    assert(after == before);
                    assert(row_lists@[d]@ == old_rows[d]@);
                    assert forall|w: u64|
                        after.contains(w) <==> labels@.dom().contains(w) && labels@[w] == d
                            && exists|t: int| 0 <= t < i + 1 && #[trigger] vs[t] == w by {
                        if after.contains(w) {
                            let t = choose|t: int| 0 <= t < i && #[trigger] vs[t] == w;
                            assert(0 <= t < i + 1 && vs[t] == w);
                        }
                        if labels@.dom().contains(w) && labels@[w] == d && exists|t: int|
                            0 <= t < i + 1 && #[trigger] vs[t] == w {
                            let t = choose|t: int| 0 <= t < i + 1 && #[trigger] vs[t] == w;
                            assert(t < i);
                        }
                    }
                }
            }
        }
        i += 1;
    }
    (node_lists, row_lists)
}

/// Graphs made of the numbered components, one for each number, are the
/// split of `g` into its components.
proof fn lemma_split(
    g: Map<u64, Set<u64>>,
    labels: Map<u64, usize>,
    roots: Seq<u64>,
    parts: Seq<Graph>,
)
    requires
        labelling(g, labels, roots),
        labels.dom() == g.dom(),
        parts.len() == roots.len(),
        forall|d: int|
            0 <= d < parts.len() ==> {
                &&& (#[trigger] parts[d]).wf()
                &&& parts[d].vertex_seq().len() > 0
                &&& parts[d].vertex_seq()[0] == roots[d]
                &&& parts[d]@ == induced(g, component_of(g, roots[d]))
            },
    ensures
        component_split(g, parts),
{
    reveal(labelling);
    assert forall|v: u64| g.dom().contains(v) implies exists|d: int|
        0 <= d < parts.len() && (#[trigger] parts[d])@.dom().contains(v) by {
        assert(labels.dom().contains(v));
        let d = labels[v] as int;
        assert(connected(g, roots[d], v));
        assert(parts[d]@.dom().contains(v));
    }
    assert forall|a: int, b: int|
        0 <= a < b < parts.len() implies (#[trigger] parts[a]).vertex_seq()[0]
        < (#[trigger] parts[b]).vertex_seq()[0] by {
        assert(roots[a] < roots[b]);
    }
    assert forall|a: int, b: int, v: u64|
        0 <= a < b < parts.len() && #[trigger] parts[a]@.dom().contains(
            v,
        ) implies !#[trigger] parts[b]@.dom().contains(v) by {
        assert(connected(g, roots[a], v));
        if parts[b]@.dom().contains(v) {
            assert(connected(g, roots[b], v));
        }
    }
}

/// Makes the graph of the component numbered `c` from its vertices and
/// their neighbor lists.
fn build_part(
    graph: &Graph,
    labels: &HashMap<u64, usize>,
    roots: &Vec<u64>,
    c: usize,
    nodes: Vec<u64>,
    rows: Vec<Vec<u64>>,
) -> (part: Graph)
    requires
        graph.wf(),
        labelling(graph@, labels@, roots@),
        labels@.dom() == graph@.dom(),
        c < roots@.len(),
        part_ok(
            graph@,
            labels@,
            graph.vertex_seq(),
            graph.vertex_seq().len() as int,
            c as int,
            nodes@,
            rows@,
        ),
    ensures
        part.wf(),
        part.vertex_seq().len() > 0,
        part.vertex_seq()[0] == roots@[c as int],
        part@ == induced(graph@, component_of(graph@, roots@[c as int])),
{
    let ghost g = graph@;
    let ghost row_seq = rows@;
    proof {
        reveal(labelling);
        reveal(part_ok);
        graph.lemma_structure();
        lemma_part_rows(g, labels@, roots@, graph.vertex_seq(), c as int, nodes@, rows@);
    }
    let part: Graph = Graph::assemble(nodes, rows);
    proof {
        assert forall|a: int|
            0 <= a < part.vertex_seq().len() implies (#[trigger] part.rows()[a]).to_set()
            == g[part.vertex_seq()[a]] by {
            assert(ascending(row_seq[a]@));
        }
        assert forall|v: u64| connected(g, roots@[c as int], v) implies g.dom().contains(v) by {
            assert(labels@.dom().contains(v));
        }
        lemma_part_view(g, part, roots@[c as int]);
    }
    part
}

/// The connected components of `graph`, in increasing order of their lowest
/// vertex. The graph without vertices has none.
pub fn connected_components(graph: &Graph) -> (parts: Vec<Graph>)
    requires
        graph.wf(),
    ensures
        component_split(graph@, parts@),
{
    proof {
        graph.lemma_structure();
    }
    let ghost g = graph@;
    let ghost vs = graph.vertex_seq();
    let n: usize = graph.len();
    let (labels, roots) = label_components(graph);
    let count: usize = roots.len();
    let (mut node_lists, mut row_lists) = distribute(graph, &labels, count);
    let mut parts: Vec<Graph> = Vec::new();
    let mut c: usize = 0;
    while c < count
        invariant
            graph.wf(),
            g == graph@,
            valid_graph(g),
            vs == graph.vertex_seq(),
            ascending(vs),
            forall|v: u64| g.dom().contains(v) <==> vs.contains(v),
            n == vs.len(),
            count == roots@.len(),
            c <= count,
            labelling(g, labels@, roots@),
            labels@.dom() == g.dom(),
            node_lists@.len() == count,
            row_lists@.len() == count,
            forall|d: int|
                c <= d < count ==> part_ok(
                    g,
                    labels@,
                    vs,
                    n as int,
                    d,
                    (#[trigger] node_lists@[d])@,
                    row_lists@[d]@,
                ),
            parts@.len() == c,
            forall|d: int|
                0 <= d < c ==> {
                    &&& (#[trigger] parts@[d]).wf()
                    &&& parts@[d].vertex_seq().len() > 0
                    &&& parts@[d].vertex_seq()[0] == roots@[d]
                    &&& parts@[d]@ == induced(g, component_of(g, roots@[d]))
                },
        decreases count - c,
    {
        let ghost old_nodes = node_lists@;
        let ghost old_rows = row_lists@;
        let ghost old_parts = parts@;
        let mut nodes: Vec<u64> = Vec::new();
        let mut rows: Vec<Vec<u64>> = Vec::new();
        std::mem::swap(&mut nodes, &mut node_lists[c]);
        std::mem::swap(&mut rows, &mut row_lists[c]);
        proof {
            assert(nodes@ == old_nodes[c as int]@);
            assert(rows@ == old_rows[c as int]@);
            assert(part_ok(g, labels@, vs, n as int, c as int, nodes@, rows@));
        }
        let part: Graph = build_part(graph, &labels, &roots, c, nodes, rows);
        parts.push(part);
        proof {
            assert forall|d: int| c + 1 <= d < count implies part_ok(
                g,
                labels@,
                vs,
                n as int,
                d,
                (#[trigger] node_lists@[d])@,
                row_lists@[d]@,
            ) by {
                assert(node_lists@[d] == old_nodes[d]);
                assert(row_lists@[d] == old_rows[d]);
                assert(part_ok(g, labels@, vs, n as int, d, old_nodes[d]@, old_rows[d]@));
            }
            assert forall|d: int| 0 <= d < c + 1 implies {
                &&& (#[trigger] parts@[d]).wf()
                &&& parts@[d].vertex_seq().len() > 0
                &&& parts@[d].vertex_seq()[0] == roots@[d]
                &&& parts@[d]@ == induced(g, component_of(g, roots@[d]))
            } by {
                if d < c {
                    assert(parts@[d] == old_parts[d]);
                }
            }
        }
        c += 1;
    }
    proof {
        lemma_split(g, labels@, roots@, parts@);
    }
    parts
}

/// Leaves out every vertex with fewer than `k` neighbors, once, and splits
/// what is left into its connected components.
pub fn prune_degree(graph: &Graph, k: u64) -> (parts: Vec<Graph>)
    requires
        graph.wf(),
    ensures
        component_split(induced(graph@, high_degree(graph@, k)), parts@),
{
    broadcast use group_hash_axioms;

    proof {
        graph.lemma_structure();
    }
    let ghost g = graph@;
    let ghost vs = graph.vertex_seq();
    let n: usize = graph.len();
    let mut keep: HashSet<u64> = HashSet::new();
    let mut i: usize = 0;
    while i < n
        invariant
            graph.wf(),
            g == graph@,
            vs == graph.vertex_seq(),
            n == vs.len(),
            i <= n,
            forall|v: u64|
                keep@.contains(v) <==> g[v].len() >= k && exists|t: int|
                    0 <= t < i && #[trigger] vs[t] == v,
        decreases n - i,
    {
        let ghost prev = keep@;
        proof {
            graph.lemma_structure();
        }
        if graph.neighbors_at(i).len() as u64 >= k {
            keep.insert(graph.vertex(i));
        }
        proof {
            assert forall|v: u64|
                keep@.contains(v) <==> g[v].len() >= k && exists|t: int|
                    0 <= t < i + 1 && #[trigger] vs[t] == v by {
                if prev.contains(v) {
                    let t = choose|t: int| 0 <= t < i && #[trigger] vs[t] == v;
                    assert(0 <= t < i + 1 && vs[t] == v);
                }
                if g[v].len() >= k && exists|t: int| 0 <= t < i + 1 && #[trigger] vs[t] == v {
                    let t = choose|t: int| 0 <= t < i + 1 && #[trigger] vs[t] == v;
                    if t < i {
                        assert(prev.contains(v));
                    }
                }
            }
        }
        i += 1;
    }
    proof {
        assert(keep@ =~= high_degree(g, k)) by {
            assert forall|v: u64| keep@.contains(v) <==> high_degree(g, k).contains(v) by {
                if high_degree(g, k).contains(v) {
                    assert(vs.contains(v));
                    let t = vs.index_of(v);
                    assert(0 <= t < n && vs[t] == v);
                }
                if keep@.contains(v) {
                    let t = choose|t: int| 0 <= t < i && #[trigger] vs[t] == v;
                    assert(g.dom().contains(vs[t]));
                }
            }
        }
    }
    let sub: Graph = graph.induced(&keep);
    connected_components(&sub)
}

} // verus!
