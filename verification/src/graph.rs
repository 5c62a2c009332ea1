//! The graph data model: an undirected simple graph over `u64` vertex ids.

use std::collections::HashMap;
use std::collections::HashSet;
use vstd::prelude::*;
use vstd::std_specs::hash::*;
use vstd::std_specs::iter::IteratorSpec;

verus! {

/// `s` is strictly increasing.
pub open spec fn ascending(s: Seq<u64>) -> bool {
    forall|i: int, j: int| 0 <= i < j < s.len() ==> s[i] < s[j]
}

/// What every graph of this library is, as a mathematical object: a finite
/// adjacency map that is symmetric, has no self-loops, and whose neighbor
/// sets only name vertices of the graph.
pub open spec fn valid_graph(g: Map<u64, Set<u64>>) -> bool {
    &&& g.dom().finite()
    &&& forall|u: u64, v: u64|
        g.dom().contains(u) && #[trigger] g[u].contains(v) ==> {
            &&& g.dom().contains(v)
            &&& g[v].contains(u)
            &&& u != v
        }
}

/// `g` with the vertex `v`, which has no neighbors if it is new.
pub open spec fn with_vertex(g: Map<u64, Set<u64>>, v: u64) -> Map<u64, Set<u64>> {
    if g.dom().contains(v) {
        g
    } else {
        g.insert(v, Set::empty())
    }
}

/// `g` with the vertices `u` and `v` and an edge between them.
pub open spec fn with_edge(g: Map<u64, Set<u64>>, u: u64, v: u64) -> Map<u64, Set<u64>> {
    let h = with_vertex(with_vertex(g, u), v);
    h.insert(u, h[u].insert(v)).insert(v, h[v].insert(u))
}

/// The part of `g` that lies within `keep`: the vertices of `g` in `keep`,
/// and the edges of `g` between them.
pub open spec fn induced(g: Map<u64, Set<u64>>, keep: Set<u64>) -> Map<u64, Set<u64>> {
    Map::new(|v: u64| g.dom().contains(v) && keep.contains(v), |v: u64| g[v].intersect(keep))
}

/// The adjacency map that a table of neighbor sets stands for.
pub open spec fn adjacency_map(m: Map<u64, HashSet<u64>>) -> Map<u64, Set<u64>> {
    Map::new(|v: u64| m.dom().contains(v), |v: u64| m[v]@)
}

/// `nodes` and `rows` are the ordered form of a graph: `rows[i]` lists the
/// neighbors of `nodes[i]`; both are strictly increasing; each neighbor is a
/// vertex other than the one it is listed for; and each edge is listed from
/// both of its ends.
pub open spec fn rows_ok(nodes: Seq<u64>, rows: Seq<Seq<u64>>) -> bool {
    &&& nodes.len() == rows.len()
    &&& ascending(nodes)
    &&& forall|i: int| 0 <= i < rows.len() ==> ascending(#[trigger] rows[i])
    &&& forall|i: int, j: int|
        0 <= i < rows.len() && 0 <= j < rows[i].len() ==> {
            &&& nodes.contains(#[trigger] rows[i][j])
            &&& rows[i][j] != nodes[i]
        }
    &&& forall|i: int, j: int|
        0 <= i < rows.len() && 0 <= j < rows.len() && rows[i].contains(nodes[j])
            ==> #[trigger] rows[j].contains(nodes[i])
}

/// The first position of the increasing list `s` whose entry is not below
/// `x`.
fn lower_bound(s: &Vec<u64>, x: u64) -> (r: usize)
    requires
        ascending(s@),
    ensures
        r <= s@.len(),
        forall|t: int| 0 <= t < r ==> s@[t] < x,
        forall|t: int| r <= t < s@.len() ==> s@[t] >= x,
{
    let mut lo: usize = 0;
    let mut hi: usize = s.len();
    while lo < hi
        invariant
            0 <= lo <= hi <= s@.len(),
            ascending(s@),
            forall|t: int| 0 <= t < lo ==> s@[t] < x,
            forall|t: int| hi <= t < s@.len() ==> s@[t] >= x,
        decreases hi - lo,
    {
        let mid: usize = lo + (hi - lo) / 2;
        if s[mid] < x {
            lo = mid + 1;
        } else {
            hi = mid;
        }
    }
    lo
}

/// Puts `x` into the increasing list `row`, unless it is there already.
fn insert_sorted(row: &mut Vec<u64>, x: u64) -> (added: bool)
    requires
        ascending(old(row)@),
    ensures
        ascending(final(row)@),
        added == !old(row)@.contains(x),
        forall|y: u64| final(row)@.contains(y) <==> old(row)@.contains(y) || y == x,
{
    let ghost before = row@;
    let pos: usize = lower_bound(row, x);
    if pos < row.len() && row[pos] == x {
        return false;
    }
    row.insert(pos, x);
    proof {
        let after = row@;
        assert(after == before.insert(pos as int, x));
        assert forall|i: int, j: int| 0 <= i < j < after.len() implies after[i] < after[j] by {
            if j < pos {
                assert(after[i] == before[i] && after[j] == before[j]);
            } else if j == pos {
                assert(after[i] == before[i]);
            } else if i < pos {
                assert(after[i] == before[i] && after[j] == before[j - 1]);
            } else if i == pos {
                assert(after[j] == before[j - 1]);
            } else {
                assert(after[i] == before[i - 1] && after[j] == before[j - 1]);
            }
        }
        assert forall|y: u64| after.contains(y) <==> before.contains(y) || y == x by {
            if after.contains(y) {
                let t = after.index_of(y);
                if t < pos {
                    assert(before[t] == y);
                } else if t > pos {
                    assert(before[t - 1] == y);
                }
            }
            if before.contains(y) {
                let t = before.index_of(y);
                if t < pos {
                    assert(after[t] == y);
                } else {
                    assert(after[t + 1] == y);
                }
            }
            if y == x {
                assert(after[pos as int] == y);
            }
        }
        if before.contains(x) {
            let t = before.index_of(x);
            assert(before[t] == x);
        }
    }
    true
}

/// The entries of the increasing list `row` that are in `keep`, in the same
/// order.
fn filter_sorted(row: &Vec<u64>, keep: &HashSet<u64>) -> (kept: Vec<u64>)
    requires
        ascending(row@),
    ensures
        ascending(kept@),
        forall|y: u64| kept@.contains(y) <==> row@.contains(y) && keep@.contains(y),
{
    broadcast use group_hash_axioms;

    let mut kept: Vec<u64> = Vec::new();
    let mut j: usize = 0;
    while j < row.len()
        invariant
            j <= row@.len(),
            ascending(row@),
            ascending(kept@),
            forall|b: int, t: int|
                0 <= b < kept@.len() && j <= t < row@.len() ==> #[trigger] kept@[b]
                    < #[trigger] row@[t],
            forall|y: u64|
                kept@.contains(y) <==> keep@.contains(y) && exists|t: int|
                    0 <= t < j && #[trigger] row@[t] == y,
        decreases row@.len() - j,
    {
        let y: u64 = row[j];
        let ghost prev = kept@;
        if keep.contains(&y) {
            kept.push(y);
        }
        proof {
            assert forall|z: u64|
                kept@.contains(z) <==> keep@.contains(z) && exists|t: int|
                    0 <= t < j + 1 && #[trigger] row@[t] == z by {
                if kept@.contains(z) {
                    let b = kept@.index_of(z);
                    if b < prev.len() {
                        assert(prev.contains(z));
                        let t = choose|t: int| 0 <= t < j && #[trigger] row@[t] == z;
                        assert(0 <= t < j + 1 && row@[t] == z);
                    } else {
                        assert(row@[j as int] == z);
                    }
                }
                if keep@.contains(z) && exists|t: int| 0 <= t < j + 1 && #[trigger] row@[t] == z {
                    let t = choose|t: int| 0 <= t < j + 1 && #[trigger] row@[t] == z;
                    if t < j {
                        assert(prev.contains(z));
                        let b = prev.index_of(z);
                        assert(kept@[b] == z);
                    } else {
                        assert(kept@[prev.len() as int] == z);
                    }
                }
            }
        }
        j += 1;
    }
    proof {
        assert forall|y: u64| kept@.contains(y) <==> row@.contains(y) && keep@.contains(y) by {
            if row@.contains(y) && keep@.contains(y) {
                let t = row@.index_of(y);
                assert(0 <= t < j && row@[t] == y);
            }
        }
    }
    kept
}

/// The keys of `m`, each once, in no particular order.
fn keys_of(m: &HashMap<u64, HashSet<u64>>) -> (keys: Vec<u64>)
    ensures
        keys@.no_duplicates(),
        keys@.to_set() == m@.dom(),
{
    broadcast use group_hash_axioms;

    let mut keys: Vec<u64> = Vec::new();
    for k in it: m.keys()
        invariant
            keys@ == it.seq().take(it.index() as int).unref(),
            it.seq() == spec_keys_iter(m).remaining(),
    {
        keys.push(*k);
    }
    assert(keys@ == spec_keys_iter(m).remaining().unref());
    keys
}

/// The members of `s`, each once, in no particular order.
fn members_of(s: &HashSet<u64>) -> (members: Vec<u64>)
    ensures
        members@.no_duplicates(),
        members@.to_set() == s@,
{
    broadcast use group_hash_axioms;

    let mut members: Vec<u64> = Vec::new();
    for x in it: s.iter()
        invariant
            members@ == it.seq().take(it.index() as int).unref(),
            it.seq() == spec_hash_keys_iter(s).remaining(),
    {
        members.push(*x);
    }
    assert(members@ == spec_hash_keys_iter(s).remaining().unref());
    members
}

/// The table `m` lists `n` as a neighbor of `v`, and the walk over the
/// table has come past that entry: `v` is among the first `i` keys, or is
/// the `i`-th and `n` is among the first `j` of `members`.
spec fn linked(
    m: Map<u64, HashSet<u64>>,
    keys: Seq<u64>,
    i: int,
    members: Seq<u64>,
    j: int,
    v: u64,
    n: u64,
) -> bool {
    &&& m.dom().contains(v)
    &&& m[v]@.contains(n)
    &&& (exists|a: int| 0 <= a < i && #[trigger] keys[a] == v) || (0 <= i < keys.len() && keys[i]
        == v && exists|b: int| 0 <= b < j && #[trigger] members[b] == n)
}

/// A new vertex without neighbors, put at its place, keeps the ordered form.
proof fn lemma_insert_vertex(nodes: Seq<u64>, rows: Seq<Seq<u64>>, pos: int, v: u64)
    requires
        rows_ok(nodes, rows),
        0 <= pos <= nodes.len(),
        forall|t: int| 0 <= t < pos ==> nodes[t] < v,
        forall|t: int| pos <= t < nodes.len() ==> nodes[t] > v,
    ensures
        rows_ok(nodes.insert(pos, v), rows.insert(pos, Seq::<u64>::empty())),
{
    let nodes2 = nodes.insert(pos, v);
    let rows2 = rows.insert(pos, Seq::<u64>::empty());
    assert forall|i: int| 0 <= i < nodes2.len() implies (i < pos ==> nodes2[i] == nodes[i]
        && rows2[i] == rows[i]) && (i > pos ==> nodes2[i] == nodes[i - 1] && rows2[i] == rows[i
        - 1]) && (i == pos ==> nodes2[i] == v && rows2[i] == Seq::<u64>::empty()) by {}
    assert(!nodes.contains(v)) by {
        if nodes.contains(v) {
            let t = nodes.index_of(v);
            assert(nodes[t] == v);
        }
    }
    assert forall|i: int, j: int| 0 <= i < j < nodes2.len() implies nodes2[i] < nodes2[j] by {}
    assert forall|i: int| 0 <= i < rows2.len() implies ascending(#[trigger] rows2[i]) by {
        if i < pos {
            assert(ascending(rows[i]));
        } else if i > pos {
            assert(ascending(rows[i - 1]));
        }
    }
    assert forall|i: int, j: int| 0 <= i < rows2.len() && 0 <= j < rows2[i].len() implies {
        &&& nodes2.contains(#[trigger] rows2[i][j])
        &&& rows2[i][j] != nodes2[i]
    } by {
        let oi = if i < pos {
            i
        } else {
            i - 1
        };
        let y = rows[oi][j];
        assert(nodes.contains(y));
        let t = nodes.index_of(y);
        if t < pos {
            assert(nodes2[t] == y);
        } else {
            assert(nodes2[t + 1] == y);
        }
    }
    assert forall|i: int, j: int|
        0 <= i < rows2.len() && 0 <= j < rows2.len() && rows2[i].contains(
            nodes2[j],
        ) implies #[trigger] rows2[j].contains(nodes2[i]) by {
        let oi = if i < pos {
            i
        } else {
            i - 1
        };
        let oj = if j < pos {
            j
        } else {
            j - 1
        };
        assert(i != pos);
        let t = rows[oi].index_of(nodes2[j]);
        assert(rows[oi][t] == nodes2[j]);
        assert(nodes.contains(rows[oi][t]));
        assert(j != pos);
        assert(rows[oi].contains(nodes[oj]));
        assert(rows[oj].contains(nodes[oi]));
    }
}

/// A new edge, listed from both of its ends, keeps the ordered form.
proof fn lemma_insert_edge(
    nodes: Seq<u64>,
    rows: Seq<Seq<u64>>,
    rows2: Seq<Seq<u64>>,
    a: int,
    b: int,
)
    requires
        rows_ok(nodes, rows),
        0 <= a < nodes.len(),
        0 <= b < nodes.len(),
        a != b,
        rows2.len() == rows.len(),
        forall|i: int| 0 <= i < rows2.len() ==> ascending(#[trigger] rows2[i]),
        forall|i: int, y: u64|
            0 <= i < rows2.len() ==> (#[trigger] rows2[i].contains(y) <==> rows[i].contains(y) || (i
                == a && y == nodes[b]) || (i == b && y == nodes[a])),
    ensures
        rows_ok(nodes, rows2),
{
    assert forall|i: int, j: int| 0 <= i < rows2.len() && 0 <= j < rows2[i].len() implies {
        &&& nodes.contains(#[trigger] rows2[i][j])
        &&& rows2[i][j] != nodes[i]
    } by {
        let y = rows2[i][j];
        assert(rows2[i].contains(y));
        if rows[i].contains(y) {
            let t = rows[i].index_of(y);
            assert(rows[i][t] == y);
        }
    }
    assert forall|i: int, j: int|
        0 <= i < rows2.len() && 0 <= j < rows2.len() && rows2[i].contains(
            nodes[j],
        ) implies #[trigger] rows2[j].contains(nodes[i]) by {
        if rows[i].contains(nodes[j]) {
            assert(rows[j].contains(nodes[i]));
        }
    }
}

/// An undirected graph without self-loops. Vertices and adjacency lists are
/// kept in increasing order of id.
pub struct Graph {
    nodes: Vec<u64>,
    adj: Vec<Vec<u64>>,
}

impl View for Graph {
    type V = Map<u64, Set<u64>>;

    /// The adjacency map: each vertex id to the set of its neighbors' ids.
    closed spec fn view(&self) -> Map<u64, Set<u64>> {
        Map::new(
            |v: u64| self.nodes@.contains(v),
            |v: u64| self.adj@[self.nodes@.index_of(v)]@.to_set(),
        )
    }
}

impl Graph {
    /// The vertices in increasing order.
    pub closed spec fn vertex_seq(&self) -> Seq<u64> {
        self.nodes@
    }

    /// The neighbors of the `i`-th vertex in increasing order.
    pub closed spec fn neighbor_seq(&self, i: int) -> Seq<u64> {
        self.adj@[i]@
    }

    /// The neighbor lists of all vertices, in the order of the vertices.
    pub closed spec fn rows(&self) -> Seq<Seq<u64>> {
        Seq::new(self.adj@.len(), |i: int| self.adj@[i]@)
    }

    /// The representation invariant.
    pub closed spec fn wf(&self) -> bool {
        rows_ok(self.nodes@, self.rows())
    }

    /// How the ordered representation and the adjacency map relate.
    pub proof fn lemma_structure(&self)
        requires
            self.wf(),
        ensures
            valid_graph(self@),
            rows_ok(self.vertex_seq(), self.rows()),
            self.rows().len() == self.vertex_seq().len(),
            forall|i: int|
                0 <= i < self.vertex_seq().len() ==> #[trigger] self.rows()[i] == self.neighbor_seq(i),
            ascending(self.vertex_seq()),
            self.vertex_seq().no_duplicates(),
            self.vertex_seq().len() == self@.dom().len(),
            forall|v: u64| self@.dom().contains(v) <==> self.vertex_seq().contains(v),
            forall|i: int|
                0 <= i < self.vertex_seq().len() ==> {
                    &&& self@.dom().contains(#[trigger] self.vertex_seq()[i])
                    &&& ascending(self.neighbor_seq(i))
                    &&& self.neighbor_seq(i).no_duplicates()
                    &&& self.neighbor_seq(i).to_set() == self@[self.vertex_seq()[i]]
                    &&& self.neighbor_seq(i).len() == self@[self.vertex_seq()[i]].len()
                },
            forall|v: u64| self@.dom().contains(v) ==> #[trigger] self@[v].finite(),
    {
        let nodes = self.nodes@;
        let rows = self.rows();
        assert forall|i: int| 0 <= i < nodes.len() implies #[trigger] rows[i] == self.adj@[i]@ by {}
        assert forall|i: int| 0 <= i < nodes.len() implies nodes.index_of(#[trigger] nodes[i])
            == i by {
            assert(nodes.contains(nodes[i]));
        }
        assert(self@.dom() =~= nodes.to_set());
        nodes.unique_seq_to_set();
        assert forall|i: int| 0 <= i < nodes.len() implies {
            &&& self.neighbor_seq(i).no_duplicates()
            &&& self.neighbor_seq(i).len() == self@[#[trigger] nodes[i]].len()
        } by {
            assert(ascending(rows[i]));
            self.adj@[i]@.unique_seq_to_set();
        }
        assert forall|v: u64| self@.dom().contains(v) implies #[trigger] self@[v].finite() by {
            vstd::seq_lib::seq_to_set_is_finite(self.adj@[nodes.index_of(v)]@);
        }
        assert forall|i: int| 0 <= i < nodes.len() implies ascending(self.neighbor_seq(i)) by {
            assert(ascending(rows[i]));
        }
        assert forall|u: u64, v: u64|
            self@.dom().contains(u) && #[trigger] self@[u].contains(v) implies {
            &&& self@.dom().contains(v)
            &&& self@[v].contains(u)
            &&& u != v
        } by {
            let i = nodes.index_of(u);
            let row = self.adj@[i]@;
            let j = row.index_of(v);
            assert(row.contains(v));
            assert(row[j] == v);
            assert(rows[i][j] == v);
            let i2 = nodes.index_of(v);
            assert(nodes[i2] == v);
            assert(rows[i].contains(nodes[i2]));
            assert(rows[i2].contains(nodes[i]));
        }
    }

    /// The graph without vertices.
    pub fn new() -> (graph: Graph)
        ensures
            graph.wf(),
            graph@ == Map::<u64, Set<u64>>::empty(),
    {
        let graph = Graph { nodes: Vec::new(), adj: Vec::new() };
        proof {
            assert(graph@ =~= Map::<u64, Set<u64>>::empty());
        }
        graph
    }

    /// Makes a graph of vertices and neighbor lists that are in ordered
    /// form already.
    pub(crate) fn assemble(nodes: Vec<u64>, adj: Vec<Vec<u64>>) -> (graph: Graph)
        requires
            rows_ok(nodes@, Seq::new(adj@.len(), |i: int| adj@[i]@)),
        ensures
            graph.wf(),
            graph.vertex_seq() == nodes@,
            graph.rows() == Seq::new(adj@.len(), |i: int| adj@[i]@),
    {
        Graph { nodes, adj }
    }

    /// Makes a graph of a table that gives each vertex the set of its
    /// neighbors. The table must be an undirected graph without self-loops:
    /// every neighbor is a vertex of the table that lists the vertex as its
    /// neighbor in turn, and is not the vertex itself. For any other table
    /// the result is `None`.
    pub fn from_adjacency(table: &HashMap<u64, HashSet<u64>>) -> (r: Option<Graph>)
        ensures
            match r {
                Some(graph) => graph.wf() && graph@ == adjacency_map(table@),
                None => !valid_graph(adjacency_map(table@)),
            },
    {
        broadcast use group_hash_axioms;

        let ghost m = table@;
        let ghost want = adjacency_map(m);
        let keys: Vec<u64> = keys_of(table);
        let mut graph: Graph = Graph::new();
        let mut i: usize = 0;
        while i < keys.len()
            invariant
                i <= keys@.len(),
                graph.wf(),
                forall|v: u64|
                    graph@.dom().contains(v) <==> exists|a: int|
                        0 <= a < i && #[trigger] keys@[a] == v,
                forall|v: u64, n: u64| graph@.dom().contains(v) ==> !#[trigger] graph@[v].contains(n),
            decreases keys@.len() - i,
        {
            let ghost before = graph@;
            graph.add_vertex(keys[i]);
            proof {
                assert forall|v: u64|
                    graph@.dom().contains(v) <==> exists|a: int|
                        0 <= a < i + 1 && #[trigger] keys@[a] == v by {
                    if before.dom().contains(v) {
                        let a = choose|a: int| 0 <= a < i && #[trigger] keys@[a] == v;
                        assert(0 <= a < i + 1 && keys@[a] == v);
                    }
                    if exists|a: int| 0 <= a < i + 1 && #[trigger] keys@[a] == v {
                        let a = choose|a: int| 0 <= a < i + 1 && #[trigger] keys@[a] == v;
                        if a < i {
                            assert(before.dom().contains(v));
                        }
                    }
                }
            }
            i += 1;
        }
        proof {
            assert(graph@.dom() =~= m.dom()) by {
                assert forall|v: u64| graph@.dom().contains(v) <==> m.dom().contains(v) by {
                    if m.dom().contains(v) {
                        assert(keys@.to_set().contains(v));
                        let a = keys@.index_of(v);
                        assert(0 <= a < i && keys@[a] == v);
                    }
                    if graph@.dom().contains(v) {
                        let a = choose|a: int| 0 <= a < i && #[trigger] keys@[a] == v;
                        assert(keys@.to_set().contains(keys@[a]));
                    }
                }
            }
        }
        i = 0;
        while i < keys.len()
            invariant
                m == table@,
                want == adjacency_map(m),
                keys@.no_duplicates(),
                keys@.to_set() == m.dom(),
                i <= keys@.len(),
                graph.wf(),
                graph@.dom() == m.dom(),
                forall|u: u64, w: u64|
                    graph@.dom().contains(u) ==> (#[trigger] graph@[u].contains(w) <==> linked(
                        m,
                        keys@,
                        i as int,
                        Seq::<u64>::empty(),
                        0,
                        u,
                        w,
                    ) || linked(m, keys@, i as int, Seq::<u64>::empty(), 0, w, u)),
                forall|v: u64, n: u64| #[trigger]
                    linked(m, keys@, i as int, Seq::<u64>::empty(), 0, v, n) ==> n != v
                        && m.dom().contains(n) && m[n]@.contains(v),
            decreases keys@.len() - i,
        {
            let v: u64 = keys[i];
            assert(keys@.to_set().contains(v));
            let row: &HashSet<u64> = table.get(&v).unwrap();
            let members: Vec<u64> = members_of(row);
            let mut j: usize = 0;
            proof {
                assert forall|a: u64, b: u64| #[trigger]
                    linked(m, keys@, i as int, members@, 0, a, b) implies b != a && m.dom().contains(
                    b,
                ) && m[b]@.contains(a) by {
                    assert(linked(m, keys@, i as int, Seq::<u64>::empty(), 0, a, b));
                }
                assert forall|u: u64, w: u64| graph@.dom().contains(u) implies (
                #[trigger] graph@[u].contains(w) <==> linked(m, keys@, i as int, members@, 0, u, w)
                    || linked(m, keys@, i as int, members@, 0, w, u)) by {
                    assert(graph@[u].contains(w) <==> linked(
                        m,
                        keys@,
                        i as int,
                        Seq::<u64>::empty(),
                        0,
                        u,
                        w,
                    ) || linked(m, keys@, i as int, Seq::<u64>::empty(), 0, w, u));
                }
            }
            while j < members.len()
                invariant
                    m == table@,
                    want == adjacency_map(m),
                    keys@.no_duplicates(),
                    keys@.to_set() == m.dom(),
                    i < keys@.len(),
                    v == keys@[i as int],
                    m.dom().contains(v),
                    members@.no_duplicates(),
                    members@.to_set() == m[v]@,
                    j <= members@.len(),
                    graph.wf(),
                    graph@.dom() == m.dom(),
                    forall|u: u64, w: u64|
                        graph@.dom().contains(u) ==> (#[trigger] graph@[u].contains(w) <==> linked(
                            m,
                            keys@,
                            i as int,
                            members@,
                            j as int,
                            u,
                            w,
                        ) || linked(m, keys@, i as int, members@, j as int, w, u)),
                    forall|u: u64, n: u64| #[trigger]
                        linked(m, keys@, i as int, members@, j as int, u, n) ==> n != u
                            && m.dom().contains(n) && m[n]@.contains(u),
                decreases members@.len() - j,
            {
                let n: u64 = members[j];
                assert(members@.to_set().contains(n));
                if n == v {
                    proof {
                        assert(want.dom().contains(v) && want[v].contains(v));
                    }
                    return None;
                }
                match table.get(&n) {
                    None => {
                        proof {
                            assert(want.dom().contains(v) && want[v].contains(n));
                            assert(!want.dom().contains(n));
                        }
                        return None;
                    },
                    Some(back) => {
                        if !back.contains(&v) {
                            proof {
                                assert(want.dom().contains(v) && want[v].contains(n));
                                assert(!want[n].contains(v));
                            }
                            return None;
                        }
                    },
                }
                let ghost before = graph@;
                graph.add_edge(v, n);
                proof {
                    let after = graph@;
                    assert(after.dom() =~= m.dom());
                    assert forall|a: u64, b: u64|
                        linked(m, keys@, i as int, members@, j as int + 1, a, b) <==> linked(
                            m,
                            keys@,
                            i as int,
                            members@,
                            j as int,
                            a,
                            b,
                        ) || (a == v && b == n) by {
                        if linked(m, keys@, i as int, members@, j as int + 1, a, b) && !linked(
                            m,
                            keys@,
                            i as int,
                            members@,
                            j as int,
                            a,
                            b,
                        ) {
                            let t = choose|t: int| 0 <= t < j + 1 && #[trigger] members@[t] == b;
                            assert(t == j);
                        }
                        if linked(m, keys@, i as int, members@, j as int, a, b) {
                            if !(exists|t: int| 0 <= t < i && #[trigger] keys@[t] == a) {
                                let t = choose|t: int| 0 <= t < j && #[trigger] members@[t] == b;
                                assert(0 <= t < j + 1 && members@[t] == b);
                            }
                        }
                        if a == v && b == n {
                            assert(0 <= j < j + 1 && members@[j as int] == b);
                        }
                    }
                    assert forall|a: u64, b: u64| #[trigger]
                        linked(m, keys@, i as int, members@, j as int + 1, a, b) implies b != a
                        && m.dom().contains(b) && m[b]@.contains(a) by {
                        if !(a == v && b == n) {
                            assert(linked(m, keys@, i as int, members@, j as int, a, b));
                        }
                    }
                    assert forall|u: u64, w: u64| after.dom().contains(u) implies (
                    #[trigger] after[u].contains(w) <==> linked(
                        m,
                        keys@,
                        i as int,
                        members@,
                        j as int + 1,
                        u,
                        w,
                    ) || linked(m, keys@, i as int, members@, j as int + 1, w, u)) by {
                        assert(before[u].contains(w) <==> linked(
                            m,
                            keys@,
                            i as int,
                            members@,
                            j as int,
                            u,
                            w,
                        ) || linked(m, keys@, i as int, members@, j as int, w, u));
                        assert(after[u].contains(w) <==> before[u].contains(w) || (u == v && w
                            == n) || (u == n && w == v));
                    }
                }
                j += 1;
            }
            proof {
                assert forall|a: u64, b: u64|
                    linked(m, keys@, i as int + 1, Seq::<u64>::empty(), 0, a, b) <==> linked(
                        m,
                        keys@,
                        i as int,
                        members@,
                        j as int,
                        a,
                        b,
                    ) by {
                    if linked(m, keys@, i as int, members@, j as int, a, b) {
                        if exists|t: int| 0 <= t < i && #[trigger] keys@[t] == a {
                            let t = choose|t: int| 0 <= t < i && #[trigger] keys@[t] == a;
                            assert(0 <= t < i + 1 && keys@[t] == a);
                        } else {
                            assert(keys@[i as int] == a);
                        }
                    }
                    if linked(m, keys@, i as int + 1, Seq::<u64>::empty(), 0, a, b) {
                        let t = choose|t: int| 0 <= t < i + 1 && #[trigger] keys@[t] == a;
                        if t == i {
                            assert(members@.to_set().contains(b));
                            let s = members@.index_of(b);
                            assert(0 <= s < j && members@[s] == b);
                        } else {
                            assert(0 <= t < i && keys@[t] == a);
                        }
                    }
                }
                assert forall|a: u64, b: u64| #[trigger]
                    linked(m, keys@, i as int + 1, Seq::<u64>::empty(), 0, a, b) implies b != a
                    && m.dom().contains(b) && m[b]@.contains(a) by {
                    assert(linked(m, keys@, i as int, members@, j as int, a, b));
                }
                assert forall|u: u64, w: u64| graph@.dom().contains(u) implies (
                #[trigger] graph@[u].contains(w) <==> linked(
                    m,
                    keys@,
                    i as int + 1,
                    Seq::<u64>::empty(),
                    0,
                    u,
                    w,
                ) || linked(m, keys@, i as int + 1, Seq::<u64>::empty(), 0, w, u)) by {
                    assert(graph@[u].contains(w) <==> linked(
                        m,
                        keys@,
                        i as int,
                        members@,
                        j as int,
                        u,
                        w,
                    ) || linked(m, keys@, i as int, members@, j as int, w, u));
                }
            }
            i += 1;
        }
        proof {
            let n = keys@.len() as int;
            assert forall|a: u64, b: u64|
                linked(m, keys@, n, Seq::<u64>::empty(), 0, a, b) <==> m.dom().contains(a)
                    && m[a]@.contains(b) by {
                if m.dom().contains(a) && m[a]@.contains(b) {
                    assert(keys@.to_set().contains(a));
                    let t = keys@.index_of(a);
                    assert(0 <= t < n && keys@[t] == a);
                }
            }
            assert forall|u: u64| graph@.dom().contains(u) implies #[trigger] graph@[u]
                =~= want[u] by {
                assert forall|w: u64| graph@[u].contains(w) <==> want[u].contains(w) by {
                    assert(graph@[u].contains(w) <==> linked(
                        m,
                        keys@,
                        n,
                        Seq::<u64>::empty(),
                        0,
                        u,
                        w,
                    ) || linked(m, keys@, n, Seq::<u64>::empty(), 0, w, u));
                }
            }
            assert(graph@ =~= want);
        }
        Some(graph)
    }

    /// Adds the vertex `v`. Returns whether it was new.
    pub fn add_vertex(&mut self, v: u64) -> (added: bool)
        requires
            old(self).wf(),
        ensures
            final(self).wf(),
            final(self)@ == with_vertex(old(self)@, v),
            added == !old(self)@.dom().contains(v),
    {
        proof {
            self.lemma_structure();
        }
        let ghost before = *self;
        let pos: usize = lower_bound(&self.nodes, v);
        if pos < self.nodes.len() && self.nodes[pos] == v {
            return false;
        }
        self.nodes.insert(pos, v);
        self.adj.insert(pos, Vec::new());
        proof {
            lemma_insert_vertex(before.nodes@, before.rows(), pos as int, v);
            assert(self.rows() =~= before.rows().insert(pos as int, Seq::<u64>::empty())) by {
                assert forall|i: int| 0 <= i < self.adj@.len() implies #[trigger] self.rows()[i]
                    == before.rows().insert(pos as int, Seq::<u64>::empty())[i] by {
                    if i < pos {
                        assert(self.adj@[i] == before.adj@[i]);
                    } else if i > pos {
                        assert(self.adj@[i] == before.adj@[i - 1]);
                    }
                }
            }
            assert(self.wf());
            self.lemma_structure();
            let g = before@;
            let h = self@;
            assert(!g.dom().contains(v)) by {
                if before.nodes@.contains(v) {
                    let t = before.nodes@.index_of(v);
                    assert(before.nodes@[t] == v);
                }
            }
            assert forall|w: u64| h.dom().contains(w) <==> g.dom().contains(w) || w == v by {
                if self.nodes@.contains(w) {
                    let t = self.nodes@.index_of(w);
                    if t < pos {
                        assert(before.nodes@[t] == w);
                    } else if t > pos {
                        assert(before.nodes@[t - 1] == w);
                    }
                }
                if before.nodes@.contains(w) {
                    let t = before.nodes@.index_of(w);
                    if t < pos {
                        assert(self.nodes@[t] == w);
                    } else {
                        assert(self.nodes@[t + 1] == w);
                    }
                }
                if w == v {
                    assert(self.nodes@[pos as int] == w);
                }
            }
            assert forall|w: u64| h.dom().contains(w) implies #[trigger] h[w] == with_vertex(
                g,
                v,
            )[w] by {
                let t = self.nodes@.index_of(w);
                assert(self.nodes@[t] == w);
                assert(h[self.vertex_seq()[t]] == self.neighbor_seq(t).to_set());
                if t < pos {
                    assert(before.nodes@[t] == w);
                    assert(g[before.vertex_seq()[t]] == before.neighbor_seq(t).to_set());
                    assert(self.adj@[t] == before.adj@[t]);
                } else if t > pos {
                    assert(before.nodes@[t - 1] == w);
                    assert(g[before.vertex_seq()[t - 1]] == before.neighbor_seq(t - 1).to_set());
                    assert(self.adj@[t] == before.adj@[t - 1]);
                } else {
                    assert(self.adj@[t]@ =~= Seq::<u64>::empty());
                    assert(self.neighbor_seq(t).to_set() =~= Set::<u64>::empty());
                }
            }
            assert(h =~= with_vertex(g, v));
        }
        true
    }

    /// Adds an edge between `u` and `v`, and the two vertices where they are
    /// new. A self-loop is refused: for `u == v` nothing changes and the
    /// result is `false`.
    pub fn add_edge(&mut self, u: u64, v: u64) -> (added: bool)
        requires
            old(self).wf(),
        ensures
            final(self).wf(),
            added == (u != v),
            u != v ==> final(self)@ == with_edge(old(self)@, u, v),
            u == v ==> final(self)@ == old(self)@,
    {
        if u == v {
            return false;
        }
        let ghost g0 = self@;
        self.add_vertex(u);
        self.add_vertex(v);
        let ghost mid = *self;
        let ghost h = self@;
        proof {
            self.lemma_structure();
        }
        let a: usize = self.position(u).unwrap();
        let b: usize = self.position(v).unwrap();
        assert(ascending(mid.rows()[a as int]) && ascending(mid.rows()[b as int]));
        insert_sorted(&mut self.adj[a], v);
        insert_sorted(&mut self.adj[b], u);
        proof {
            let nodes = mid.nodes@;
            let rows = mid.rows();
            let rows2 = self.rows();
            assert(self.nodes@ == nodes);
            assert forall|i: int| 0 <= i < rows2.len() implies ascending(#[trigger] rows2[i]) by {
                if i != a && i != b {
                    assert(rows2[i] == rows[i]);
                }
            }
            assert forall|i: int, y: u64| 0 <= i < rows2.len() implies (#[trigger] rows2[i].contains(
                y,
            ) <==> rows[i].contains(y) || (i == a && y == nodes[b as int]) || (i == b && y
                == nodes[a as int])) by {
                if i != a && i != b {
                    assert(rows2[i] == rows[i]);
                }
            }
            lemma_insert_edge(nodes, rows, rows2, a as int, b as int);
            assert(self.wf());
            self.lemma_structure();
            let f = self@;
            let want = with_edge(g0, u, v);
            assert(h == with_vertex(with_vertex(g0, u), v));
            assert forall|w: u64| f.dom().contains(w) implies #[trigger] f[w] =~= want[w] by {
                let t = nodes.index_of(w);
                assert(nodes[t] == w);
                assert(f[self.vertex_seq()[t]] == self.neighbor_seq(t).to_set());
                assert(h[mid.vertex_seq()[t]] == mid.neighbor_seq(t).to_set());
                assert(rows2[t] == self.neighbor_seq(t));
                assert(rows[t] == mid.neighbor_seq(t));
                assert forall|y: u64| f[w].contains(y) <==> want[w].contains(y) by {
                    assert(rows2[t].contains(y) <==> rows[t].contains(y) || (t == a && y
                        == nodes[b as int]) || (t == b && y == nodes[a as int]));
                }
            }
            assert(f.dom() =~= want.dom());
            assert(f =~= want);
        }
        true
    }

    /// The part of the graph that lies within `keep`.
    pub fn induced(&self, keep: &HashSet<u64>) -> (sub: Graph)
        requires
            self.wf(),
        ensures
            sub.wf(),
            sub@ == induced(self@, keep@),
    {
        broadcast use group_hash_axioms;

        proof {
            self.lemma_structure();
        }
        let ghost g = self@;
        let ghost vs = self.nodes@;
        let n: usize = self.nodes.len();
        let mut nodes: Vec<u64> = Vec::new();
        let mut adj: Vec<Vec<u64>> = Vec::new();
        let mut i: usize = 0;
        while i < n
            invariant
                self.wf(),
                g == self@,
                vs == self.nodes@,
                n == vs.len(),
                n == self.adj@.len(),
                i <= n,
                ascending(vs),
                nodes@.len() == adj@.len(),
                ascending(nodes@),
                forall|a: int, t: int|
                    0 <= a < nodes@.len() && i <= t < n ==> #[trigger] nodes@[a] < #[trigger] vs[t],
                forall|v: u64|
                    nodes@.contains(v) <==> keep@.contains(v) && exists|t: int|
                        0 <= t < i && #[trigger] vs[t] == v,
                forall|a: int|
                    0 <= a < adj@.len() ==> {
                        &&& ascending(#[trigger] adj@[a]@)
                        &&& forall|y: u64| #[trigger]
                            adj@[a]@.contains(y) <==> keep@.contains(y) && g[nodes@[a]].contains(y)
                    },
            decreases n - i,
        {
            let v: u64 = self.nodes[i];
            let ghost prev = nodes@;
            let ghost prev_adj = adj@;
            if keep.contains(&v) {
                proof {
                    self.lemma_structure();
                    assert(self.rows()[i as int] == self.adj@[i as int]@);
                    assert(self.neighbor_seq(i as int).to_set() == g[self.vertex_seq()[i as int]]);
                }
                let kept: Vec<u64> = filter_sorted(&self.adj[i], keep);
                nodes.push(v);
                adj.push(kept);
                proof {
                    assert forall|a: int| 0 <= a < adj@.len() implies {
                        &&& ascending(#[trigger] adj@[a]@)
                        &&& forall|y: u64| #[trigger]
                            adj@[a]@.contains(y) <==> keep@.contains(y) && g[nodes@[a]].contains(y)
                    } by {
                        if a < prev.len() {
                            assert(adj@[a] == prev_adj[a]);
                            assert(nodes@[a] == prev[a]);
                        } else {
                            assert(adj@[a]@ == kept@);
                            assert(nodes@[a] == v);
                            assert forall|y: u64|
                                kept@.contains(y) <==> keep@.contains(y) && g[v].contains(y) by {
                                assert(self.adj@[i as int]@.to_set().contains(y) <==> g[v].contains(
                                    y,
                                ));
                            }
                        }
                    }
                }
            }
            proof {
                assert forall|w: u64|
                    nodes@.contains(w) <==> keep@.contains(w) && exists|t: int|
                        0 <= t < i + 1 && #[trigger] vs[t] == w by {
                    if nodes@.contains(w) {
                        let a = nodes@.index_of(w);
                        if a < prev.len() {
                            assert(prev.contains(w));
                            let t = choose|t: int| 0 <= t < i && #[trigger] vs[t] == w;
                            assert(0 <= t < i + 1 && vs[t] == w);
                        } else {
                            assert(vs[i as int] == w);
                        }
                    }
                    if keep@.contains(w) && exists|t: int| 0 <= t < i + 1 && #[trigger] vs[t] == w {
                        let t = choose|t: int| 0 <= t < i + 1 && #[trigger] vs[t] == w;
                        if t < i {
                            assert(prev.contains(w));
                            let a = prev.index_of(w);
                            assert(nodes@[a] == w);
                        } else {
                            assert(nodes@[prev.len() as int] == w);
                        }
                    }
                }
            }
            i += 1;
        }
        let sub = Graph { nodes, adj };
        proof {
            let ns = sub.nodes@;
            let rows = sub.rows();
            assert forall|w: u64| ns.contains(w) <==> keep@.contains(w) && g.dom().contains(w) by {
                if keep@.contains(w) && g.dom().contains(w) {
                    let t = vs.index_of(w);
                    assert(0 <= t < n && vs[t] == w);
                }
                if ns.contains(w) {
                    let t = choose|t: int| 0 <= t < i && #[trigger] vs[t] == w;
                    assert(vs.contains(vs[t]));
                }
            }
            assert forall|a: int| 0 <= a < rows.len() implies ascending(#[trigger] rows[a]) by {
                assert(ascending(sub.adj@[a]@));
            }
            assert forall|a: int, j: int| 0 <= a < rows.len() && 0 <= j < rows[a].len() implies {
                &&& ns.contains(#[trigger] rows[a][j])
                &&& rows[a][j] != ns[a]
            } by {
                let y = rows[a][j];
                assert(ascending(sub.adj@[a]@));
                assert(sub.adj@[a]@.contains(y));
                assert(ns.contains(ns[a]));
                assert(g[ns[a]].contains(y));
            }
            assert forall|a: int, b: int|
                0 <= a < rows.len() && 0 <= b < rows.len() && rows[a].contains(
                    ns[b],
                ) implies #[trigger] rows[b].contains(ns[a]) by {
                assert(ascending(sub.adj@[a]@));
                assert(ascending(sub.adj@[b]@));
                assert(ns.contains(ns[a]));
                assert(ns.contains(ns[b]));
                assert(g[ns[a]].contains(ns[b]));
                assert(g[ns[b]].contains(ns[a]));
            }
            assert(sub.wf());
            sub.lemma_structure();
            let h = sub@;
            let want = induced(g, keep@);
            assert(h.dom() =~= want.dom());
            assert forall|w: u64| h.dom().contains(w) implies #[trigger] h[w] =~= want[w] by {
                let a = ns.index_of(w);
                assert(ns[a] == w);
                assert(h[sub.vertex_seq()[a]] == sub.neighbor_seq(a).to_set());
                assert(ascending(sub.adj@[a]@));
                assert forall|y: u64| h[w].contains(y) <==> want[w].contains(y) by {
                    assert(sub.adj@[a]@.contains(y) <==> keep@.contains(y) && g[ns[a]].contains(y));
                }
            }
            assert(h =~= want);
        }
        sub
    }

    /// The number of vertices.
    pub fn len(&self) -> (n: usize)
        requires
            self.wf(),
        ensures
            n == self.vertex_seq().len(),
            n == self@.dom().len(),
    {
        proof {
            self.lemma_structure();
        }
        self.nodes.len()
    }

    /// The id of the `i`-th vertex in increasing order of id.
    pub fn vertex(&self, i: usize) -> (v: u64)
        requires
            self.wf(),
            i < self.vertex_seq().len(),
        ensures
            v == self.vertex_seq()[i as int],
    {
        self.nodes[i]
    }

    /// The neighbors of the `i`-th vertex, in increasing order of id.
    pub fn neighbors_at(&self, i: usize) -> (row: &Vec<u64>)
        requires
            self.wf(),
            i < self.vertex_seq().len(),
        ensures
            row@ == self.neighbor_seq(i as int),
    {
        &self.adj[i]
    }

    /// Whether `v` is a vertex of the graph.
    pub fn has_vertex(&self, v: u64) -> (r: bool)
        requires
            self.wf(),
        ensures
            r == self@.dom().contains(v),
    {
        proof {
            self.lemma_structure();
        }
        self.position(v).is_some()
    }

    /// The neighbors of `v` in increasing order of id, if `v` is a vertex.
    pub fn neighbors(&self, v: u64) -> (r: Option<&Vec<u64>>)
        requires
            self.wf(),
        ensures
            match r {
                Some(row) => {
                    &&& self@.dom().contains(v)
                    &&& ascending(row@)
                    &&& row@.to_set() == self@[v]
                    &&& row@.len() == self@[v].len()
                },
                None => !self@.dom().contains(v),
            },
    {
        proof {
            self.lemma_structure();
        }
        match self.position(v) {
            Some(i) => Some(&self.adj[i]),
            None => None,
        }
    }

    /// Whether an edge joins `u` and `v`.
    pub fn has_edge(&self, u: u64, v: u64) -> (r: bool)
        requires
            self.wf(),
        ensures
            r == (self@.dom().contains(u) && self@[u].contains(v)),
    {
        proof {
            self.lemma_structure();
        }
        match self.position(u) {
            Some(i) => {
                let row = &self.adj[i];
                assert(row@ == self.neighbor_seq(i as int));
                let at: usize = lower_bound(row, v);
                let found: bool = at < row.len() && row[at] == v;
                proof {
                    if found {
                        assert(row@.to_set().contains(row@[at as int]));
                    }
                    if row@.to_set().contains(v) {
                        let t = row@.index_of(v);
                        assert(row@[t] == v);
                    }
                }
                found
            },
            None => false,
        }
    }

    /// Where `v` stands among the vertices, if it is one.
    pub fn position(&self, v: u64) -> (r: Option<usize>)
        requires
            self.wf(),
        ensures
            match r {
                Some(i) => i < self.vertex_seq().len() && self.vertex_seq()[i as int] == v,
                None => !self@.dom().contains(v),
            },
    {
        proof {
            self.lemma_structure();
        }
        let at: usize = lower_bound(&self.nodes, v);
        if at < self.nodes.len() && self.nodes[at] == v {
            Some(at)
        } else {
            proof {
                if self.nodes@.contains(v) {
                    let t = self.nodes@.index_of(v);
                    assert(self.nodes@[t] == v);
                }
            }
            None
        }
    }
}

} // verus!
