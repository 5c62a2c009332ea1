//! What a coloring is, and the quantities the search heuristics rank by.
//! Everything here is stated over the adjacency map of a graph and a map
//! from vertex id to color.

use crate::graph::valid_graph;
use vstd::prelude::*;

verus! {

/// `c` gives colors below `k` to some vertices of `g`, and no edge of `g`
/// joins two vertices to which `c` gives the same color.
pub open spec fn proper(g: Map<u64, Set<u64>>, c: Map<u64, u64>, k: u64) -> bool {
    &&& c.dom().subset_of(g.dom())
    &&& forall|v: u64| c.dom().contains(v) ==> #[trigger] c[v] < k
    &&& forall|u: u64, v: u64|
        c.dom().contains(u) && c.dom().contains(v) && #[trigger] g[u].contains(v) ==> c[u] != c[v]
}

/// `c` colors every vertex of `g`.
pub open spec fn complete(g: Map<u64, Set<u64>>, c: Map<u64, u64>) -> bool {
    c.dom() =~= g.dom()
}

/// `c` is a `k`-coloring of `g`.
pub open spec fn k_coloring(g: Map<u64, Set<u64>>, c: Map<u64, u64>, k: u64) -> bool {
    proper(g, c, k) && complete(g, c)
}

/// `e` agrees with `c` wherever `c` is defined.
pub open spec fn extends(e: Map<u64, u64>, c: Map<u64, u64>) -> bool {
    forall|v: u64| #[trigger] c.dom().contains(v) ==> e.dom().contains(v) && e[v] == c[v]
}

/// `g` has a `k`-coloring.
pub open spec fn colorable(g: Map<u64, Set<u64>>, k: u64) -> bool {
    exists|e: Map<u64, u64>| k_coloring(g, e, k)
}

/// The partial coloring `c` can be completed to a `k`-coloring of `g`.
pub open spec fn completable(g: Map<u64, Set<u64>>, c: Map<u64, u64>, k: u64) -> bool {
    exists|e: Map<u64, u64>| k_coloring(g, e, k) && #[trigger] extends(e, c)
}

/// The colors that the colored neighbors of `v` hold.
pub open spec fn neighbor_colors(g: Map<u64, Set<u64>>, c: Map<u64, u64>, v: u64) -> Set<u64> {
    Set::new(
        |x: u64| exists|n: u64| #[trigger] g[v].contains(n) && c.dom().contains(n) && c[n] == x,
    )
}

/// The neighbors of `v` that are colored.
pub open spec fn colored_neighbors(g: Map<u64, Set<u64>>, c: Map<u64, u64>, v: u64) -> Set<u64> {
    g[v].intersect(c.dom())
}

/// `v` is a vertex of `g` that `c` leaves uncolored.
pub open spec fn uncolored(g: Map<u64, Set<u64>>, c: Map<u64, u64>, v: u64) -> bool {
    g.dom().contains(v) && !c.dom().contains(v)
}

/// `v` is on the frontier: uncolored, with at least one colored neighbor.
pub open spec fn on_frontier(g: Map<u64, Set<u64>>, c: Map<u64, u64>, v: u64) -> bool {
    uncolored(g, c, v) && colored_neighbors(g, c, v).len() > 0
}

/// `v` ranks strictly above `u`: by the number of distinct colors among the
/// colored neighbors, then by the number of colored neighbors, then by the
/// number of uncolored neighbors, then by id; the larger wins each time.
pub open spec fn outranks(g: Map<u64, Set<u64>>, c: Map<u64, u64>, v: u64, u: u64) -> bool {
    let sv = neighbor_colors(g, c, v).len();
    let su = neighbor_colors(g, c, u).len();
    let nv = colored_neighbors(g, c, v).len();
    let nu = colored_neighbors(g, c, u).len();
    let rv = g[v].len() - nv;
    let ru = g[u].len() - nu;
    sv > su || (sv == su && (nv > nu || (nv == nu && (rv > ru || (rv == ru && v > u)))))
}

/// `v` is the frontier vertex that ranks above every other one.
pub open spec fn most_saturated(g: Map<u64, Set<u64>>, c: Map<u64, u64>, v: u64) -> bool {
    &&& on_frontier(g, c, v)
    &&& forall|u: u64| #[trigger] on_frontier(g, c, u) && u != v ==> outranks(g, c, v, u)
}

/// `v` has the most neighbors among the uncolored vertices, and the lowest
/// id among those that have as many.
pub open spec fn widest(g: Map<u64, Set<u64>>, c: Map<u64, u64>, v: u64) -> bool {
    &&& uncolored(g, c, v)
    &&& forall|u: u64| #[trigger]
        uncolored(g, c, u) && u != v ==> g[u].len() < g[v].len() || (g[u].len() == g[v].len() && v
            < u)
}

/// `v` is the vertex that the search colors next: the top-ranked frontier
/// vertex, or, while no vertex is on the frontier, the widest uncolored one.
pub open spec fn next_vertex(g: Map<u64, Set<u64>>, c: Map<u64, u64>, v: u64) -> bool {
    if exists|u: u64| on_frontier(g, c, u) {
        most_saturated(g, c, v)
    } else {
        widest(g, c, v)
    }
}

/// The adjacent pairs of an uncolored vertex and a neighbor that holds the
/// color `x`.
pub open spec fn pressure(g: Map<u64, Set<u64>>, c: Map<u64, u64>, x: u64) -> Set<(u64, u64)> {
    Set::new(
        |p: (u64, u64)|
            uncolored(g, c, p.0) && g[p.0].contains(p.1) && c.dom().contains(p.1) && c[p.1] == x,
    )
}

/// How often the color `x` occurs next to an uncolored vertex.
pub open spec fn usage(g: Map<u64, Set<u64>>, c: Map<u64, u64>, x: u64) -> nat {
    pressure(g, c, x).len()
}

/// The color `a` is tried before the color `b`: the one used more often
/// next to uncolored vertices first, the lower one first among equals.
pub open spec fn tried_before(g: Map<u64, Set<u64>>, c: Map<u64, u64>, a: u64, b: u64) -> bool {
    usage(g, c, a) > usage(g, c, b) || (usage(g, c, a) == usage(g, c, b) && a < b)
}

/// `s` lists every color below `k` once, in the order in which the search
/// tries them.
pub open spec fn color_order(g: Map<u64, Set<u64>>, c: Map<u64, u64>, k: u64, s: Seq<u64>) -> bool {
    &&& s.len() == k
    &&& forall|i: int| 0 <= i < s.len() ==> #[trigger] s[i] < k
    &&& forall|x: u64| x < k ==> s.contains(x)
    &&& forall|i: int, j: int| 0 <= i < j < s.len() ==> tried_before(g, c, s[i], s[j])
}

/// Giving the color `x` to `v` would leave an uncolored neighbor of `v`
/// with all `k` colors taken around it.
pub open spec fn starves(g: Map<u64, Set<u64>>, c: Map<u64, u64>, k: u64, v: u64, x: u64) -> bool {
    exists|n: u64| #[trigger]
        g[v].contains(n) && !c.dom().contains(n) && neighbor_colors(g, c, n).insert(x).len() >= k
}

/// The neighbors of `v` that hold the same color as `v`.
pub open spec fn clashes(g: Map<u64, Set<u64>>, c: Map<u64, u64>, v: u64) -> Set<u64> {
    Set::new(|n: u64| g[v].contains(n) && c[n] == c[v])
}

/// `v` is a vertex with at least one neighbor of its own color.
pub open spec fn conflicted(g: Map<u64, Set<u64>>, c: Map<u64, u64>, v: u64) -> bool {
    g.dom().contains(v) && clashes(g, c, v).len() > 0
}

/// `s` lists the conflicted vertices in increasing order of id, each with
/// the number of its neighbors that hold its color.
pub open spec fn conflict_list(g: Map<u64, Set<u64>>, c: Map<u64, u64>, s: Seq<(u64, usize)>) -> bool {
    &&& forall|i: int, j: int| 0 <= i < j < s.len() ==> s[i].0 < s[j].0
    &&& forall|i: int|
        0 <= i < s.len() ==> conflicted(g, c, (#[trigger] s[i]).0) && s[i].1 == clashes(
            g,
            c,
            s[i].0,
        ).len()
    &&& forall|v: u64|
        conflicted(g, c, v) ==> exists|i: int| 0 <= i < s.len() && (#[trigger] s[i]).0 == v
}

/// The entry at `at` has the largest count of `s`, and every later entry a
/// smaller one.
pub open spec fn last_largest(s: Seq<(u64, usize)>, at: int) -> bool {
    &&& 0 <= at < s.len()
    &&& forall|j: int| 0 <= j < s.len() ==> (#[trigger] s[j]).1 <= s[at].1
    &&& forall|j: int| at < j < s.len() ==> (#[trigger] s[j]).1 < s[at].1
}

/// The vertex that a flip recolors: with the coin at 0 the one at position
/// `at` of the list, else the one of the last entry of the list that has
/// the largest count.
pub open spec fn target_of(list: Seq<(u64, usize)>, coin: u64, at: int) -> u64 {
    if coin == 0 {
        list[at].0
    } else {
        list[choose|i: int| last_largest(list, i)].0
    }
}

/// The color that a flip gives: the one at position `pick` of the free
/// colors if there are any, else `pick` itself.
pub open spec fn color_of(free: Seq<u64>, pick: u64) -> u64 {
    if free.len() > 0 {
        free[pick as int]
    } else {
        pick
    }
}

/// `c` colors every vertex of `g` with a color below `k`; edges may still
/// join vertices of one color.
pub open spec fn valid_start(g: Map<u64, Set<u64>>, c: Map<u64, u64>, k: u64) -> bool {
    complete(g, c) && forall|v: u64| c.dom().contains(v) ==> #[trigger] c[v] < k
}

/// No vertex of `g` has a neighbor of its own color.
pub open spec fn settled(g: Map<u64, Set<u64>>, c: Map<u64, u64>) -> bool {
    forall|v: u64| !conflicted(g, c, v)
}

/// Recoloring `target` with `color` is a move that the local search may
/// make from `c`: the vertex is conflicted, the color is below `k`, and it
/// is one that no neighbor holds if there is such a color.
pub open spec fn admissible(
    g: Map<u64, Set<u64>>,
    c: Map<u64, u64>,
    k: u64,
    target: u64,
    color: u64,
) -> bool {
    &&& conflicted(g, c, target)
    &&& color < k
    &&& (exists|x: u64| x < k && !#[trigger] neighbor_colors(g, c, target).contains(x))
        ==> !neighbor_colors(g, c, target).contains(color)
}

/// The coloring after the first `n` of `moves` were made from `start`, each
/// move giving a vertex a color.
pub open spec fn replay(start: Map<u64, u64>, moves: Seq<(u64, u64)>, n: nat) -> Map<u64, u64>
    decreases n,
{
    if n == 0 {
        start
    } else {
        replay(start, moves, (n - 1) as nat).insert(moves[n - 1].0, moves[n - 1].1)
    }
}

/// `moves` is a run of the local search from `start` with a budget of
/// `max_flips`: every move is admissible where it is made, there are no
/// more moves than the budget allows, and the run stops short of the budget
/// only where no conflict is left.
pub open spec fn fair_run(
    g: Map<u64, Set<u64>>,
    k: u64,
    start: Map<u64, u64>,
    max_flips: nat,
    moves: Seq<(u64, u64)>,
) -> bool {
    &&& moves.len() <= max_flips
    &&& forall|i: int|
        0 <= i < moves.len() ==> admissible(
            g,
            replay(start, moves, i as nat),
            k,
            (#[trigger] moves[i]).0,
            moves[i].1,
        )
    &&& moves.len() < max_flips ==> settled(g, replay(start, moves, moves.len()))
}

/// What a run of the local search returns: the coloring it has reached if
/// it stopped short of its budget, nothing if it used the budget up.
pub open spec fn local_run(start: Map<u64, u64>, max_flips: nat, moves: Seq<(u64, u64)>) -> Option<
    Map<u64, u64>,
> {
    if moves.len() < max_flips {
        Some(replay(start, moves, moves.len()))
    } else {
        None
    }
}

/// `out` is what some run of the local search on `g` returns, started from
/// some coloring of all vertices with colors below `k`.
pub open spec fn local_outcome(
    g: Map<u64, Set<u64>>,
    k: u64,
    max_flips: nat,
    out: Option<Map<u64, u64>>,
) -> bool {
    exists|start: Map<u64, u64>, moves: Seq<(u64, u64)>|
        valid_start(g, start, k) && fair_run(g, k, start, max_flips, moves) && out
            == #[trigger] local_run(start, max_flips, moves)
}

/// `g` has no edge.
pub open spec fn edgeless(g: Map<u64, Set<u64>>) -> bool {
    forall|u: u64, v: u64| g.dom().contains(u) ==> !#[trigger] g[u].contains(v)
}

/// The colors below `k`.
pub open spec fn palette(k: u64) -> Set<u64> {
    Set::new(|x: u64| x < k)
}

/// There are exactly `k` colors below `k`.
pub proof fn lemma_palette_len(k: u64)
    ensures
        palette(k).finite(),
        palette(k).len() == k,
    decreases k,
{
    if k == 0 {
        assert(palette(k) =~= Set::<u64>::empty());
    } else {
        let j = (k - 1) as u64;
        lemma_palette_len(j);
        assert(palette(k) =~= palette(j).insert(j));
    }
}

/// A set of colors below `k` that misses one of them has fewer than `k`
/// members.
pub proof fn lemma_missing_color(s: Set<u64>, k: u64, x: u64)
    requires
        s.subset_of(palette(k)),
        x < k,
        !s.contains(x),
    ensures
        s.finite(),
        s.len() < k,
{
    lemma_palette_len(k);
    vstd::set_lib::lemma_set_subset_finite(palette(k), s);
    assert(s.insert(x).subset_of(palette(k)));
    vstd::set_lib::lemma_len_subset(s.insert(x), palette(k));
}

/// A proper coloring stays proper when an uncolored vertex gets a color that
/// none of its neighbors holds.
pub proof fn lemma_extend_proper(g: Map<u64, Set<u64>>, base: Map<u64, u64>, k: u64, v: u64, x: u64)
    requires
        valid_graph(g),
        proper(g, base, k),
        uncolored(g, base, v),
        x < k,
        !neighbor_colors(g, base, v).contains(x),
    ensures
        proper(g, base.insert(v, x), k),
        base.insert(v, x).dom().len() == base.dom().len() + 1,
        base.insert(v, x).dom().len() <= g.dom().len(),
        base.dom().finite(),
{
    let next = base.insert(v, x);
    vstd::set_lib::lemma_set_subset_finite(g.dom(), base.dom());
    assert(next.dom() =~= base.dom().insert(v));
    vstd::set_lib::lemma_len_subset(next.dom(), g.dom());
    assert forall|a: u64, b: u64|
        next.dom().contains(a) && next.dom().contains(b) && #[trigger] g[a].contains(
            b,
        ) implies next[a] != next[b] by {
        assert(g.dom().contains(a));
        assert(g[b].contains(a));
        if a == v {
            assert(b != v);
            assert(g[v].contains(b) && base.dom().contains(b));
            assert(neighbor_colors(g, base, v).contains(base[b]));
        } else if b == v {
            assert(g[v].contains(a) && base.dom().contains(a));
            assert(neighbor_colors(g, base, v).contains(base[a]));
        }
    }
}

/// No `k`-coloring of `g` that agrees with `base` gives `v` the color `x`.
pub open spec fn blocked(g: Map<u64, Set<u64>>, base: Map<u64, u64>, k: u64, v: u64, x: u64) -> bool {
    forall|e: Map<u64, u64>| k_coloring(g, e, k) && #[trigger] extends(e, base) ==> e[v] != x
}

/// A color that a neighbor of `v` holds is of no use at `v`.
pub proof fn lemma_used_blocks(g: Map<u64, Set<u64>>, base: Map<u64, u64>, k: u64, v: u64, x: u64)
    requires
        g.dom().contains(v),
        neighbor_colors(g, base, v).contains(x),
    ensures
        blocked(g, base, k, v, x),
{
    let n = choose|n: u64| #[trigger] g[v].contains(n) && base.dom().contains(n) && base[n] == x;
    assert forall|e: Map<u64, u64>| k_coloring(g, e, k) && #[trigger] extends(e, base) implies e[v]
        != x by {
        assert(base.dom().contains(n));
        assert(e.dom().contains(n) && e[n] == x);
        assert(e.dom().contains(v));
        assert(g[v].contains(n));
    }
}

/// A color that would leave a neighbor of `v` without a color is of no use
/// at `v`.
pub proof fn lemma_starved_blocks(g: Map<u64, Set<u64>>, base: Map<u64, u64>, k: u64, v: u64, x: u64)
    requires
        valid_graph(g),
        proper(g, base, k),
        g.dom().contains(v),
        x < k,
        starves(g, base, k, v, x),
    ensures
        blocked(g, base, k, v, x),
{
    let n = choose|n: u64| #[trigger]
        g[v].contains(n) && !base.dom().contains(n) && neighbor_colors(g, base, n).insert(x).len()
            >= k;
    let taken = neighbor_colors(g, base, n).insert(x);
    assert forall|e: Map<u64, u64>| k_coloring(g, e, k) && #[trigger] extends(e, base) implies e[v]
        != x by {
        if e[v] == x {
            assert(g.dom().contains(n));
            assert(e.dom().contains(n) && e.dom().contains(v));
            let y = e[n];
            assert(y < k);
            assert(g[v].contains(n));
            assert(y != x);
            if neighbor_colors(g, base, n).contains(y) {
                let w = choose|w: u64| #[trigger]
                    g[n].contains(w) && base.dom().contains(w) && base[w] == y;
                assert(base.dom().contains(w));
                assert(e.dom().contains(w) && e[w] == y);
                assert(g[n].contains(w));
                assert(false);
            }
            assert(taken.subset_of(palette(k))) by {
                assert forall|z: u64| taken.contains(z) implies palette(k).contains(z) by {
                    if z != x {
                        let w = choose|w: u64| #[trigger]
                            g[n].contains(w) && base.dom().contains(w) && base[w] == z;
                        assert(base[w] < k);
                    }
                }
            }
            lemma_missing_color(taken, k, y);
            assert(false);
        }
    }
}

/// A move added at the end of a run leaves the colorings before it as they
/// were.
pub proof fn lemma_replay_push(start: Map<u64, u64>, moves: Seq<(u64, u64)>, m: (u64, u64), n: nat)
    requires
        n <= moves.len(),
    ensures
        replay(start, moves.push(m), n) == replay(start, moves, n),
    decreases n,
{
    if n > 0 {
        lemma_replay_push(start, moves, m, (n - 1) as nat);
        assert(moves.push(m)[n - 1] == moves[n - 1]);
    }
}

/// A coloring of all vertices in which no vertex has a neighbor of its own
/// color is a `k`-coloring, and the other way round.
pub proof fn lemma_settled_is_proper(g: Map<u64, Set<u64>>, c: Map<u64, u64>, k: u64)
    requires
        valid_graph(g),
        valid_start(g, c, k),
    ensures
        settled(g, c) <==> k_coloring(g, c, k),
{
    if settled(g, c) {
        assert forall|u: u64, v: u64|
            c.dom().contains(u) && c.dom().contains(v) && #[trigger] g[u].contains(v) implies c[u]
            != c[v] by {
            if c[u] == c[v] {
                assert(clashes(g, c, u).contains(v));
                assert(g[u].subset_of(g.dom()));
                vstd::set_lib::lemma_set_subset_finite(g.dom(), g[u]);
                vstd::set_lib::lemma_set_subset_finite(g[u], clashes(g, c, u));
                assert(clashes(g, c, u).len() > 0);
                assert(conflicted(g, c, u));
            }
        }
    }
    if k_coloring(g, c, k) {
        assert forall|v: u64| !conflicted(g, c, v) by {
            if conflicted(g, c, v) {
                let n = clashes(g, c, v).choose();
                assert(g[v].subset_of(g.dom()));
                vstd::set_lib::lemma_set_subset_finite(g.dom(), g[v]);
                vstd::set_lib::lemma_set_subset_finite(g[v], clashes(g, c, v));
                assert(clashes(g, c, v).contains(n));
                assert(g[v].contains(n));
                assert(c.dom().contains(n));
            }
        }
    }
}

} // verus!
