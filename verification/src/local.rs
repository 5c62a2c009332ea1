//! Randomized local search for a `k`-coloring, after the min-conflicts
//! heuristic. What is drawn at random is drawn in `random_colors`,
//! `local_step` and `color_local`; what is done with the numbers drawn is
//! in functions that take them as arguments.

use crate::coloring::{
    admissible, clashes, color_of, colorable, complete, conflict_list, conflicted, edgeless,
    fair_run, k_coloring, last_largest, lemma_replay_push, lemma_settled_is_proper,
    local_outcome, local_run, neighbor_colors, proper, replay, settled, target_of, valid_start,
};
use crate::graph::{ascending, valid_graph, Graph};
use crate::random::{draw_seed, random_below, seeded, shuffle};
use crate::search::{found, neighbor_stats};
use rand::rngs::{StdRng, ThreadRng};
use std::collections::HashMap;
use vstd::prelude::*;
use vstd::std_specs::hash::*;

verus! {

/// How many neighbors of the `i`-th vertex hold the same color as it.
pub fn clash_count(graph: &Graph, colored: &HashMap<u64, u64>, i: usize) -> (count: usize)
    requires
        graph.wf(),
        complete(graph@, colored@),
        i < graph.vertex_seq().len(),
    ensures
        count == clashes(graph@, colored@, graph.vertex_seq()[i as int]).len(),
        clashes(graph@, colored@, graph.vertex_seq()[i as int]).finite(),
{
    broadcast use group_hash_axioms;

    proof {
        graph.lemma_structure();
    }
    let ghost g = graph@;
    let ghost c = colored@;
    let ghost v = graph.vertex_seq()[i as int];
    let own: u64 = *colored.get(&graph.vertex(i)).unwrap();
    let row = graph.neighbors_at(i);
    let mut count: usize = 0;
    let ghost mut hit: Set<u64> = Set::empty();
    let mut j: usize = 0;
    while j < row.len()
        invariant
            g == graph@,
            c == colored@,
            valid_graph(g),
            complete(g, c),
            g.dom().contains(v),
            own == c[v],
            row@.no_duplicates(),
            row@.to_set() == g[v],
            j <= row@.len(),
            hit.finite(),
            count == hit.len(),
            count <= j,
            forall|n: u64|
                hit.contains(n) <==> c[n] == own && exists|t: int|
                    0 <= t < j && #[trigger] row@[t] == n,
        decreases row@.len() - j,
    {
        let n: u64 = row[j];
        let ghost old_hit = hit;
        assert(row@.to_set().contains(n));
        let theirs: u64 = *colored.get(&n).unwrap();
        if theirs == own {
            count += 1;
            proof {
                hit = hit.insert(n);
            }
        }
        proof {
            assert forall|m: u64|
                hit.contains(m) <==> c[m] == own && exists|t: int|
                    0 <= t < j + 1 && #[trigger] row@[t] == m by {
                if old_hit.contains(m) {
                    let t = choose|t: int| 0 <= t < j && #[trigger] row@[t] == m;
                    assert(0 <= t < j + 1 && row@[t] == m);
                }
                if c[m] == own && exists|t: int| 0 <= t < j + 1 && #[trigger] row@[t] == m {
                    let t = choose|t: int| 0 <= t < j + 1 && #[trigger] row@[t] == m;
                    if t < j {
                        assert(old_hit.contains(m));
                    }
                }
            }
        }
        j += 1;
    }
    proof {
        assert forall|n: u64| hit.contains(n) <==> clashes(g, c, v).contains(n) by {
            if hit.contains(n) {
                let t = choose|t: int| 0 <= t < j && #[trigger] row@[t] == n;
                assert(row@.to_set().contains(row@[t]));
            }
            if clashes(g, c, v).contains(n) {
                assert(row@.to_set().contains(n));
                let t = row@.index_of(n);
                assert(row@[t] == n);
            }
        }
        assert(hit =~= clashes(g, c, v));
    }
    count
}

/// The conflicted vertices of `graph` under `colored`, each with the number
/// of its clashes.
pub fn find_conflicts(graph: &Graph, colored: &HashMap<u64, u64>) -> (list: Vec<(u64, usize)>)
    requires
        graph.wf(),
        complete(graph@, colored@),
    ensures
        conflict_list(graph@, colored@, list@),
{
    proof {
        graph.lemma_structure();
    }
    let ghost g = graph@;
    let ghost c = colored@;
    let ghost vs = graph.vertex_seq();
    let n: usize = graph.len();
    let mut list: Vec<(u64, usize)> = Vec::new();
    let mut i: usize = 0;
    while i < n
        invariant
            graph.wf(),
            g == graph@,
            c == colored@,
            complete(g, c),
            vs == graph.vertex_seq(),
            ascending(vs),
            n == vs.len(),
            i <= n,
            forall|t: int| 0 <= t < n ==> g.dom().contains(#[trigger] vs[t]),
            forall|a: int, b: int| 0 <= a < b < list@.len() ==> list@[a].0 < list@[b].0,
            forall|a: int, t: int|
                0 <= a < list@.len() && i <= t < n ==> (#[trigger] list@[a]).0 < #[trigger] vs[t],
            forall|a: int|
                0 <= a < list@.len() ==> conflicted(g, c, (#[trigger] list@[a]).0) && list@[a].1
                    == clashes(g, c, list@[a].0).len(),
            forall|t: int|
                0 <= t < i && conflicted(g, c, #[trigger] vs[t]) ==> exists|a: int|
                    0 <= a < list@.len() && (#[trigger] list@[a]).0 == vs[t],
        decreases n - i,
    {
        let count: usize = clash_count(graph, colored, i);
        let ghost prev = list@;
        if count > 0 {
            let v: u64 = graph.vertex(i);
            list.push((v, count));
            proof {
                assert(list@[prev.len() as int].0 == vs[i as int]);
            }
        }
        proof {
            assert forall|t: int| 0 <= t < i + 1 && conflicted(g, c, #[trigger] vs[t]) implies exists|
                a: int,
            |
                0 <= a < list@.len() && (#[trigger] list@[a]).0 == vs[t] by {
                if t < i {
                    let a = choose|a: int| 0 <= a < prev.len() && (#[trigger] prev[a]).0 == vs[t];
                    assert(list@[a].0 == vs[t]);
                } else {
                    assert(list@[prev.len() as int].0 == vs[t]);
                }
            }
        }
        i += 1;
    }
    proof {
        assert forall|v: u64| conflicted(g, c, v) implies exists|a: int|
            0 <= a < list@.len() && (#[trigger] list@[a]).0 == v by {
            assert(vs.contains(v));
            let t = vs.index_of(v);
            assert(conflicted(g, c, vs[t]));
        }
    }
    list
}

/// The vertex of the last entry of `conflicts` that has the largest count.
pub fn most_conflicted(conflicts: &Vec<(u64, usize)>) -> (v: u64)
    requires
        conflicts@.len() > 0,
    ensures
        exists|at: int| last_largest(conflicts@, at) && conflicts@[at].0 == v,
{
    let mut at: usize = 0;
    let mut j: usize = 1;
    while j < conflicts.len()
        invariant
            0 <= at < j <= conflicts@.len(),
            forall|t: int| 0 <= t < j ==> (#[trigger] conflicts@[t]).1 <= conflicts@[at as int].1,
            forall|t: int| at < t < j ==> (#[trigger] conflicts@[t]).1 < conflicts@[at as int].1,
        decreases conflicts@.len() - j,
    {
        if conflicts[j].1 >= conflicts[at].1 {
            at = j;
        }
        j += 1;
    }
    proof {
        assert(last_largest(conflicts@, at as int));
    }
    conflicts[at].0
}

/// The colors below `k` that no neighbor of the `i`-th vertex holds, in
/// increasing order.
pub fn free_colors(graph: &Graph, colored: &HashMap<u64, u64>, k: u64, i: usize) -> (free: Vec<u64>)
    requires
        graph.wf(),
        i < graph.vertex_seq().len(),
    ensures
        ascending(free@),
        forall|x: u64|
            free@.contains(x) <==> x < k && !neighbor_colors(
                graph@,
                colored@,
                graph.vertex_seq()[i as int],
            ).contains(x),
{
    broadcast use group_hash_axioms;

    let (used, _) = neighbor_stats(graph, colored, i);
    let mut free: Vec<u64> = Vec::new();
    let mut x: u64 = 0;
    while x < k
        invariant
            x <= k,
            ascending(free@),
            forall|t: int| 0 <= t < free@.len() ==> #[trigger] free@[t] < x,
            forall|y: u64| free@.contains(y) <==> y < x && !used@.contains(y),
        decreases k - x,
    {
        let ghost prev = free@;
        if !used.contains(&x) {
            free.push(x);
        }
        proof {
            assert forall|y: u64| free@.contains(y) <==> y < x + 1 && !used@.contains(y) by {
                if free@.contains(y) {
                    let t = free@.index_of(y);
                    if t < prev.len() {
                        assert(prev.contains(y));
                    }
                }
                if y < x + 1 && !used@.contains(y) {
                    if y < x {
                        assert(prev.contains(y));
                        let t = prev.index_of(y);
                        assert(free@[t] == y);
                    } else {
                        assert(free@[prev.len() as int] == y);
                    }
                }
            }
        }
        x += 1;
    }
    free
}

/// The vertex that a flip recolors, from what was drawn for it: the coin,
/// the position `at` (looked at with the coin at 0), and the list of
/// conflicts, which is shuffled where the coin is not 0.
pub fn pick_target(list: &Vec<(u64, usize)>, coin: u64, at: usize) -> (target: u64)
    requires
        list@.len() > 0,
        coin == 0 ==> at < list@.len(),
    ensures
        target == target_of(list@, coin, at as int),
        exists|i: int| 0 <= i < list@.len() && (#[trigger] list@[i]).0 == target,
{
    if coin == 0 {
        list[at].0
    } else {
        let v: u64 = most_conflicted(list);
        proof {
            let i = choose|i: int| last_largest(list@, i) && list@[i].0 == v;
            let j = choose|j: int| last_largest(list@, j);
            assert(i == j) by {
                if i < j {
                    assert(list@[j].1 < list@[i].1);
                    assert(list@[i].1 <= list@[j].1);
                } else if j < i {
                    assert(list@[i].1 < list@[j].1);
                    assert(list@[j].1 <= list@[i].1);
                }
            }
        }
        v
    }
}

/// The color that a flip gives, from the number `pick` drawn for it: the
/// free color at that position, or that number itself where no color is
/// free.
pub fn pick_color(free: &Vec<u64>, pick: u64) -> (color: u64)
    requires
        free@.len() > 0 ==> pick < free@.len(),
    ensures
        color == color_of(free@, pick),
{
    if free.len() > 0 {
        free[pick as usize]
    } else {
        pick
    }
}

/// One flip: gives `target` its new color, from the number `pick` drawn for
/// it and the colors that are free at `target`.
pub fn flip(colored: &mut HashMap<u64, u64>, target: u64, free: &Vec<u64>, pick: u64)
    requires
        free@.len() > 0 ==> pick < free@.len(),
    ensures
        final(colored)@ == old(colored)@.insert(target, color_of(free@, pick)),
{
    broadcast use group_hash_axioms;

    let color: u64 = pick_color(free, pick);
    colored.insert(target, color);
}

/// As many random colors below `k` as asked for.
pub fn random_colors(rng: &mut StdRng, n: usize, k: u64) -> (colors: Vec<u64>)
    requires
        k > 0 || n == 0,
    ensures
        colors@.len() == n,
        forall|i: int| 0 <= i < n ==> #[trigger] colors@[i] < k,
{
    let mut colors: Vec<u64> = Vec::new();
    let mut i: usize = 0;
    while i < n
        invariant
            i <= n,
            k > 0 || n == 0,
            colors@.len() == i,
            forall|t: int| 0 <= t < i ==> #[trigger] colors@[t] < k,
        decreases n - i,
    {
        let x: u64 = random_below(rng, k);
        colors.push(x);
        i += 1;
    }
    colors
}

/// The coloring that gives the `i`-th vertex the `i`-th of `colors`.
pub fn start_coloring(graph: &Graph, colors: &Vec<u64>) -> (start: HashMap<u64, u64>)
    requires
        graph.wf(),
        colors@.len() == graph.vertex_seq().len(),
    ensures
        complete(graph@, start@),
        forall|i: int|
            0 <= i < colors@.len() ==> start@[graph.vertex_seq()[i]] == #[trigger] colors@[i],
{
    broadcast use group_hash_axioms;

    proof {
        graph.lemma_structure();
    }
    let ghost g = graph@;
    let ghost vs = graph.vertex_seq();
    let n: usize = graph.len();
    let mut colored: HashMap<u64, u64> = HashMap::new();
    let mut i: usize = 0;
    while i < n
        invariant
            graph.wf(),
            g == graph@,
            vs == graph.vertex_seq(),
            vs.no_duplicates(),
            n == vs.len(),
            n == colors@.len(),
            i <= n,
            colored@.dom() == vs.take(i as int).to_set(),
            forall|t: int| 0 <= t < i ==> colored@[vs[t]] == #[trigger] colors@[t],
        decreases n - i,
    {
        let v: u64 = graph.vertex(i);
        let ghost prev = colored@;
        colored.insert(v, colors[i]);
        proof {
            assert(vs.take(i as int + 1) =~= vs.take(i as int).push(v));
            vs.take(i as int).lemma_push_to_set_commute(v);
            assert(colored@.dom() =~= vs.take(i as int + 1).to_set());
            assert forall|t: int| 0 <= t < i + 1 implies colored@[vs[t]] == #[trigger] colors@[t] by {
                if t < i {
                    assert(vs[t] != vs[i as int]);
                    assert(prev[vs[t]] == colors@[t]);
                }
            }
        }
        i += 1;
    }
    proof {
        assert(vs.take(n as int) =~= vs);
        assert(vs.to_set() =~= g.dom());
    }
    colored
}

/// A random color below `k` for every vertex.
pub fn random_start(graph: &Graph, k: u64, rng: &mut StdRng) -> (start: HashMap<u64, u64>)
    requires
        graph.wf(),
        k > 0 || graph@.dom().len() == 0,
    ensures
        valid_start(graph@, start@, k),
{
    proof {
        graph.lemma_structure();
    }
    let colors: Vec<u64> = random_colors(rng, graph.len(), k);
    let start = start_coloring(graph, &colors);
    proof {
        let vs = graph.vertex_seq();
        assert forall|v: u64| start@.dom().contains(v) implies #[trigger] start@[v] < k by {
            assert(vs.contains(v));
            let i = vs.index_of(v);
            assert(start@[vs[i]] == colors@[i]);
        }
    }
    start
}

/// One round of the local search: lists the conflicts and, unless there is
/// none, recolors one conflicted vertex. The coin decides between any
/// conflicted vertex and one with the most clashes; the new color is one
/// that no neighbor holds if there is such a color, and any color else.
/// Returns the number of conflicted vertices that were found, or `None`
/// where there was none and nothing was done.
pub fn local_step(graph: &Graph, k: u64, colored: &mut HashMap<u64, u64>, rng: &mut StdRng) -> (r:
    Option<usize>)
    requires
        graph.wf(),
        valid_start(graph@, old(colored)@, k),
    ensures
        valid_start(graph@, final(colored)@, k),
        match r {
            None => settled(graph@, old(colored)@) && final(colored)@ == old(colored)@,
            Some(n) => {
                &&& !settled(graph@, old(colored)@)
                &&& exists|list: Seq<(u64, usize)>| #[trigger]
                    conflict_list(graph@, old(colored)@, list) && list.len() == n
                &&& exists|target: u64, color: u64|
                    admissible(graph@, old(colored)@, k, target, color) && final(colored)@
                        == #[trigger] old(colored)@.insert(target, color)
            },
        },
{
    broadcast use group_hash_axioms;

    proof {
        graph.lemma_structure();
    }
    let ghost g = graph@;
    let ghost c = colored@;
    let mut list: Vec<(u64, usize)> = find_conflicts(graph, colored);
    let n: usize = list.len();
    if n == 0 {
        proof {
            assert forall|v: u64| !conflicted(g, c, v) by {
                if conflicted(g, c, v) {
                    let i = choose|i: int| 0 <= i < list@.len() && (#[trigger] list@[i]).0 == v;
                    assert(0 <= i < list@.len());
                }
            }
        }
        return None;
    }
    let ghost listed = list@;
    proof {
        assert(conflicted(g, c, listed[0].0));
    }
    let coin: u64 = random_below(rng, 2);
    let at: usize = if coin == 0 {
        random_below(rng, n as u64) as usize
    } else {
        shuffle(rng, &mut list);
        proof {
            vstd::seq_lib::to_multiset_len(listed);
            vstd::seq_lib::to_multiset_len(list@);
        }
        0
    };
    let target: u64 = pick_target(&list, coin, at);
    proof {
        let i = choose|i: int| 0 <= i < list@.len() && (#[trigger] list@[i]).0 == target;
        assert(list@.contains(list@[i]));
        vstd::seq_lib::to_multiset_contains(list@, list@[i]);
        vstd::seq_lib::to_multiset_contains(listed, list@[i]);
        assert(listed.contains(list@[i]));
        let b = listed.index_of(list@[i]);
        assert(listed[b].0 == target);
        assert(conflicted(g, c, target));
        assert(c.dom().contains(target));
        assert(c[target] < k);
    }
    match graph.position(target) {
        Some(pos) => {
            let free: Vec<u64> = free_colors(graph, colored, k, pos);
            let width: u64 = if free.len() == 0 {
                k
            } else {
                free.len() as u64
            };
            let pick: u64 = random_below(rng, width);
            let ghost color = color_of(free@, pick);
            flip(colored, target, &free, pick);
            proof {
                assert(colored@.dom() =~= c.dom());
                if free@.len() > 0 {
                    assert(free@.contains(free@[pick as int]));
                }
                if exists|x: u64| x < k && !#[trigger] neighbor_colors(g, c, target).contains(x) {
                    let x = choose|x: u64|
                        x < k && !#[trigger] neighbor_colors(g, c, target).contains(x);
                    assert(free@.contains(x));
                }
                assert(admissible(g, c, k, target, color));
                assert(colored@ == c.insert(target, color));
            }
        },
        None => {
            assert(false);
        },
    }
    Some(n)
}

/// The local search from a given coloring of all vertices: up to
/// `max_flips` rounds, each as `local_step` makes it. The search returns the
/// coloring it has reached as soon as a round finds no conflict, and nothing
/// once `max_flips` rounds have found one each.
pub fn local_search_from(
    graph: &Graph,
    k: u64,
    start: HashMap<u64, u64>,
    max_flips: usize,
    rng: &mut StdRng,
) -> (r: Option<HashMap<u64, u64>>)
    requires
        graph.wf(),
        valid_start(graph@, start@, k),
    ensures
        exists|moves: Seq<(u64, u64)>|
            fair_run(graph@, k, start@, max_flips as nat, moves) && found(r) == #[trigger] local_run(
                start@,
                max_flips as nat,
                moves,
            ),
        r matches Some(e) ==> k_coloring(graph@, e@, k),
        max_flips == 0 ==> r is None,
        max_flips > 0 && settled(graph@, start@) ==> found(r) == Some(start@),
        max_flips > 0 && proper(graph@, start@, k) ==> found(r) == Some(start@),
{
    proof {
        graph.lemma_structure();
        lemma_settled_is_proper(graph@, start@, k);
    }
    let ghost g = graph@;
    let ghost first = start@;
    let mut colored = start;
    let ghost mut moves: Seq<(u64, u64)> = Seq::empty();
    let mut flip: usize = 0;
    while flip < max_flips
        invariant
            graph.wf(),
            g == graph@,
            valid_graph(g),
            flip <= max_flips,
            first == start@,
            valid_start(g, first, k),
            valid_start(g, colored@, k),
            moves.len() == flip,
            colored@ == replay(first, moves, flip as nat),
            forall|i: int|
                0 <= i < moves.len() ==> admissible(
                    g,
                    replay(first, moves, i as nat),
                    k,
                    (#[trigger] moves[i]).0,
                    moves[i].1,
                ),
            flip > 0 ==> !settled(g, first),
            proper(g, first, k) ==> settled(g, first),
        decreases max_flips - flip,
    {
        let ghost before = colored@;
        let ghost old_moves = moves;
        match local_step(graph, k, &mut colored, rng) {
            None => {
                proof {
                    lemma_settled_is_proper(g, colored@, k);
                    assert(fair_run(g, k, first, max_flips as nat, moves));
                    assert(local_run(first, max_flips as nat, moves) == Some(colored@));
                }
                return Some(colored);
            },
            Some(_) => {
                proof {
                    let (target, color) = choose|target: u64, color: u64|
                        admissible(g, before, k, target, color) && colored@
                            == #[trigger] before.insert(target, color);
                    let m = (target, color);
                    moves = old_moves.push(m);
                    assert forall|n: nat| n <= old_moves.len() implies #[trigger] replay(
                        first,
                        moves,
                        n,
                    ) == replay(first, old_moves, n) by {
                        lemma_replay_push(first, old_moves, m, n);
                    }
                    assert(moves[old_moves.len() as int] == m);
                    assert(replay(first, moves, (flip + 1) as nat) == replay(
                        first,
                        moves,
                        flip as nat,
                    ).insert(m.0, m.1));
                    assert forall|i: int| 0 <= i < moves.len() implies admissible(
                        g,
                        replay(first, moves, i as nat),
                        k,
                        (#[trigger] moves[i]).0,
                        moves[i].1,
                    ) by {
                        if i < old_moves.len() {
                            assert(moves[i] == old_moves[i]);
                        }
                    }
                    if flip == 0 {
                        assert(before == first);
                    }
                }
            },
        }
        flip += 1;
    }
    proof {
        assert(fair_run(g, k, first, max_flips as nat, moves));
        assert(local_run(first, max_flips as nat, moves) == None::<Map<u64, u64>>);
    }
    None
}

/// Looks for a `k`-coloring of `graph` by local search, with the random
/// choices drawn from a generator that the thread's own generator seeds.
/// See `color_local_seeded` for the search itself.
pub fn color_local(graph: &Graph, k: u64, max_flips: usize) -> (r: Option<HashMap<u64, u64>>)
    requires
        graph.wf(),
    ensures
        r matches Some(e) ==> k_coloring(graph@, e@, k),
        !colorable(graph@, k) ==> r is None,
        max_flips == 0 ==> r is None,
        max_flips > 0 && edgeless(graph@) && (k > 0 || graph@.dom().len() == 0) ==> r is Some,
        k > 0 || graph@.dom().len() == 0 ==> local_outcome(graph@, k, max_flips as nat, found(r)),
{
    let mut source: ThreadRng = rand::thread_rng();
    let seed: u64 = draw_seed(&mut source);
    color_local_seeded(graph, k, max_flips, seed)
}

/// Looks for a `k`-coloring of `graph` by local search, with the random
/// choices drawn from a generator started from `seed`: every vertex gets a
/// random color, and from there the search goes as `local_search_from` has
/// it. So the result is that of some run of admissible moves from some
/// coloring of all vertices. `None` says that the budget ran out, not that
/// there is no coloring; without any color for a vertex it comes at once.
pub fn color_local_seeded(graph: &Graph, k: u64, max_flips: usize, seed: u64) -> (r: Option<
    HashMap<u64, u64>,
>)
    requires
        graph.wf(),
    ensures
        r matches Some(e) ==> k_coloring(graph@, e@, k),
        !colorable(graph@, k) ==> r is None,
        max_flips == 0 ==> r is None,
        max_flips > 0 && edgeless(graph@) && (k > 0 || graph@.dom().len() == 0) ==> r is Some,
        k > 0 || graph@.dom().len() == 0 ==> local_outcome(graph@, k, max_flips as nat, found(r)),
{
    proof {
        graph.lemma_structure();
    }
    let ghost g = graph@;
    let n: usize = graph.len();
    if k == 0 && n > 0 {
        proof {
            let vs = graph.vertex_seq();
            assert forall|e: Map<u64, u64>| !k_coloring(g, e, k) by {
                if k_coloring(g, e, k) {
                    assert(e.dom().contains(vs[0]));
                    assert(e[vs[0]] < k);
                }
            }
        }
        return None;
    }
    let mut rng: StdRng = seeded(seed);
    let start: HashMap<u64, u64> = random_start(graph, k, &mut rng);
    let ghost first = start@;
    let r = local_search_from(graph, k, start, max_flips, &mut rng);
    proof {
        if edgeless(g) {
            assert forall|v: u64| !conflicted(g, first, v) by {
                if g.dom().contains(v) {
                    assert(clashes(g, first, v) =~= Set::<u64>::empty());
                }
            }
        }
        if r is Some {
            assert(k_coloring(g, r->0@, k));
        }
        let moves = choose|moves: Seq<(u64, u64)>|
            fair_run(g, k, first, max_flips as nat, moves) && found(r) == #[trigger] local_run(
                first,
                max_flips as nat,
                moves,
            );
        assert(valid_start(g, first, k) && fair_run(g, k, first, max_flips as nat, moves) && found(r)
            == local_run(first, max_flips as nat, moves));
    }
    r
}

} // verus!
