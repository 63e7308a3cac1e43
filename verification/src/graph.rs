//! The code-graph reasoning core: forward/reverse adjacency, the multi-source
//! BFS wavefront, the culling filters and the candidate reachability badges.
use vstd::prelude::*;

use crate::models::{CodeGraphFunction, CodeGraphSignature};

verus! {

// ─── the graph, as a model ─────────────────────────────────────────────────

/// Traversal direction for [`GraphIndex::bfs`]: `Outbound` follows
/// `from -> to`, `Inbound` follows edges backwards.
#[derive(Debug, Clone, Copy, PartialEq, Eq, Structural)]
pub enum Direction {
    Outbound,
    Inbound,
}

/// The edges of `edges` whose endpoints both lie in `0..n`, in order.
pub open spec fn kept_edges(n: nat, edges: Seq<(usize, usize)>) -> Seq<(usize, usize)>
    decreases edges.len(),
{
    if edges.len() == 0 {
        seq![]
    } else {
        let rest = kept_edges(n, edges.drop_last());
        let e = edges.last();
        if e.0 < n && e.1 < n {
            rest.push(e)
        } else {
            rest
        }
    }
}

/// The targets of the edges leaving `u`, in edge order.
pub open spec fn succs(edges: Seq<(usize, usize)>, u: usize) -> Seq<usize>
    decreases edges.len(),
{
    if edges.len() == 0 {
        seq![]
    } else {
        let rest = succs(edges.drop_last(), u);
        if edges.last().0 == u {
            rest.push(edges.last().1)
        } else {
            rest
        }
    }
}

/// The sources of the edges entering `v`, in edge order.
pub open spec fn preds(edges: Seq<(usize, usize)>, v: usize) -> Seq<usize>
    decreases edges.len(),
{
    if edges.len() == 0 {
        seq![]
    } else {
        let rest = preds(edges.drop_last(), v);
        if edges.last().1 == v {
            rest.push(edges.last().0)
        } else {
            rest
        }
    }
}

/// The neighbours of `u` that a traversal in `dir` moves to.
pub open spec fn adjacent(edges: Seq<(usize, usize)>, dir: Direction, u: usize) -> Seq<usize> {
    match dir {
        Direction::Outbound => succs(edges, u),
        Direction::Inbound => preds(edges, u),
    }
}

/// One traversal step in `dir` from `u` to `v`.
pub open spec fn step(edges: Seq<(usize, usize)>, dir: Direction, u: usize, v: usize) -> bool {
    adjacent(edges, dir, u).contains(v)
}

pub proof fn lemma_succs_len(edges: Seq<(usize, usize)>, u: usize)
    ensures
        succs(edges, u).len() <= edges.len(),
    decreases edges.len(),
{
    if edges.len() > 0 {
        lemma_succs_len(edges.drop_last(), u);
    }
}

pub proof fn lemma_preds_len(edges: Seq<(usize, usize)>, v: usize)
    ensures
        preds(edges, v).len() <= edges.len(),
    decreases edges.len(),
{
    if edges.len() > 0 {
        lemma_preds_len(edges.drop_last(), v);
    }
}

proof fn lemma_kept_push(n: nat, s: Seq<(usize, usize)>, e: (usize, usize))
    ensures
        kept_edges(n, s.push(e)) == (if e.0 < n && e.1 < n {
            kept_edges(n, s).push(e)
        } else {
            kept_edges(n, s)
        }),
{
    assert(s.push(e).drop_last() =~= s);
}

proof fn lemma_kept_len(n: nat, edges: Seq<(usize, usize)>)
    ensures
        kept_edges(n, edges).len() <= edges.len(),
    decreases edges.len(),
{
    if edges.len() > 0 {
        lemma_kept_len(n, edges.drop_last());
    }
}

/// No node has more successors or predecessors than there are edges, so an
/// edge list of at most `u32::MAX` edges meets the bound of `from_edges`.
pub proof fn lemma_degrees_within_edge_count(n: nat, edges: Seq<(usize, usize)>, u: usize)
    ensures
        succs(kept_edges(n, edges), u).len() <= edges.len(),
        preds(kept_edges(n, edges), u).len() <= edges.len(),
{
    lemma_kept_len(n, edges);
    lemma_succs_len(kept_edges(n, edges), u);
    lemma_preds_len(kept_edges(n, edges), u);
}

proof fn lemma_kept_in_range(n: nat, edges: Seq<(usize, usize)>)
    ensures
        forall|k: int|
            0 <= k < kept_edges(n, edges).len() ==> #[trigger] kept_edges(n, edges)[k].0 < n
                && kept_edges(n, edges)[k].1 < n,
    decreases edges.len(),
{
    if edges.len() > 0 {
        let rest = edges.drop_last();
        lemma_kept_in_range(n, rest);
        let kr = kept_edges(n, rest);
        assert forall|k: int| 0 <= k < kept_edges(n, edges).len() implies #[trigger] kept_edges(
            n,
            edges,
        )[k].0 < n && kept_edges(n, edges)[k].1 < n by {
            if k < kr.len() {
                assert(kept_edges(n, edges)[k] == kr[k]);
            }
        }
    }
}

/// An edge list already inside `0..n` is kept whole.
pub proof fn lemma_kept_all(n: nat, edges: Seq<(usize, usize)>)
    requires
        forall|k: int| 0 <= k < edges.len() ==> (#[trigger] edges[k]).0 < n && edges[k].1 < n,
    ensures
        kept_edges(n, edges) == edges,
    decreases edges.len(),
{
    if edges.len() > 0 {
        let rest = edges.drop_last();
        assert forall|k: int| 0 <= k < rest.len() implies (#[trigger] rest[k]).0 < n && rest[k].1 < n by {
            assert(rest[k] == edges[k]);
        }
        lemma_kept_all(n, rest);
        assert(edges[edges.len() - 1] == edges.last());
        assert(rest.push(edges.last()) =~= edges);
    }
}

proof fn lemma_succs_contains(edges: Seq<(usize, usize)>, u: usize, v: usize)
    ensures
        succs(edges, u).contains(v) <==> edges.contains((u, v)),
    decreases edges.len(),
{
    if edges.len() > 0 {
        let rest = edges.drop_last();
        let e = edges.last();
        lemma_succs_contains(rest, u, v);
        let sr = succs(rest, u);
        let se = succs(edges, u);
        if edges.contains((u, v)) {
            let k = choose|k: int| 0 <= k < edges.len() && edges[k] == (u, v);
            if k < rest.len() {
                assert(rest[k] == (u, v));
                assert(rest.contains((u, v)));
                let j = choose|j: int| 0 <= j < sr.len() && sr[j] == v;
                assert(se[j] == v);
            } else {
                assert(e == (u, v));
                assert(se[se.len() - 1] == v);
            }
        }
        if se.contains(v) {
            let j = choose|j: int| 0 <= j < se.len() && se[j] == v;
            if e.0 == u && j == se.len() - 1 {
                assert(edges[edges.len() - 1] == (u, v));
            } else {
                assert(sr[j] == v);
                assert(sr.contains(v));
                let k = choose|k: int| 0 <= k < rest.len() && rest[k] == (u, v);
                assert(edges[k] == (u, v));
            }
        }
    }
}

proof fn lemma_preds_contains(edges: Seq<(usize, usize)>, u: usize, v: usize)
    ensures
        preds(edges, v).contains(u) <==> edges.contains((u, v)),
    decreases edges.len(),
{
    if edges.len() > 0 {
        let rest = edges.drop_last();
        let e = edges.last();
        lemma_preds_contains(rest, u, v);
        let sr = preds(rest, v);
        let se = preds(edges, v);
        if edges.contains((u, v)) {
            let k = choose|k: int| 0 <= k < edges.len() && edges[k] == (u, v);
            if k < rest.len() {
                assert(rest[k] == (u, v));
                assert(rest.contains((u, v)));
                let j = choose|j: int| 0 <= j < sr.len() && sr[j] == u;
                assert(se[j] == u);
            } else {
                assert(e == (u, v));
                assert(se[se.len() - 1] == u);
            }
        }
        if se.contains(u) {
            let j = choose|j: int| 0 <= j < se.len() && se[j] == u;
            if e.1 == v && j == se.len() - 1 {
                assert(edges[edges.len() - 1] == (u, v));
            } else {
                assert(sr[j] == u);
                assert(sr.contains(u));
                let k = choose|k: int| 0 <= k < rest.len() && rest[k] == (u, v);
                assert(edges[k] == (u, v));
            }
        }
    }
}

/// Direction law: an outbound step follows an edge `from -> to`; an inbound
/// step follows an edge backwards, `to -> from`.
pub proof fn lemma_step_follows_edges(edges: Seq<(usize, usize)>, u: usize, v: usize)
    ensures
        step(edges, Direction::Outbound, u, v) <==> edges.contains((u, v)),
        step(edges, Direction::Inbound, u, v) <==> edges.contains((v, u)),
{
    lemma_succs_contains(edges, u, v);
    lemma_preds_contains(edges, v, u);
}


// ─── BFS layerings ─────────────────────────────────────────────────────────

/// The seeds that start a traversal: those inside `0..n`, each at its first
/// occurrence, in seed order.
pub open spec fn start_set(n: nat, seeds: Seq<usize>) -> Seq<usize>
    decreases seeds.len(),
{
    if seeds.len() == 0 {
        seq![]
    } else {
        let rest = start_set(n, seeds.drop_last());
        let s = seeds.last();
        if s < n && !rest.contains(s) {
            rest.push(s)
        } else {
            rest
        }
    }
}

/// A seed inside `0..n` is in the start set.
pub proof fn lemma_start_set_contains(n: nat, seeds: Seq<usize>, s: usize)
    requires
        seeds.contains(s),
        s < n,
    ensures
        start_set(n, seeds).contains(s),
    decreases seeds.len(),
{
    let pre = seeds.drop_last();
    let rest = start_set(n, pre);
    if seeds.last() == s {
        if !rest.contains(s) {
            assert(start_set(n, seeds)[rest.len() as int] == s);
        } else {
            let k = choose|k: int| 0 <= k < rest.len() && rest[k] == s;
            assert(start_set(n, seeds)[k] == s);
        }
    } else {
        let k = choose|k: int| 0 <= k < seeds.len() && seeds[k] == s;
        assert(pre[k] == s);
        lemma_start_set_contains(n, pre, s);
        let j = choose|j: int| 0 <= j < rest.len() && rest[j] == s;
        assert(start_set(n, seeds)[j] == s);
    }
}

/// A layering with distinct, nonempty layers inside `0..n` has at most `n`
/// layers.
pub proof fn lemma_layer_count(ls: Seq<Seq<usize>>, n: nat)
    requires
        layers_distinct(ls),
        layers_nonempty(ls),
        layers_in_range(ls, n),
    ensures
        ls.len() <= n,
{
    let x = vstd::set_lib::set_int_range(0, ls.len() as int);
    let f = |d: int| ls[d][0] as int;
    vstd::set_lib::lemma_int_range(0, ls.len() as int);
    vstd::set_lib::lemma_int_range(0, n as int);
    assert forall|d1: int, d2: int| x.contains(d1) && x.contains(d2) && #[trigger] f(d1) == #[trigger] f(d2) implies d1 == d2 by {
        assert(ls[d1].len() > 0 && ls[d2].len() > 0);
        assert(ls[d1][0] == ls[d2][0]);
    }
    assert(vstd::relations::injective_on(f, x));
    let y = x.map(f);
    vstd::set_lib::lemma_map_size(x, y, f);
    assert forall|v: int| y.contains(v) implies vstd::set_lib::set_int_range(0, n as int).contains(v) by {
        let d = choose|d: int| x.contains(d) && f(d) == v;
        assert(ls[d].len() > 0);
        assert(ls[d][0] < n);
    }
    vstd::set_lib::lemma_len_subset(y, vstd::set_lib::set_int_range(0, n as int));
}

/// `v` occurs in one of the layers `ls[0..hi]`.
pub open spec fn in_layers_upto(ls: Seq<Seq<usize>>, hi: int, v: usize) -> bool {
    exists|d: int, i: int|
        #![trigger ls[d][i]]
        0 <= d < hi && d < ls.len() && 0 <= i < ls[d].len() && ls[d][i] == v
}

/// `v` occurs in some layer of `ls`.
pub open spec fn in_layers(ls: Seq<Seq<usize>>, v: usize) -> bool {
    in_layers_upto(ls, ls.len() as int, v)
}

/// No node occurs twice, neither within a layer nor across layers.
pub open spec fn layers_distinct(ls: Seq<Seq<usize>>) -> bool {
    forall|d1: int, i1: int, d2: int, i2: int|
        #![trigger ls[d1][i1], ls[d2][i2]]
        0 <= d1 < ls.len() && 0 <= i1 < ls[d1].len() && 0 <= d2 < ls.len() && 0 <= i2
            < ls[d2].len() && ls[d1][i1] == ls[d2][i2] ==> d1 == d2 && i1 == i2
}

/// Every node of every layer lies in `0..n`.
pub open spec fn layers_in_range(ls: Seq<Seq<usize>>, n: nat) -> bool {
    forall|d: int, i: int|
        #![trigger ls[d][i]]
        0 <= d < ls.len() && 0 <= i < ls[d].len() ==> ls[d][i] < n
}

/// No layer is empty.
pub open spec fn layers_nonempty(ls: Seq<Seq<usize>>) -> bool {
    forall|d: int| 0 <= d < ls.len() ==> (#[trigger] ls[d]).len() > 0
}

/// `v` is one step from some node of `prev`.
pub open spec fn has_parent(
    edges: Seq<(usize, usize)>,
    dir: Direction,
    prev: Seq<usize>,
    v: usize,
) -> bool {
    exists|j: int| 0 <= j < prev.len() && step(edges, dir, #[trigger] prev[j], v)
}

/// Every node of layer `d >= 1` is one step from some node of layer `d - 1`.
pub open spec fn layers_have_parents(
    edges: Seq<(usize, usize)>,
    dir: Direction,
    ls: Seq<Seq<usize>>,
) -> bool {
    forall|d: int, i: int|
        #![trigger ls[d][i]]
        1 <= d < ls.len() && 0 <= i < ls[d].len() ==> has_parent(edges, dir, ls[d - 1], ls[d][i])
}

/// Every step taken from a node of layer `d < hi` lands in layers `0..=d+1`.
pub open spec fn layers_closed_upto(
    edges: Seq<(usize, usize)>,
    dir: Direction,
    ls: Seq<Seq<usize>>,
    hi: int,
) -> bool {
    forall|d: int, i: int, v: usize|
        #![trigger step(edges, dir, ls[d][i], v)]
        0 <= d < hi && d < ls.len() && 0 <= i < ls[d].len() && step(edges, dir, ls[d][i], v)
            ==> in_layers_upto(ls, d + 2, v)
}

/// `ls` is the breadth-first layering of the graph `edges` on `0..n`,
/// traversed in `dir` from `seeds`: layer 0 is the start set, every later
/// layer holds nodes first reached one step further, no node occurs twice,
/// and nothing reachable is left out.
pub open spec fn is_bfs_layering(
    edges: Seq<(usize, usize)>,
    n: nat,
    dir: Direction,
    seeds: Seq<usize>,
    ls: Seq<Seq<usize>>,
) -> bool {
    &&& (ls.len() == 0 <==> start_set(n, seeds).len() == 0)
    &&& ls.len() > 0 ==> ls[0] == start_set(n, seeds)
    &&& layers_nonempty(ls)
    &&& layers_in_range(ls, n)
    &&& layers_distinct(ls)
    &&& layers_have_parents(edges, dir, ls)
    &&& layers_closed_upto(edges, dir, ls, ls.len() as int)
}

/// Visit `nbrs` in order, appending to `acc` each node not yet layered in
/// `ls` nor already appended.
pub open spec fn visit_all(ls: Seq<Seq<usize>>, acc: Seq<usize>, nbrs: Seq<usize>) -> Seq<usize>
    decreases nbrs.len(),
{
    if nbrs.len() == 0 {
        acc
    } else {
        let a = visit_all(ls, acc, nbrs.drop_last());
        let v = nbrs.last();
        if in_layers(ls, v) || a.contains(v) {
            a
        } else {
            a.push(v)
        }
    }
}

/// The layer after `ls`: the neighbours of the nodes of `frontier`, in
/// frontier order and then adjacency order, each at its first occurrence,
/// skipping every node already layered.
pub open spec fn expand(
    edges: Seq<(usize, usize)>,
    dir: Direction,
    ls: Seq<Seq<usize>>,
    frontier: Seq<usize>,
) -> Seq<usize>
    decreases frontier.len(),
{
    if frontier.len() == 0 {
        seq![]
    } else {
        visit_all(ls, expand(edges, dir, ls, frontier.drop_last()), adjacent(edges, dir, frontier.last()))
    }
}

/// Every layer after the first is the expansion of the one before it.
pub open spec fn layers_expand(edges: Seq<(usize, usize)>, dir: Direction, ls: Seq<Seq<usize>>) -> bool {
    forall|d: int| 1 <= d < ls.len() ==> #[trigger] ls[d] == expand(edges, dir, ls.subrange(0, d), ls[d - 1])
}

/// Every layer after the first is the expansion of the one before it, in
/// that order, and the expansion of the last layer is empty.
pub open spec fn layers_in_bfs_order(
    edges: Seq<(usize, usize)>,
    dir: Direction,
    ls: Seq<Seq<usize>>,
) -> bool {
    &&& layers_expand(edges, dir, ls)
    &&& ls.len() > 0 ==> expand(edges, dir, ls, ls.last()).len() == 0
}

/// Each edge turned around.
pub open spec fn reversed(edges: Seq<(usize, usize)>) -> Seq<(usize, usize)> {
    edges.map_values(|e: (usize, usize)| (e.1, e.0))
}

proof fn lemma_reversed_drop_last(edges: Seq<(usize, usize)>)
    requires
        edges.len() > 0,
    ensures
        reversed(edges).drop_last() == reversed(edges.drop_last()),
        reversed(edges).last() == (edges.last().1, edges.last().0),
{
    assert(reversed(edges).drop_last() =~= reversed(edges.drop_last()));
}

/// Dropping out-of-range edges commutes with turning them around.
proof fn lemma_kept_reversed(n: nat, edges: Seq<(usize, usize)>)
    ensures
        kept_edges(n, reversed(edges)) == reversed(kept_edges(n, edges)),
    decreases edges.len(),
{
    if edges.len() == 0 {
        assert(reversed(edges) =~= Seq::<(usize, usize)>::empty());
        assert(reversed(kept_edges(n, edges)) =~= Seq::<(usize, usize)>::empty());
    } else {
        lemma_reversed_drop_last(edges);
        lemma_kept_reversed(n, edges.drop_last());
        let rest = kept_edges(n, edges.drop_last());
        let e = edges.last();
        assert(reversed(rest.push(e)) =~= reversed(rest).push((e.1, e.0)));
    }
}

/// The predecessors of `u` are its successors once every edge is turned around.
proof fn lemma_preds_are_reversed_succs(edges: Seq<(usize, usize)>, u: usize)
    ensures
        preds(edges, u) == succs(reversed(edges), u),
    decreases edges.len(),
{
    if edges.len() == 0 {
        assert(reversed(edges) =~= Seq::<(usize, usize)>::empty());
    } else {
        lemma_reversed_drop_last(edges);
        lemma_preds_are_reversed_succs(edges.drop_last(), u);
    }
}

/// The expansion of a frontier depends on the edges only through the
/// adjacency lists.
proof fn lemma_expand_same_adjacency(
    e1: Seq<(usize, usize)>,
    d1: Direction,
    e2: Seq<(usize, usize)>,
    d2: Direction,
    ls: Seq<Seq<usize>>,
    frontier: Seq<usize>,
)
    requires
        forall|u: usize| #[trigger] adjacent(e1, d1, u) == adjacent(e2, d2, u),
    ensures
        expand(e1, d1, ls, frontier) == expand(e2, d2, ls, frontier),
    decreases frontier.len(),
{
    if frontier.len() > 0 {
        lemma_expand_same_adjacency(e1, d1, e2, d2, ls, frontier.drop_last());
        assert(adjacent(e1, d1, frontier.last()) == adjacent(e2, d2, frontier.last()));
    }
}

/// The first `d` layers of two such layerings agree.
proof fn lemma_bfs_prefix_eq(
    e1: Seq<(usize, usize)>,
    d1: Direction,
    e2: Seq<(usize, usize)>,
    d2: Direction,
    n: nat,
    seeds: Seq<usize>,
    ls1: Seq<Seq<usize>>,
    ls2: Seq<Seq<usize>>,
    d: int,
)
    requires
        forall|u: usize| #[trigger] adjacent(e1, d1, u) == adjacent(e2, d2, u),
        is_bfs_layering(e1, n, d1, seeds, ls1),
        layers_in_bfs_order(e1, d1, ls1),
        is_bfs_layering(e2, n, d2, seeds, ls2),
        layers_in_bfs_order(e2, d2, ls2),
        1 <= d <= ls1.len(),
        d <= ls2.len(),
    ensures
        ls1.subrange(0, d) == ls2.subrange(0, d),
    decreases d,
{
    if d == 1 {
        assert(ls1[0] == ls2[0]);
        assert(ls1.subrange(0, 1) =~= ls2.subrange(0, 1));
    } else {
        let c = d - 1;
        lemma_bfs_prefix_eq(e1, d1, e2, d2, n, seeds, ls1, ls2, c);
        assert(ls1[c] == expand(e1, d1, ls1.subrange(0, c), ls1[c - 1]));
        assert(ls2[c] == expand(e2, d2, ls2.subrange(0, c), ls2[c - 1]));
        assert(ls1[c - 1] == ls1.subrange(0, c)[c - 1]);
        assert(ls2[c - 1] == ls2.subrange(0, c)[c - 1]);
        lemma_expand_same_adjacency(e1, d1, e2, d2, ls1.subrange(0, c), ls1[c - 1]);
        assert(ls1.subrange(0, d) =~= ls1.subrange(0, c).push(ls1[c]));
        assert(ls2.subrange(0, d) =~= ls2.subrange(0, c).push(ls2[c]));
    }
}

/// Two breadth-first layerings in expansion order from the same seeds, over
/// the same adjacency lists, are the same layering.
pub proof fn lemma_bfs_order_unique(
    e1: Seq<(usize, usize)>,
    d1: Direction,
    e2: Seq<(usize, usize)>,
    d2: Direction,
    n: nat,
    seeds: Seq<usize>,
    ls1: Seq<Seq<usize>>,
    ls2: Seq<Seq<usize>>,
)
    requires
        forall|u: usize| #[trigger] adjacent(e1, d1, u) == adjacent(e2, d2, u),
        is_bfs_layering(e1, n, d1, seeds, ls1),
        layers_in_bfs_order(e1, d1, ls1),
        is_bfs_layering(e2, n, d2, seeds, ls2),
        layers_in_bfs_order(e2, d2, ls2),
    ensures
        ls1 == ls2,
{
    if ls1.len() == 0 || ls2.len() == 0 {
        assert(ls1.len() == 0 && ls2.len() == 0);
        assert(ls1 =~= ls2);
    } else {
        let m: int = if ls1.len() < ls2.len() { ls1.len() as int } else { ls2.len() as int };
        lemma_bfs_prefix_eq(e1, d1, e2, d2, n, seeds, ls1, ls2, m);
        if ls1.len() < ls2.len() {
            assert(ls1.subrange(0, m) =~= ls1);
            assert(ls2[m] == expand(e2, d2, ls2.subrange(0, m), ls2[m - 1]));
            assert(ls1[m - 1] == ls1.subrange(0, m)[m - 1]);
            assert(ls2[m - 1] == ls2.subrange(0, m)[m - 1]);
            lemma_expand_same_adjacency(e1, d1, e2, d2, ls1, ls1.last());
            assert(ls2[m].len() > 0);
            assert(false);
        } else if ls2.len() < ls1.len() {
            assert(ls2.subrange(0, m) =~= ls2);
            assert(ls1[m] == expand(e1, d1, ls1.subrange(0, m), ls1[m - 1]));
            assert(ls1[m - 1] == ls1.subrange(0, m)[m - 1]);
            assert(ls2[m - 1] == ls2.subrange(0, m)[m - 1]);
            lemma_expand_same_adjacency(e1, d1, e2, d2, ls2, ls2.last());
            assert(ls1[m].len() > 0);
            assert(false);
        } else {
            assert(ls1.subrange(0, m) =~= ls1);
            assert(ls2.subrange(0, m) =~= ls2);
        }
    }
}

/// Inbound BFS over a graph's edges gives the same layers as outbound BFS
/// over the same edges turned around: `from_edges(n, edges).bfs(Inbound, seeds)`
/// equals `from_edges(n, reversed).bfs(Outbound, seeds)`.
pub proof fn lemma_inbound_bfs_is_outbound_on_reversed(
    n: nat,
    edges: Seq<(usize, usize)>,
    seeds: Seq<usize>,
    ls_in: Seq<Seq<usize>>,
    ls_out: Seq<Seq<usize>>,
)
    requires
        is_bfs_layering(kept_edges(n, edges), n, Direction::Inbound, seeds, ls_in),
        layers_in_bfs_order(kept_edges(n, edges), Direction::Inbound, ls_in),
        is_bfs_layering(kept_edges(n, reversed(edges)), n, Direction::Outbound, seeds, ls_out),
        layers_in_bfs_order(kept_edges(n, reversed(edges)), Direction::Outbound, ls_out),
    ensures
        ls_in == ls_out,
{
    let k = kept_edges(n, edges);
    lemma_kept_reversed(n, edges);
    assert forall|u: usize| #[trigger] adjacent(k, Direction::Inbound, u) == adjacent(
        kept_edges(n, reversed(edges)),
        Direction::Outbound,
        u,
    ) by {
        lemma_preds_are_reversed_succs(k, u);
    }
    lemma_bfs_order_unique(
        k,
        Direction::Inbound,
        kept_edges(n, reversed(edges)),
        Direction::Outbound,
        n,
        seeds,
        ls_in,
        ls_out,
    );
}

/// The layers of a `Vec<Vec<usize>>`, as sequences.
pub open spec fn layer_views(layers: Seq<Vec<usize>>) -> Seq<Seq<usize>> {
    layers.map_values(|l: Vec<usize>| l@)
}

/// The number of `false` entries.
pub open spec fn count_false(s: Seq<bool>) -> nat
    decreases s.len(),
{
    if s.len() == 0 {
        0
    } else {
        count_false(s.drop_last()) + if s.last() {
            0nat
        } else {
            1nat
        }
    }
}

proof fn lemma_count_false_set(s: Seq<bool>, i: int)
    requires
        0 <= i < s.len(),
        !s[i],
    ensures
        count_false(s) >= 1,
        count_false(s.update(i, true)) == count_false(s) - 1,
    decreases s.len(),
{
    let t = s.update(i, true);
    if i == s.len() - 1 {
        assert(t.drop_last() =~= s.drop_last());
    } else {
        lemma_count_false_set(s.drop_last(), i);
        assert(t.drop_last() =~= s.drop_last().update(i, true));
    }
}

proof fn lemma_upto_push(base: Seq<Seq<usize>>, x: Seq<usize>, hi: int, v: usize)
    requires
        0 <= hi <= base.len(),
    ensures
        in_layers_upto(base.push(x), hi, v) <==> in_layers_upto(base, hi, v),
{
    let all = base.push(x);
    if in_layers_upto(all, hi, v) {
        let (d, i) = choose|d: int, i: int|
            #![trigger all[d][i]]
            0 <= d < hi && d < all.len() && 0 <= i < all[d].len() && all[d][i] == v;
        assert(base[d][i] == v);
    }
    if in_layers_upto(base, hi, v) {
        let (d, i) = choose|d: int, i: int|
            #![trigger base[d][i]]
            0 <= d < hi && d < base.len() && 0 <= i < base[d].len() && base[d][i] == v;
        assert(all[d][i] == v);
    }
}

proof fn lemma_in_layers_push(base: Seq<Seq<usize>>, x: Seq<usize>, v: usize)
    ensures
        in_layers(base.push(x), v) <==> in_layers(base, v) || x.contains(v),
{
    let all = base.push(x);
    let hi = all.len() as int;
    if in_layers(all, v) {
        let (d, i) = choose|d: int, i: int|
            #![trigger all[d][i]]
            0 <= d < hi && d < all.len() && 0 <= i < all[d].len() && all[d][i] == v;
        if d < base.len() {
            assert(base[d][i] == v);
        } else {
            assert(x[i] == v);
        }
    }
    if in_layers(base, v) {
        let (d, i) = choose|d: int, i: int|
            #![trigger base[d][i]]
            0 <= d < base.len() && d < base.len() && 0 <= i < base[d].len() && base[d][i] == v;
        assert(all[d][i] == v);
    }
    if x.contains(v) {
        let i = choose|i: int| 0 <= i < x.len() && x[i] == v;
        assert(all[base.len() as int][i] == v);
    }
}

proof fn lemma_upto_drop_empty(ls: Seq<Seq<usize>>, hi: int, v: usize)
    requires
        in_layers_upto(ls.push(Seq::<usize>::empty()), hi, v),
    ensures
        in_layers_upto(ls, hi, v),
{
    let all = ls.push(Seq::<usize>::empty());
    let (d, i) = choose|d: int, i: int|
        #![trigger all[d][i]]
        0 <= d < hi && d < all.len() && 0 <= i < all[d].len() && all[d][i] == v;
    assert(d < ls.len());
    assert(ls[d][i] == v);
}


proof fn lemma_push_parents(
    edges: Seq<(usize, usize)>,
    dir: Direction,
    base: Seq<Seq<usize>>,
    x: Seq<usize>,
)
    requires
        layers_have_parents(edges, dir, base),
        base.len() > 0,
        forall|i: int| 0 <= i < x.len() ==> has_parent(edges, dir, base.last(), #[trigger] x[i]),
    ensures
        layers_have_parents(edges, dir, base.push(x)),
{
    let all = base.push(x);
    assert forall|d: int, i: int|
        #![trigger all[d][i]]
        1 <= d < all.len() && 0 <= i < all[d].len() implies has_parent(edges, dir, all[d - 1], all[d][i]) by {
        if d < base.len() {
            assert(all[d][i] == base[d][i]);
            assert(all[d - 1] == base[d - 1]);
        } else {
            assert(all[d][i] == x[i]);
            assert(all[d - 1] == base.last());
        }
    }
}

/// Appending a layer of fresh, distinct, in-range nodes keeps a layering
/// distinct and in range.
proof fn lemma_push_fresh_layer(base: Seq<Seq<usize>>, x: Seq<usize>, n: nat)
    requires
        layers_distinct(base),
        layers_in_range(base, n),
        x.no_duplicates(),
        forall|i: int| 0 <= i < x.len() ==> #[trigger] x[i] < n,
        forall|i: int| 0 <= i < x.len() ==> !in_layers(base, #[trigger] x[i]),
    ensures
        layers_distinct(base.push(x)),
        layers_in_range(base.push(x), n),
{
    let all = base.push(x);
    assert forall|d1: int, i1: int, d2: int, i2: int|
        #![trigger all[d1][i1], all[d2][i2]]
        0 <= d1 < all.len() && 0 <= i1 < all[d1].len() && 0 <= d2 < all.len() && 0 <= i2
            < all[d2].len() && all[d1][i1] == all[d2][i2] implies d1 == d2 && i1 == i2 by {
        if d1 < base.len() && d2 < base.len() {
            assert(base[d1][i1] == base[d2][i2]);
        } else if d1 < base.len() {
            assert(x[i2] == base[d1][i1]);
            assert(in_layers(base, x[i2]));
        } else if d2 < base.len() {
            assert(x[i1] == base[d2][i2]);
            assert(in_layers(base, x[i1]));
        } else {
            assert(x[i1] == x[i2]);
        }
    }
    assert forall|d: int, i: int|
        #![trigger all[d][i]]
        0 <= d < all.len() && 0 <= i < all[d].len() implies all[d][i] < n by {
        if d < base.len() {
            assert(all[d][i] == base[d][i]);
        }
    }
}

/// Soundness of a BFS layering: every node of layer `d` is the end of a walk
/// of `d` steps that starts at a seed.
pub open spec fn is_walk(edges: Seq<(usize, usize)>, dir: Direction, p: Seq<usize>) -> bool {
    &&& p.len() >= 1
    &&& forall|k: int| 0 <= k < p.len() - 1 ==> step(edges, dir, #[trigger] p[k], p[k + 1])
}

/// Layer law (soundness): in a BFS layering, every node of layer `d` is
/// reached from a start seed by a walk of exactly `d` steps.
pub proof fn lemma_bfs_layer_has_walk(
    edges: Seq<(usize, usize)>,
    n: nat,
    dir: Direction,
    seeds: Seq<usize>,
    ls: Seq<Seq<usize>>,
    d: int,
    i: int,
)
    requires
        is_bfs_layering(edges, n, dir, seeds, ls),
        0 <= d < ls.len(),
        0 <= i < ls[d].len(),
    ensures
        exists|p: Seq<usize>|
            is_walk(edges, dir, p) && p.len() == d + 1 && start_set(n, seeds).contains(p[0])
                && p.last() == ls[d][i],
    decreases d,
{
    if d == 0 {
        let p = seq![ls[0][i]];
        assert(start_set(n, seeds)[i] == p[0]);
        assert(is_walk(edges, dir, p));
    } else {
        let v = ls[d][i];
        assert(ls[d][i] == v);
        let prev = ls[d - 1];
        assert(has_parent(edges, dir, prev, v));
        let j = choose|j: int| 0 <= j < prev.len() && step(edges, dir, #[trigger] prev[j], v);
        lemma_bfs_layer_has_walk(edges, n, dir, seeds, ls, d - 1, j);
        let q = choose|q: Seq<usize>|
            is_walk(edges, dir, q) && q.len() == d && start_set(n, seeds).contains(q[0])
                && q.last() == ls[d - 1][j];
        let p = q.push(v);
        assert forall|k: int| 0 <= k < p.len() - 1 implies step(edges, dir, #[trigger] p[k], p[k + 1]) by {
            if k < q.len() - 1 {
                assert(p[k] == q[k] && p[k + 1] == q[k + 1]);
            } else {
                assert(p[k] == q.last());
            }
        }
        assert(is_walk(edges, dir, p));
        assert(p[0] == q[0]);
    }
}

/// Layer law (completeness): every node reached from a start seed by a walk of
/// `k` steps occurs in the layering, in a layer no deeper than `k`. With the
/// soundness law this makes a node's layer exactly its distance from the seeds.
pub proof fn lemma_bfs_walk_is_layered(
    edges: Seq<(usize, usize)>,
    n: nat,
    dir: Direction,
    seeds: Seq<usize>,
    ls: Seq<Seq<usize>>,
    p: Seq<usize>,
)
    requires
        is_bfs_layering(edges, n, dir, seeds, ls),
        is_walk(edges, dir, p),
        start_set(n, seeds).contains(p[0]),
    ensures
        in_layers_upto(ls, p.len() as int, p.last()),
    decreases p.len(),
{
    if p.len() == 1 {
        let i = choose|i: int| 0 <= i < start_set(n, seeds).len() && start_set(n, seeds)[i] == p[0];
        assert(ls[0][i] == p[0]);
    } else {
        let q = p.drop_last();
        assert forall|k: int| 0 <= k < q.len() - 1 implies step(edges, dir, #[trigger] q[k], q[k + 1]) by {
            assert(q[k] == p[k] && q[k + 1] == p[k + 1]);
        }
        lemma_bfs_walk_is_layered(edges, n, dir, seeds, ls, q);
        let u = q.last();
        let (d, i) = choose|d: int, i: int|
            #![trigger ls[d][i]]
            0 <= d < q.len() && d < ls.len() && 0 <= i < ls[d].len() && ls[d][i] == u;
        let v = p.last();
        assert(p[p.len() - 2] == u);
        assert(step(edges, dir, p[p.len() - 2], p[p.len() - 1]));
        assert(step(edges, dir, ls[d][i], v));
        let (d2, i2) = choose|d2: int, i2: int|
            #![trigger ls[d2][i2]]
            0 <= d2 < d + 2 && d2 < ls.len() && 0 <= i2 < ls[d2].len() && ls[d2][i2] == v;
        assert(ls[d2][i2] == v);
    }
}


proof fn lemma_adjacent_in_range(edges: Seq<(usize, usize)>, n: nat, dir: Direction, u: usize)
    requires
        forall|k: int| 0 <= k < edges.len() ==> (#[trigger] edges[k]).0 < n && edges[k].1 < n,
    ensures
        forall|j: int|
            0 <= j < adjacent(edges, dir, u).len() ==> #[trigger] adjacent(edges, dir, u)[j] < n,
    decreases edges.len(),
{
    if edges.len() > 0 {
        let rest = edges.drop_last();
        assert forall|k: int| 0 <= k < rest.len() implies (#[trigger] rest[k]).0 < n && rest[k].1 < n by {
            assert(rest[k] == edges[k]);
        }
        lemma_adjacent_in_range(rest, n, dir, u);
        let last = edges[edges.len() - 1];
        assert(edges.last() == last);
        let a = adjacent(edges, dir, u);
        let r = adjacent(rest, dir, u);
        assert forall|j: int| 0 <= j < a.len() implies #[trigger] a[j] < n by {
            if j < r.len() {
                assert(a[j] == r[j]);
            }
        }
    }
}

/// The successor and predecessor lists of every node of `0..node_count`,
/// out-of-range edges dropped.
pub(crate) fn adjacency(node_count: usize, edges: &[(usize, usize)]) -> (r: (Vec<Vec<usize>>, Vec<Vec<usize>>))
    ensures
        r.0@.len() == node_count,
        r.1@.len() == node_count,
        forall|u: int|
            0 <= u < node_count ==> (#[trigger] r.0@[u])@ == succs(kept_edges(node_count as nat, edges@), u as usize),
        forall|u: int|
            0 <= u < node_count ==> (#[trigger] r.1@[u])@ == preds(kept_edges(node_count as nat, edges@), u as usize),
{
    let mut forward_adj: Vec<Vec<usize>> = Vec::new();
    let mut reverse_adj: Vec<Vec<usize>> = Vec::new();
    let mut i: usize = 0;
    while i < node_count
        invariant
            i <= node_count,
            forward_adj@.len() == i,
            reverse_adj@.len() == i,
            forall|u: int| 0 <= u < i ==> (#[trigger] forward_adj@[u])@ == Seq::<usize>::empty(),
            forall|u: int| 0 <= u < i ==> (#[trigger] reverse_adj@[u])@ == Seq::<usize>::empty(),
        decreases node_count - i,
    {
        forward_adj.push(Vec::new());
        reverse_adj.push(Vec::new());
        i += 1;
    }
    let ghost n = node_count as nat;
    let mut k: usize = 0;
    while k < edges.len()
        invariant
            k <= edges@.len(),
            n == node_count as nat,
            forward_adj@.len() == node_count,
            reverse_adj@.len() == node_count,
            forall|u: int|
                0 <= u < node_count ==> (#[trigger] forward_adj@[u])@ == succs(
                    kept_edges(n, edges@.subrange(0, k as int)),
                    u as usize,
                ),
            forall|u: int|
                0 <= u < node_count ==> (#[trigger] reverse_adj@[u])@ == preds(
                    kept_edges(n, edges@.subrange(0, k as int)),
                    u as usize,
                ),
        decreases edges@.len() - k,
    {
        let (from, to) = edges[k];
        let ghost before = kept_edges(n, edges@.subrange(0, k as int));
        proof {
            assert(edges@.subrange(0, k + 1) =~= edges@.subrange(0, k as int).push((from, to)));
            lemma_kept_push(n, edges@.subrange(0, k as int), (from, to));
        }
        if from < node_count && to < node_count {
            forward_adj[from].push(to);
            reverse_adj[to].push(from);
            proof {
                let after = before.push((from, to));
                assert(after.drop_last() =~= before);
                assert(kept_edges(n, edges@.subrange(0, k + 1)) == after);
                assert forall|u: int| 0 <= u < node_count implies (#[trigger] forward_adj@[u])@
                    == succs(after, u as usize) by {
                    assert(after.drop_last() =~= before);
                }
                assert forall|u: int| 0 <= u < node_count implies (#[trigger] reverse_adj@[u])@
                    == preds(after, u as usize) by {
                    assert(after.drop_last() =~= before);
                }
            }
        } else {
            assert(kept_edges(n, edges@.subrange(0, k + 1)) == before);
        }
        k += 1;
    }
    proof {
        assert(edges@.subrange(0, edges@.len() as int) =~= edges@);
    }
    (forward_adj, reverse_adj)
}

/// Forward + reverse adjacency over a directed graph on `0..node_count`.
pub struct GraphIndex {
    node_count: usize,
    forward_adj: Vec<Vec<usize>>,
    reverse_adj: Vec<Vec<usize>>,
    out_degree: Vec<u32>,
    in_degree: Vec<u32>,
    edges: Ghost<Seq<(usize, usize)>>,
}

impl GraphIndex {
    /// The number of nodes.
    pub closed spec fn n(&self) -> nat {
        self.node_count as nat
    }

    /// The edges the index holds, in the order they were given.
    pub closed spec fn edges(&self) -> Seq<(usize, usize)> {
        self.edges@
    }

    #[verifier::type_invariant]
    closed spec fn wf(&self) -> bool {
        &&& self.forward_adj@.len() == self.node_count
        &&& self.reverse_adj@.len() == self.node_count
        &&& self.out_degree@.len() == self.node_count
        &&& self.in_degree@.len() == self.node_count
        &&& forall|u: int|
            0 <= u < self.node_count ==> #[trigger] self.forward_adj@[u]@ == succs(
                self.edges@,
                u as usize,
            )
        &&& forall|u: int|
            0 <= u < self.node_count ==> #[trigger] self.reverse_adj@[u]@ == preds(
                self.edges@,
                u as usize,
            )
        &&& forall|u: int|
            0 <= u < self.node_count ==> #[trigger] self.out_degree@[u] == succs(
                self.edges@,
                u as usize,
            ).len()
        &&& forall|u: int|
            0 <= u < self.node_count ==> #[trigger] self.in_degree@[u] == preds(
                self.edges@,
                u as usize,
            ).len()
        &&& forall|k: int|
            0 <= k < self.edges@.len() ==> #[trigger] self.edges@[k].0 < self.node_count
                && self.edges@[k].1 < self.node_count
    }

    /// Build the index from a directed edge list over `0..node_count`.
    /// Out-of-range edges are dropped. Each node's fan-in and fan-out are
    /// counted in `u32`.
    pub fn from_edges(node_count: usize, edges: &[(usize, usize)]) -> (g: Self)
        requires
            forall|u: usize|
                u < node_count ==> #[trigger] succs(kept_edges(node_count as nat, edges@), u).len() <= u32::MAX
                    && preds(kept_edges(node_count as nat, edges@), u).len() <= u32::MAX,
        ensures
            g.n() == node_count,
            g.edges() == kept_edges(node_count as nat, edges@),
    {
        let ghost kept = kept_edges(node_count as nat, edges@);
        let (forward_adj, reverse_adj) = adjacency(node_count, edges);
        let mut out_degree: Vec<u32> = Vec::new();
        let mut in_degree: Vec<u32> = Vec::new();
        let mut i: usize = 0;
        while i < node_count
            invariant
                i <= node_count,
                kept == kept_edges(node_count as nat, edges@),
                forward_adj@.len() == node_count,
                reverse_adj@.len() == node_count,
                forall|u: int| 0 <= u < node_count ==> (#[trigger] forward_adj@[u])@ == succs(kept, u as usize),
                forall|u: int| 0 <= u < node_count ==> (#[trigger] reverse_adj@[u])@ == preds(kept, u as usize),
                forall|u: int|
                    0 <= u < node_count ==> #[trigger] succs(kept, u as usize).len() <= u32::MAX && preds(
                        kept,
                        u as usize,
                    ).len() <= u32::MAX,
                out_degree@.len() == i,
                in_degree@.len() == i,
                forall|u: int| 0 <= u < i ==> #[trigger] out_degree@[u] == succs(kept, u as usize).len(),
                forall|u: int| 0 <= u < i ==> #[trigger] in_degree@[u] == preds(kept, u as usize).len(),
            decreases node_count - i,
        {
            proof {
                assert(forward_adj@[i as int]@ == succs(kept, i));
                assert(succs(kept, i).len() <= u32::MAX);
            }
            out_degree.push(forward_adj[i].len() as u32);
            in_degree.push(reverse_adj[i].len() as u32);
            i += 1;
        }
        proof {
            lemma_kept_in_range(node_count as nat, edges@);
        }
        GraphIndex {
            node_count,
            forward_adj,
            reverse_adj,
            out_degree,
            in_degree,
            edges: Ghost(kept),
        }
    }

    /// Multi-source BFS, returning depth-ordered layers: `layers[0]` is the
    /// seed set, `layers[d]` every node first reached at depth `d`.
    /// Cycle-safe: each node is visited at most once.
    pub fn bfs(&self, dir: Direction, seeds: &[usize]) -> (layers: Vec<Vec<usize>>)
        ensures
            is_bfs_layering(self.edges(), self.n(), dir, seeds@, layer_views(layers@)),
            layers_in_bfs_order(self.edges(), dir, layer_views(layers@)),
    {
        proof {
            use_type_invariant(self);
        }
        let adj: &Vec<Vec<usize>> = match dir {
            Direction::Outbound => &self.forward_adj,
            Direction::Inbound => &self.reverse_adj,
        };
        proof {
            assert forall|u: int| 0 <= u < self.node_count implies (#[trigger] adj@[u])@ == adjacent(
                self.edges@,
                dir,
                u as usize,
            ) by {}
        }
        Self::bfs_over(adj, self.node_count, Ghost(self.edges@), dir, seeds)
    }

    /// Multi-source BFS over the adjacency lists `adj` of the edges `edges`
    /// in direction `dir`.
    pub(crate) fn bfs_over(
        adj: &Vec<Vec<usize>>,
        n: usize,
        Ghost(edges): Ghost<Seq<(usize, usize)>>,
        dir: Direction,
        seeds: &[usize],
    ) -> (layers: Vec<Vec<usize>>)
        requires
            adj@.len() == n,
            forall|u: int| 0 <= u < n ==> (#[trigger] adj@[u])@ == adjacent(edges, dir, u as usize),
            forall|k: int| 0 <= k < edges.len() ==> (#[trigger] edges[k]).0 < n && edges[k].1 < n,
        ensures
            is_bfs_layering(edges, n as nat, dir, seeds@, layer_views(layers@)),
            layers_in_bfs_order(edges, dir, layer_views(layers@)),
    {
        proof {
            assert forall|u: int, j: int| 0 <= u < n && 0 <= j < adj@[u]@.len() implies #[trigger] adj@[u]@[j] < n by {
                lemma_adjacent_in_range(edges, n as nat, dir, u as usize);
            }
        }
        let mut visited: Vec<bool> = Vec::new();
        let mut c: usize = 0;
        while c < n
            invariant
                c <= n,
                visited@.len() == c,
                forall|v: int| 0 <= v < c ==> !(#[trigger] visited@[v]),
            decreases n - c,
        {
            visited.push(false);
            c += 1;
        }
        let mut frontier: Vec<usize> = Vec::new();
        let mut k: usize = 0;
        while k < seeds.len()
            invariant
                k <= seeds@.len(),
                visited@.len() == n,
                frontier@ == start_set(n as nat, seeds@.subrange(0, k as int)),
                frontier@.no_duplicates(),
                forall|i: int| 0 <= i < frontier@.len() ==> #[trigger] frontier@[i] < n,
                forall|v: int| 0 <= v < n ==> #[trigger] visited@[v] == frontier@.contains(v as usize),
            decreases seeds@.len() - k,
        {
            let s = seeds[k];
            proof {
                assert(seeds@.subrange(0, k + 1).drop_last() =~= seeds@.subrange(0, k as int));
                assert(seeds@.subrange(0, k + 1).last() == s);
            }
            if s < n && !visited[s] {
                visited.set(s, true);
                frontier.push(s);
                proof {
                    assert forall|v: int| 0 <= v < n implies #[trigger] visited@[v] == frontier@.contains(v as usize) by {
                        if v == s {
                            assert(frontier@[frontier@.len() - 1] == s);
                        } else {
                            assert(frontier@.drop_last() =~= start_set(n as nat, seeds@.subrange(0, k as int)));
                            if frontier@.contains(v as usize) {
                                let i = choose|i: int| 0 <= i < frontier@.len() && frontier@[i] == v as usize;
                                assert(frontier@.drop_last()[i] == v as usize);
                            }
                            if frontier@.drop_last().contains(v as usize) {
                                let i = choose|i: int| 0 <= i < frontier@.drop_last().len() && frontier@.drop_last()[i] == v as usize;
                                assert(frontier@[i] == v as usize);
                            }
                        }
                    }
                }
            }
            k += 1;
        }
        proof {
            assert(seeds@.subrange(0, seeds@.len() as int) =~= seeds@);
        }
        let ghost start = frontier@;
        let mut layers: Vec<Vec<usize>> = Vec::new();
        let ghost mut ls: Seq<Seq<usize>> = Seq::empty();
        proof {
            let all = ls.push(frontier@);
            lemma_push_fresh_layer(ls, frontier@, n as nat);
            assert forall|v: int| 0 <= v < n implies #[trigger] visited@[v] == in_layers(all, v as usize) by {
                lemma_in_layers_push(ls, frontier@, v as usize);
            }
            assert(layers_have_parents(edges, dir, all));
            assert(layer_views(layers@) =~= ls);
        }
        while frontier.len() > 0
            invariant
                visited@.len() == n,
                start == start_set(n as nat, seeds@),
                adj@.len() == n,
                forall|u: int| 0 <= u < n ==> (#[trigger] adj@[u])@ == adjacent(edges, dir, u as usize),
                forall|u: int, j: int| 0 <= u < n && 0 <= j < adj@[u]@.len() ==> #[trigger] adj@[u]@[j] < n,
                layer_views(layers@) == ls,
                ls.len() == 0 ==> frontier@ == start,
                ls.len() > 0 ==> ls[0] == start,
                layers_nonempty(ls),
                layers_in_range(ls.push(frontier@), n as nat),
                layers_distinct(ls.push(frontier@)),
                layers_have_parents(edges, dir, ls.push(frontier@)),
                layers_closed_upto(edges, dir, ls.push(frontier@), ls.len() as int),
                forall|v: int| 0 <= v < n ==> #[trigger] visited@[v] == in_layers(ls.push(frontier@), v as usize),
                layers_expand(edges, dir, ls.push(frontier@)),
            decreases 2 * count_false(visited@) + if frontier@.len() > 0 { 1int } else { 0int },
        {
            let ghost base = ls.push(frontier@);
            let ghost cf0 = count_false(visited@);
            let mut next: Vec<usize> = Vec::new();
            let mut fi: usize = 0;
            while fi < frontier.len()
                invariant
                    fi <= frontier@.len(),
                    base == ls.push(frontier@),
                    visited@.len() == n,
                    adj@.len() == n,
                forall|u: int| 0 <= u < n ==> (#[trigger] adj@[u])@ == adjacent(edges, dir, u as usize),
                    forall|u: int, j: int| 0 <= u < n && 0 <= j < adj@[u]@.len() ==> #[trigger] adj@[u]@[j] < n,
                    layers_in_range(base, n as nat),
                    next@.no_duplicates(),
                    forall|i: int| 0 <= i < next@.len() ==> #[trigger] next@[i] < n,
                    forall|i: int| 0 <= i < next@.len() ==> !in_layers(base, #[trigger] next@[i]),
                    forall|i: int| 0 <= i < next@.len() ==> has_parent(edges, dir, frontier@, #[trigger] next@[i]),
                    forall|j: int, v: usize| 0 <= j < fi && #[trigger] step(edges, dir, frontier@[j], v)
                        ==> in_layers(base, v) || next@.contains(v),
                    forall|v: int| 0 <= v < n ==> #[trigger] visited@[v] == (in_layers(base, v as usize)
                        || next@.contains(v as usize)),
                    count_false(visited@) + next@.len() == cf0,
                    next@ == expand(edges, dir, base, frontier@.subrange(0, fi as int)),
                decreases frontier@.len() - fi,
            {
                let u = frontier[fi];
                proof {
                    assert(base[ls.len() as int][fi as int] == u);
                }
                let nbrs: &Vec<usize> = &adj[u];
                let mut k2: usize = 0;
                while k2 < nbrs.len()
                    invariant
                        k2 <= nbrs@.len(),
                        fi < frontier@.len(),
                        u == frontier@[fi as int],
                        u < n,
                        nbrs@ == adjacent(edges, dir, u),
                        forall|j: int| 0 <= j < nbrs@.len() ==> #[trigger] nbrs@[j] < n,
                        base == ls.push(frontier@),
                        visited@.len() == n,
                        next@.no_duplicates(),
                        forall|i: int| 0 <= i < next@.len() ==> #[trigger] next@[i] < n,
                        forall|i: int| 0 <= i < next@.len() ==> !in_layers(base, #[trigger] next@[i]),
                        forall|i: int| 0 <= i < next@.len() ==> has_parent(edges, dir, frontier@, #[trigger] next@[i]),
                        forall|j: int, v: usize| 0 <= j < fi && #[trigger] step(edges, dir, frontier@[j], v)
                            ==> in_layers(base, v) || next@.contains(v),
                        forall|kk: int| 0 <= kk < k2 ==> in_layers(base, #[trigger] nbrs@[kk]) || next@.contains(nbrs@[kk]),
                        forall|v: int| 0 <= v < n ==> #[trigger] visited@[v] == (in_layers(base, v as usize)
                            || next@.contains(v as usize)),
                        count_false(visited@) + next@.len() == cf0,
                        next@ == visit_all(
                            base,
                            expand(edges, dir, base, frontier@.subrange(0, fi as int)),
                            nbrs@.subrange(0, k2 as int),
                        ),
                    decreases nbrs@.len() - k2,
                {
                    let v = nbrs[k2];
                    proof {
                        let s1 = nbrs@.subrange(0, k2 + 1);
                        assert(s1.drop_last() =~= nbrs@.subrange(0, k2 as int));
                        assert(s1.last() == v);
                    }
                    if !visited[v] {
                        proof {
                            lemma_count_false_set(visited@, v as int);
                        }
                        let ghost old_next = next@;
                        visited.set(v, true);
                        next.push(v);
                        proof {
                            assert(next@.drop_last() =~= old_next);
                            assert(next@[next@.len() - 1] == v);
                            assert(step(edges, dir, frontier@[fi as int], v)) by {
                                assert(nbrs@[k2 as int] == v);
                            }
                            assert forall|x: usize| old_next.contains(x) implies next@.contains(x) by {
                                let i = choose|i: int| 0 <= i < old_next.len() && old_next[i] == x;
                                assert(next@[i] == x);
                            }
                            assert forall|x: usize| next@.contains(x) implies old_next.contains(x) || x == v by {
                                let i = choose|i: int| 0 <= i < next@.len() && next@[i] == x;
                                if i < old_next.len() {
                                    assert(old_next[i] == x);
                                }
                            }
                            assert forall|i: int| 0 <= i < next@.len() implies has_parent(edges, dir, frontier@, #[trigger] next@[i]) by {
                                if i < old_next.len() {
                                    assert(next@[i] == old_next[i]);
                                } else {
                                    assert(frontier@[fi as int] == u);
                                }
                            }
                        }
                    }
                    k2 += 1;
                }
                proof {
                    assert(nbrs@.subrange(0, nbrs@.len() as int) =~= nbrs@);
                    let p1 = frontier@.subrange(0, fi + 1);
                    assert(p1.drop_last() =~= frontier@.subrange(0, fi as int));
                    assert(p1.last() == u);
                    assert forall|j: int, v: usize| 0 <= j < fi + 1 && #[trigger] step(edges, dir, frontier@[j], v)
                        implies in_layers(base, v) || next@.contains(v) by {
                        if j == fi {
                            let kk = choose|kk: int| 0 <= kk < nbrs@.len() && nbrs@[kk] == v;
                            assert(in_layers(base, nbrs@[kk]) || next@.contains(nbrs@[kk]));
                        }
                    }
                }
                fi += 1;
            }
            let ghost f = frontier@;
            let ghost nx = next@;
            proof {
                assert(frontier@.subrange(0, frontier@.len() as int) =~= frontier@);
                let all2 = base.push(nx);
                assert forall|d: int| 1 <= d < all2.len() implies #[trigger] all2[d] == expand(
                    edges,
                    dir,
                    all2.subrange(0, d),
                    all2[d - 1],
                ) by {
                    if d < base.len() {
                        assert(all2.subrange(0, d) =~= base.subrange(0, d));
                        assert(all2[d] == base[d]);
                        assert(all2[d - 1] == base[d - 1]);
                    } else {
                        assert(all2.subrange(0, d) =~= base);
                        assert(all2[d - 1] == f);
                    }
                }
            }
            proof {
                let all2 = base.push(nx);
                lemma_push_fresh_layer(base, nx, n as nat);
                assert forall|v: int| 0 <= v < n implies #[trigger] visited@[v] == in_layers(all2, v as usize) by {
                    lemma_in_layers_push(base, nx, v as usize);
                }
                assert(base.last() == f);
                lemma_push_parents(edges, dir, base, nx);
                assert(layers_have_parents(edges, dir, all2));
                assert forall|d: int, i: int, v: usize|
                    #![trigger step(edges, dir, all2[d][i], v)]
                    0 <= d < base.len() && d < all2.len() && 0 <= i < all2[d].len() && step(edges, dir, all2[d][i], v)
                    implies in_layers_upto(all2, d + 2, v) by {
                    assert(all2[d][i] == base[d][i]);
                    if d < ls.len() {
                        assert(step(edges, dir, base[d][i], v));
                        assert(in_layers_upto(base, d + 2, v));
                        lemma_upto_push(base, nx, d + 2, v);
                    } else {
                        assert(base[d][i] == f[i]);
                        assert(step(edges, dir, f[i], v));
                        lemma_in_layers_push(base, nx, v);
                    }
                }
            }
            layers.push(frontier);
            frontier = next;
            proof {
                ls = base;
                assert(ls.push(frontier@) =~= base.push(nx));
                assert(layer_views(layers@) =~= ls);
                assert(ls[0] == start);
            }
        }
        proof {
            let all = ls.push(frontier@);
            assert(frontier@ =~= Seq::<usize>::empty());
            assert forall|d: int, i: int|
                #![trigger ls[d][i]]
                0 <= d < ls.len() && 0 <= i < ls[d].len() implies ls[d][i] < n by {
                assert(all[d][i] == ls[d][i]);
            }
            assert forall|d1: int, i1: int, d2: int, i2: int|
                #![trigger ls[d1][i1], ls[d2][i2]]
                0 <= d1 < ls.len() && 0 <= i1 < ls[d1].len() && 0 <= d2 < ls.len() && 0 <= i2
                    < ls[d2].len() && ls[d1][i1] == ls[d2][i2] implies d1 == d2 && i1 == i2 by {
                assert(all[d1][i1] == ls[d1][i1] && all[d2][i2] == ls[d2][i2]);
            }
            assert forall|d: int, i: int|
                #![trigger ls[d][i]]
                1 <= d < ls.len() && 0 <= i < ls[d].len() implies has_parent(edges, dir, ls[d - 1], ls[d][i]) by {
                assert(all[d][i] == ls[d][i]);
                assert(all[d - 1] == ls[d - 1]);
            }
            assert forall|d: int, i: int, v: usize|
                #![trigger step(edges, dir, ls[d][i], v)]
                0 <= d < ls.len() && d < ls.len() && 0 <= i < ls[d].len() && step(edges, dir, ls[d][i], v)
                implies in_layers_upto(ls, d + 2, v) by {
                assert(all[d][i] == ls[d][i]);
                assert(in_layers_upto(all, d + 2, v));
                lemma_upto_drop_empty(ls, d + 2, v);
            }
            assert forall|d: int| 1 <= d < ls.len() implies #[trigger] ls[d] == expand(
                edges,
                dir,
                ls.subrange(0, d),
                ls[d - 1],
            ) by {
                assert(all[d] == expand(edges, dir, all.subrange(0, d), all[d - 1]));
                assert(all.subrange(0, d) =~= ls.subrange(0, d));
            }
            if ls.len() > 0 {
                assert(all[ls.len() as int] == expand(
                    edges,
                    dir,
                    all.subrange(0, ls.len() as int),
                    all[ls.len() - 1],
                ));
                assert(all.subrange(0, ls.len() as int) =~= ls);
            }
        }
        layers
    }

    pub fn node_count(&self) -> (r: usize)
        ensures
            r == self.n(),
    {
        self.node_count
    }

    /// Fan-out of `node`: the number of edges leaving it.
    pub fn out_degree(&self, node: usize) -> (r: u32)
        requires
            node < self.n(),
        ensures
            r == succs(self.edges(), node).len(),
    {
        proof {
            use_type_invariant(self);
        }
        self.out_degree[node]
    }

    /// Fan-in of `node`: the number of edges entering it.
    pub fn in_degree(&self, node: usize) -> (r: u32)
        requires
            node < self.n(),
        ensures
            r == preds(self.edges(), node).len(),
    {
        proof {
            use_type_invariant(self);
        }
        self.in_degree[node]
    }

    /// Total degree (fan-in + fan-out).
    pub fn degree(&self, node: usize) -> (r: u32)
        requires
            node < self.n(),
            succs(self.edges(), node).len() + preds(self.edges(), node).len() <= u32::MAX,
        ensures
            r == succs(self.edges(), node).len() + preds(self.edges(), node).len(),
    {
        proof {
            use_type_invariant(self);
        }
        self.out_degree[node] + self.in_degree[node]
    }
}

} // verus!

verus! {

// ─── culling filters ────────────────────────────────────────────────────────

/// Which reachability classes and edge kinds are currently shown.
#[derive(Debug, Clone, Copy, PartialEq, Eq, Structural)]
pub struct FilterState {
    pub show_prod_reachable: bool,
    pub show_dead: bool,
    /// Exported and unreferenced: its own toggle, separate from `show_dead`.
    pub show_public_unreferenced: bool,
    pub show_test_only: bool,
    pub show_generated: bool,
    pub show_static: bool,
    pub show_dynamic: bool,
}

impl Default for FilterState {
    /// Production-reachable nodes only, both edge kinds: the view never opens
    /// as a hairball.
    fn default() -> (r: Self)
        ensures
            r == (FilterState {
                show_prod_reachable: true,
                show_dead: false,
                show_public_unreferenced: false,
                show_test_only: false,
                show_generated: false,
                show_static: true,
                show_dynamic: true,
            }),
    {
        FilterState {
            show_prod_reachable: true,
            show_dead: false,
            show_public_unreferenced: false,
            show_test_only: false,
            show_generated: false,
            show_static: true,
            show_dynamic: true,
        }
    }
}

impl FilterState {
    /// Whether a node carrying these class flags matches a class this state shows.
    pub open spec fn shows_node(
        self,
        prod_reachable: bool,
        dead: bool,
        public_unreferenced: bool,
        test_only: bool,
        generated: bool,
    ) -> bool {
        (self.show_prod_reachable && prod_reachable) || (self.show_dead && dead) || (
        self.show_public_unreferenced && public_unreferenced) || (self.show_test_only && test_only)
            || (self.show_generated && generated)
    }

    /// Per-node visibility over five index-aligned class slices: a node is
    /// visible if it matches ANY class this state shows.
    pub fn visible_nodes(
        &self,
        prod_reachable: &[bool],
        dead: &[bool],
        public_unreferenced: &[bool],
        test_only: &[bool],
        generated: &[bool],
    ) -> (r: Vec<bool>)
        requires
            dead@.len() >= prod_reachable@.len(),
            public_unreferenced@.len() >= prod_reachable@.len(),
            test_only@.len() >= prod_reachable@.len(),
            generated@.len() >= prod_reachable@.len(),
        ensures
            r@.len() == prod_reachable@.len(),
            forall|i: int|
                0 <= i < r@.len() ==> #[trigger] r@[i] == self.shows_node(
                    prod_reachable@[i],
                    dead@[i],
                    public_unreferenced@[i],
                    test_only@[i],
                    generated@[i],
                ),
    {
        let n = prod_reachable.len();
        let mut out: Vec<bool> = Vec::new();
        let mut i: usize = 0;
        while i < n
            invariant
                i <= n,
                n == prod_reachable@.len(),
                dead@.len() >= n,
                public_unreferenced@.len() >= n,
                test_only@.len() >= n,
                generated@.len() >= n,
                out@.len() == i,
                forall|j: int|
                    0 <= j < i ==> #[trigger] out@[j] == self.shows_node(
                        prod_reachable@[j],
                        dead@[j],
                        public_unreferenced@[j],
                        test_only@[j],
                        generated@[j],
                    ),
            decreases n - i,
        {
            let v = (self.show_prod_reachable && prod_reachable[i]) || (self.show_dead && dead[i])
                || (self.show_public_unreferenced && public_unreferenced[i]) || (
            self.show_test_only && test_only[i]) || (self.show_generated && generated[i]);
            out.push(v);
            i += 1;
        }
        out
    }

    /// Edge-kind visibility: static vs. dynamic dispatch.
    pub fn edge_visible(&self, dynamic: bool) -> (r: bool)
        ensures
            r == if dynamic {
                self.show_dynamic
            } else {
                self.show_static
            },
    {
        if dynamic {
            self.show_dynamic
        } else {
            self.show_static
        }
    }
}

// ─── reachability badges ───────────────────────────────────────────────────

/// A CANDIDATE reachability classification, never a verdict.
#[derive(Debug, Clone, Copy, PartialEq, Eq, Structural)]
pub enum Reach {
    Root,
    Generated,
    TestOnly,
    Dead,
    /// Exported, and no static caller found: a fact about what was found,
    /// deliberately not a dead-code candidate.
    PublicUnreferenced,
}

impl Reach {
    pub open spec fn label_spec(self) -> Seq<char> {
        match self {
            Reach::Root => "root"@,
            Reach::Generated => "generated"@,
            Reach::TestOnly => "test-only"@,
            Reach::Dead => "dead"@,
            Reach::PublicUnreferenced => "public, unreferenced"@,
        }
    }

    pub open spec fn color_var_spec(self) -> Seq<char> {
        match self {
            Reach::Root => "var(--reach-root)"@,
            Reach::Generated => "var(--reach-generated)"@,
            Reach::TestOnly => "var(--reach-test-only)"@,
            Reach::Dead => "var(--reach-dead)"@,
            Reach::PublicUnreferenced => "var(--reach-public-unreferenced)"@,
        }
    }

    pub open spec fn tooltip_spec(self) -> Seq<char> {
        match self {
            Reach::Root => "Entrypoint: invoked from outside the analysed module."@,
            Reach::Generated => "Generated code — excluded from dead-code candidates."@,
            Reach::TestOnly => "CANDIDATE: reached only from tests. Reflection, encoding/json interfaces, cgo and external entrypoints can hide production callers."@,
            Reach::Dead => "CANDIDATE: no static caller found. Reflection, encoding/json interfaces, cgo and external entrypoints can hide callers — verify before deleting."@,
            Reach::PublicUnreferenced => "FACT, not a dead-code candidate: exported, and no caller was found inside the analysed module. Public symbols are called from outside it, and derive machinery and dynamic dispatch are never resolved — so this analysis cannot show a public function is unused."@,
        }
    }

    /// The badge's short label.
    pub fn label(self) -> (r: &'static str)
        ensures
            r@ == self.label_spec(),
    {
        match self {
            Reach::Root => "root",
            Reach::Generated => "generated",
            Reach::TestOnly => "test-only",
            Reach::Dead => "dead",
            Reach::PublicUnreferenced => "public, unreferenced",
        }
    }

    /// The CSS custom property carrying this badge's tint (a dedicated
    /// `--reach-*` scale).
    pub fn color_var(self) -> (r: &'static str)
        ensures
            r@ == self.color_var_spec(),
    {
        match self {
            Reach::Root => "var(--reach-root)",
            Reach::Generated => "var(--reach-generated)",
            Reach::TestOnly => "var(--reach-test-only)",
            Reach::Dead => "var(--reach-dead)",
            Reach::PublicUnreferenced => "var(--reach-public-unreferenced)",
        }
    }

    /// Hover text; the two inferred classifications name their blind spots.
    pub fn tooltip(self) -> (r: &'static str)
        ensures
            r@ == self.tooltip_spec(),
    {
        match self {
            Reach::Root => "Entrypoint: invoked from outside the analysed module.",
            Reach::Generated => "Generated code — excluded from dead-code candidates.",
            Reach::TestOnly => "CANDIDATE: reached only from tests. Reflection, encoding/json interfaces, cgo and external entrypoints can hide production callers.",
            Reach::Dead => "CANDIDATE: no static caller found. Reflection, encoding/json interfaces, cgo and external entrypoints can hide callers — verify before deleting.",
            Reach::PublicUnreferenced => "FACT, not a dead-code candidate: exported, and no caller was found inside the analysed module. Public symbols are called from outside it, and derive machinery and dynamic dispatch are never resolved — so this analysis cannot show a public function is unused.",
        }
    }
}

/// The candidate classifications of one function, in badge order, per the
/// contract's own predicates (`dead` narrowed to unexported functions).
pub open spec fn reach_badges_spec(f: CodeGraphFunction) -> Seq<Reach> {
    let s0: Seq<Reach> = if f.root {
        seq![Reach::Root]
    } else {
        seq![]
    };
    let s1 = if f.generated {
        s0.push(Reach::Generated)
    } else {
        s0
    };
    let s2 = if !f.reachable && !f.generated && !f.root {
        s1.push(
            if f.exported {
                Reach::PublicUnreferenced
            } else {
                Reach::Dead
            },
        )
    } else {
        s1
    };
    if f.reachable && !f.prod_reachable && !f.test && !f.root && !f.generated {
        s2.push(Reach::TestOnly)
    } else {
        s2
    }
}

/// The candidate classifications for one function.
pub fn reach_badges(f: &CodeGraphFunction) -> (r: Vec<Reach>)
    ensures
        r@ == reach_badges_spec(*f),
{
    let mut out: Vec<Reach> = Vec::new();
    if f.root {
        out.push(Reach::Root);
    }
    if f.generated {
        out.push(Reach::Generated);
    }
    if !f.reachable && !f.generated && !f.root {
        out.push(
            if f.exported {
                Reach::PublicUnreferenced
            } else {
                Reach::Dead
            },
        );
    }
    if f.reachable && !f.prod_reachable && !f.test && !f.root && !f.generated {
        out.push(Reach::TestOnly);
    }
    proof {
        assert(out@ =~= reach_badges_spec(*f));
    }
    out
}

/// Badge law: each badge appears exactly when the contract's predicate for it
/// holds, so a root or generated function is never dead, an exported
/// unreached function is never asserted dead, and every unreached function
/// that is neither root nor generated still gets exactly one class.
pub proof fn lemma_reach_badges_follow_predicates(f: CodeGraphFunction)
    ensures
        reach_badges_spec(f).contains(Reach::Root) <==> f.root,
        reach_badges_spec(f).contains(Reach::Generated) <==> f.generated,
        reach_badges_spec(f).contains(Reach::Dead) <==> !f.reachable && !f.generated && !f.root
            && !f.exported,
        reach_badges_spec(f).contains(Reach::PublicUnreferenced) <==> !f.reachable && !f.generated
            && !f.root && f.exported,
        reach_badges_spec(f).contains(Reach::TestOnly) <==> f.reachable && !f.prod_reachable
            && !f.test && !f.root && !f.generated,
        reach_badges_spec(f).no_duplicates(),
{
    let s = reach_badges_spec(f);
    assert forall|r: Reach| s.contains(r) implies (r == Reach::Root ==> f.root) && (r == Reach::Generated
        ==> f.generated) && (r == Reach::Dead ==> !f.reachable && !f.generated && !f.root
        && !f.exported) && (r == Reach::PublicUnreferenced ==> !f.reachable && !f.generated
        && !f.root && f.exported) && (r == Reach::TestOnly ==> f.reachable && !f.prod_reachable
        && !f.test && !f.root && !f.generated) by {
        let i = choose|i: int| 0 <= i < s.len() && s[i] == r;
    }
    if f.root {
        assert(s[0] == Reach::Root);
    }
    if f.generated {
        let k: int = if f.root { 1 } else { 0 };
        assert(s[k] == Reach::Generated);
    }
    if !f.reachable && !f.generated && !f.root {
        assert(s[0] == (if f.exported { Reach::PublicUnreferenced } else { Reach::Dead }));
    }
    if f.reachable && !f.prod_reachable && !f.test && !f.root && !f.generated {
        assert(s[0] == Reach::TestOnly);
    }
}

// ─── signatures ────────────────────────────────────────────────────────────

/// `parts` joined with `sep` between consecutive parts.
pub open spec fn join_spec(parts: Seq<Seq<char>>, sep: Seq<char>) -> Seq<char>
    decreases parts.len(),
{
    if parts.len() == 0 {
        seq![]
    } else if parts.len() == 1 {
        parts[0]
    } else {
        join_spec(parts.drop_last(), sep) + sep + parts.last()
    }
}

/// One parameter as `name type`, or just `type` when unnamed.
pub open spec fn param_text(p: crate::models::CodeGraphParam) -> Seq<char> {
    match p.name {
        Some(n) => n@ + " "@ + p.param_type@,
        None => p.param_type@,
    }
}

/// The rendered parameter list, without parentheses.
pub open spec fn params_text(sig: CodeGraphSignature) -> Seq<char> {
    join_spec(sig.params@.map_values(|p: crate::models::CodeGraphParam| param_text(p)), ", "@)
}

/// The result types, in order.
pub open spec fn result_types(sig: CodeGraphSignature) -> Seq<Seq<char>> {
    sig.results@.map_values(|r: crate::models::CodeGraphResult| r.result_type@)
}

/// A Go-style signature: `(params)`, then nothing, the single result, or the
/// parenthesised result list.
pub open spec fn signature_text(sig: CodeGraphSignature) -> Seq<char> {
    let results = result_types(sig);
    if results.len() == 0 {
        "("@ + params_text(sig) + ")"@
    } else if results.len() == 1 {
        "("@ + params_text(sig) + ") "@ + results[0]
    } else {
        "("@ + params_text(sig) + ") ("@ + join_spec(results, ", "@) + ")"@
    }
}

/// Render a Go-style signature: `(a int, string) (int, error)`.
pub fn format_signature(sig: &CodeGraphSignature) -> (r: String)
    ensures
        r@ == signature_text(*sig),
{
    let ghost ptexts = sig.params@.map_values(|p: crate::models::CodeGraphParam| param_text(p));
    let mut params = String::new();
    let mut i: usize = 0;
    while i < sig.params.len()
        invariant
            i <= sig.params@.len(),
            ptexts == sig.params@.map_values(|p: crate::models::CodeGraphParam| param_text(p)),
            params@ == join_spec(ptexts.subrange(0, i as int), ", "@),
        decreases sig.params@.len() - i,
    {
        let p = &sig.params[i];
        if i > 0 {
            params.append(", ");
        }
        match &p.name {
            Some(n) => {
                params.append(n.as_str());
                params.append(" ");
                params.append(p.param_type.as_str());
            },
            None => {
                params.append(p.param_type.as_str());
            },
        }
        proof {
            let pre = ptexts.subrange(0, i as int);
            let post = ptexts.subrange(0, i + 1);
            assert(post.drop_last() =~= pre);
            assert(post.last() == param_text(sig.params@[i as int]));
            if i == 0 {
                assert(params@ =~= post[0]);
            } else {
                assert(params@ =~= join_spec(pre, ", "@) + ", "@ + post.last());
            }
        }
        i += 1;
    }
    proof {
        assert(ptexts.subrange(0, sig.params@.len() as int) =~= ptexts);
    }
    let ghost rtexts = result_types(*sig);
    let nres = sig.results.len();
    let mut out = String::new();
    out.append("(");
    out.append(params.as_str());
    if nres == 0 {
        out.append(")");
    } else if nres == 1 {
        out.append(") ");
        out.append(sig.results[0].result_type.as_str());
    } else {
        out.append(") (");
        let mut k: usize = 0;
        let ghost prefix = out@;
        while k < nres
            invariant
                k <= nres,
                nres == sig.results@.len(),
                rtexts == result_types(*sig),
                out@ == prefix + join_spec(rtexts.subrange(0, k as int), ", "@),
            decreases nres - k,
        {
            if k > 0 {
                out.append(", ");
            }
            out.append(sig.results[k].result_type.as_str());
            proof {
                let pre = rtexts.subrange(0, k as int);
                let post = rtexts.subrange(0, k + 1);
                assert(post.drop_last() =~= pre);
                if k == 0 {
                    assert(out@ =~= prefix + post[0]);
                } else {
                    assert(out@ =~= prefix + (join_spec(pre, ", "@) + ", "@ + post.last()));
                }
            }
            k += 1;
        }
        proof {
            assert(rtexts.subrange(0, nres as int) =~= rtexts);
        }
        out.append(")");
    }
    proof {
        if nres == 0 {
            assert(out@ =~= "("@ + params_text(*sig) + ")"@);
        } else if nres == 1 {
            assert(out@ =~= "("@ + params_text(*sig) + ") "@ + rtexts[0]);
        } else {
            assert(out@ =~= "("@ + params_text(*sig) + ") ("@ + join_spec(rtexts, ", "@) + ")"@);
        }
    }
    out
}

} // verus!
