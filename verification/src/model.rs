//! The layered Code Graph model: candidate reachability badges, signatures,
//! and the deterministic layered layout (BFS call depth from the roots) of
//! the module tier and of one module's functions, as grid cells.
use vstd::prelude::*;

use crate::graph::{is_bfs_layering, layer_views, signature_text, start_set, Direction, GraphIndex};
use crate::models::{
    CodeGraph, CodeGraphCall, CodeGraphFunction, CodeGraphModule, CodeGraphModuleCall, CodeGraphSignature,
};
use crate::text::{decimal, decimal_spec, dedup_first, last_pos, texts};
use crate::view_model::{calls_of, depth_of, functions_of, module_calls_of, modules_of};

verus! {

/// A CANDIDATE reachability classification, never a verdict.
#[derive(Debug, Clone, Copy, PartialEq, Eq, Structural)]
pub enum Reach {
    Root,
    Generated,
    TestOnly,
    Dead,
}

impl Reach {
    pub open spec fn label_spec(self) -> Seq<char> {
        match self {
            Reach::Root => "root"@,
            Reach::Generated => "generated"@,
            Reach::TestOnly => "test-only"@,
            Reach::Dead => "dead"@,
        }
    }

    pub open spec fn color_var_spec(self) -> Seq<char> {
        match self {
            Reach::Root => "var(--reach-root)"@,
            Reach::Generated => "var(--reach-generated)"@,
            Reach::TestOnly => "var(--reach-test-only)"@,
            Reach::Dead => "var(--reach-dead)"@,
        }
    }

    pub open spec fn tooltip_spec(self) -> Seq<char> {
        match self {
            Reach::Root => "Entrypoint: invoked from outside the analysed module."@,
            Reach::Generated => "Generated code — excluded from dead-code candidates."@,
            Reach::TestOnly => "CANDIDATE: reached only from tests. Reflection, encoding/json interfaces, cgo and external entrypoints can hide production callers."@,
            Reach::Dead => "CANDIDATE: no static caller found. Reflection, encoding/json interfaces, cgo and external entrypoints can hide callers — verify before deleting."@,
        }
    }

    /// The badge's short label.
    pub fn label(self) -> (r: &'static str)
        ensures
            r@ == self.label_spec(),
    {
        match self {
            Reach::Root => "root",
            Reach::Generated => "generated",
            Reach::TestOnly => "test-only",
            Reach::Dead => "dead",
        }
    }

    /// The CSS custom property carrying this badge's tint.
    pub fn color_var(self) -> (r: &'static str)
        ensures
            r@ == self.color_var_spec(),
    {
        match self {
            Reach::Root => "var(--reach-root)",
            Reach::Generated => "var(--reach-generated)",
            Reach::TestOnly => "var(--reach-test-only)",
            Reach::Dead => "var(--reach-dead)",
        }
    }

    /// Hover text; the two inferred classifications name their blind spots.
    pub fn tooltip(self) -> (r: &'static str)
        ensures
            r@ == self.tooltip_spec(),
    {
        match self {
            Reach::Root => "Entrypoint: invoked from outside the analysed module.",
            Reach::Generated => "Generated code — excluded from dead-code candidates.",
            Reach::TestOnly => "CANDIDATE: reached only from tests. Reflection, encoding/json interfaces, cgo and external entrypoints can hide production callers.",
            Reach::Dead => "CANDIDATE: no static caller found. Reflection, encoding/json interfaces, cgo and external entrypoints can hide callers — verify before deleting.",
        }
    }
}

/// The candidate classifications of one function, in badge order:
/// `dead = !reachable && !generated && !root`,
/// `test_only = reachable && !prod_reachable && !test && !root && !generated`.
pub open spec fn reach_badges_spec(f: CodeGraphFunction) -> Seq<Reach> {
    let s0: Seq<Reach> = if f.root {
        seq![Reach::Root]
    } else {
        seq![]
    };
    let s1 = if f.generated {
        s0.push(Reach::Generated)
    } else {
        s0
    };
    let s2 = if !f.reachable && !f.generated && !f.root {
        s1.push(Reach::Dead)
    } else {
        s1
    };
    if f.reachable && !f.prod_reachable && !f.test && !f.root && !f.generated {
        s2.push(Reach::TestOnly)
    } else {
        s2
    }
}

/// The candidate classifications for one function.
pub fn reach_badges(f: &CodeGraphFunction) -> (r: Vec<Reach>)
    ensures
        r@ == reach_badges_spec(*f),
{
    let mut out: Vec<Reach> = Vec::new();
    if f.root {
        out.push(Reach::Root);
    }
    if f.generated {
        out.push(Reach::Generated);
    }
    if !f.reachable && !f.generated && !f.root {
        out.push(Reach::Dead);
    }
    if f.reachable && !f.prod_reachable && !f.test && !f.root && !f.generated {
        out.push(Reach::TestOnly);
    }
    proof {
        assert(out@ =~= reach_badges_spec(*f));
    }
    out
}

/// Badge law: each badge appears exactly when the contract's predicate for
/// it holds (a root or generated function is never dead), and no badge
/// appears twice.
pub proof fn lemma_reach_badges_follow_predicates(f: CodeGraphFunction)
    ensures
        reach_badges_spec(f).contains(Reach::Root) <==> f.root,
        reach_badges_spec(f).contains(Reach::Generated) <==> f.generated,
        reach_badges_spec(f).contains(Reach::Dead) <==> !f.reachable && !f.generated && !f.root,
        reach_badges_spec(f).contains(Reach::TestOnly) <==> f.reachable && !f.prod_reachable
            && !f.test && !f.root && !f.generated,
        reach_badges_spec(f).no_duplicates(),
{
    let s = reach_badges_spec(f);
    assert forall|r: Reach| s.contains(r) implies (r == Reach::Root ==> f.root) && (r == Reach::Generated
        ==> f.generated) && (r == Reach::Dead ==> !f.reachable && !f.generated && !f.root) && (r
        == Reach::TestOnly ==> f.reachable && !f.prod_reachable && !f.test && !f.root
        && !f.generated) by {
        let i = choose|i: int| 0 <= i < s.len() && s[i] == r;
    }
    if f.root {
        assert(s[0] == Reach::Root);
    }
    if f.generated {
        let k: int = if f.root { 1 } else { 0 };
        assert(s[k] == Reach::Generated);
    }
    if !f.reachable && !f.generated && !f.root {
        assert(s[0] == Reach::Dead);
    }
    if f.reachable && !f.prod_reachable && !f.test && !f.root && !f.generated {
        assert(s[0] == Reach::TestOnly);
    }
}

/// Render a Go-style signature: `(a int, string) (int, error)`; a single
/// result is unparenthesised.
pub fn format_signature(sig: &CodeGraphSignature) -> (r: String)
    ensures
        r@ == signature_text(*sig),
{
    crate::graph::format_signature(sig)
}

} // verus!

verus! {

// ─── layers ────────────────────────────────────────────────────────────────

/// The layer of node `v` under a layering: the layer holding it, or one
/// trailing layer past the last for a node no layer holds.
pub open spec fn layer_of(ls: Seq<Seq<usize>>, v: usize) -> int {
    if depth_of(ls, v) >= 0 {
        depth_of(ls, v)
    } else {
        ls.len() as int
    }
}

/// The layer of every node of `0..n`.
fn layer_column(n: usize, layers: &Vec<Vec<usize>>) -> (r: Vec<usize>)
    requires
        forall|d: int, i: int|
            0 <= d < layers@.len() && 0 <= i < layers@[d]@.len() ==> #[trigger] layers@[d]@[i] < n,
    ensures
        r@.len() == n,
        forall|v: int|
            0 <= v < n ==> #[trigger] r@[v] as int == layer_of(layer_views(layers@), v as usize),
{
    let trailing = layers.len();
    let ghost ls = layer_views(layers@);
    let mut col: Vec<usize> = Vec::new();
    let mut c: usize = 0;
    while c < n
        invariant
            c <= n,
            col@.len() == c,
            forall|v: int| 0 <= v < c ==> #[trigger] col@[v] == trailing,
        decreases n - c,
    {
        col.push(trailing);
        c += 1;
    }
    let mut d: usize = 0;
    while d < layers.len()
        invariant
            d <= layers@.len(),
            trailing == layers@.len(),
            ls == layer_views(layers@),
            col@.len() == n,
            forall|dd: int, i: int|
                0 <= dd < layers@.len() && 0 <= i < layers@[dd]@.len() ==> #[trigger] layers@[dd]@[i]
                    < n,
            forall|v: int|
                0 <= v < n ==> #[trigger] col@[v] as int == if depth_of(
                    ls.subrange(0, d as int),
                    v as usize,
                ) >= 0 {
                    depth_of(ls.subrange(0, d as int), v as usize)
                } else {
                    trailing as int
                },
        decreases layers@.len() - d,
    {
        let layer = &layers[d];
        let ghost before = col@;
        let mut i: usize = 0;
        while i < layer.len()
            invariant
                d < layers@.len(),
                layer@ == layers@[d as int]@,
                i <= layer@.len(),
                col@.len() == n,
                forall|k: int| 0 <= k < layer@.len() ==> #[trigger] layer@[k] < n,
                forall|v: int|
                    0 <= v < n ==> #[trigger] col@[v] == if layer@.subrange(0, i as int).contains(
                        v as usize,
                    ) {
                        d
                    } else {
                        before[v]
                    },
            decreases layer@.len() - i,
        {
            let v = layer[i];
            col.set(v, d);
            proof {
                assert forall|w: int| 0 <= w < n implies #[trigger] col@[w] == if layer@.subrange(
                    0,
                    i + 1,
                ).contains(w as usize) {
                    d
                } else {
                    before[w]
                } by {
                    let s1 = layer@.subrange(0, i + 1);
                    let s0 = layer@.subrange(0, i as int);
                    assert(s1 =~= s0.push(v));
                    if s0.contains(w as usize) {
                        let k = choose|k: int| 0 <= k < s0.len() && s0[k] == w as usize;
                        assert(s1[k] == w as usize);
                    }
                    if s1.contains(w as usize) && w as usize != v {
                        let k = choose|k: int| 0 <= k < s1.len() && s1[k] == w as usize;
                        assert(s0[k] == w as usize);
                    }
                    if w as usize == v {
                        assert(s1[i as int] == v);
                    }
                }
            }
            i += 1;
        }
        proof {
            assert(layer@.subrange(0, layer@.len() as int) =~= layer@);
            let s1 = ls.subrange(0, d + 1);
            assert(s1.drop_last() =~= ls.subrange(0, d as int));
            assert(s1.last() == layer@);
        }
        d += 1;
    }
    proof {
        assert(ls.subrange(0, layers@.len() as int) =~= ls);
    }
    col
}

} // verus!

verus! {

/// Call pairs `(from id, to id)` by their characters.
pub open spec fn pair_texts(edges: Seq<(String, String)>) -> Seq<(Seq<char>, Seq<char>)> {
    edges.map_values(|e: (String, String)| (e.0@, e.1@))
}

/// Every id an edge names, `from` then `to`, in edge order.
pub open spec fn edge_names(edges: Seq<(Seq<char>, Seq<char>)>) -> Seq<Seq<char>>
    decreases edges.len(),
{
    if edges.len() == 0 {
        seq![]
    } else {
        edge_names(edges.drop_last()).push(edges.last().0).push(edges.last().1)
    }
}

/// Every distinct id the layering knows: the ids, then those the edges and
/// the roots add, each at its first occurrence.
pub open spec fn layer_names(
    ids: Seq<Seq<char>>,
    roots: Seq<Seq<char>>,
    edges: Seq<(Seq<char>, Seq<char>)>,
) -> Seq<Seq<char>> {
    dedup_first(ids + edge_names(edges) + roots)
}

/// The node index of an id among `names`.
pub open spec fn name_at(names: Seq<Seq<char>>, x: Seq<char>) -> usize {
    match last_pos(names, x) {
        Some(i) => i as usize,
        None => 0,
    }
}

/// The call edges as node-index pairs over `names`.
pub open spec fn name_edges(
    names: Seq<Seq<char>>,
    edges: Seq<(Seq<char>, Seq<char>)>,
) -> Seq<(usize, usize)> {
    edges.map_values(|e: (Seq<char>, Seq<char>)| (name_at(names, e.0), name_at(names, e.1)))
}

/// The roots as node indices over `names`.
pub open spec fn name_seeds(names: Seq<Seq<char>>, roots: Seq<Seq<char>>) -> Seq<usize> {
    roots.map_values(|r: Seq<char>| name_at(names, r))
}

/// `ls` is the breadth-first layering of the call graph from the roots, over
/// every id the ids, roots and edges name.
pub open spec fn is_call_layering(
    ids: Seq<Seq<char>>,
    roots: Seq<Seq<char>>,
    edges: Seq<(Seq<char>, Seq<char>)>,
    ls: Seq<Seq<usize>>,
) -> bool {
    let names = layer_names(ids, roots, edges);
    is_bfs_layering(
        name_edges(names, edges),
        names.len(),
        Direction::Outbound,
        name_seeds(names, roots),
        ls,
    )
}

proof fn lemma_edge_names_push(edges: Seq<(Seq<char>, Seq<char>)>, e: (Seq<char>, Seq<char>))
    ensures
        edge_names(edges.push(e)) == edge_names(edges).push(e.0).push(e.1),
{
    assert(edges.push(e).drop_last() =~= edges);
}

proof fn lemma_edge_names_contains(edges: Seq<(Seq<char>, Seq<char>)>, k: int)
    requires
        0 <= k < edges.len(),
    ensures
        edge_names(edges).contains(edges[k].0),
        edge_names(edges).contains(edges[k].1),
    decreases edges.len(),
{
    let en = edge_names(edges);
    let pre = edges.drop_last();
    if k == edges.len() - 1 {
        assert(en[en.len() - 2] == edges[k].0);
        assert(en[en.len() - 1] == edges[k].1);
    } else {
        lemma_edge_names_contains(pre, k);
        let ep = edge_names(pre);
        assert(pre[k] == edges[k]);
        let a = choose|j: int| 0 <= j < ep.len() && ep[j] == edges[k].0;
        let b = choose|j: int| 0 <= j < ep.len() && ep[j] == edges[k].1;
        assert(en[a] == ep[a]);
        assert(en[b] == ep[b]);
    }
}

} // verus!

verus! {

/// Every distinct id among `ids`, the edges' endpoints and `roots`.
fn collect_names(ids: &Vec<String>, roots: &Vec<String>, edges: &Vec<(String, String)>) -> (r: Vec<
    String,
>)
    ensures
        texts(r@) == layer_names(texts(ids@), texts(roots@), pair_texts(edges@)),
{
    let mut all: Vec<String> = Vec::new();
    let mut i: usize = 0;
    while i < ids.len()
        invariant
            i <= ids@.len(),
            texts(all@) == texts(ids@).subrange(0, i as int),
        decreases ids@.len() - i,
    {
        let ghost before = all@;
        all.push(ids[i].clone());
        proof {
            assert(texts(all@) =~= texts(before).push(ids@[i as int]@));
            assert(texts(all@) =~= texts(ids@).subrange(0, i + 1));
        }
        i += 1;
    }
    proof {
        assert(texts(ids@).subrange(0, ids@.len() as int) =~= texts(ids@));
    }
    let ghost et = pair_texts(edges@);
    let mut k: usize = 0;
    while k < edges.len()
        invariant
            k <= edges@.len(),
            et == pair_texts(edges@),
            texts(all@) == texts(ids@) + edge_names(et.subrange(0, k as int)),
        decreases edges@.len() - k,
    {
        let ghost before = texts(all@);
        all.push(edges[k].0.clone());
        all.push(edges[k].1.clone());
        proof {
            let s1 = et.subrange(0, k + 1);
            assert(s1 =~= et.subrange(0, k as int).push(et[k as int]));
            lemma_edge_names_push(et.subrange(0, k as int), et[k as int]);
            assert(texts(all@) =~= before.push(et[k as int].0).push(et[k as int].1));
            assert(texts(all@) =~= texts(ids@) + edge_names(s1));
        }
        k += 1;
    }
    proof {
        assert(et.subrange(0, edges@.len() as int) =~= et);
    }
    let ghost mid = texts(all@);
    let mut j: usize = 0;
    while j < roots.len()
        invariant
            j <= roots@.len(),
            mid == texts(ids@) + edge_names(et),
            et == pair_texts(edges@),
            texts(all@) == mid + texts(roots@).subrange(0, j as int),
        decreases roots@.len() - j,
    {
        let ghost before = all@;
        all.push(roots[j].clone());
        proof {
            assert(texts(all@) =~= texts(before).push(roots@[j as int]@));
            assert(texts(all@) =~= mid + texts(roots@).subrange(0, j + 1));
        }
        j += 1;
    }
    proof {
        assert(texts(roots@).subrange(0, roots@.len() as int) =~= texts(roots@));
    }
    let ghost at = texts(all@);
    let mut names: Vec<String> = Vec::new();
    let mut m: usize = 0;
    while m < all.len()
        invariant
            m <= all@.len(),
            at == texts(all@),
            texts(names@) == dedup_first(at.subrange(0, m as int)),
        decreases all@.len() - m,
    {
        let ghost pre = at.subrange(0, m as int);
        proof {
            assert(at.subrange(0, m + 1) =~= pre.push(at[m as int]));
            crate::text::lemma_dedup_push(pre, at[m as int]);
            assert(at[m as int] == all@[m as int]@);
        }
        let present = crate::text::contains_text(&names, all[m].as_str());
        proof {
            if present {
                let q = choose|q: int| 0 <= q < names@.len() && (#[trigger] names@[q])@ == all@[m as int]@;
                assert(texts(names@)[q] == at[m as int]);
            } else {
                assert forall|q: int| 0 <= q < texts(names@).len() implies texts(names@)[q] != at[m as int] by {
                    assert(texts(names@)[q] == names@[q]@);
                }
            }
        }
        if !present {
            let ghost before = names@;
            names.push(all[m].clone());
            proof {
                assert(texts(names@) =~= texts(before).push(at[m as int]));
            }
        }
        m += 1;
    }
    proof {
        assert(at.subrange(0, all@.len() as int) =~= at);
    }
    names
}

} // verus!

verus! {

/// The layering knows at most as many names as its inputs hold.
pub proof fn lemma_layer_names_len(
    ids: Seq<Seq<char>>,
    roots: Seq<Seq<char>>,
    edges: Seq<(Seq<char>, Seq<char>)>,
)
    ensures
        layer_names(ids, roots, edges).len() <= ids.len() + 2 * edges.len() + roots.len(),
{
    lemma_edge_names_len(edges);
    crate::text::lemma_dedup_len(ids + edge_names(edges) + roots);
}

proof fn lemma_edge_names_len(edges: Seq<(Seq<char>, Seq<char>)>)
    ensures
        edge_names(edges).len() == 2 * edges.len(),
    decreases edges.len(),
{
    if edges.len() > 0 {
        lemma_edge_names_len(edges.drop_last());
    }
}

/// Every id, edge endpoint and root is one of the layer names.
proof fn lemma_names_cover(
    ids: Seq<Seq<char>>,
    roots: Seq<Seq<char>>,
    edges: Seq<(Seq<char>, Seq<char>)>,
)
    ensures
        forall|i: int| 0 <= i < ids.len() ==> layer_names(ids, roots, edges).contains(#[trigger] ids[i]),
        forall|i: int|
            0 <= i < roots.len() ==> layer_names(ids, roots, edges).contains(#[trigger] roots[i]),
        forall|k: int|
            0 <= k < edges.len() ==> layer_names(ids, roots, edges).contains((#[trigger] edges[k]).0)
                && layer_names(ids, roots, edges).contains(edges[k].1),
        layer_names(ids, roots, edges).no_duplicates(),
{
    let all = ids + edge_names(edges) + roots;
    crate::text::lemma_dedup_first(all);
    assert forall|i: int| 0 <= i < ids.len() implies layer_names(ids, roots, edges).contains(
        #[trigger] ids[i],
    ) by {
        assert(all[i] == ids[i]);
        assert(all.contains(ids[i]));
    }
    assert forall|i: int| 0 <= i < roots.len() implies layer_names(ids, roots, edges).contains(
        #[trigger] roots[i],
    ) by {
        assert(all[ids.len() + edge_names(edges).len() + i] == roots[i]);
        assert(all.contains(roots[i]));
    }
    assert forall|k: int| 0 <= k < edges.len() implies layer_names(ids, roots, edges).contains(
        (#[trigger] edges[k]).0,
    ) && layer_names(ids, roots, edges).contains(edges[k].1) by {
        lemma_edge_names_contains(edges, k);
        let en = edge_names(edges);
        let a = choose|j: int| 0 <= j < en.len() && en[j] == edges[k].0;
        let b = choose|j: int| 0 <= j < en.len() && en[j] == edges[k].1;
        assert(all[ids.len() + a] == edges[k].0);
        assert(all[ids.len() + b] == edges[k].1);
        assert(all.contains(edges[k].0));
        assert(all.contains(edges[k].1));
    }
}

/// The node index of an id known to be among `names`.
fn index_of_name(names: &Vec<String>, x: &String) -> (r: usize)
    requires
        texts(names@).contains(x@),
    ensures
        r == name_at(texts(names@), x@),
        r < names@.len(),
        texts(names@)[r as int] == x@,
{
    proof {
        crate::text::lemma_last_pos_some(texts(names@), x@);
        crate::text::lemma_last_pos_bounds(texts(names@), x@);
    }
    match crate::text::last_position_of(names, x) {
        Some(p) => p,
        None => 0,
    }
}

/// The call layering over every name the inputs mention: the names, in
/// first-mention order (ids, then edge endpoints, then roots), each name's
/// layer, the layering, and its number of layers.
fn call_layering(ids: &Vec<String>, roots: &Vec<String>, edges: &Vec<(String, String)>) -> (r: (
    Vec<String>,
    Vec<usize>,
    Ghost<Seq<Seq<usize>>>,
    usize,
))
    ensures
        texts(r.0@) == layer_names(texts(ids@), texts(roots@), pair_texts(edges@)),
        r.1@.len() == r.0@.len(),
        is_call_layering(texts(ids@), texts(roots@), pair_texts(edges@), r.2@),
        r.2@.len() <= r.0@.len(),
        r.3 == r.2@.len(),
        forall|v: int| 0 <= v < r.0@.len() ==> #[trigger] r.1@[v] as int == layer_of(r.2@, v as usize),
{
    let names = collect_names(ids, roots, edges);
    let ghost idt = texts(ids@);
    let ghost rt = texts(roots@);
    let ghost et = pair_texts(edges@);
    let ghost u = layer_names(idt, rt, et);
    proof {
        lemma_names_cover(idt, rt, et);
    }
    let mut pairs: Vec<(usize, usize)> = Vec::new();
    let mut k: usize = 0;
    while k < edges.len()
        invariant
            k <= edges@.len(),
            texts(names@) == u,
            u == layer_names(idt, rt, et),
            et == pair_texts(edges@),
            forall|q: int| 0 <= q < et.len() ==> u.contains((#[trigger] et[q]).0) && u.contains(et[q].1),
            pairs@.len() == k,
            forall|q: int| 0 <= q < k ==> #[trigger] pairs@[q] == name_edges(u, et)[q],
            forall|q: int| 0 <= q < k ==> (#[trigger] pairs@[q]).0 < names@.len() && pairs@[q].1 < names@.len(),
        decreases edges@.len() - k,
    {
        proof {
            assert(et[k as int] == (edges@[k as int].0@, edges@[k as int].1@));
        }
        let a = index_of_name(&names, &edges[k].0);
        let b = index_of_name(&names, &edges[k].1);
        pairs.push((a, b));
        k += 1;
    }
    let mut seeds: Vec<usize> = Vec::new();
    let mut j: usize = 0;
    while j < roots.len()
        invariant
            j <= roots@.len(),
            texts(names@) == u,
            rt == texts(roots@),
            forall|q: int| 0 <= q < rt.len() ==> u.contains(#[trigger] rt[q]),
            seeds@.len() == j,
            forall|q: int| 0 <= q < j ==> #[trigger] seeds@[q] == name_seeds(u, rt)[q],
        decreases roots@.len() - j,
    {
        proof {
            assert(rt[j as int] == roots@[j as int]@);
        }
        let s = index_of_name(&names, &roots[j]);
        seeds.push(s);
        j += 1;
    }
    proof {
        assert(pairs@ =~= name_edges(u, et));
        assert(seeds@ =~= name_seeds(u, rt));
        crate::graph::lemma_kept_all(names@.len() as nat, pairs@);
    }
    let n = names.len();
    let (forward, _reverse) = crate::graph::adjacency(n, pairs.as_slice());
    proof {
        assert forall|v: int| 0 <= v < n implies (#[trigger] forward@[v])@ == crate::graph::adjacent(
            pairs@,
            Direction::Outbound,
            v as usize,
        ) by {}
    }
    let layers = GraphIndex::bfs_over(&forward, n, Ghost(pairs@), Direction::Outbound, seeds.as_slice());
    let ghost ls = layer_views(layers@);
    proof {
        assert forall|d: int, i: int|
            0 <= d < layers@.len() && 0 <= i < layers@[d]@.len() implies #[trigger] layers@[d]@[i] < n by {
            assert(ls[d][i] == layers@[d]@[i]);
        }
    }
    proof {
        crate::graph::lemma_layer_count(ls, n as nat);
    }
    let col = layer_column(n, &layers);
    proof {
        assert(is_call_layering(idt, rt, et, ls));
    }
    (names, col, Ghost(ls), layers.len())
}

/// Each id's layer under the call layering.
fn id_layers(ids: &Vec<String>, roots: &Vec<String>, edges: &Vec<(String, String)>) -> (r: Vec<usize>)
    ensures
        r@.len() == ids@.len(),
        forall|i: int|
            0 <= i < ids@.len() ==> #[trigger] r@[i] <= layer_names(
                texts(ids@),
                texts(roots@),
                pair_texts(edges@),
            ).len(),
        exists|ls: Seq<Seq<usize>>|
            is_call_layering(texts(ids@), texts(roots@), pair_texts(edges@), ls) && forall|i: int|
                0 <= i < ids@.len() ==> #[trigger] r@[i] as int == layer_of(
                    ls,
                    name_at(
                        layer_names(texts(ids@), texts(roots@), pair_texts(edges@)),
                        ids@[i]@,
                    ),
                ),
{
    let (names, col, Ghost(ls), _count) = call_layering(ids, roots, edges);
    let ghost idt = texts(ids@);
    let ghost rt = texts(roots@);
    let ghost et = pair_texts(edges@);
    let ghost u = layer_names(idt, rt, et);
    let n = names.len();
    proof {
        lemma_names_cover(idt, rt, et);
    }
    let mut out: Vec<usize> = Vec::new();
    let mut i: usize = 0;
    while i < ids.len()
        invariant
            i <= ids@.len(),
            texts(names@) == u,
            idt == texts(ids@),
            n == names@.len(),
            col@.len() == n,
            forall|v: int| 0 <= v < n ==> #[trigger] col@[v] as int == layer_of(ls, v as usize),
            ls.len() <= n,
            forall|q: int| 0 <= q < idt.len() ==> u.contains(#[trigger] idt[q]),
            forall|q: int| 0 <= q < i ==> #[trigger] out@[q] <= n,
            out@.len() == i,
            forall|q: int|
                0 <= q < i ==> #[trigger] out@[q] as int == layer_of(ls, name_at(u, ids@[q]@)),
        decreases ids@.len() - i,
    {
        proof {
            assert(idt[i as int] == ids@[i as int]@);
        }
        let v = index_of_name(&names, &ids[i]);
        proof {
            crate::view_model::lemma_depth_of_bound(ls, v);
        }
        out.push(col[v]);
        i += 1;
    }
    out
}

/// The first `m` names of `names` that carry a layer, each with its layer:
/// a name carries one when it is an id or when the roots reach it.
pub open spec fn keyed_layers(
    names: Seq<Seq<char>>,
    ids: Seq<Seq<char>>,
    ls: Seq<Seq<usize>>,
    m: int,
) -> Seq<(Seq<char>, int)>
    decreases m,
{
    if m <= 0 {
        seq![]
    } else {
        let rest = keyed_layers(names, ids, ls, m - 1);
        let v = (m - 1) as usize;
        if ids.contains(names[m - 1]) || depth_of(ls, v) >= 0 {
            rest.push((names[m - 1], layer_of(ls, v)))
        } else {
            rest
        }
    }
}

/// What `assign_layers` gives for the call graph `ids`, `roots`, `edges`
/// under the layering `ls`.
pub open spec fn call_keys(
    ids: Seq<Seq<char>>,
    roots: Seq<Seq<char>>,
    edges: Seq<(Seq<char>, Seq<char>)>,
    ls: Seq<Seq<usize>>,
) -> Seq<(Seq<char>, int)> {
    let u = layer_names(ids, roots, edges);
    keyed_layers(u, ids, ls, u.len() as int)
}

proof fn lemma_keyed_layers_members(
    names: Seq<Seq<char>>,
    ids: Seq<Seq<char>>,
    ls: Seq<Seq<usize>>,
    m: int,
    x: Seq<char>,
)
    requires
        0 <= m <= names.len(),
    ensures
        (exists|p: int| 0 <= p < keyed_layers(names, ids, ls, m).len() && (#[trigger] keyed_layers(
            names,
            ids,
            ls,
            m,
        )[p]).0 == x) <==> (exists|v: int|
            0 <= v < m && #[trigger] names[v] == x && (ids.contains(x) || depth_of(ls, v as usize) >= 0)),
        forall|p: int|
            0 <= p < keyed_layers(names, ids, ls, m).len() ==> exists|v: int|
                0 <= v < m && #[trigger] names[v] == (#[trigger] keyed_layers(names, ids, ls, m)[p]).0
                    && keyed_layers(names, ids, ls, m)[p].1 == layer_of(ls, v as usize),
    decreases m,
{
    if m > 0 {
        lemma_keyed_layers_members(names, ids, ls, m - 1, x);
        let rest = keyed_layers(names, ids, ls, m - 1);
        let k = keyed_layers(names, ids, ls, m);
        let v = m - 1;
        if ids.contains(names[v]) || depth_of(ls, v as usize) >= 0 {
            assert(k == rest.push((names[v], layer_of(ls, v as usize))));
            assert forall|p: int| 0 <= p < k.len() implies exists|w: int|
                0 <= w < m && #[trigger] names[w] == (#[trigger] k[p]).0 && k[p].1 == layer_of(ls, w as usize) by {
                if p < rest.len() {
                    assert(k[p] == rest[p]);
                    let w = choose|w: int|
                        0 <= w < m - 1 && #[trigger] names[w] == rest[p].0 && rest[p].1 == layer_of(ls, w as usize);
                    assert(names[w] == k[p].0);
                } else {
                    assert(names[v] == k[p].0);
                }
            }
            if exists|w: int|
                0 <= w < m && #[trigger] names[w] == x && (ids.contains(x) || depth_of(ls, w as usize) >= 0) {
                let w = choose|w: int|
                    0 <= w < m && #[trigger] names[w] == x && (ids.contains(x) || depth_of(ls, w as usize) >= 0);
                if w == v {
                    assert(k[rest.len() as int].0 == x);
                } else {
                    let p = choose|p: int| 0 <= p < rest.len() && (#[trigger] rest[p]).0 == x;
                    assert(k[p] == rest[p]);
                }
            }
            if exists|p: int| 0 <= p < k.len() && (#[trigger] k[p]).0 == x {
                let p = choose|p: int| 0 <= p < k.len() && (#[trigger] k[p]).0 == x;
                if p < rest.len() {
                    assert(k[p] == rest[p]);
                } else {
                    assert(names[v] == x);
                }
            }
        } else {
            assert(k == rest);
            if exists|w: int|
                0 <= w < m && #[trigger] names[w] == x && (ids.contains(x) || depth_of(ls, w as usize) >= 0) {
                let w = choose|w: int|
                    0 <= w < m && #[trigger] names[w] == x && (ids.contains(x) || depth_of(ls, w as usize) >= 0);
                assert(w != v);
            }
            assert forall|p: int| 0 <= p < k.len() implies exists|w: int|
                0 <= w < m && #[trigger] names[w] == (#[trigger] k[p]).0 && k[p].1 == layer_of(ls, w as usize) by {
                let w = choose|w: int|
                    0 <= w < m - 1 && #[trigger] names[w] == rest[p].0 && rest[p].1 == layer_of(ls, w as usize);
                assert(names[w] == k[p].0);
            }
        }
    }
}

/// In a list without repeats, the last position of an entry is its only one.
proof fn lemma_last_pos_unique(s: Seq<Seq<char>>, v: int)
    requires
        s.no_duplicates(),
        0 <= v < s.len(),
    ensures
        last_pos(s, s[v]) == Some(v),
{
    assert(s.contains(s[v]));
    crate::text::lemma_last_pos_some(s, s[v]);
    crate::text::lemma_last_pos_bounds(s, s[v]);
}

/// The keys law of `assign_layers`: a name gets a layer exactly when it is
/// an id, a root, or reached from the roots; each gets the layer of its
/// node under the call layering (roots 0, reached names their call depth,
/// unreached ids the trailing layer).
pub proof fn lemma_assign_layers_keys(
    ids: Seq<Seq<char>>,
    roots: Seq<Seq<char>>,
    edges: Seq<(Seq<char>, Seq<char>)>,
    ls: Seq<Seq<usize>>,
    x: Seq<char>,
)
    requires
        is_call_layering(ids, roots, edges, ls),
    ensures
        (exists|p: int|
            0 <= p < call_keys(ids, roots, edges, ls).len() && (#[trigger] call_keys(ids, roots, edges, ls)[p]).0
                == x) <==> (ids.contains(x) || roots.contains(x) || (layer_names(ids, roots, edges).contains(x)
            && depth_of(ls, name_at(layer_names(ids, roots, edges), x)) >= 0)),
        forall|p: int|
            0 <= p < call_keys(ids, roots, edges, ls).len() ==> (#[trigger] call_keys(ids, roots, edges, ls)[p]).1
                == layer_of(ls, name_at(layer_names(ids, roots, edges), call_keys(ids, roots, edges, ls)[p].0)),
{
    let u = layer_names(ids, roots, edges);
    let k = call_keys(ids, roots, edges, ls);
    let n = u.len();
    lemma_names_cover(ids, roots, edges);
    lemma_keyed_layers_members(u, ids, ls, n as int, x);
    assert forall|p: int| 0 <= p < k.len() implies (#[trigger] k[p]).1 == layer_of(ls, name_at(u, k[p].0)) by {
        lemma_keyed_layers_members(u, ids, ls, n as int, k[p].0);
        let w = choose|w: int| 0 <= w < n && #[trigger] u[w] == k[p].0 && k[p].1 == layer_of(ls, w as usize);
        lemma_last_pos_unique(u, w);
    }
    if roots.contains(x) {
        let i = choose|i: int| 0 <= i < roots.len() && roots[i] == x;
        assert(u.contains(roots[i]));
        let w = choose|w: int| 0 <= w < n && u[w] == x;
        lemma_last_pos_unique(u, w);
        let seeds = name_seeds(u, roots);
        assert(seeds[i] == w as usize);
        assert(seeds.contains(w as usize));
        crate::graph::lemma_start_set_contains(n, seeds, w as usize);
        assert(ls[0].contains(w as usize));
        crate::view_model::lemma_depth_of_bfs_layering(name_edges(u, edges), n, Direction::Outbound, seeds, ls, w as usize);
        assert(depth_of(ls, w as usize) >= 0);
        assert(u[w] == x);
    }
    if ids.contains(x) {
        let i = choose|i: int| 0 <= i < ids.len() && ids[i] == x;
        assert(u.contains(ids[i]));
        let w = choose|w: int| 0 <= w < n && u[w] == x;
        assert(u[w] == x);
    }
    if u.contains(x) && depth_of(ls, name_at(u, x)) >= 0 {
        let w = choose|w: int| 0 <= w < n && u[w] == x;
        lemma_last_pos_unique(u, w);
        assert(u[w] == x);
    }
    if exists|w: int| 0 <= w < n && #[trigger] u[w] == x && (ids.contains(x) || depth_of(ls, w as usize) >= 0) {
        let w = choose|w: int| 0 <= w < n && #[trigger] u[w] == x && (ids.contains(x) || depth_of(ls, w as usize) >= 0);
        lemma_last_pos_unique(u, w);
        assert(u.contains(x));
    }
}

/// Assign a layer to every id, every root and every name the roots reach:
/// its breadth-first call depth from the roots. Cycle-safe (each name is
/// layered once, at its shortest distance) and deterministic. Ids no root
/// reaches land together in one trailing layer, one past the deepest
/// reached layer, so orphans and cycle-only components stay visible. Each
/// name appears once, in first-mention order (ids, edge endpoints, roots).
pub fn assign_layers(ids: &Vec<String>, roots: &Vec<String>, edges: &Vec<(String, String)>) -> (r: Vec<
    (String, usize),
>)
    ensures
        exists|ls: Seq<Seq<usize>>|
            is_call_layering(texts(ids@), texts(roots@), pair_texts(edges@), ls)
                && r@.map_values(|p: (String, usize)| (p.0@, p.1 as int)) == call_keys(
                texts(ids@),
                texts(roots@),
                pair_texts(edges@),
                ls,
            ),
{
    let (names, col, Ghost(ls), trailing) = call_layering(ids, roots, edges);
    let ghost idt = texts(ids@);
    let ghost u = texts(names@);
    let n = names.len();
    let mut out: Vec<(String, usize)> = Vec::new();
    let mut m: usize = 0;
    while m < n
        invariant
            m <= n,
            n == names@.len(),
            u == texts(names@),
            idt == texts(ids@),
            col@.len() == n,
            trailing == ls.len(),
            forall|v: int| 0 <= v < n ==> #[trigger] col@[v] as int == layer_of(ls, v as usize),
            out@.map_values(|p: (String, usize)| (p.0@, p.1 as int)) == keyed_layers(u, idt, ls, m as int),
        decreases n - m,
    {
        let id = crate::text::contains_text(ids, names[m].as_str());
        proof {
            crate::view_model::lemma_depth_of_bound(ls, m);
            assert(u[m as int] == names@[m as int]@);
            if id {
                let k = choose|k: int| 0 <= k < ids@.len() && (#[trigger] ids@[k])@ == names@[m as int]@;
                assert(idt[k] == u[m as int]);
            }
            if idt.contains(u[m as int]) {
                let k = choose|k: int| 0 <= k < idt.len() && idt[k] == u[m as int];
                assert(ids@[k]@ == idt[k]);
            }
        }
        let ghost before = out@;
        if id || col[m] < trailing {
            out.push((names[m].clone(), col[m]));
            proof {
                assert(out@.map_values(|p: (String, usize)| (p.0@, p.1 as int)) =~= before.map_values(
                    |p: (String, usize)| (p.0@, p.1 as int),
                ).push((u[m as int], layer_of(ls, m))));
            }
        }
        m += 1;
    }
    out
}

} // verus!

verus! {

/// Layering law: under the call layering, every root sits in layer 0; a
/// callee of a reached caller is reached too, at most one layer right of
/// it; and the nodes no root reaches all share the trailing layer, right of
/// every reached node.
pub proof fn lemma_call_layers(
    ids: Seq<Seq<char>>,
    roots: Seq<Seq<char>>,
    edges: Seq<(Seq<char>, Seq<char>)>,
    ls: Seq<Seq<usize>>,
)
    requires
        is_call_layering(ids, roots, edges, ls),
    ensures
        forall|i: int|
            0 <= i < roots.len() ==> layer_of(ls, name_at(layer_names(ids, roots, edges), #[trigger] roots[i]))
                == 0,
        forall|k: int|
            0 <= k < edges.len() && depth_of(
                ls,
                name_at(layer_names(ids, roots, edges), (#[trigger] edges[k]).0),
            ) >= 0 ==> depth_of(ls, name_at(layer_names(ids, roots, edges), edges[k].1)) >= 0
                && layer_of(ls, name_at(layer_names(ids, roots, edges), edges[k].1)) <= layer_of(
                ls,
                name_at(layer_names(ids, roots, edges), edges[k].0),
            ) + 1,
        forall|v: usize, w: usize|
            depth_of(ls, v) < 0 && depth_of(ls, w) >= 0 ==> #[trigger] layer_of(ls, v) == ls.len()
                && #[trigger] layer_of(ls, w) < layer_of(ls, v),
{
    let names = layer_names(ids, roots, edges);
    let n = names.len();
    let es = name_edges(names, edges);
    let seeds = name_seeds(names, roots);
    lemma_names_cover(ids, roots, edges);
    assert forall|i: int| 0 <= i < roots.len() implies layer_of(ls, name_at(names, #[trigger] roots[i]))
        == 0 by {
        let s = name_at(names, roots[i]);
        crate::text::lemma_last_pos_some(names, roots[i]);
        crate::text::lemma_last_pos_bounds(names, roots[i]);
        assert(seeds[i] == s);
        crate::graph::lemma_start_set_contains(n, seeds, s);
        let j = choose|j: int| 0 <= j < start_set(n, seeds).len() && start_set(n, seeds)[j] == s;
        assert(ls[0][j] == s);
        assert(ls[0].contains(s));
        crate::view_model::lemma_depth_of_bfs_layering(es, n, Direction::Outbound, seeds, ls, s);
    }
    assert forall|k: int|
        0 <= k < edges.len() && depth_of(ls, name_at(names, (#[trigger] edges[k]).0)) >= 0 implies depth_of(
        ls,
        name_at(names, edges[k].1),
    ) >= 0 && layer_of(ls, name_at(names, edges[k].1)) <= layer_of(ls, name_at(names, edges[k].0))
        + 1 by {
        let a = name_at(names, edges[k].0);
        let b = name_at(names, edges[k].1);
        assert(es[k] == (a, b));
        assert(es.contains((a, b)));
        crate::graph::lemma_step_follows_edges(es, a, b);
        crate::view_model::lemma_depth_of_bfs_layering(es, n, Direction::Outbound, seeds, ls, a);
        crate::view_model::lemma_depth_of_bfs_layering(es, n, Direction::Outbound, seeds, ls, b);
        let d = depth_of(ls, a);
        let i = choose|i: int| 0 <= i < ls[d].len() && ls[d][i] == a;
        assert(crate::graph::step(es, Direction::Outbound, ls[d][i], b));
        assert(crate::graph::in_layers_upto(ls, d + 2, b));
        let (d2, i2) = choose|d2: int, i2: int|
            #![trigger ls[d2][i2]]
            0 <= d2 < d + 2 && d2 < ls.len() && 0 <= i2 < ls[d2].len() && ls[d2][i2] == b;
        assert(ls[d2].contains(b));
    }
    assert forall|v: usize, w: usize| depth_of(ls, v) < 0 && depth_of(ls, w) >= 0 implies #[trigger] layer_of(
        ls,
        v,
    ) == ls.len() && #[trigger] layer_of(ls, w) < layer_of(ls, v) by {
        crate::view_model::lemma_depth_of_bfs_layering(es, n, Direction::Outbound, seeds, ls, w);
    }
}

} // verus!

verus! {

// ─── grid placement ────────────────────────────────────────────────────────

/// How many entries of `s` equal `l`.
pub open spec fn count_of(s: Seq<usize>, l: usize) -> nat
    decreases s.len(),
{
    if s.len() == 0 {
        0
    } else {
        count_of(s.drop_last(), l) + if s.last() == l {
            1nat
        } else {
            0nat
        }
    }
}

/// The grid cell `(column, row)` of id `x`: its layer is its column, and
/// its row is the number of ids before it in the same layer (for an id
/// listed twice, its last listing places it).
pub open spec fn cell_of(ids: Seq<Seq<char>>, layer: Seq<usize>, x: Seq<char>) -> (int, int) {
    match last_pos(ids, x) {
        Some(p) => (layer[p] as int, count_of(layer.subrange(0, p), layer[p]) as int),
        None => (0, 0),
    }
}

/// The number of columns: one past the deepest layer (0 when empty).
pub open spec fn grid_layers(layer: Seq<usize>) -> int
    decreases layer.len(),
{
    if layer.len() == 0 {
        0
    } else {
        let m = grid_layers(layer.drop_last());
        if layer.last() + 1 > m {
            layer.last() + 1
        } else {
            m
        }
    }
}

/// The number of rows: the population of the fullest layer (0 when empty).
pub open spec fn grid_rows(layer: Seq<usize>) -> int
    decreases layer.len(),
{
    if layer.len() == 0 {
        0
    } else {
        let m = grid_rows(layer.drop_last());
        let c = count_of(layer.drop_last(), layer.last()) as int + 1;
        if c > m {
            c
        } else {
            m
        }
    }
}

proof fn lemma_count_of_le(s: Seq<usize>, l: usize)
    ensures
        count_of(s, l) <= s.len(),
    decreases s.len(),
{
    if s.len() > 0 {
        lemma_count_of_le(s.drop_last(), l);
    }
}

/// Place ids into columns by layer and rows by document order within the
/// layer; returns each id's cell and the column and row counts.
fn place(ids: &Vec<String>, layer: &Vec<usize>) -> (r: (Vec<(usize, usize)>, usize, usize))
    requires
        layer@.len() == ids@.len(),
        forall|i: int| 0 <= i < layer@.len() ==> #[trigger] layer@[i] < usize::MAX,
    ensures
        r.0@.len() == ids@.len(),
        forall|i: int|
            0 <= i < ids@.len() ==> ((#[trigger] r.0@[i]).0 as int, r.0@[i].1 as int) == cell_of(
                texts(ids@),
                layer@,
                ids@[i]@,
            ),
        r.1 == grid_layers(layer@),
        r.2 == grid_rows(layer@),
{
    let n = layer.len();
    let mut before: Vec<usize> = Vec::new();
    let mut columns: usize = 0;
    let mut rows: usize = 0;
    let mut i: usize = 0;
    while i < n
        invariant
            i <= n,
            n == layer@.len(),
            forall|q: int| 0 <= q < layer@.len() ==> #[trigger] layer@[q] < usize::MAX,
            before@.len() == i,
            forall|q: int|
                0 <= q < i ==> #[trigger] before@[q] == count_of(layer@.subrange(0, q), layer@[q]),
            columns == grid_layers(layer@.subrange(0, i as int)),
            rows == grid_rows(layer@.subrange(0, i as int)),
        decreases n - i,
    {
        let li = layer[i];
        let mut c: usize = 0;
        let mut j: usize = 0;
        while j < i
            invariant
                j <= i,
                i < n,
                n == layer@.len(),
                li == layer@[i as int],
                c == count_of(layer@.subrange(0, j as int), li),
                c <= j,
            decreases i - j,
        {
            proof {
                let s1 = layer@.subrange(0, j + 1);
                assert(s1.drop_last() =~= layer@.subrange(0, j as int));
                assert(s1.last() == layer@[j as int]);
            }
            if layer[j] == li {
                c += 1;
            }
            j += 1;
        }
        proof {
            let s1 = layer@.subrange(0, i + 1);
            assert(s1.drop_last() =~= layer@.subrange(0, i as int));
            assert(s1.last() == li);
        }
        before.push(c);
        if li + 1 > columns {
            columns = li + 1;
        }
        if c + 1 > rows {
            rows = c + 1;
        }
        i += 1;
    }
    proof {
        assert(layer@.subrange(0, n as int) =~= layer@);
    }
    let mut cells: Vec<(usize, usize)> = Vec::new();
    let mut k: usize = 0;
    while k < n
        invariant
            k <= n,
            n == layer@.len(),
            n == ids@.len(),
            before@.len() == n,
            forall|q: int|
                0 <= q < n ==> #[trigger] before@[q] == count_of(layer@.subrange(0, q), layer@[q]),
            cells@.len() == k,
            forall|q: int|
                0 <= q < k ==> ((#[trigger] cells@[q]).0 as int, cells@[q].1 as int) == cell_of(
                    texts(ids@),
                    layer@,
                    ids@[q]@,
                ),
        decreases n - k,
    {
        proof {
            assert(texts(ids@)[k as int] == ids@[k as int]@);
            assert(texts(ids@).contains(ids@[k as int]@));
            crate::text::lemma_last_pos_some(texts(ids@), ids@[k as int]@);
            crate::text::lemma_last_pos_bounds(texts(ids@), ids@[k as int]@);
        }
        let p = match crate::text::last_position_of(ids, &ids[k]) {
            Some(p) => p,
            None => k,
        };
        cells.push((layer[p], before[p]));
        k += 1;
    }
    (cells, columns, rows)
}

} // verus!

verus! {

/// The layer of every id under a call layering, in id order.
pub open spec fn layer_vec(
    ids: Seq<Seq<char>>,
    roots: Seq<Seq<char>>,
    edges: Seq<(Seq<char>, Seq<char>)>,
    ls: Seq<Seq<usize>>,
) -> Seq<usize> {
    ids.map_values(|x: Seq<char>| layer_of(ls, name_at(layer_names(ids, roots, edges), x)) as usize)
}

/// The grid of a layered call graph: `cells[i]` is the cell of `ids[i]`,
/// with the column and row counts, under the call layering `ls`.
pub open spec fn is_call_grid(
    ids: Seq<Seq<char>>,
    roots: Seq<Seq<char>>,
    edges: Seq<(Seq<char>, Seq<char>)>,
    ls: Seq<Seq<usize>>,
    cells: Seq<(usize, usize)>,
    columns: usize,
    rows: usize,
) -> bool {
    let lv = layer_vec(ids, roots, edges, ls);
    &&& is_call_layering(ids, roots, edges, ls)
    &&& cells.len() == ids.len()
    &&& forall|i: int|
        0 <= i < ids.len() ==> ((#[trigger] cells[i]).0 as int, cells[i].1 as int) == cell_of(
            ids,
            lv,
            ids[i],
        )
    &&& columns == grid_layers(lv)
    &&& rows == grid_rows(lv)
}

/// Layer and place the ids of a call graph.
fn grid_of(ids: &Vec<String>, roots: &Vec<String>, edges: &Vec<(String, String)>) -> (r: (
    Vec<(usize, usize)>,
    usize,
    usize,
))
    requires
        ids@.len() + 2 * edges@.len() + roots@.len() < usize::MAX,
    ensures
        exists|ls: Seq<Seq<usize>>|
            is_call_grid(
                texts(ids@),
                texts(roots@),
                pair_texts(edges@),
                ls,
                r.0@,
                r.1,
                r.2,
            ),
{
    let layer = id_layers(ids, roots, edges);
    let ghost idt = texts(ids@);
    let ghost rt = texts(roots@);
    let ghost et = pair_texts(edges@);
    let ghost ls = choose|ls: Seq<Seq<usize>>|
        is_call_layering(idt, rt, et, ls) && forall|i: int|
            0 <= i < ids@.len() ==> #[trigger] layer@[i] as int == layer_of(
                ls,
                name_at(layer_names(idt, rt, et), ids@[i]@),
            );
    proof {
        lemma_layer_names_len(idt, rt, et);
        assert forall|i: int| 0 <= i < layer@.len() implies #[trigger] layer@[i] < usize::MAX by {
            assert(layer@[i] <= layer_names(idt, rt, et).len());
        }
        let lv = layer_vec(idt, rt, et, ls);
        assert forall|i: int| 0 <= i < ids@.len() implies lv[i] == layer@[i] by {
            assert(idt[i] == ids@[i]@);
        }
        assert(lv =~= layer@);
    }
    let r = place(ids, &layer);
    proof {
        assert(is_call_grid(idt, rt, et, ls, r.0@, r.1, r.2));
    }
    r
}

} // verus!

verus! {

// ─── layouts ───────────────────────────────────────────────────────────────

/// A placed node: its grid cell (column = layer, row within the layer) and
/// what it shows.
#[derive(Debug, Clone, PartialEq, Eq)]
pub struct GraphNode {
    pub id: String,
    pub label: String,
    pub sublabel: String,
    pub layer: usize,
    pub row: usize,
    pub badges: Vec<Reach>,
    pub fan_in: u32,
    pub fan_out: u32,
    /// True only on the coarse (module) tier.
    pub drillable: bool,
}

/// An edge between two placed nodes, by their cells.
#[derive(Debug, Clone, PartialEq, Eq)]
pub struct GraphEdge {
    pub id: String,
    /// The caller's cell: column and row.
    pub from_layer: usize,
    pub from_row: usize,
    /// The callee's cell: column and row.
    pub to_layer: usize,
    pub to_row: usize,
    /// Any underlying dispatch is dynamic.
    pub dynamic: bool,
    /// Underlying call edges collapsed into this edge (1 at function tier).
    pub count: u32,
}

/// A layered layout on a grid of `columns` layers by `rows` rows.
#[derive(Debug, Clone, PartialEq, Eq)]
pub struct GraphLayout {
    pub columns: usize,
    pub rows: usize,
    pub nodes: Vec<GraphNode>,
    pub edges: Vec<GraphEdge>,
}

/// The cells of the nodes, in node order.
pub open spec fn node_cells(nodes: Seq<GraphNode>) -> Seq<(usize, usize)> {
    nodes.map_values(|n: GraphNode| (n.layer, n.row))
}

/// An edge as `(id, from cell, to cell, dynamic, count)`.
pub open spec fn edge_view(e: GraphEdge) -> (Seq<char>, (usize, usize), (usize, usize), bool, u32) {
    (e.id@, (e.from_layer, e.from_row), (e.to_layer, e.to_row), e.dynamic, e.count)
}

/// The edges of a layout as plain values.
pub open spec fn edge_views(es: Seq<GraphEdge>) -> Seq<(Seq<char>, (usize, usize), (usize, usize), bool, u32)> {
    es.map_values(|e: GraphEdge| edge_view(e))
}

/// The edges drawn for calls `(from, to, dynamic, count)`: one per call
/// whose two endpoints are placed ids, id `from->to`, between the cells of
/// the last nodes carrying those ids.
pub open spec fn grid_edges_of(
    calls: Seq<(Seq<char>, Seq<char>, bool, u32)>,
    ids: Seq<Seq<char>>,
    cells: Seq<(usize, usize)>,
) -> Seq<(Seq<char>, (usize, usize), (usize, usize), bool, u32)>
    decreases calls.len(),
{
    if calls.len() == 0 {
        seq![]
    } else {
        let rest = grid_edges_of(calls.drop_last(), ids, cells);
        let c = calls.last();
        match (last_pos(ids, c.0), last_pos(ids, c.1)) {
            (Some(p), Some(q)) => rest.push((c.0 + "->"@ + c.1, cells[p], cells[q], c.2, c.3)),
            _ => rest,
        }
    }
}

/// Calls as plain values.
pub open spec fn call_records(
    calls: Seq<(String, String, bool, u32)>,
) -> Seq<(Seq<char>, Seq<char>, bool, u32)> {
    calls.map_values(|c: (String, String, bool, u32)| (c.0@, c.1@, c.2, c.3))
}

/// The edges for `calls` between the placed `ids`.
fn grid_edges(
    calls: &Vec<(String, String, bool, u32)>,
    ids: &Vec<String>,
    cells: &Vec<(usize, usize)>,
) -> (r: Vec<GraphEdge>)
    requires
        cells@.len() == ids@.len(),
    ensures
        edge_views(r@) == grid_edges_of(call_records(calls@), texts(ids@), cells@),
{
    let ghost cr = call_records(calls@);
    let mut out: Vec<GraphEdge> = Vec::new();
    let mut k: usize = 0;
    while k < calls.len()
        invariant
            k <= calls@.len(),
            cr == call_records(calls@),
            cells@.len() == ids@.len(),
            edge_views(out@) == grid_edges_of(cr.subrange(0, k as int), texts(ids@), cells@),
        decreases calls@.len() - k,
    {
        let c = &calls[k];
        proof {
            let s1 = cr.subrange(0, k + 1);
            assert(s1.drop_last() =~= cr.subrange(0, k as int));
            assert(s1.last() == (c.0@, c.1@, c.2, c.3));
        }
        let p = crate::text::last_position_of(ids, &c.0);
        let q = crate::text::last_position_of(ids, &c.1);
        match (p, q) {
            (Some(p), Some(q)) => {
                proof {
                    crate::text::lemma_last_pos_bounds(texts(ids@), c.0@);
                    crate::text::lemma_last_pos_bounds(texts(ids@), c.1@);
                }
                let mut id = String::new();
                id.append(c.0.as_str());
                id.append("->");
                id.append(c.1.as_str());
                let ghost before = out@;
                let (fl, fr) = cells[p];
                let (tl, tr) = cells[q];
                out.push(
                    GraphEdge {
                        id,
                        from_layer: fl,
                        from_row: fr,
                        to_layer: tl,
                        to_row: tr,
                        dynamic: c.2,
                        count: c.3,
                    },
                );
                proof {
                    assert(edge_views(out@) =~= edge_views(before).push(
                        (c.0@ + "->"@ + c.1@, cells@[p as int], cells@[q as int], c.2, c.3),
                    ));
                }
            },
            _ => {},
        }
        k += 1;
    }
    proof {
        assert(cr.subrange(0, calls@.len() as int) =~= cr);
    }
    out
}

} // verus!

verus! {

fn empty_layout() -> (g: GraphLayout)
    ensures
        g.columns == 0,
        g.rows == 0,
        g.nodes@.len() == 0,
        g.edges@.len() == 0,
{
    GraphLayout { columns: 0, rows: 0, nodes: Vec::new(), edges: Vec::new() }
}

/// No edge is drawn where nothing is placed.
proof fn lemma_grid_edges_unplaced(calls: Seq<(Seq<char>, Seq<char>, bool, u32)>)
    ensures
        grid_edges_of(calls, seq![], seq![]).len() == 0,
    decreases calls.len(),
{
    if calls.len() > 0 {
        lemma_grid_edges_unplaced(calls.drop_last());
    }
}

/// With nothing placed, the empty layering is the call layering and the
/// empty grid its grid.
proof fn lemma_empty_grid(edges: Seq<(Seq<char>, Seq<char>)>)
    ensures
        is_call_grid(seq![], seq![], edges, seq![], seq![], 0, 0),
{
    let names = layer_names(seq![], seq![], edges);
    assert(name_seeds(names, seq![]) =~= seq![]);
    assert(start_set(names.len(), seq![]) == Seq::<usize>::empty());
    assert(layer_vec(seq![], seq![], edges, seq![]) =~= seq![]);
}

/// The module ids, in module order.
pub open spec fn module_ids(mods: Seq<CodeGraphModule>) -> Seq<Seq<char>> {
    mods.map_values(|m: CodeGraphModule| m.id@)
}

/// The modules nothing calls into (module-graph fan-in 0): the roots.
pub open spec fn module_roots(mods: Seq<CodeGraphModule>) -> Seq<Seq<char>>
    decreases mods.len(),
{
    if mods.len() == 0 {
        seq![]
    } else if mods.last().fan_in == 0 {
        module_roots(mods.drop_last()).push(mods.last().id@)
    } else {
        module_roots(mods.drop_last())
    }
}

/// A module node's counts line: `N fn · N dead · N test-only`.
pub open spec fn module_sublabel(m: CodeGraphModule) -> Seq<char> {
    decimal_spec(m.counts.functions as nat) + " fn · "@ + decimal_spec(m.counts.dead as nat)
        + " dead · "@ + decimal_spec(m.counts.test_only as nat) + " test-only"@
}

/// The module calls as `(from, to)` pairs.
pub open spec fn module_call_pairs(cg: CodeGraph) -> Seq<(Seq<char>, Seq<char>)> {
    module_calls_of(cg).map_values(|c: CodeGraphModuleCall| (c.from@, c.to@))
}

/// The module calls as `(from, to, has_dynamic, count)`.
pub open spec fn module_call_records(cg: CodeGraph) -> Seq<(Seq<char>, Seq<char>, bool, u32)> {
    module_calls_of(cg).map_values(
        |c: CodeGraphModuleCall| (c.from@, c.to@, c.has_dynamic, c.count),
    )
}

/// `g` is the coarse layout of the document: one drillable node per module,
/// in module order, placed on the layered grid of the module call graph
/// from the modules nothing calls into; one edge per module call between
/// placed modules.
pub open spec fn is_module_layout(g: GraphLayout, cg: CodeGraph) -> bool {
    let mods = modules_of(cg);
    &&& g.nodes@.len() == mods.len()
    &&& forall|i: int| 0 <= i < mods.len() ==> (#[trigger] g.nodes@[i]).id@ == mods[i].id@
    &&& forall|i: int| 0 <= i < mods.len() ==> (#[trigger] g.nodes@[i]).label@ == mods[i].pkg@
    &&& forall|i: int|
        0 <= i < mods.len() ==> (#[trigger] g.nodes@[i]).sublabel@ == module_sublabel(mods[i])
    &&& forall|i: int| 0 <= i < mods.len() ==> (#[trigger] g.nodes@[i]).badges@.len() == 0
    &&& forall|i: int| 0 <= i < mods.len() ==> (#[trigger] g.nodes@[i]).fan_in == mods[i].fan_in
    &&& forall|i: int| 0 <= i < mods.len() ==> (#[trigger] g.nodes@[i]).fan_out == mods[i].fan_out
    &&& forall|i: int| 0 <= i < mods.len() ==> (#[trigger] g.nodes@[i]).drillable
    &&& exists|ls: Seq<Seq<usize>>|
        is_call_grid(
            module_ids(mods),
            module_roots(mods),
            module_call_pairs(cg),
            ls,
            node_cells(g.nodes@),
            g.columns,
            g.rows,
        )
    &&& edge_views(g.edges@) == grid_edges_of(
        module_call_records(cg),
        module_ids(mods),
        node_cells(g.nodes@),
    )
}

fn module_sublabel_text(m: &CodeGraphModule) -> (r: String)
    ensures
        r@ == module_sublabel(*m),
{
    let mut s = decimal(m.counts.functions as u64);
    s.append(" fn · ");
    let d = decimal(m.counts.dead as u64);
    s.append(d.as_str());
    s.append(" dead · ");
    let t = decimal(m.counts.test_only as u64);
    s.append(t.as_str());
    s.append(" test-only");
    s
}

/// The COARSE tier: every module, edges from the module calls.
pub fn build_module_layout(cg: &CodeGraph) -> (g: GraphLayout)
    requires
        2 * modules_of(*cg).len() + 2 * module_calls_of(*cg).len() < usize::MAX,
    ensures
        is_module_layout(g, *cg),
{
    let modules = match &cg.modules {
        Some(m) => m,
        None => {
            let g = empty_layout();
            proof {
                lemma_empty_grid(module_call_pairs(*cg));
                lemma_grid_edges_unplaced(module_call_records(*cg));
                assert(module_ids(modules_of(*cg)) =~= seq![]);
                assert(module_roots(modules_of(*cg)) =~= seq![]);
                assert(node_cells(g.nodes@) =~= seq![]);
                assert(edge_views(g.edges@) =~= seq![]);
                assert(grid_edges_of(module_call_records(*cg), seq![], seq![]) =~= seq![]);
                assert(is_call_grid(
                    module_ids(modules_of(*cg)),
                    module_roots(modules_of(*cg)),
                    module_call_pairs(*cg),
                    seq![],
                    node_cells(g.nodes@),
                    g.columns,
                    g.rows,
                ));
            }
            return g;
        },
    };
    let empty_calls: Vec<CodeGraphModuleCall> = Vec::new();
    let calls = match &cg.module_calls {
        Some(c) => c,
        None => &empty_calls,
    };
    let ghost mods = modules@;
    let mut ids: Vec<String> = Vec::new();
    let mut roots: Vec<String> = Vec::new();
    let mut i: usize = 0;
    while i < modules.len()
        invariant
            i <= modules@.len(),
            mods == modules@,
            texts(ids@) == module_ids(mods).subrange(0, i as int),
            texts(roots@) == module_roots(mods.subrange(0, i as int)),
        decreases modules@.len() - i,
    {
        let m = &modules[i];
        proof {
            let s1 = mods.subrange(0, i + 1);
            assert(s1.drop_last() =~= mods.subrange(0, i as int));
            assert(s1.last() == mods[i as int]);
        }
        let ghost ib = ids@;
        ids.push(m.id.clone());
        proof {
            assert(texts(ids@) =~= texts(ib).push(m.id@));
            assert(texts(ids@) =~= module_ids(mods).subrange(0, i + 1));
        }
        if m.fan_in == 0 {
            let ghost rb = roots@;
            roots.push(m.id.clone());
            proof {
                assert(texts(roots@) =~= texts(rb).push(m.id@));
            }
        }
        i += 1;
    }
    proof {
        assert(mods.subrange(0, mods.len() as int) =~= mods);
        assert(module_ids(mods).subrange(0, mods.len() as int) =~= module_ids(mods));
    }
    let ghost mc = calls@;
    let mut pairs: Vec<(String, String)> = Vec::new();
    let mut records: Vec<(String, String, bool, u32)> = Vec::new();
    let mut k: usize = 0;
    while k < calls.len()
        invariant
            k <= calls@.len(),
            mc == calls@,
            mc == module_calls_of(*cg),
            pairs@.len() == k,
            records@.len() == k,
            forall|q: int| 0 <= q < k ==> #[trigger] pair_texts(pairs@)[q] == module_call_pairs(*cg)[q],
            forall|q: int| 0 <= q < k ==> #[trigger] call_records(records@)[q] == module_call_records(*cg)[q],
        decreases calls@.len() - k,
    {
        let c = &calls[k];
        let ghost pb = pairs@;
        let ghost rb = records@;
        pairs.push((c.from.clone(), c.to.clone()));
        records.push((c.from.clone(), c.to.clone(), c.has_dynamic, c.count));
        proof {
            assert forall|q: int| 0 <= q < k + 1 implies #[trigger] pair_texts(pairs@)[q] == module_call_pairs(*cg)[q] by {
                if q < k {
                    assert(pairs@[q] == pb[q]);
                    assert(pair_texts(pb)[q] == module_call_pairs(*cg)[q]);
                }
            }
            assert forall|q: int| 0 <= q < k + 1 implies #[trigger] call_records(records@)[q] == module_call_records(*cg)[q] by {
                if q < k {
                    assert(records@[q] == rb[q]);
                    assert(call_records(rb)[q] == module_call_records(*cg)[q]);
                }
            }
        }
        k += 1;
    }
    proof {
        assert(pair_texts(pairs@) =~= module_call_pairs(*cg));
        assert(call_records(records@) =~= module_call_records(*cg));
        crate::text::lemma_dedup_len(texts(ids@));
        lemma_module_roots_len(mods);
    }
    let (cells, columns, rows) = grid_of(&ids, &roots, &pairs);
    let mut nodes: Vec<GraphNode> = Vec::new();
    let mut j: usize = 0;
    while j < modules.len()
        invariant
            j <= modules@.len(),
            mods == modules@,
            cells@.len() == mods.len(),
            nodes@.len() == j,
            forall|q: int| 0 <= q < j ==> (#[trigger] nodes@[q]).id@ == mods[q].id@,
            forall|q: int| 0 <= q < j ==> (#[trigger] nodes@[q]).label@ == mods[q].pkg@,
            forall|q: int| 0 <= q < j ==> (#[trigger] nodes@[q]).sublabel@ == module_sublabel(mods[q]),
            forall|q: int| 0 <= q < j ==> (#[trigger] nodes@[q]).badges@.len() == 0,
            forall|q: int| 0 <= q < j ==> (#[trigger] nodes@[q]).fan_in == mods[q].fan_in,
            forall|q: int| 0 <= q < j ==> (#[trigger] nodes@[q]).fan_out == mods[q].fan_out,
            forall|q: int| 0 <= q < j ==> (#[trigger] nodes@[q]).drillable,
            forall|q: int| 0 <= q < j ==> (#[trigger] nodes@[q]).layer == cells@[q].0 && nodes@[q].row == cells@[q].1,
        decreases modules@.len() - j,
    {
        let m = &modules[j];
        let (layer, row) = cells[j];
        nodes.push(
            GraphNode {
                id: m.id.clone(),
                label: m.pkg.clone(),
                sublabel: module_sublabel_text(m),
                layer,
                row,
                badges: Vec::new(),
                fan_in: m.fan_in,
                fan_out: m.fan_out,
                drillable: true,
            },
        );
        j += 1;
    }
    let edges = grid_edges(&records, &ids, &cells);
    proof {
        assert(node_cells(nodes@) =~= cells@);
        assert(texts(ids@) == module_ids(mods));
        assert(call_records(records@) == module_call_records(*cg));
        assert(edge_views(edges@) == grid_edges_of(
            module_call_records(*cg),
            module_ids(mods),
            node_cells(nodes@),
        ));
    }
    let g = GraphLayout { columns, rows, nodes, edges };
    proof {
        let ls = choose|ls: Seq<Seq<usize>>|
            is_call_grid(
                texts(ids@),
                texts(roots@),
                pair_texts(pairs@),
                ls,
                cells@,
                columns,
                rows,
            );
        assert(mods == modules_of(*cg));
        assert(texts(roots@) == module_roots(mods));
        assert(node_cells(g.nodes@) == cells@);
        assert(is_call_grid(
            module_ids(modules_of(*cg)),
            module_roots(modules_of(*cg)),
            module_call_pairs(*cg),
            ls,
            node_cells(g.nodes@),
            g.columns,
            g.rows,
        ));
    }
    g
}

proof fn lemma_module_roots_len(mods: Seq<CodeGraphModule>)
    ensures
        module_roots(mods).len() <= mods.len(),
    decreases mods.len(),
{
    if mods.len() > 0 {
        lemma_module_roots_len(mods.drop_last());
    }
}

} // verus!

verus! {

/// The position of the first module carrying `id`.
pub open spec fn first_module(mods: Seq<CodeGraphModule>, id: Seq<char>) -> Option<int>
    decreases mods.len(),
{
    if mods.len() == 0 {
        None
    } else {
        match first_module(mods.drop_last(), id) {
            Some(i) => Some(i),
            None => if mods.last().id@ == id {
                Some(mods.len() - 1)
            } else {
                None
            },
        }
    }
}

/// The positions of the functions a module lists, in function order.
pub open spec fn member_indices(fs: Seq<CodeGraphFunction>, fids: Seq<String>) -> Seq<int>
    decreases fs.len(),
{
    if fs.len() == 0 {
        seq![]
    } else if crate::text::names_id(fids, fs.last().id@) {
        member_indices(fs.drop_last(), fids).push(fs.len() - 1)
    } else {
        member_indices(fs.drop_last(), fids)
    }
}

/// The calls with both endpoints among `ids`, in call order.
pub open spec fn inner_calls(calls: Seq<CodeGraphCall>, ids: Seq<Seq<char>>) -> Seq<CodeGraphCall>
    decreases calls.len(),
{
    if calls.len() == 0 {
        seq![]
    } else if ids.contains(calls.last().from@) && ids.contains(calls.last().to@) {
        inner_calls(calls.drop_last(), ids).push(calls.last())
    } else {
        inner_calls(calls.drop_last(), ids)
    }
}

/// The ids of the members flagged as entrypoints.
pub open spec fn declared_roots(fs: Seq<CodeGraphFunction>, mi: Seq<int>) -> Seq<Seq<char>>
    decreases mi.len(),
{
    if mi.len() == 0 {
        seq![]
    } else if fs[mi.last()].root {
        declared_roots(fs, mi.drop_last()).push(fs[mi.last()].id@)
    } else {
        declared_roots(fs, mi.drop_last())
    }
}

/// The ids of the members no call reaches.
pub open spec fn uncalled_roots(
    fs: Seq<CodeGraphFunction>,
    mi: Seq<int>,
    calls: Seq<CodeGraphCall>,
) -> Seq<Seq<char>>
    decreases mi.len(),
{
    if mi.len() == 0 {
        seq![]
    } else if !(exists|k: int| 0 <= k < calls.len() && (#[trigger] calls[k]).to@ == fs[mi.last()].id@) {
        uncalled_roots(fs, mi.drop_last(), calls).push(fs[mi.last()].id@)
    } else {
        uncalled_roots(fs, mi.drop_last(), calls)
    }
}

/// The roots of one module's layout: its declared entrypoints, else every
/// member nothing in the module calls.
pub open spec fn function_roots(
    fs: Seq<CodeGraphFunction>,
    mi: Seq<int>,
    calls: Seq<CodeGraphCall>,
) -> Seq<Seq<char>> {
    if declared_roots(fs, mi).len() > 0 {
        declared_roots(fs, mi)
    } else {
        uncalled_roots(fs, mi, calls)
    }
}

/// A function node's location line: `file:line`.
pub open spec fn function_sublabel(f: CodeGraphFunction) -> Seq<char> {
    f.file@ + ":"@ + decimal_spec(f.line as nat)
}

/// The calls as `(from, to)` pairs.
pub open spec fn call_pairs(calls: Seq<CodeGraphCall>) -> Seq<(Seq<char>, Seq<char>)> {
    calls.map_values(|c: CodeGraphCall| (c.from@, c.to@))
}

/// The calls as `(from, to, dynamic, 1)`.
pub open spec fn function_call_records(calls: Seq<CodeGraphCall>) -> Seq<(Seq<char>, Seq<char>, bool, u32)> {
    calls.map_values(|c: CodeGraphCall| (c.from@, c.to@, c.kind@ == "dynamic"@, 1u32))
}

/// The members of the module `module_id` drills into, by position: `None`
/// when the document has no functions or modules or no such module.
pub open spec fn layout_members(cg: CodeGraph, module_id: Seq<char>) -> Option<Seq<int>> {
    match (cg.functions, cg.modules) {
        (Some(fs), Some(ms)) => match first_module(ms@, module_id) {
            Some(m) => Some(member_indices(fs@, ms@[m].function_ids@)),
            None => None,
        },
        _ => None,
    }
}

/// `g` is empty.
pub open spec fn is_empty_layout(g: GraphLayout) -> bool {
    g.columns == 0 && g.rows == 0 && g.nodes@.len() == 0 && g.edges@.len() == 0
}

/// `g` is the fine layout of one module: one node per member function, in
/// function order, placed on the layered grid of the calls between members
/// from the module's roots; one edge per such call. Empty when the module
/// is unknown or has no member.
pub open spec fn is_function_layout(g: GraphLayout, cg: CodeGraph, module_id: Seq<char>) -> bool {
    match layout_members(cg, module_id) {
        None => is_empty_layout(g),
        Some(mi) => if mi.len() == 0 {
            is_empty_layout(g)
        } else {
            let fs = functions_of(cg);
            let ids = mi.map_values(|i: int| fs[i].id@);
            let inner = inner_calls(calls_of(cg), ids);
            &&& g.nodes@.len() == mi.len()
            &&& forall|q: int| 0 <= q < mi.len() ==> (#[trigger] g.nodes@[q]).id@ == fs[mi[q]].id@
            &&& forall|q: int| 0 <= q < mi.len() ==> (#[trigger] g.nodes@[q]).label@ == fs[mi[q]].symbol@
            &&& forall|q: int|
                0 <= q < mi.len() ==> (#[trigger] g.nodes@[q]).sublabel@ == function_sublabel(fs[mi[q]])
            &&& forall|q: int|
                0 <= q < mi.len() ==> (#[trigger] g.nodes@[q]).badges@ == reach_badges_spec(fs[mi[q]])
            &&& forall|q: int| 0 <= q < mi.len() ==> (#[trigger] g.nodes@[q]).fan_in == fs[mi[q]].fan_in
            &&& forall|q: int| 0 <= q < mi.len() ==> (#[trigger] g.nodes@[q]).fan_out == fs[mi[q]].fan_out
            &&& forall|q: int| 0 <= q < mi.len() ==> !(#[trigger] g.nodes@[q]).drillable
            &&& exists|ls: Seq<Seq<usize>>|
                is_call_grid(
                    ids,
                    function_roots(fs, mi, inner),
                    call_pairs(inner),
                    ls,
                    node_cells(g.nodes@),
                    g.columns,
                    g.rows,
                )
            &&& edge_views(g.edges@) == grid_edges_of(
                function_call_records(inner),
                ids,
                node_cells(g.nodes@),
            )
        },
    }
}

} // verus!

verus! {

fn find_module(modules: &Vec<CodeGraphModule>, id: &str) -> (r: Option<usize>)
    ensures
        match r {
            Some(i) => i < modules@.len() && first_module(modules@, id@) == Some(i as int),
            None => first_module(modules@, id@) is None,
        },
{
    let mut i: usize = 0;
    while i < modules.len()
        invariant
            i <= modules@.len(),
            first_module(modules@.subrange(0, i as int), id@) is None,
        decreases modules@.len() - i,
    {
        proof {
            let s1 = modules@.subrange(0, i + 1);
            assert(s1.drop_last() =~= modules@.subrange(0, i as int));
            assert(s1.last() == modules@[i as int]);
        }
        if crate::text::str_eq(modules[i].id.as_str(), id) {
            proof {
                lemma_first_module_prefix(modules@, id@, i as int + 1);
            }
            return Some(i);
        }
        i += 1;
    }
    proof {
        assert(modules@.subrange(0, modules@.len() as int) =~= modules@);
    }
    None
}

/// A first match in a prefix is the first match of the whole.
proof fn lemma_first_module_prefix(mods: Seq<CodeGraphModule>, id: Seq<char>, p: int)
    requires
        0 <= p <= mods.len(),
        first_module(mods.subrange(0, p), id) is Some,
    ensures
        first_module(mods, id) == first_module(mods.subrange(0, p), id),
    decreases mods.len() - p,
{
    if p < mods.len() {
        let s1 = mods.subrange(0, p + 1);
        assert(s1.drop_last() =~= mods.subrange(0, p));
        lemma_first_module_prefix(mods, id, p + 1);
    } else {
        assert(mods.subrange(0, p) =~= mods);
    }
}

/// Whether `x` is one of `v`.
fn holds_text(v: &Vec<String>, x: &String) -> (r: bool)
    ensures
        r == texts(v@).contains(x@),
{
    match crate::text::position_of(v, x.as_str()) {
        Some(p) => {
            proof {
                assert(texts(v@)[p as int] == x@);
            }
            true
        },
        None => false,
    }
}

/// The positions of the functions `fids` lists.
fn member_positions(functions: &Vec<CodeGraphFunction>, fids: &Vec<String>) -> (r: Vec<usize>)
    ensures
        r@.len() == member_indices(functions@, fids@).len(),
        forall|q: int| 0 <= q < r@.len() ==> #[trigger] r@[q] as int == member_indices(functions@, fids@)[q],
        forall|q: int| 0 <= q < r@.len() ==> #[trigger] r@[q] < functions@.len(),
{
    let mut out: Vec<usize> = Vec::new();
    let mut i: usize = 0;
    while i < functions.len()
        invariant
            i <= functions@.len(),
            out@.len() == member_indices(functions@.subrange(0, i as int), fids@).len(),
            forall|q: int|
                0 <= q < out@.len() ==> #[trigger] out@[q] as int == member_indices(
                    functions@.subrange(0, i as int),
                    fids@,
                )[q],
            forall|q: int| 0 <= q < out@.len() ==> #[trigger] out@[q] < i,
        decreases functions@.len() - i,
    {
        proof {
            let s1 = functions@.subrange(0, i + 1);
            assert(s1.drop_last() =~= functions@.subrange(0, i as int));
            assert(s1.last() == functions@[i as int]);
        }
        if crate::text::contains_text(fids, functions[i].id.as_str()) {
            out.push(i);
        }
        i += 1;
    }
    proof {
        assert(functions@.subrange(0, functions@.len() as int) =~= functions@);
    }
    out
}

/// The positions of the calls with both endpoints among `ids`.
fn inner_positions(calls: &Vec<CodeGraphCall>, ids: &Vec<String>) -> (r: Vec<usize>)
    ensures
        r@.len() == inner_calls(calls@, texts(ids@)).len(),
        forall|q: int|
            0 <= q < r@.len() ==> #[trigger] r@[q] < calls@.len() && calls@[r@[q] as int] == inner_calls(
                calls@,
                texts(ids@),
            )[q],
{
    let ghost it = texts(ids@);
    let mut out: Vec<usize> = Vec::new();
    let mut k: usize = 0;
    while k < calls.len()
        invariant
            k <= calls@.len(),
            it == texts(ids@),
            out@.len() == inner_calls(calls@.subrange(0, k as int), it).len(),
            forall|q: int|
                0 <= q < out@.len() ==> #[trigger] out@[q] < k && calls@[out@[q] as int] == inner_calls(
                    calls@.subrange(0, k as int),
                    it,
                )[q],
        decreases calls@.len() - k,
    {
        proof {
            let s1 = calls@.subrange(0, k + 1);
            assert(s1.drop_last() =~= calls@.subrange(0, k as int));
            assert(s1.last() == calls@[k as int]);
        }
        let from_in = holds_text(ids, &calls[k].from);
        let to_in = holds_text(ids, &calls[k].to);
        if from_in && to_in {
            out.push(k);
        }
        k += 1;
    }
    proof {
        assert(calls@.subrange(0, calls@.len() as int) =~= calls@);
    }
    out
}

} // verus!

verus! {

proof fn lemma_member_indices_len(fs: Seq<CodeGraphFunction>, fids: Seq<String>)
    ensures
        member_indices(fs, fids).len() <= fs.len(),
    decreases fs.len(),
{
    if fs.len() > 0 {
        lemma_member_indices_len(fs.drop_last(), fids);
    }
}

proof fn lemma_inner_calls_len(calls: Seq<CodeGraphCall>, ids: Seq<Seq<char>>)
    ensures
        inner_calls(calls, ids).len() <= calls.len(),
    decreases calls.len(),
{
    if calls.len() > 0 {
        lemma_inner_calls_len(calls.drop_last(), ids);
    }
}

proof fn lemma_roots_len(fs: Seq<CodeGraphFunction>, mi: Seq<int>, calls: Seq<CodeGraphCall>)
    ensures
        declared_roots(fs, mi).len() <= mi.len(),
        uncalled_roots(fs, mi, calls).len() <= mi.len(),
    decreases mi.len(),
{
    if mi.len() > 0 {
        lemma_roots_len(fs, mi.drop_last(), calls);
    }
}

fn function_sublabel_text(f: &CodeGraphFunction) -> (r: String)
    ensures
        r@ == function_sublabel(*f),
{
    let mut s = f.file.clone();
    s.append(":");
    let l = decimal(f.line as u64);
    s.append(l.as_str());
    s
}

/// The FINE tier: one module's functions and the calls between them
/// (intra-module only: bounding the node count is what the coarse tier is
/// for). The roots are the module's declared entrypoints, else every member
/// nothing in the module calls.
pub fn build_function_layout(cg: &CodeGraph, module_id: &str) -> (g: GraphLayout)
    requires
        2 * functions_of(*cg).len() + 2 * calls_of(*cg).len() < usize::MAX,
    ensures
        is_function_layout(g, *cg, module_id@),
{
    let (functions, modules) = match (&cg.functions, &cg.modules) {
        (Some(f), Some(m)) => (f, m),
        _ => {
            return empty_layout();
        },
    };
    let mpos = match find_module(modules, module_id) {
        Some(i) => i,
        None => {
            return empty_layout();
        },
    };
    let module = &modules[mpos];
    let mem = member_positions(functions, &module.function_ids);
    let ghost fs = functions@;
    let ghost mis = member_indices(fs, module.function_ids@);
    if mem.len() == 0 {
        return empty_layout();
    }
    proof {
        lemma_member_indices_len(fs, module.function_ids@);
    }
    let ghost idsv = mis.map_values(|i: int| fs[i].id@);
    let mut ids: Vec<String> = Vec::new();
    let mut q: usize = 0;
    while q < mem.len()
        invariant
            q <= mem@.len(),
            mem@.len() == mis.len(),
            fs == functions@,
            forall|j: int| 0 <= j < mem@.len() ==> #[trigger] mem@[j] as int == mis[j],
            forall|j: int| 0 <= j < mem@.len() ==> #[trigger] mem@[j] < functions@.len(),
            idsv == mis.map_values(|i: int| fs[i].id@),
            texts(ids@) == idsv.subrange(0, q as int),
        decreases mem@.len() - q,
    {
        let ghost before = ids@;
        ids.push(functions[mem[q]].id.clone());
        proof {
            assert(texts(ids@) =~= texts(before).push(fs[mis[q as int]].id@));
            assert(texts(ids@) =~= idsv.subrange(0, q + 1));
        }
        q += 1;
    }
    proof {
        assert(idsv.subrange(0, mem@.len() as int) =~= idsv);
    }
    let empty_c: Vec<CodeGraphCall> = Vec::new();
    let calls = match &cg.calls {
        Some(c) => c,
        None => &empty_c,
    };
    let ghost inner = inner_calls(calls@, idsv);
    let ci = inner_positions(calls, &ids);
    proof {
        lemma_inner_calls_len(calls@, idsv);
    }
    let mut pairs: Vec<(String, String)> = Vec::new();
    let mut records: Vec<(String, String, bool, u32)> = Vec::new();
    let mut k: usize = 0;
    while k < ci.len()
        invariant
            k <= ci@.len(),
            ci@.len() == inner.len(),
            inner == inner_calls(calls@, idsv),
            forall|j: int| 0 <= j < ci@.len() ==> #[trigger] ci@[j] < calls@.len() && calls@[ci@[j] as int] == inner[j],
            pairs@.len() == k,
            records@.len() == k,
            forall|j: int| 0 <= j < k ==> #[trigger] pair_texts(pairs@)[j] == call_pairs(inner)[j],
            forall|j: int| 0 <= j < k ==> #[trigger] call_records(records@)[j] == function_call_records(inner)[j],
        decreases ci@.len() - k,
    {
        let c = &calls[ci[k]];
        proof {
            assert(*c == inner[k as int]);
        }
        let dynamic = crate::text::str_eq(c.kind.as_str(), "dynamic");
        let ghost pb = pairs@;
        let ghost rb = records@;
        pairs.push((c.from.clone(), c.to.clone()));
        records.push((c.from.clone(), c.to.clone(), dynamic, 1u32));
        proof {
            assert forall|j: int| 0 <= j < k + 1 implies #[trigger] pair_texts(pairs@)[j] == call_pairs(inner)[j] by {
                if j < k {
                    assert(pairs@[j] == pb[j]);
                    assert(pair_texts(pb)[j] == call_pairs(inner)[j]);
                }
            }
            assert forall|j: int| 0 <= j < k + 1 implies #[trigger] call_records(records@)[j] == function_call_records(inner)[j] by {
                if j < k {
                    assert(records@[j] == rb[j]);
                    assert(call_records(rb)[j] == function_call_records(inner)[j]);
                }
            }
        }
        k += 1;
    }
    proof {
        assert(pair_texts(pairs@) =~= call_pairs(inner));
        assert(call_records(records@) =~= function_call_records(inner));
    }
    let mut roots: Vec<String> = Vec::new();
    let mut q: usize = 0;
    while q < mem.len()
        invariant
            q <= mem@.len(),
            mem@.len() == mis.len(),
            fs == functions@,
            forall|j: int| 0 <= j < mem@.len() ==> #[trigger] mem@[j] as int == mis[j],
            forall|j: int| 0 <= j < mem@.len() ==> #[trigger] mem@[j] < functions@.len(),
            texts(roots@) == declared_roots(fs, mis.subrange(0, q as int)),
        decreases mem@.len() - q,
    {
        proof {
            let s1 = mis.subrange(0, q + 1);
            assert(s1.drop_last() =~= mis.subrange(0, q as int));
            assert(s1.last() == mis[q as int]);
        }
        let f = &functions[mem[q]];
        if f.root {
            let ghost before = roots@;
            roots.push(f.id.clone());
            proof {
                assert(texts(roots@) =~= texts(before).push(f.id@));
            }
        }
        q += 1;
    }
    proof {
        assert(mis.subrange(0, mem@.len() as int) =~= mis);
    }
    if roots.len() == 0 {
        let mut q: usize = 0;
        while q < mem.len()
            invariant
                q <= mem@.len(),
                mem@.len() == mis.len(),
                fs == functions@,
                forall|j: int| 0 <= j < mem@.len() ==> #[trigger] mem@[j] as int == mis[j],
                forall|j: int| 0 <= j < mem@.len() ==> #[trigger] mem@[j] < functions@.len(),
                ci@.len() == inner.len(),
                forall|j: int| 0 <= j < ci@.len() ==> #[trigger] ci@[j] < calls@.len() && calls@[ci@[j] as int] == inner[j],
                texts(roots@) == uncalled_roots(fs, mis.subrange(0, q as int), inner),
            decreases mem@.len() - q,
        {
            proof {
                let s1 = mis.subrange(0, q + 1);
                assert(s1.drop_last() =~= mis.subrange(0, q as int));
                assert(s1.last() == mis[q as int]);
            }
            let f = &functions[mem[q]];
            let mut called = false;
            let mut j: usize = 0;
            while j < ci.len()
                invariant
                    j <= ci@.len(),
                    ci@.len() == inner.len(),
                    forall|t: int| 0 <= t < ci@.len() ==> #[trigger] ci@[t] < calls@.len() && calls@[ci@[t] as int] == inner[t],
                    called == exists|t: int| 0 <= t < j && (#[trigger] inner[t]).to@ == f.id@,
                decreases ci@.len() - j,
            {
                let c = &calls[ci[j]];
                proof {
                    assert(*c == inner[j as int]);
                }
                if c.to == f.id {
                    called = true;
                }
                j += 1;
            }
            if !called {
                let ghost before = roots@;
                roots.push(f.id.clone());
                proof {
                    assert(texts(roots@) =~= texts(before).push(f.id@));
                }
            }
            q += 1;
        }
        proof {
            assert(mis.subrange(0, mem@.len() as int) =~= mis);
        }
    }
    proof {
        lemma_roots_len(fs, mis, inner);
        assert(texts(roots@) == function_roots(fs, mis, inner));
        assert(texts(ids@) == idsv);
    }
    let (cells, columns, rows) = grid_of(&ids, &roots, &pairs);
    let mut nodes: Vec<GraphNode> = Vec::new();
    let mut q: usize = 0;
    while q < mem.len()
        invariant
            q <= mem@.len(),
            mem@.len() == mis.len(),
            fs == functions@,
            forall|j: int| 0 <= j < mem@.len() ==> #[trigger] mem@[j] as int == mis[j],
            forall|j: int| 0 <= j < mem@.len() ==> #[trigger] mem@[j] < functions@.len(),
            cells@.len() == mis.len(),
            nodes@.len() == q,
            forall|j: int| 0 <= j < q ==> (#[trigger] nodes@[j]).id@ == fs[mis[j]].id@,
            forall|j: int| 0 <= j < q ==> (#[trigger] nodes@[j]).label@ == fs[mis[j]].symbol@,
            forall|j: int| 0 <= j < q ==> (#[trigger] nodes@[j]).sublabel@ == function_sublabel(fs[mis[j]]),
            forall|j: int| 0 <= j < q ==> (#[trigger] nodes@[j]).badges@ == reach_badges_spec(fs[mis[j]]),
            forall|j: int| 0 <= j < q ==> (#[trigger] nodes@[j]).fan_in == fs[mis[j]].fan_in,
            forall|j: int| 0 <= j < q ==> (#[trigger] nodes@[j]).fan_out == fs[mis[j]].fan_out,
            forall|j: int| 0 <= j < q ==> !(#[trigger] nodes@[j]).drillable,
            forall|j: int| 0 <= j < q ==> (#[trigger] nodes@[j]).layer == cells@[j].0 && nodes@[j].row == cells@[j].1,
        decreases mem@.len() - q,
    {
        let f = &functions[mem[q]];
        let (layer, row) = cells[q];
        nodes.push(
            GraphNode {
                id: f.id.clone(),
                label: f.symbol.clone(),
                sublabel: function_sublabel_text(f),
                layer,
                row,
                badges: reach_badges(f),
                fan_in: f.fan_in,
                fan_out: f.fan_out,
                drillable: false,
            },
        );
        q += 1;
    }
    let edges = grid_edges(&records, &ids, &cells);
    let g = GraphLayout { columns, rows, nodes, edges };
    proof {
        assert(node_cells(g.nodes@) =~= cells@);
        let ls = choose|ls: Seq<Seq<usize>>|
            is_call_grid(
                texts(ids@),
                texts(roots@),
                pair_texts(pairs@),
                ls,
                cells@,
                columns,
                rows,
            );
        assert(is_call_grid(
            idsv,
            function_roots(fs, mis, inner),
            call_pairs(inner),
            ls,
            node_cells(g.nodes@),
            g.columns,
            g.rows,
        ));
        assert(edge_views(g.edges@) == grid_edges_of(
            function_call_records(inner),
            idsv,
            node_cells(g.nodes@),
        ));
    }
    g
}

} // verus!

verus! {

/// The grid of a call graph is determined by the call graph: any two grids
/// of the same ids, roots and edges place every id in the same cell and
/// have the same column and row counts.
pub proof fn lemma_call_grid_unique(
    ids: Seq<Seq<char>>,
    roots: Seq<Seq<char>>,
    edges: Seq<(Seq<char>, Seq<char>)>,
    ls1: Seq<Seq<usize>>,
    cells1: Seq<(usize, usize)>,
    columns1: usize,
    rows1: usize,
    ls2: Seq<Seq<usize>>,
    cells2: Seq<(usize, usize)>,
    columns2: usize,
    rows2: usize,
)
    requires
        is_call_grid(ids, roots, edges, ls1, cells1, columns1, rows1),
        is_call_grid(ids, roots, edges, ls2, cells2, columns2, rows2),
    ensures
        cells1 == cells2,
        columns1 == columns2,
        rows1 == rows2,
{
    let names = layer_names(ids, roots, edges);
    crate::view_model::lemma_bfs_layering_unique(
        name_edges(names, edges),
        names.len(),
        Direction::Outbound,
        name_seeds(names, roots),
        ls1,
        ls2,
    );
    let lv1 = layer_vec(ids, roots, edges, ls1);
    let lv2 = layer_vec(ids, roots, edges, ls2);
    assert forall|i: int| 0 <= i < ids.len() implies lv1[i] == lv2[i] by {
        assert(depth_of(ls1, name_at(names, ids[i])) == depth_of(ls2, name_at(names, ids[i])));
    }
    assert(lv1 =~= lv2);
    assert forall|i: int| 0 <= i < ids.len() implies cells1[i] == cells2[i] by {
        assert(cell_of(ids, lv1, ids[i]) == cell_of(ids, lv2, ids[i]));
    }
    assert(cells1 =~= cells2);
}

/// Determinism law: the module layout of a document is unique: two layouts
/// of one document agree on every node, cell, count and edge.
pub proof fn lemma_module_layout_deterministic(g1: GraphLayout, g2: GraphLayout, cg: CodeGraph)
    requires
        is_module_layout(g1, cg),
        is_module_layout(g2, cg),
    ensures
        node_cells(g1.nodes@) == node_cells(g2.nodes@),
        g1.columns == g2.columns,
        g1.rows == g2.rows,
        edge_views(g1.edges@) == edge_views(g2.edges@),
{
    let mods = modules_of(cg);
    let ls1 = choose|ls: Seq<Seq<usize>>|
        is_call_grid(
            module_ids(mods),
            module_roots(mods),
            module_call_pairs(cg),
            ls,
            node_cells(g1.nodes@),
            g1.columns,
            g1.rows,
        );
    let ls2 = choose|ls: Seq<Seq<usize>>|
        is_call_grid(
            module_ids(mods),
            module_roots(mods),
            module_call_pairs(cg),
            ls,
            node_cells(g2.nodes@),
            g2.columns,
            g2.rows,
        );
    lemma_call_grid_unique(
        module_ids(mods),
        module_roots(mods),
        module_call_pairs(cg),
        ls1,
        node_cells(g1.nodes@),
        g1.columns,
        g1.rows,
        ls2,
        node_cells(g2.nodes@),
        g2.columns,
        g2.rows,
    );
}

/// Determinism law: the function layout of one module is unique.
pub proof fn lemma_function_layout_deterministic(
    g1: GraphLayout,
    g2: GraphLayout,
    cg: CodeGraph,
    module_id: Seq<char>,
)
    requires
        is_function_layout(g1, cg, module_id),
        is_function_layout(g2, cg, module_id),
    ensures
        node_cells(g1.nodes@) == node_cells(g2.nodes@),
        g1.columns == g2.columns,
        g1.rows == g2.rows,
        edge_views(g1.edges@) == edge_views(g2.edges@),
{
    match layout_members(cg, module_id) {
        None => {
            assert(node_cells(g1.nodes@) =~= node_cells(g2.nodes@));
            assert(edge_views(g1.edges@) =~= edge_views(g2.edges@));
        },
        Some(mi) => {
            if mi.len() == 0 {
                assert(node_cells(g1.nodes@) =~= node_cells(g2.nodes@));
                assert(edge_views(g1.edges@) =~= edge_views(g2.edges@));
            } else {
                let fs = functions_of(cg);
                let ids = mi.map_values(|i: int| fs[i].id@);
                let inner = inner_calls(calls_of(cg), ids);
                let roots = function_roots(fs, mi, inner);
                let pairs = call_pairs(inner);
                let ls1 = choose|ls: Seq<Seq<usize>>|
                    is_call_grid(ids, roots, pairs, ls, node_cells(g1.nodes@), g1.columns, g1.rows);
                let ls2 = choose|ls: Seq<Seq<usize>>|
                    is_call_grid(ids, roots, pairs, ls, node_cells(g2.nodes@), g2.columns, g2.rows);
                lemma_call_grid_unique(
                    ids,
                    roots,
                    pairs,
                    ls1,
                    node_cells(g1.nodes@),
                    g1.columns,
                    g1.rows,
                    ls2,
                    node_cells(g2.nodes@),
                    g2.columns,
                    g2.rows,
                );
            }
        },
    }
}


/// A module nothing calls into is among the roots.
proof fn lemma_module_roots_contains(mods: Seq<CodeGraphModule>, i: int)
    requires
        0 <= i < mods.len(),
        mods[i].fan_in == 0,
    ensures
        module_roots(mods).contains(mods[i].id@),
    decreases mods.len(),
{
    let last = mods.len() - 1;
    if i == last {
        assert(module_roots(mods).last() == mods[i].id@);
    } else {
        assert(mods.drop_last()[i] == mods[i]);
        lemma_module_roots_contains(mods.drop_last(), i);
        let r = module_roots(mods.drop_last());
        let p = choose|p: int| 0 <= p < r.len() && r[p] == mods[i].id@;
        if mods.last().fan_in == 0 {
            assert(module_roots(mods)[p] == r[p]);
        }
    }
}

/// Module-layout law: every module nothing calls into (fan-in 0) is a root
/// of the layering and sits in the first column.
pub proof fn lemma_uncalled_modules_in_first_column(g: GraphLayout, cg: CodeGraph)
    requires
        is_module_layout(g, cg),
    ensures
        forall|i: int|
            0 <= i < modules_of(cg).len() && modules_of(cg)[i].fan_in == 0 ==> (#[trigger] g.nodes@[i]).layer
                == 0,
{
    let mods = modules_of(cg);
    let ids = module_ids(mods);
    let roots = module_roots(mods);
    let edges = module_call_pairs(cg);
    let ls = choose|ls: Seq<Seq<usize>>|
        is_call_grid(ids, roots, edges, ls, node_cells(g.nodes@), g.columns, g.rows);
    let cells = node_cells(g.nodes@);
    let lv = layer_vec(ids, roots, edges, ls);
    lemma_call_layers(ids, roots, edges, ls);
    assert forall|i: int|
        0 <= i < mods.len() && mods[i].fan_in == 0 implies (#[trigger] g.nodes@[i]).layer == 0 by {
        let x = mods[i].id@;
        assert(ids[i] == x);
        lemma_module_roots_contains(mods, i);
        let ri = choose|ri: int| 0 <= ri < roots.len() && roots[ri] == x;
        assert(layer_of(ls, name_at(layer_names(ids, roots, edges), roots[ri])) == 0);
        assert(ids.contains(x));
        crate::text::lemma_last_pos_some(ids, x);
        crate::text::lemma_last_pos_bounds(ids, x);
        let p = last_pos(ids, x)->0;
        assert(ids[p] == x);
        assert(lv[p] == layer_of(ls, name_at(layer_names(ids, roots, edges), ids[p])) as usize);
        assert(cells[i] == (g.nodes@[i].layer, g.nodes@[i].row));
        assert((cells[i].0 as int, cells[i].1 as int) == cell_of(ids, lv, ids[i]));
    }
}

} // verus!
