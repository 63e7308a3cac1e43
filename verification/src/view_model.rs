//! The view-model facts the code-graph view renders: the tier/animation
//! modes, cluster membership, the BFS depth field, and the cull sets (what
//! gets uploaded for a filter and an animation wavefront).
use vstd::prelude::*;

use crate::graph::{
    in_layers, is_bfs_layering, layers_distinct, layers_in_bfs_order, preds, succs, FilterState, GraphIndex,
};
use crate::models::{CodeGraph, CodeGraphCall, CodeGraphFunction, CodeGraphModule, CodeGraphModuleCall};
use crate::text::{chars_of, dedup_first, last_pos, lemma_dedup_first, names_id, str_eq};

verus! {

/// The two granularities the view renders.
#[derive(Debug, Clone, Copy, PartialEq, Eq, Structural)]
pub enum Tier {
    Modules,
    Functions,
}

/// Whether entering `tier` should auto-play the roots animation once its
/// layout settles: the function tier only.
pub fn should_autoplay(tier: Tier) -> (r: bool)
    ensures
        r == (tier == Tier::Functions),
{
    match tier {
        Tier::Functions => true,
        Tier::Modules => false,
    }
}

/// Call-order animation wavefront: `Roots` sweeps from the entrypoints,
/// `Outbound`/`Inbound` from the selected node.
#[derive(Debug, Clone, Copy, PartialEq, Eq, Structural)]
pub enum AnimMode {
    Off,
    Roots,
    Outbound,
    Inbound,
}

// ─── clusters ──────────────────────────────────────────────────────────────

/// The index of the first `::` in `s` at or after `from`.
pub open spec fn find_sep(s: Seq<char>, from: int) -> Option<int>
    decreases s.len() - from,
{
    if from < 0 || from + 1 >= s.len() {
        None
    } else if s[from] == ':' && s[from + 1] == ':' {
        Some(from)
    } else {
        find_sep(s, from + 1)
    }
}

/// The cluster key of a package path: its first two `::` segments.
pub open spec fn cluster_prefix(pkg: Seq<char>) -> Seq<char> {
    match find_sep(pkg, 0) {
        None => pkg,
        Some(i) => match find_sep(pkg, i + 2) {
            None => pkg,
            Some(j) => pkg.subrange(0, j),
        },
    }
}

proof fn lemma_find_sep_bounds(s: Seq<char>, from: int)
    ensures
        find_sep(s, from) matches Some(i) ==> from <= i && i + 1 < s.len() && 0 <= i,
    decreases s.len() - from,
{
    if !(from < 0 || from + 1 >= s.len()) && !(s[from] == ':' && s[from + 1] == ':') {
        lemma_find_sep_bounds(s, from + 1);
    }
}

fn find_separator(cs: &Vec<char>, from: usize) -> (r: Option<usize>)
    ensures
        match r {
            Some(i) => find_sep(cs@, from as int) == Some(i as int),
            None => find_sep(cs@, from as int) is None,
        },
{
    if cs.len() < 2 || from >= cs.len() - 1 {
        return None;
    }
    let mut k = from;
    while k < cs.len() - 1
        invariant
            from <= k,
            cs@.len() >= 2,
            find_sep(cs@, from as int) == find_sep(cs@, k as int),
        decreases cs@.len() - k,
    {
        if cs[k] == ':' && cs[k + 1] == ':' {
            return Some(k);
        }
        k += 1;
    }
    None
}

/// The cluster key of a package path: its first two `::` segments.
fn cluster_key(pkg: &str) -> (r: String)
    ensures
        r@ == cluster_prefix(pkg@),
{
    let cs = chars_of(pkg);
    proof {
        lemma_find_sep_bounds(cs@, 0);
    }
    match find_separator(&cs, 0) {
        None => pkg.to_owned(),
        Some(i) => {
            let n = cs.len();
            proof {
                assert(i + 1 < n);
                lemma_find_sep_bounds(cs@, i + 2);
            }
            match find_separator(&cs, i + 2) {
                None => pkg.to_owned(),
                Some(j) => pkg.substring_char(0, j).to_owned(),
            }
        },
    }
}

/// The modules of the document (none when absent).
pub open spec fn modules_of(cg: CodeGraph) -> Seq<CodeGraphModule> {
    match cg.modules {
        Some(v) => v@,
        None => seq![],
    }
}

/// The functions of the document (none when absent).
pub open spec fn functions_of(cg: CodeGraph) -> Seq<CodeGraphFunction> {
    match cg.functions {
        Some(v) => v@,
        None => seq![],
    }
}

/// The cluster key of the LAST module that lists the function `fid`.
pub open spec fn owner_key(modules: Seq<CodeGraphModule>, fid: Seq<char>) -> Option<Seq<char>>
    decreases modules.len(),
{
    if modules.len() == 0 {
        None
    } else if names_id(modules.last().function_ids@, fid) {
        Some(cluster_prefix(modules.last().pkg@))
    } else {
        owner_key(modules.drop_last(), fid)
    }
}

/// The cluster key of every node of the tier, in node order: a module's
/// package prefix; a function's owning module's prefix, else its own id.
pub open spec fn cluster_keys(cg: CodeGraph, tier: Tier) -> Seq<Seq<char>> {
    match tier {
        Tier::Modules => modules_of(cg).map_values(|m: CodeGraphModule| cluster_prefix(m.pkg@)),
        Tier::Functions => functions_of(cg).map_values(
            |f: CodeGraphFunction|
                match owner_key(modules_of(cg), f.id@) {
                    Some(k) => k,
                    None => f.id@,
                },
        ),
    }
}

fn owner_of(modules: &Vec<CodeGraphModule>, fid: &str) -> (r: Option<String>)
    ensures
        match r {
            Some(k) => owner_key(modules@, fid@) == Some(k@),
            None => owner_key(modules@, fid@) is None,
        },
{
    let mut found: Option<usize> = None;
    let mut i: usize = 0;
    while i < modules.len()
        invariant
            i <= modules@.len(),
            match found {
                Some(k) => k < i && owner_key(modules@.subrange(0, i as int), fid@) == Some(
                    cluster_prefix(modules@[k as int].pkg@),
                ),
                None => owner_key(modules@.subrange(0, i as int), fid@) is None,
            },
        decreases modules@.len() - i,
    {
        proof {
            assert(modules@.subrange(0, i + 1).drop_last() =~= modules@.subrange(0, i as int));
            assert(modules@.subrange(0, i + 1).last() == modules@[i as int]);
        }
        if crate::text::contains_text(&modules[i].function_ids, fid) {
            found = Some(i);
        }
        i += 1;
    }
    proof {
        assert(modules@.subrange(0, modules@.len() as int) =~= modules@);
    }
    match found {
        Some(k) => Some(cluster_key(modules[k].pkg.as_str())),
        None => None,
    }
}

/// The cluster each node of the tier belongs to, numbered by first
/// appearance of its key, and the number of clusters.
pub fn cluster_ids(cg: &CodeGraph, tier: Tier) -> (r: (Vec<usize>, usize))
    ensures
        r.1 == dedup_first(cluster_keys(*cg, tier)).len(),
        r.0@.len() == cluster_keys(*cg, tier).len(),
        forall|i: int|
            0 <= i < r.0@.len() ==> #[trigger] r.0@[i] < r.1 && dedup_first(cluster_keys(*cg, tier))[r.0@[i] as int]
                == cluster_keys(*cg, tier)[i],
{
    let empty_m: Vec<CodeGraphModule> = Vec::new();
    let modules = match &cg.modules {
        Some(m) => m,
        None => &empty_m,
    };
    let mut keys: Vec<String> = Vec::new();
    match tier {
        Tier::Modules => {
            let mut i: usize = 0;
            while i < modules.len()
                invariant
                    i <= modules@.len(),
                    modules@ == modules_of(*cg),
                    keys@.len() == i,
                    forall|j: int| 0 <= j < i ==> (#[trigger] keys@[j])@ == cluster_prefix(modules@[j].pkg@),
                decreases modules@.len() - i,
            {
                keys.push(cluster_key(modules[i].pkg.as_str()));
                i += 1;
            }
        },
        Tier::Functions => {
            let empty_f: Vec<CodeGraphFunction> = Vec::new();
            let functions = match &cg.functions {
                Some(f) => f,
                None => &empty_f,
            };
            let mut i: usize = 0;
            while i < functions.len()
                invariant
                    i <= functions@.len(),
                    modules@ == modules_of(*cg),
                    functions@ == functions_of(*cg),
                    keys@.len() == i,
                    forall|j: int|
                        0 <= j < i ==> (#[trigger] keys@[j])@ == match owner_key(modules@, functions@[j].id@) {
                            Some(k) => k,
                            None => functions@[j].id@,
                        },
                decreases functions@.len() - i,
            {
                let k = match owner_of(modules, functions[i].id.as_str()) {
                    Some(k) => k,
                    None => functions[i].id.clone(),
                };
                keys.push(k);
                i += 1;
            }
        },
    }
    let ghost all = cluster_keys(*cg, tier);
    proof {
        assert(crate::text::texts(keys@) =~= all);
    }
    let mut distinct: Vec<String> = Vec::new();
    let mut ids: Vec<usize> = Vec::new();
    let mut i: usize = 0;
    while i < keys.len()
        invariant
            i <= keys@.len(),
            all == crate::text::texts(keys@),
            crate::text::texts(distinct@) == dedup_first(all.subrange(0, i as int)),
            ids@.len() == i,
            forall|j: int|
                0 <= j < i ==> #[trigger] ids@[j] < distinct@.len() && crate::text::texts(distinct@)[ids@[j] as int]
                    == all[j],
        decreases keys@.len() - i,
    {
        let ghost pre = all.subrange(0, i as int);
        proof {
            assert(all.subrange(0, i + 1).drop_last() =~= pre);
            assert(all.subrange(0, i + 1).last() == all[i as int]);
            assert(all[i as int] == keys@[i as int]@);
        }
        let pos = crate::text::position_of(&distinct, keys[i].as_str());
        proof {
            crate::text::lemma_dedup_push(pre, all[i as int]);
        }
        match pos {
            Some(p) => {
                proof {
                    assert(crate::text::texts(distinct@)[p as int] == all[i as int]);
                    assert(crate::text::texts(distinct@).contains(all[i as int]));
                }
                ids.push(p);
            },
            None => {
                let ghost before = distinct@;
                distinct.push(keys[i].clone());
                ids.push(distinct.len() - 1);
                proof {
                    assert(crate::text::texts(distinct@) =~= crate::text::texts(before).push(all[i as int]));
                    assert forall|j: int| 0 <= j < i implies crate::text::texts(distinct@)[ids@[j] as int]
                        == all[j] by {
                        assert(crate::text::texts(distinct@)[ids@[j] as int] == crate::text::texts(before)[ids@[j] as int]);
                    }
                }
            },
        }
        i += 1;
    }
    proof {
        assert(all.subrange(0, keys@.len() as int) =~= all);
    }
    let count = distinct.len();
    (ids, count)
}

// ─── the BFS depth field ───────────────────────────────────────────────────

/// The depth recorded for `v` by a sequence of layers: the last layer that
/// holds it, or `-1` when none does.
pub open spec fn depth_of(layers: Seq<Seq<usize>>, v: usize) -> int
    decreases layers.len(),
{
    if layers.len() == 0 {
        -1
    } else if layers.last().contains(v) {
        layers.len() - 1
    } else {
        depth_of(layers.drop_last(), v)
    }
}

/// A recorded depth names one of the layers.
pub proof fn lemma_depth_of_bound(layers: Seq<Seq<usize>>, v: usize)
    ensures
        -1 <= depth_of(layers, v) < layers.len(),
    decreases layers.len(),
{
    if layers.len() > 0 {
        lemma_depth_of_bound(layers.drop_last(), v);
    }
}

/// BFS layers -> per-node depth field (`-1` = unreached).
pub fn depth_field(node_count: usize, layers: &[Vec<usize>]) -> (r: Vec<i32>)
    requires
        layers@.len() <= i32::MAX,
        forall|d: int, i: int|
            0 <= d < layers@.len() && 0 <= i < layers@[d]@.len() ==> #[trigger] layers@[d]@[i]
                < node_count,
    ensures
        r@.len() == node_count,
        forall|v: int|
            0 <= v < node_count ==> #[trigger] r@[v] as int == depth_of(
                crate::graph::layer_views(layers@),
                v as usize,
            ),
{
    let mut depth: Vec<i32> = Vec::new();
    let mut c: usize = 0;
    while c < node_count
        invariant
            c <= node_count,
            depth@.len() == c,
            forall|v: int| 0 <= v < c ==> #[trigger] depth@[v] == -1,
        decreases node_count - c,
    {
        depth.push(-1);
        c += 1;
    }
    let ghost ls = crate::graph::layer_views(layers@);
    let mut d: usize = 0;
    while d < layers.len()
        invariant
            d <= layers@.len(),
            layers@.len() <= i32::MAX,
            ls == crate::graph::layer_views(layers@),
            depth@.len() == node_count,
            forall|dd: int, i: int|
                0 <= dd < layers@.len() && 0 <= i < layers@[dd]@.len() ==> #[trigger] layers@[dd]@[i]
                    < node_count,
            forall|v: int|
                0 <= v < node_count ==> #[trigger] depth@[v] as int == depth_of(
                    ls.subrange(0, d as int),
                    v as usize,
                ),
        decreases layers@.len() - d,
    {
        let layer = &layers[d];
        let ghost before = depth@;
        let mut i: usize = 0;
        while i < layer.len()
            invariant
                d < layers@.len(),
                d < i32::MAX,
                layer@ == layers@[d as int]@,
                i <= layer@.len(),
                depth@.len() == node_count,
                forall|k: int| 0 <= k < layer@.len() ==> #[trigger] layer@[k] < node_count,
                forall|v: int|
                    0 <= v < node_count ==> #[trigger] depth@[v] == if layer@.subrange(0, i as int).contains(
                        v as usize,
                    ) {
                        d as i32
                    } else {
                        before[v]
                    },
            decreases layer@.len() - i,
        {
            let v = layer[i];
            depth.set(v, d as i32);
            proof {
                assert forall|w: int| 0 <= w < node_count implies #[trigger] depth@[w] == if layer@.subrange(
                    0,
                    i + 1,
                ).contains(w as usize) {
                    d as i32
                } else {
                    before[w]
                } by {
                    let s1 = layer@.subrange(0, i + 1);
                    let s0 = layer@.subrange(0, i as int);
                    assert(s1 =~= s0.push(v));
                    if s0.contains(w as usize) {
                        let k = choose|k: int| 0 <= k < s0.len() && s0[k] == w as usize;
                        assert(s1[k] == w as usize);
                    }
                    if s1.contains(w as usize) && w as usize != v {
                        let k = choose|k: int| 0 <= k < s1.len() && s1[k] == w as usize;
                        assert(s0[k] == w as usize);
                    }
                    if w as usize == v {
                        assert(s1[i as int] == v);
                    }
                }
            }
            i += 1;
        }
        proof {
            assert(layer@.subrange(0, layer@.len() as int) =~= layer@);
            let s1 = ls.subrange(0, d + 1);
            assert(s1.drop_last() =~= ls.subrange(0, d as int));
            assert(s1.last() == layer@);
        }
        d += 1;
    }
    proof {
        assert(ls.subrange(0, layers@.len() as int) =~= ls);
    }
    depth
}

/// Depth law: over a BFS layering, the depth field of a node is exactly the
/// layer that holds it, and `-1` exactly when no layer does.
pub proof fn lemma_depth_of_bfs_layering(
    edges: Seq<(usize, usize)>,
    n: nat,
    dir: crate::graph::Direction,
    seeds: Seq<usize>,
    ls: Seq<Seq<usize>>,
    v: usize,
)
    requires
        is_bfs_layering(edges, n, dir, seeds, ls),
    ensures
        depth_of(ls, v) == -1 <==> !in_layers(ls, v),
        depth_of(ls, v) >= 0 ==> depth_of(ls, v) < ls.len() && ls[depth_of(ls, v)].contains(v),
        forall|d: int| 0 <= d < ls.len() && #[trigger] ls[d].contains(v) ==> depth_of(ls, v) == d,
{
    lemma_depth_of_distinct(ls, v);
}

proof fn lemma_depth_of_distinct(ls: Seq<Seq<usize>>, v: usize)
    requires
        layers_distinct(ls),
    ensures
        depth_of(ls, v) == -1 <==> !in_layers(ls, v),
        depth_of(ls, v) >= 0 ==> depth_of(ls, v) < ls.len() && ls[depth_of(ls, v)].contains(v),
        forall|d: int| 0 <= d < ls.len() && #[trigger] ls[d].contains(v) ==> depth_of(ls, v) == d,
    decreases ls.len(),
{
    if ls.len() > 0 {
        let pre = ls.drop_last();
        assert forall|d1: int, i1: int, d2: int, i2: int|
            #![trigger pre[d1][i1], pre[d2][i2]]
            0 <= d1 < pre.len() && 0 <= i1 < pre[d1].len() && 0 <= d2 < pre.len() && 0 <= i2
                < pre[d2].len() && pre[d1][i1] == pre[d2][i2] implies d1 == d2 && i1 == i2 by {
            assert(ls[d1][i1] == pre[d1][i1] && ls[d2][i2] == pre[d2][i2]);
        }
        lemma_depth_of_distinct(pre, v);
        let last = ls.len() - 1;
        if ls.last().contains(v) {
            let i = choose|i: int| 0 <= i < ls.last().len() && ls.last()[i] == v;
            assert(ls[last][i] == v);
            assert forall|d: int| 0 <= d < ls.len() && #[trigger] ls[d].contains(v) implies depth_of(ls, v)
                == d by {
                let j = choose|j: int| 0 <= j < ls[d].len() && ls[d][j] == v;
                assert(ls[d][j] == ls[last][i]);
            }
        } else {
            assert forall|d: int| 0 <= d < ls.len() && #[trigger] ls[d].contains(v) implies depth_of(ls, v)
                == d by {
                if d == last {
                    assert(ls[d] == ls.last());
                } else {
                    assert(pre[d] == ls[d]);
                }
            }
            if in_layers(ls, v) {
                let (d, i) = choose|d: int, i: int|
                    #![trigger ls[d][i]]
                    0 <= d < ls.len() && d < ls.len() && 0 <= i < ls[d].len() && ls[d][i] == v;
                if d == last {
                    assert(ls.last()[i] == v);
                } else {
                    assert(pre[d][i] == v);
                    assert(in_layers(pre, v));
                }
            }
            if in_layers(pre, v) {
                let (d, i) = choose|d: int, i: int|
                    #![trigger pre[d][i]]
                    0 <= d < pre.len() && d < pre.len() && 0 <= i < pre[d].len() && pre[d][i] == v;
                assert(ls[d][i] == v);
            }
            if depth_of(ls, v) >= 0 {
                assert(ls[depth_of(ls, v)] == pre[depth_of(ls, v)]);
            }
        }
    }
}

} // verus!

verus! {

// ─── one tier's graph ──────────────────────────────────────────────────────

/// The module calls of the document (none when absent).
pub open spec fn module_calls_of(cg: CodeGraph) -> Seq<CodeGraphModuleCall> {
    match cg.module_calls {
        Some(v) => v@,
        None => seq![],
    }
}

/// The function calls of the document (none when absent).
pub open spec fn calls_of(cg: CodeGraph) -> Seq<CodeGraphCall> {
    match cg.calls {
        Some(v) => v@,
        None => seq![],
    }
}

/// The node ids of the tier, in node order.
pub open spec fn tier_ids(cg: CodeGraph, tier: Tier) -> Seq<Seq<char>> {
    match tier {
        Tier::Modules => modules_of(cg).map_values(|m: CodeGraphModule| m.id@),
        Tier::Functions => functions_of(cg).map_values(|f: CodeGraphFunction| f.id@),
    }
}

/// The calls of the tier as `(from id, to id, dynamic)`.
pub open spec fn tier_calls(cg: CodeGraph, tier: Tier) -> Seq<(Seq<char>, Seq<char>, bool)> {
    match tier {
        Tier::Modules => module_calls_of(cg).map_values(
            |c: CodeGraphModuleCall| (c.from@, c.to@, c.has_dynamic),
        ),
        Tier::Functions => calls_of(cg).map_values(
            |c: CodeGraphCall| (c.from@, c.to@, c.kind@ == "dynamic"@),
        ),
    }
}

/// Calls mapped to node indices (an id names the last node carrying it);
/// calls with an unknown endpoint and self-calls are dropped.
pub open spec fn resolve_calls(
    ids: Seq<Seq<char>>,
    calls: Seq<(Seq<char>, Seq<char>, bool)>,
) -> Seq<(usize, usize, bool)>
    decreases calls.len(),
{
    if calls.len() == 0 {
        seq![]
    } else {
        let rest = resolve_calls(ids, calls.drop_last());
        let c = calls.last();
        match (last_pos(ids, c.0), last_pos(ids, c.1)) {
            (Some(a), Some(b)) => if a != b {
                rest.push((a as usize, b as usize, c.2))
            } else {
                rest
            },
            _ => rest,
        }
    }
}

/// The directed edges of the tier: `(from, to, dynamic)` node indices.
pub open spec fn tier_edges(cg: CodeGraph, tier: Tier) -> Seq<(usize, usize, bool)> {
    resolve_calls(tier_ids(cg, tier), tier_calls(cg, tier))
}

/// A module all of whose functions are dead candidates.
pub open spec fn module_dead(m: CodeGraphModule) -> bool {
    m.counts.dead > 0 && m.counts.dead == m.counts.functions
}

/// A module all of whose functions are test-only candidates.
pub open spec fn module_test_only(m: CodeGraphModule) -> bool {
    m.counts.test_only > 0 && m.counts.test_only == m.counts.functions
}

/// The label of node `i`: a module's package, a function's symbol.
pub open spec fn tier_label(cg: CodeGraph, tier: Tier, i: int) -> Seq<char> {
    match tier {
        Tier::Modules => modules_of(cg)[i].pkg@,
        Tier::Functions => functions_of(cg)[i].symbol@,
    }
}

/// The total degree (fan-in + fan-out) of node `i`.
pub open spec fn tier_degree(cg: CodeGraph, tier: Tier, i: int) -> int {
    match tier {
        Tier::Modules => modules_of(cg)[i].fan_in + modules_of(cg)[i].fan_out,
        Tier::Functions => functions_of(cg)[i].fan_in + functions_of(cg)[i].fan_out,
    }
}

/// Production-reachable: every module (the module tier carries no such
/// flag), a function by its own flag.
pub open spec fn tier_prod(cg: CodeGraph, tier: Tier, i: int) -> bool {
    match tier {
        Tier::Modules => true,
        Tier::Functions => functions_of(cg)[i].prod_reachable,
    }
}

/// Dead candidate: a fully dead module; an unreached, unexported function.
pub open spec fn tier_dead(cg: CodeGraph, tier: Tier, i: int) -> bool {
    match tier {
        Tier::Modules => module_dead(modules_of(cg)[i]),
        Tier::Functions => !functions_of(cg)[i].reachable && !functions_of(cg)[i].exported,
    }
}

/// Public and unreferenced: an unreached, exported function.
pub open spec fn tier_public_unreferenced(cg: CodeGraph, tier: Tier, i: int) -> bool {
    match tier {
        Tier::Modules => false,
        Tier::Functions => !functions_of(cg)[i].reachable && functions_of(cg)[i].exported,
    }
}

/// Test-only: a fully test-only module; a test function.
pub open spec fn tier_test_only(cg: CodeGraph, tier: Tier, i: int) -> bool {
    match tier {
        Tier::Modules => module_test_only(modules_of(cg)[i]),
        Tier::Functions => functions_of(cg)[i].test,
    }
}

/// Generated code (functions only).
pub open spec fn tier_generated(cg: CodeGraph, tier: Tier, i: int) -> bool {
    match tier {
        Tier::Modules => false,
        Tier::Functions => functions_of(cg)[i].generated,
    }
}

/// The positions of the root functions, in order.
pub open spec fn root_indices(fs: Seq<CodeGraphFunction>) -> Seq<usize>
    decreases fs.len(),
{
    if fs.len() == 0 {
        seq![]
    } else if fs.last().root {
        root_indices(fs.drop_last()).push((fs.len() - 1) as usize)
    } else {
        root_indices(fs.drop_last())
    }
}

/// The entrypoints of the tier: root functions; none at the module tier.
pub open spec fn tier_roots(cg: CodeGraph, tier: Tier) -> Seq<usize> {
    match tier {
        Tier::Modules => seq![],
        Tier::Functions => root_indices(functions_of(cg)),
    }
}

/// An edge as an unordered pair, smaller index first.
pub open spec fn undirected(e: (usize, usize, bool)) -> (usize, usize) {
    if e.0 <= e.1 {
        (e.0, e.1)
    } else {
        (e.1, e.0)
    }
}

/// `s` without repeats, each pair kept at its first occurrence.
pub open spec fn dedup_pairs(s: Seq<(usize, usize)>) -> Seq<(usize, usize)>
    decreases s.len(),
{
    if s.len() == 0 {
        seq![]
    } else {
        let rest = dedup_pairs(s.drop_last());
        if rest.contains(s.last()) {
            rest
        } else {
            rest.push(s.last())
        }
    }
}

/// The undirected, deduplicated edges the force layout consumes.
pub open spec fn layout_pairs(es: Seq<(usize, usize, bool)>) -> Seq<(usize, usize)> {
    dedup_pairs(es.map_values(|e: (usize, usize, bool)| undirected(e)))
}

/// The directed edges without their kind.
pub open spec fn directed_pairs(es: Seq<(usize, usize, bool)>) -> Seq<(usize, usize)> {
    es.map_values(|e: (usize, usize, bool)| (e.0, e.1))
}

/// The neighbours of `v` in either direction, one entry per edge, in edge order.
pub open spec fn neighbors_of(es: Seq<(usize, usize, bool)>, v: usize) -> Seq<usize>
    decreases es.len(),
{
    if es.len() == 0 {
        seq![]
    } else {
        let rest = neighbors_of(es.drop_last(), v);
        let e = es.last();
        if e.0 == v {
            rest.push(e.1)
        } else if e.1 == v {
            rest.push(e.0)
        } else {
            rest
        }
    }
}

} // verus!

verus! {

/// The per-node columns of one tier, index-aligned.
struct Columns {
    ids: Vec<String>,
    labels: Vec<String>,
    degree: Vec<u32>,
    prod_reachable: Vec<bool>,
    dead: Vec<bool>,
    public_unreferenced: Vec<bool>,
    test_only: Vec<bool>,
    generated: Vec<bool>,
    roots: Vec<usize>,
}

/// The columns agree with the tier's nodes.
spec fn columns_match(c: Columns, cg: CodeGraph, tier: Tier) -> bool {
    let n = tier_ids(cg, tier).len();
    &&& c.ids@.len() == n
    &&& c.labels@.len() == n
    &&& c.degree@.len() == n
    &&& c.prod_reachable@.len() == n
    &&& c.dead@.len() == n
    &&& c.public_unreferenced@.len() == n
    &&& c.test_only@.len() == n
    &&& c.generated@.len() == n
    &&& crate::text::texts(c.ids@) == tier_ids(cg, tier)
    &&& forall|i: int| 0 <= i < n ==> (#[trigger] c.labels@[i])@ == tier_label(cg, tier, i)
    &&& forall|i: int| 0 <= i < n ==> #[trigger] c.degree@[i] == tier_degree(cg, tier, i)
    &&& forall|i: int| 0 <= i < n ==> #[trigger] c.prod_reachable@[i] == tier_prod(cg, tier, i)
    &&& forall|i: int| 0 <= i < n ==> #[trigger] c.dead@[i] == tier_dead(cg, tier, i)
    &&& forall|i: int|
        0 <= i < n ==> #[trigger] c.public_unreferenced@[i] == tier_public_unreferenced(cg, tier, i)
    &&& forall|i: int| 0 <= i < n ==> #[trigger] c.test_only@[i] == tier_test_only(cg, tier, i)
    &&& forall|i: int| 0 <= i < n ==> #[trigger] c.generated@[i] == tier_generated(cg, tier, i)
    &&& c.roots@ == tier_roots(cg, tier)
}

fn empty_columns() -> (c: Columns)
    ensures
        c.ids@.len() == 0,
        c.labels@.len() == 0,
        c.degree@.len() == 0,
        c.prod_reachable@.len() == 0,
        c.dead@.len() == 0,
        c.public_unreferenced@.len() == 0,
        c.test_only@.len() == 0,
        c.generated@.len() == 0,
        c.roots@ == Seq::<usize>::empty(),
{
    Columns {
        ids: Vec::new(),
        labels: Vec::new(),
        degree: Vec::new(),
        prod_reachable: Vec::new(),
        dead: Vec::new(),
        public_unreferenced: Vec::new(),
        test_only: Vec::new(),
        generated: Vec::new(),
        roots: Vec::new(),
    }
}

/// The columns hold the first `i` nodes of the tier.
spec fn columns_upto(c: Columns, cg: CodeGraph, tier: Tier, i: int) -> bool {
    &&& c.ids@.len() == i
    &&& c.labels@.len() == i
    &&& c.degree@.len() == i
    &&& c.prod_reachable@.len() == i
    &&& c.dead@.len() == i
    &&& c.public_unreferenced@.len() == i
    &&& c.test_only@.len() == i
    &&& c.generated@.len() == i
    &&& forall|j: int| 0 <= j < i ==> (#[trigger] c.labels@[j])@ == tier_label(cg, tier, j)
    &&& forall|j: int| 0 <= j < i ==> (#[trigger] c.ids@[j])@ == tier_ids(cg, tier)[j]
    &&& forall|j: int| 0 <= j < i ==> #[trigger] c.degree@[j] == tier_degree(cg, tier, j)
    &&& forall|j: int| 0 <= j < i ==> #[trigger] c.prod_reachable@[j] == tier_prod(cg, tier, j)
    &&& forall|j: int| 0 <= j < i ==> #[trigger] c.dead@[j] == tier_dead(cg, tier, j)
    &&& forall|j: int|
        0 <= j < i ==> #[trigger] c.public_unreferenced@[j] == tier_public_unreferenced(cg, tier, j)
    &&& forall|j: int| 0 <= j < i ==> #[trigger] c.test_only@[j] == tier_test_only(cg, tier, j)
    &&& forall|j: int| 0 <= j < i ==> #[trigger] c.generated@[j] == tier_generated(cg, tier, j)
}

proof fn lemma_columns_done(c: Columns, cg: CodeGraph, tier: Tier)
    requires
        columns_upto(c, cg, tier, tier_ids(cg, tier).len() as int),
        c.roots@ == tier_roots(cg, tier),
    ensures
        columns_match(c, cg, tier),
{
    let n = tier_ids(cg, tier).len();
    assert forall|j: int| 0 <= j < n implies crate::text::texts(c.ids@)[j] == tier_ids(cg, tier)[j] by {
        assert(c.labels@[j]@ == tier_label(cg, tier, j));
    }
    assert(crate::text::texts(c.ids@) =~= tier_ids(cg, tier));
}

fn module_columns(cg: &CodeGraph) -> (c: Columns)
    requires
        forall|i: int|
            0 <= i < tier_ids(*cg, Tier::Modules).len() ==> tier_degree(*cg, Tier::Modules, i)
                <= u32::MAX,
    ensures
        columns_match(c, *cg, Tier::Modules),
{
    let ghost tier = Tier::Modules;
    let mut c = empty_columns();
    let empty_m: Vec<CodeGraphModule> = Vec::new();
    let modules = match &cg.modules {
        Some(m) => m,
        None => &empty_m,
    };
    let mut i: usize = 0;
    while i < modules.len()
        invariant
            tier == Tier::Modules,
            modules@ == modules_of(*cg),
            i <= modules@.len(),
            forall|j: int| 0 <= j < modules@.len() ==> tier_degree(*cg, tier, j) <= u32::MAX,
            columns_upto(c, *cg, tier, i as int),
            c.roots@ == Seq::<usize>::empty(),
        decreases modules@.len() - i,
    {
        let m = &modules[i];
        proof {
            assert(tier_degree(*cg, tier, i as int) <= u32::MAX);
        }
        c.ids.push(m.id.clone());
        c.labels.push(m.pkg.clone());
        c.degree.push(m.fan_in + m.fan_out);
        c.prod_reachable.push(true);
        c.dead.push(m.counts.dead > 0 && m.counts.dead == m.counts.functions);
        c.public_unreferenced.push(false);
        c.test_only.push(m.counts.test_only > 0 && m.counts.test_only == m.counts.functions);
        c.generated.push(false);
        proof {
            assert(tier_ids(*cg, tier)[i as int] == modules@[i as int].id@);
        }
        i += 1;
    }
    proof {
        lemma_columns_done(c, *cg, tier);
    }
    c
}

fn function_columns(cg: &CodeGraph) -> (c: Columns)
    requires
        forall|i: int|
            0 <= i < tier_ids(*cg, Tier::Functions).len() ==> tier_degree(*cg, Tier::Functions, i)
                <= u32::MAX,
    ensures
        columns_match(c, *cg, Tier::Functions),
{
    let ghost tier = Tier::Functions;
    let mut c = empty_columns();
    let empty_f: Vec<CodeGraphFunction> = Vec::new();
    let functions = match &cg.functions {
        Some(f) => f,
        None => &empty_f,
    };
    let mut i: usize = 0;
    while i < functions.len()
        invariant
            tier == Tier::Functions,
            functions@ == functions_of(*cg),
            i <= functions@.len(),
            forall|j: int| 0 <= j < functions@.len() ==> tier_degree(*cg, tier, j) <= u32::MAX,
            columns_upto(c, *cg, tier, i as int),
            c.roots@ == root_indices(functions@.subrange(0, i as int)),
        decreases functions@.len() - i,
    {
        let f = &functions[i];
        proof {
            assert(tier_degree(*cg, tier, i as int) <= u32::MAX);
            let s1 = functions@.subrange(0, i + 1);
            assert(s1.drop_last() =~= functions@.subrange(0, i as int));
            assert(s1.last() == functions@[i as int]);
        }
        if f.root {
            c.roots.push(i);
        }
        c.ids.push(f.id.clone());
        c.labels.push(f.symbol.clone());
        c.degree.push(f.fan_in + f.fan_out);
        c.prod_reachable.push(f.prod_reachable);
        c.dead.push(!f.reachable && !f.exported);
        c.public_unreferenced.push(!f.reachable && f.exported);
        c.test_only.push(f.test);
        c.generated.push(f.generated);
        proof {
            assert(tier_ids(*cg, tier)[i as int] == functions@[i as int].id@);
        }
        i += 1;
    }
    proof {
        assert(functions@.subrange(0, functions@.len() as int) =~= functions@);
        lemma_columns_done(c, *cg, tier);
    }
    c
}

} // verus!

verus! {

/// Calls as `(from, to, dynamic)` by their characters.
pub open spec fn call_views(calls: Seq<(String, String, bool)>) -> Seq<(Seq<char>, Seq<char>, bool)> {
    calls.map_values(|c: (String, String, bool)| (c.0@, c.1@, c.2))
}

/// The calls of the tier as `(from id, to id, dynamic)`.
fn tier_call_list(cg: &CodeGraph, tier: Tier) -> (r: Vec<(String, String, bool)>)
    ensures
        call_views(r@) == tier_calls(*cg, tier),
{
    let mut out: Vec<(String, String, bool)> = Vec::new();
    match tier {
        Tier::Modules => {
            let empty: Vec<CodeGraphModuleCall> = Vec::new();
            let calls = match &cg.module_calls {
                Some(c) => c,
                None => &empty,
            };
            let mut i: usize = 0;
            while i < calls.len()
                invariant
                    tier == Tier::Modules,
                    calls@ == module_calls_of(*cg),
                    i <= calls@.len(),
                    out@.len() == i,
                    forall|j: int|
                        0 <= j < i ==> #[trigger] call_views(out@)[j] == tier_calls(*cg, tier)[j],
                decreases calls@.len() - i,
            {
                let c = &calls[i];
                let ghost o0 = out@;
                out.push((c.from.clone(), c.to.clone(), c.has_dynamic));
                proof {
                    assert forall|j: int| 0 <= j < i + 1 implies #[trigger] call_views(out@)[j]
                        == tier_calls(*cg, tier)[j] by {
                        assert(call_views(out@)[j] == (out@[j].0@, out@[j].1@, out@[j].2));
                        assert(tier_calls(*cg, tier)[j] == (calls@[j].from@, calls@[j].to@, calls@[j].has_dynamic));
                        if j < i {
                            assert(out@[j] == o0[j]);
                            assert(call_views(o0)[j] == tier_calls(*cg, tier)[j]);
                            assert(call_views(o0)[j] == (o0[j].0@, o0[j].1@, o0[j].2));
                        }
                    }
                }
                i += 1;
            }
        },
        Tier::Functions => {
            let empty: Vec<CodeGraphCall> = Vec::new();
            let calls = match &cg.calls {
                Some(c) => c,
                None => &empty,
            };
            let mut i: usize = 0;
            while i < calls.len()
                invariant
                    tier == Tier::Functions,
                    calls@ == calls_of(*cg),
                    i <= calls@.len(),
                    out@.len() == i,
                    forall|j: int|
                        0 <= j < i ==> #[trigger] call_views(out@)[j] == tier_calls(*cg, tier)[j],
                decreases calls@.len() - i,
            {
                let c = &calls[i];
                let dynamic = str_eq(c.kind.as_str(), "dynamic");
                let ghost o0 = out@;
                out.push((c.from.clone(), c.to.clone(), dynamic));
                proof {
                    assert forall|j: int| 0 <= j < i + 1 implies #[trigger] call_views(out@)[j]
                        == tier_calls(*cg, tier)[j] by {
                        assert(call_views(out@)[j] == (out@[j].0@, out@[j].1@, out@[j].2));
                        assert(tier_calls(*cg, tier)[j] == (
                            calls@[j].from@,
                            calls@[j].to@,
                            calls@[j].kind@ == "dynamic"@,
                        ));
                        if j < i {
                            assert(out@[j] == o0[j]);
                            assert(call_views(o0)[j] == tier_calls(*cg, tier)[j]);
                            assert(call_views(o0)[j] == (o0[j].0@, o0[j].1@, o0[j].2));
                        }
                    }
                }
                i += 1;
            }
        },
    }
    proof {
        assert(call_views(out@) =~= tier_calls(*cg, tier));
    }
    out
}

proof fn lemma_resolve_push(
    ids: Seq<Seq<char>>,
    calls: Seq<(Seq<char>, Seq<char>, bool)>,
    c: (Seq<char>, Seq<char>, bool),
)
    ensures
        resolve_calls(ids, calls.push(c)) == match (last_pos(ids, c.0), last_pos(ids, c.1)) {
            (Some(a), Some(b)) => if a != b {
                resolve_calls(ids, calls).push((a as usize, b as usize, c.2))
            } else {
                resolve_calls(ids, calls)
            },
            _ => resolve_calls(ids, calls),
        },
{
    assert(calls.push(c).drop_last() =~= calls);
}

/// Every resolved edge joins two distinct nodes of `ids`.
pub proof fn lemma_resolve_in_range(ids: Seq<Seq<char>>, calls: Seq<(Seq<char>, Seq<char>, bool)>)
    requires
        ids.len() <= usize::MAX,
    ensures
        resolve_calls(ids, calls).len() <= calls.len(),
        forall|k: int|
            0 <= k < resolve_calls(ids, calls).len() ==> (#[trigger] resolve_calls(ids, calls)[k]).0
                < ids.len() && resolve_calls(ids, calls)[k].1 < ids.len() && resolve_calls(
                ids,
                calls,
            )[k].0 != resolve_calls(ids, calls)[k].1,
    decreases calls.len(),
{
    if calls.len() > 0 {
        let pre = calls.drop_last();
        lemma_resolve_in_range(ids, pre);
        crate::text::lemma_last_pos_bounds(ids, calls.last().0);
        crate::text::lemma_last_pos_bounds(ids, calls.last().1);
        let r = resolve_calls(ids, calls);
        let rp = resolve_calls(ids, pre);
        let c = calls.last();
        match (last_pos(ids, c.0), last_pos(ids, c.1)) {
            (Some(a), Some(b)) => {
                if a != b {
                    assert(r == rp.push((a as usize, b as usize, c.2)));
                    assert forall|k: int| 0 <= k < r.len() implies (#[trigger] r[k]).0 < ids.len()
                        && r[k].1 < ids.len() && r[k].0 != r[k].1 by {
                        if k < rp.len() {
                            assert(r[k] == rp[k]);
                        }
                    }
                } else {
                    assert(r == rp);
                }
            },
            _ => {
                assert(r == rp);
            },
        }
    }
}

/// Map calls to node indices, dropping dangling and self calls.
fn resolve(ids: &Vec<String>, calls: &Vec<(String, String, bool)>) -> (r: Vec<(usize, usize, bool)>)
    ensures
        r@ == resolve_calls(crate::text::texts(ids@), call_views(calls@)),
{
    let ghost idv = crate::text::texts(ids@);
    let ghost cv = call_views(calls@);
    let mut out: Vec<(usize, usize, bool)> = Vec::new();
    let mut k: usize = 0;
    while k < calls.len()
        invariant
            k <= calls@.len(),
            idv == crate::text::texts(ids@),
            cv == call_views(calls@),
            out@ == resolve_calls(idv, cv.subrange(0, k as int)),
        decreases calls@.len() - k,
    {
        let c = &calls[k];
        proof {
            assert(cv.subrange(0, k + 1) =~= cv.subrange(0, k as int).push(cv[k as int]));
            lemma_resolve_push(idv, cv.subrange(0, k as int), cv[k as int]);
            assert(cv[k as int] == (c.0@, c.1@, c.2));
        }
        let a = crate::text::last_position_of(ids, &c.0);
        let b = crate::text::last_position_of(ids, &c.1);
        match (a, b) {
            (Some(a), Some(b)) => {
                if a != b {
                    out.push((a, b, c.2));
                }
            },
            _ => {},
        }
        k += 1;
    }
    proof {
        assert(cv.subrange(0, calls@.len() as int) =~= cv);
    }
    out
}

} // verus!

verus! {

fn contains_pair(v: &Vec<(usize, usize)>, p: (usize, usize)) -> (r: bool)
    ensures
        r == v@.contains(p),
{
    let mut i: usize = 0;
    while i < v.len()
        invariant
            i <= v@.len(),
            forall|k: int| 0 <= k < i ==> #[trigger] v@[k] != p,
        decreases v@.len() - i,
    {
        if v[i].0 == p.0 && v[i].1 == p.1 {
            return true;
        }
        i += 1;
    }
    false
}

/// The undirected, deduplicated edge list (first occurrence kept).
fn layout_edges_of(edges: &Vec<(usize, usize, bool)>) -> (r: Vec<(usize, usize)>)
    ensures
        r@ == layout_pairs(edges@),
{
    let ghost und = edges@.map_values(|e: (usize, usize, bool)| undirected(e));
    let mut out: Vec<(usize, usize)> = Vec::new();
    let mut k: usize = 0;
    while k < edges.len()
        invariant
            k <= edges@.len(),
            und == edges@.map_values(|e: (usize, usize, bool)| undirected(e)),
            out@ == dedup_pairs(und.subrange(0, k as int)),
        decreases edges@.len() - k,
    {
        let (a, b, _) = edges[k];
        let key = if a <= b {
            (a, b)
        } else {
            (b, a)
        };
        proof {
            let s1 = und.subrange(0, k + 1);
            assert(s1.drop_last() =~= und.subrange(0, k as int));
            assert(s1.last() == undirected(edges@[k as int]));
            assert(key == undirected(edges@[k as int]));
        }
        if !contains_pair(&out, key) {
            out.push(key);
        }
        k += 1;
    }
    proof {
        assert(und.subrange(0, edges@.len() as int) =~= und);
    }
    out
}

/// Undirected adjacency lists over `0..n`.
fn neighbor_lists(n: usize, edges: &Vec<(usize, usize, bool)>) -> (r: Vec<Vec<usize>>)
    requires
        forall|k: int|
            0 <= k < edges@.len() ==> (#[trigger] edges@[k]).0 < n && edges@[k].1 < n && edges@[k].0
                != edges@[k].1,
    ensures
        r@.len() == n,
        forall|v: int| 0 <= v < n ==> (#[trigger] r@[v])@ == neighbors_of(edges@, v as usize),
{
    let mut out: Vec<Vec<usize>> = Vec::new();
    let mut i: usize = 0;
    while i < n
        invariant
            i <= n,
            out@.len() == i,
            forall|v: int| 0 <= v < i ==> (#[trigger] out@[v])@ == Seq::<usize>::empty(),
        decreases n - i,
    {
        out.push(Vec::new());
        i += 1;
    }
    let mut k: usize = 0;
    while k < edges.len()
        invariant
            k <= edges@.len(),
            out@.len() == n,
            forall|j: int|
                0 <= j < edges@.len() ==> (#[trigger] edges@[j]).0 < n && edges@[j].1 < n
                    && edges@[j].0 != edges@[j].1,
            forall|v: int|
                0 <= v < n ==> (#[trigger] out@[v])@ == neighbors_of(
                    edges@.subrange(0, k as int),
                    v as usize,
                ),
        decreases edges@.len() - k,
    {
        let (a, b, _) = edges[k];
        let ghost pre = edges@.subrange(0, k as int);
        let ghost s1 = edges@.subrange(0, k + 1);
        proof {
            assert(s1.drop_last() =~= pre);
            assert(s1.last() == edges@[k as int]);
        }
        let ghost o0 = out@;
        out[a].push(b);
        out[b].push(a);
        proof {
            assert forall|v: int| 0 <= v < n implies (#[trigger] out@[v])@ == neighbors_of(
                s1,
                v as usize,
            ) by {
                assert(o0[v]@ == neighbors_of(pre, v as usize));
            }
        }
        k += 1;
    }
    proof {
        assert(edges@.subrange(0, edges@.len() as int) =~= edges@);
    }
    out
}

/// The directed edges as plain pairs.
fn edge_pairs(edges: &Vec<(usize, usize, bool)>) -> (r: Vec<(usize, usize)>)
    ensures
        r@ == directed_pairs(edges@),
{
    let mut out: Vec<(usize, usize)> = Vec::new();
    let mut k: usize = 0;
    while k < edges.len()
        invariant
            k <= edges@.len(),
            out@ == directed_pairs(edges@.subrange(0, k as int)),
        decreases edges@.len() - k,
    {
        let (a, b, _) = edges[k];
        proof {
            assert(directed_pairs(edges@.subrange(0, k + 1)) =~= directed_pairs(
                edges@.subrange(0, k as int),
            ).push((a, b)));
        }
        out.push((a, b));
        k += 1;
    }
    proof {
        assert(edges@.subrange(0, edges@.len() as int) =~= edges@);
    }
    out
}

} // verus!

verus! {

proof fn lemma_root_indices_bound(fs: Seq<CodeGraphFunction>)
    ensures
        forall|k: int| 0 <= k < root_indices(fs).len() ==> #[trigger] root_indices(fs)[k] < fs.len(),
    decreases fs.len(),
{
    if fs.len() > 0 {
        let pre = fs.drop_last();
        lemma_root_indices_bound(pre);
        let r = root_indices(fs);
        let rp = root_indices(pre);
        assert forall|k: int| 0 <= k < r.len() implies #[trigger] r[k] < fs.len() by {
            if k < rp.len() {
                assert(r[k] == rp[k]);
            }
        }
    }
}

/// One tier's graph. All per-node vecs are index-aligned with `labels`;
/// edges are node-index pairs.
pub struct GraphModel {
    pub labels: Vec<String>,
    pub degree: Vec<u32>,
    /// The five reachability-class slices `FilterState::visible_nodes`
    /// consumes, in that order.
    pub prod_reachable: Vec<bool>,
    pub dead: Vec<bool>,
    pub public_unreferenced: Vec<bool>,
    pub test_only: Vec<bool>,
    pub generated: Vec<bool>,
    /// Entrypoint indices (function tier only): the `Roots` animation seeds.
    pub roots: Vec<usize>,
    /// Undirected pairs, deduplicated: fed to the force layout only.
    pub layout_edges: Vec<(usize, usize)>,
    /// Directed `(from, to, is_dynamic)`: drives the animation, the
    /// edge-kind filter and the edge uploads.
    pub directed_edges: Vec<(usize, usize, bool)>,
    /// Undirected adjacency for the selection highlight.
    pub neighbors: Vec<Vec<usize>>,
    /// Directed adjacency for BFS wavefronts.
    pub index: GraphIndex,
    /// The cluster each node belongs to, and how many clusters there are.
    pub clusters: Vec<usize>,
    pub cluster_count: usize,
}

impl GraphModel {
    /// The model's columns and edges fit its node list.
    pub open spec fn wf(&self) -> bool {
        let n = self.labels@.len();
        &&& self.degree@.len() == n
        &&& self.prod_reachable@.len() == n
        &&& self.dead@.len() == n
        &&& self.public_unreferenced@.len() == n
        &&& self.test_only@.len() == n
        &&& self.generated@.len() == n
        &&& self.neighbors@.len() == n
        &&& self.clusters@.len() == n
        &&& forall|k: int|
            0 <= k < self.directed_edges@.len() ==> (#[trigger] self.directed_edges@[k]).0 < n
                && self.directed_edges@[k].1 < n && self.directed_edges@[k].0
                != self.directed_edges@[k].1
        &&& forall|k: int| 0 <= k < self.roots@.len() ==> #[trigger] self.roots@[k] < n
        &&& self.index.n() == n
        &&& self.index.edges() == directed_pairs(self.directed_edges@)
    }

    pub fn node_count(&self) -> (r: usize)
        ensures
            r == self.labels@.len(),
    {
        self.labels.len()
    }
}

/// The model's nodes are the tier's nodes, in order.
pub open spec fn nodes_match(g: GraphModel, cg: CodeGraph, tier: Tier) -> bool {
    let n = tier_ids(cg, tier).len();
    &&& g.labels@.len() == n
    &&& forall|i: int| 0 <= i < n ==> (#[trigger] g.labels@[i])@ == tier_label(cg, tier, i)
    &&& forall|i: int| 0 <= i < n ==> #[trigger] g.degree@[i] == tier_degree(cg, tier, i)
    &&& forall|i: int| 0 <= i < n ==> #[trigger] g.prod_reachable@[i] == tier_prod(cg, tier, i)
    &&& forall|i: int| 0 <= i < n ==> #[trigger] g.dead@[i] == tier_dead(cg, tier, i)
    &&& forall|i: int|
        0 <= i < n ==> #[trigger] g.public_unreferenced@[i] == tier_public_unreferenced(cg, tier, i)
    &&& forall|i: int| 0 <= i < n ==> #[trigger] g.test_only@[i] == tier_test_only(cg, tier, i)
    &&& forall|i: int| 0 <= i < n ==> #[trigger] g.generated@[i] == tier_generated(cg, tier, i)
    &&& g.roots@ == tier_roots(cg, tier)
}

/// The model's edges, adjacency and clusters are those of the tier.
pub open spec fn edges_match(g: GraphModel, cg: CodeGraph, tier: Tier) -> bool {
    let es = tier_edges(cg, tier);
    let keys = cluster_keys(cg, tier);
    &&& g.directed_edges@ == es
    &&& g.layout_edges@ == layout_pairs(es)
    &&& forall|v: int|
        0 <= v < g.labels@.len() ==> (#[trigger] g.neighbors@[v])@ == neighbors_of(es, v as usize)
    &&& g.cluster_count == dedup_first(keys).len()
    &&& forall|i: int|
        0 <= i < g.clusters@.len() ==> #[trigger] g.clusters@[i] < g.cluster_count && dedup_first(
            keys,
        )[g.clusters@[i] as int] == keys[i]
}

/// Build one tier's graph from the document: one node per module (or
/// function), in document order; calls become index edges, where an id
/// names the last node carrying it and calls with an unknown endpoint or
/// from a node to itself are dropped.
pub fn build_graph(cg: &CodeGraph, tier: Tier) -> (g: GraphModel)
    requires
        forall|v: usize|
            v < tier_ids(*cg, tier).len() ==> #[trigger] succs(directed_pairs(tier_edges(*cg, tier)), v).len()
                <= u32::MAX && preds(directed_pairs(tier_edges(*cg, tier)), v).len() <= u32::MAX,
        forall|i: int| 0 <= i < tier_ids(*cg, tier).len() ==> tier_degree(*cg, tier, i) <= u32::MAX,
    ensures
        g.wf(),
        nodes_match(g, *cg, tier),
        edges_match(g, *cg, tier),
{
    let cols = match tier {
        Tier::Modules => module_columns(cg),
        Tier::Functions => function_columns(cg),
    };
    let calls = tier_call_list(cg, tier);
    let directed_edges = resolve(&cols.ids, &calls);
    let n = cols.labels.len();
    proof {
        lemma_resolve_in_range(tier_ids(*cg, tier), tier_calls(*cg, tier));
    }
    let layout_edges = layout_edges_of(&directed_edges);
    let neighbors = neighbor_lists(n, &directed_edges);
    let pairs = edge_pairs(&directed_edges);
    proof {
        crate::graph::lemma_kept_all(n as nat, pairs@);
        assert(pairs@ == directed_pairs(tier_edges(*cg, tier)));
        assert(n == tier_ids(*cg, tier).len());
    }
    let index = GraphIndex::from_edges(n, pairs.as_slice());
    let (clusters, cluster_count) = cluster_ids(cg, tier);
    proof {
        lemma_root_indices_bound(functions_of(*cg));
        assert(cluster_keys(*cg, tier).len() == n);
        assert(forall|k: int| 0 <= k < cols.roots@.len() ==> #[trigger] cols.roots@[k] < n);
    }
    GraphModel {
        labels: cols.labels,
        degree: cols.degree,
        prod_reachable: cols.prod_reachable,
        dead: cols.dead,
        public_unreferenced: cols.public_unreferenced,
        test_only: cols.test_only,
        generated: cols.generated,
        roots: cols.roots,
        layout_edges,
        directed_edges,
        neighbors,
        index,
        clusters,
        cluster_count,
    }
}

} // verus!

verus! {

// ─── culling ───────────────────────────────────────────────────────────────

/// What gets uploaded for a filter (and, while an animation runs, a
/// wavefront). `nodes`/`edges` hold full-graph indices.
/// - `visible`: filter AND wavefront, what is drawn;
/// - `filter_visible`: the filter only, never narrowed by a wavefront, what
///   may be hit-tested and stay selected.
pub struct Cull {
    pub visible: Vec<bool>,
    pub filter_visible: Vec<bool>,
    pub nodes: Vec<usize>,
    pub edges: Vec<(usize, usize, bool)>,
}

/// The animation wavefront layered on a filter cull: the per-node BFS
/// depth field (`-1` = unreached), the current hop, and whether the edge
/// toward the next hop is drawn growing (`false` under reduced motion).
pub struct Wavefront<'a> {
    pub depth: &'a [i32],
    pub current: i32,
    pub growth: bool,
}

/// A wavefront as plain values: `(depth field, current hop, growth)`.
pub open spec fn wave_of(wave: Option<Wavefront>) -> Option<(Seq<i32>, i32, bool)> {
    match wave {
        Some(w) => Some((w.depth@, w.current, w.growth)),
        None => None,
    }
}

/// Whether the filter shows node `i` of `g`.
pub open spec fn filter_shows(g: GraphModel, filter: FilterState, i: int) -> bool {
    filter.shows_node(
        g.prod_reachable@[i],
        g.dead@[i],
        g.public_unreferenced@[i],
        g.test_only@[i],
        g.generated@[i],
    )
}

/// A node is drawn when the filter shows it and the wavefront, if any, has
/// reached it.
pub open spec fn node_drawn(shown: bool, wave: Option<(Seq<i32>, i32, bool)>, i: int) -> bool {
    shown && match wave {
        None => true,
        Some(w) => 0 <= w.0[i] && w.0[i] <= w.1,
    }
}

/// Whether the filter shows this edge kind.
pub open spec fn kind_shown(filter: FilterState, dynamic: bool) -> bool {
    if dynamic {
        filter.show_dynamic
    } else {
        filter.show_static
    }
}

/// What is uploaded for one directed edge: nothing when the filter hides an
/// endpoint or the edge kind; without a wavefront the edge itself; under a
/// wavefront, the edge lower-depth endpoint first when both endpoints were
/// reached and the deeper one is at or behind the current hop, or is the
/// next hop while the edge grows toward it.
pub open spec fn edge_upload(
    e: (usize, usize, bool),
    shown: Seq<bool>,
    filter: FilterState,
    wave: Option<(Seq<i32>, i32, bool)>,
) -> Option<(usize, usize, bool)> {
    let (a, b, d) = e;
    if !(shown[a as int] && shown[b as int] && kind_shown(filter, d)) {
        None
    } else {
        match wave {
            None => Some(e),
            Some(w) => {
                let da = w.0[a as int];
                let db = w.0[b as int];
                if da < 0 || db < 0 {
                    None
                } else {
                    let lo = if da <= db { a } else { b };
                    let hi = if da <= db { b } else { a };
                    let lo_d = if da <= db { da } else { db };
                    let hi_d = if da <= db { db } else { da };
                    let in_flight = hi_d == w.1 + 1 && lo_d <= w.1 && w.2;
                    if hi_d <= w.1 || in_flight {
                        Some((lo, hi, d))
                    } else {
                        None
                    }
                }
            },
        }
    }
}

/// The uploaded edges, in edge order.
pub open spec fn uploaded_edges(
    es: Seq<(usize, usize, bool)>,
    shown: Seq<bool>,
    filter: FilterState,
    wave: Option<(Seq<i32>, i32, bool)>,
) -> Seq<(usize, usize, bool)>
    decreases es.len(),
{
    if es.len() == 0 {
        seq![]
    } else {
        let rest = uploaded_edges(es.drop_last(), shown, filter, wave);
        match edge_upload(es.last(), shown, filter, wave) {
            Some(e) => rest.push(e),
            None => rest,
        }
    }
}

/// The positions holding `true`, ascending.
pub open spec fn true_indices(s: Seq<bool>) -> Seq<usize>
    decreases s.len(),
{
    if s.len() == 0 {
        seq![]
    } else if s.last() {
        true_indices(s.drop_last()).push((s.len() - 1) as usize)
    } else {
        true_indices(s.drop_last())
    }
}

/// Apply a filter, and optionally an animation wavefront, to a graph:
/// culled nodes and edges are not uploaded at all.
pub fn cull(graph: &GraphModel, filter: &FilterState, wave: Option<Wavefront>) -> (c: Cull)
    requires
        graph.wf(),
        wave matches Some(w) ==> w.depth@.len() >= graph.labels@.len(),
    ensures
        c.filter_visible@.len() == graph.labels@.len(),
        forall|i: int|
            0 <= i < graph.labels@.len() ==> #[trigger] c.filter_visible@[i] == filter_shows(
                *graph,
                *filter,
                i,
            ),
        c.visible@.len() == graph.labels@.len(),
        forall|i: int|
            0 <= i < graph.labels@.len() ==> #[trigger] c.visible@[i] == node_drawn(
                c.filter_visible@[i],
                wave_of(wave),
                i,
            ),
        c.nodes@ == true_indices(c.visible@),
        c.edges@ == uploaded_edges(graph.directed_edges@, c.filter_visible@, *filter, wave_of(wave)),
{
    let n = graph.node_count();
    let filter_visible = filter.visible_nodes(
        graph.prod_reachable.as_slice(),
        graph.dead.as_slice(),
        graph.public_unreferenced.as_slice(),
        graph.test_only.as_slice(),
        graph.generated.as_slice(),
    );
    let ghost wv = wave_of(wave);
    let mut visible: Vec<bool> = Vec::new();
    let mut nodes: Vec<usize> = Vec::new();
    let mut i: usize = 0;
    while i < n
        invariant
            i <= n,
            n == graph.labels@.len(),
            filter_visible@.len() == n,
            wv == wave_of(wave),
            wave matches Some(w) ==> w.depth@.len() >= n,
            visible@.len() == i,
            forall|j: int| 0 <= j < i ==> #[trigger] visible@[j] == node_drawn(filter_visible@[j], wv, j),
            nodes@ == true_indices(visible@),
        decreases n - i,
    {
        let v = match &wave {
            None => filter_visible[i],
            Some(w) => filter_visible[i] && w.depth[i] >= 0 && w.depth[i] <= w.current,
        };
        let ghost before = visible@;
        visible.push(v);
        proof {
            assert(visible@.drop_last() =~= before);
        }
        if v {
            nodes.push(i);
        }
        i += 1;
    }
    let mut edges: Vec<(usize, usize, bool)> = Vec::new();
    let mut k: usize = 0;
    while k < graph.directed_edges.len()
        invariant
            k <= graph.directed_edges@.len(),
            n == graph.labels@.len(),
            graph.wf(),
            filter_visible@.len() == n,
            wv == wave_of(wave),
            wave matches Some(w) ==> w.depth@.len() >= n,
            edges@ == uploaded_edges(
                graph.directed_edges@.subrange(0, k as int),
                filter_visible@,
                *filter,
                wv,
            ),
        decreases graph.directed_edges@.len() - k,
    {
        let (a, b, dynamic) = graph.directed_edges[k];
        proof {
            let s1 = graph.directed_edges@.subrange(0, k + 1);
            assert(s1.drop_last() =~= graph.directed_edges@.subrange(0, k as int));
            assert(s1.last() == graph.directed_edges@[k as int]);
            assert(a < n && b < n);
        }
        if filter_visible[a] && filter_visible[b] && filter.edge_visible(dynamic) {
            match &wave {
                None => {
                    edges.push((a, b, dynamic));
                },
                Some(w) => {
                    let da = w.depth[a];
                    let db = w.depth[b];
                    if da >= 0 && db >= 0 {
                        let (lo, hi, lo_d, hi_d) = if da <= db {
                            (a, b, da, db)
                        } else {
                            (b, a, db, da)
                        };
                        let in_flight = hi_d as i64 == w.current as i64 + 1 && lo_d <= w.current
                            && w.growth;
                        if hi_d <= w.current || in_flight {
                            edges.push((lo, hi, dynamic));
                        }
                    }
                },
            }
        }
        k += 1;
    }
    proof {
        assert(graph.directed_edges@.subrange(0, graph.directed_edges@.len() as int)
            =~= graph.directed_edges@);
    }
    Cull { visible, filter_visible, nodes, edges }
}

} // verus!

verus! {

/// The uploaded node list is exactly the drawn nodes, ascending.
pub proof fn lemma_true_indices(s: Seq<bool>)
    requires
        s.len() <= usize::MAX,
    ensures
        forall|k: int|
            0 <= k < true_indices(s).len() ==> (#[trigger] true_indices(s)[k]) < s.len()
                && s[true_indices(s)[k] as int],
        forall|k1: int, k2: int|
            0 <= k1 < k2 < true_indices(s).len() ==> #[trigger] true_indices(s)[k1]
                < #[trigger] true_indices(s)[k2],
        forall|i: int| 0 <= i < s.len() && #[trigger] s[i] ==> true_indices(s).contains(i as usize),
    decreases s.len(),
{
    if s.len() > 0 {
        let pre = s.drop_last();
        lemma_true_indices(pre);
        let t = true_indices(s);
        let tp = true_indices(pre);
        assert forall|k: int| 0 <= k < t.len() implies (#[trigger] t[k]) < s.len() && s[t[k] as int] by {
            if k < tp.len() {
                assert(t[k] == tp[k]);
                assert(pre[tp[k] as int] == s[tp[k] as int]);
            }
        }
        assert forall|k1: int, k2: int| 0 <= k1 < k2 < t.len() implies #[trigger] t[k1]
            < #[trigger] t[k2] by {
            if k2 < tp.len() {
                assert(t[k1] == tp[k1] && t[k2] == tp[k2]);
            } else {
                assert(t[k1] == tp[k1]);
            }
        }
        assert forall|i: int| 0 <= i < s.len() && #[trigger] s[i] implies t.contains(i as usize) by {
            if i < pre.len() {
                assert(pre[i] == s[i]);
                let k = choose|k: int| 0 <= k < tp.len() && tp[k] == i as usize;
                assert(t[k] == tp[k]);
            } else {
                assert(t[tp.len() as int] == i as usize);
            }
        }
    }
}

/// Culling law: every uploaded edge joins two nodes the filter shows, by an
/// edge kind it shows. Under a wavefront both endpoints were reached, the
/// shallower endpoint comes first and is drawn, and the deeper one is drawn
/// or is the next hop with the edge growing toward it; without growth
/// (reduced motion) both endpoints are drawn.
pub proof fn lemma_uploaded_edges_respect_cull(
    es: Seq<(usize, usize, bool)>,
    shown: Seq<bool>,
    filter: FilterState,
    wave: Option<(Seq<i32>, i32, bool)>,
)
    requires
        forall|k: int|
            0 <= k < es.len() ==> (#[trigger] es[k]).0 < shown.len() && es[k].1 < shown.len(),
        wave matches Some(w) ==> w.0.len() >= shown.len(),
    ensures
        forall|k: int|
            0 <= k < uploaded_edges(es, shown, filter, wave).len() ==> {
                let e = #[trigger] uploaded_edges(es, shown, filter, wave)[k];
                &&& e.0 < shown.len() && e.1 < shown.len()
                &&& shown[e.0 as int] && shown[e.1 as int]
                &&& kind_shown(filter, e.2)
                &&& match wave {
                    None => true,
                    Some(w) => {
                        &&& 0 <= w.0[e.0 as int] <= w.0[e.1 as int]
                        &&& node_drawn(shown[e.0 as int], wave, e.0 as int)
                        &&& node_drawn(shown[e.1 as int], wave, e.1 as int) || (w.2 && w.0[e.1 as int]
                            == w.1 + 1)
                        &&& !w.2 ==> node_drawn(shown[e.1 as int], wave, e.1 as int)
                    },
                }
            },
    decreases es.len(),
{
    if es.len() > 0 {
        let pre = es.drop_last();
        assert forall|k: int| 0 <= k < pre.len() implies (#[trigger] pre[k]).0 < shown.len() && pre[k].1
            < shown.len() by {
            assert(pre[k] == es[k]);
        }
        lemma_uploaded_edges_respect_cull(pre, shown, filter, wave);
        let u = uploaded_edges(es, shown, filter, wave);
        let up = uploaded_edges(pre, shown, filter, wave);
        assert(es.last() == es[es.len() - 1]);
        assert forall|k: int| 0 <= k < u.len() implies {
            let e = #[trigger] u[k];
            &&& e.0 < shown.len() && e.1 < shown.len()
            &&& shown[e.0 as int] && shown[e.1 as int]
            &&& kind_shown(filter, e.2)
            &&& match wave {
                None => true,
                Some(w) => {
                    &&& 0 <= w.0[e.0 as int] <= w.0[e.1 as int]
                    &&& node_drawn(shown[e.0 as int], wave, e.0 as int)
                    &&& node_drawn(shown[e.1 as int], wave, e.1 as int) || (w.2 && w.0[e.1 as int]
                        == w.1 + 1)
                    &&& !w.2 ==> node_drawn(shown[e.1 as int], wave, e.1 as int)
                },
            }
        } by {
            if k < up.len() {
                assert(u[k] == up[k]);
            }
        }
    }
}

} // verus!

verus! {

/// A node layered at depth `d` by one BFS layering is layered, no deeper,
/// by any other layering of the same traversal.
proof fn lemma_depth_le(
    edges: Seq<(usize, usize)>,
    n: nat,
    dir: crate::graph::Direction,
    seeds: Seq<usize>,
    ls1: Seq<Seq<usize>>,
    ls2: Seq<Seq<usize>>,
    v: usize,
)
    requires
        is_bfs_layering(edges, n, dir, seeds, ls1),
        is_bfs_layering(edges, n, dir, seeds, ls2),
        depth_of(ls1, v) >= 0,
    ensures
        0 <= depth_of(ls2, v) <= depth_of(ls1, v),
{
    lemma_depth_of_bfs_layering(edges, n, dir, seeds, ls1, v);
    lemma_depth_of_bfs_layering(edges, n, dir, seeds, ls2, v);
    let d = depth_of(ls1, v);
    let i = choose|i: int| 0 <= i < ls1[d].len() && ls1[d][i] == v;
    crate::graph::lemma_bfs_layer_has_walk(edges, n, dir, seeds, ls1, d, i);
    let p = choose|p: Seq<usize>|
        crate::graph::is_walk(edges, dir, p) && p.len() == d + 1 && crate::graph::start_set(
            n,
            seeds,
        ).contains(p[0]) && p.last() == ls1[d][i];
    crate::graph::lemma_bfs_walk_is_layered(edges, n, dir, seeds, ls2, p);
    let (d2, i2) = choose|d2: int, i2: int|
        #![trigger ls2[d2][i2]]
        0 <= d2 < p.len() && d2 < ls2.len() && 0 <= i2 < ls2[d2].len() && ls2[d2][i2] == v;
    assert(ls2[d2].contains(v));
}

/// Determinism law: all BFS layerings of one traversal agree, on the
/// number of layers and on the depth of every node.
pub proof fn lemma_bfs_layering_unique(
    edges: Seq<(usize, usize)>,
    n: nat,
    dir: crate::graph::Direction,
    seeds: Seq<usize>,
    ls1: Seq<Seq<usize>>,
    ls2: Seq<Seq<usize>>,
)
    requires
        is_bfs_layering(edges, n, dir, seeds, ls1),
        is_bfs_layering(edges, n, dir, seeds, ls2),
    ensures
        ls1.len() == ls2.len(),
        forall|v: usize| #[trigger] depth_of(ls1, v) == depth_of(ls2, v),
{
    assert forall|v: usize| #[trigger] depth_of(ls1, v) == depth_of(ls2, v) by {
        lemma_depth_of_bound(ls1, v);
        lemma_depth_of_bound(ls2, v);
        if depth_of(ls1, v) >= 0 {
            lemma_depth_le(edges, n, dir, seeds, ls1, ls2, v);
            lemma_depth_le(edges, n, dir, seeds, ls2, ls1, v);
        } else if depth_of(ls2, v) >= 0 {
            lemma_depth_le(edges, n, dir, seeds, ls2, ls1, v);
        }
    }
    if ls1.len() > 0 {
        let last = ls1.len() - 1;
        assert(ls1[last].len() > 0);
        let v = ls1[last][0];
        assert(ls1[last].contains(v));
        lemma_depth_of_bfs_layering(edges, n, dir, seeds, ls1, v);
        lemma_depth_of_bound(ls2, v);
        assert(depth_of(ls1, v) == depth_of(ls2, v));
    }
    if ls2.len() > 0 {
        let last = ls2.len() - 1;
        assert(ls2[last].len() > 0);
        let v = ls2[last][0];
        assert(ls2[last].contains(v));
        lemma_depth_of_bfs_layering(edges, n, dir, seeds, ls2, v);
        lemma_depth_of_bound(ls1, v);
        assert(depth_of(ls1, v) == depth_of(ls2, v));
    }
}

} // verus!

verus! {

/// The BFS layers an animation mode sweeps: none when off; from the roots;
/// from the selected node, along calls (outbound) or against them
/// (inbound), none without a selection.
pub fn wavefront_layers(graph: &GraphModel, mode: AnimMode, selected: Option<usize>) -> (layers: Vec<
    Vec<usize>,
>)
    ensures
        match mode {
            AnimMode::Off => layers@.len() == 0,
            AnimMode::Roots => is_bfs_layering(
                    graph.index.edges(),
                    graph.index.n(),
                    crate::graph::Direction::Outbound,
                    graph.roots@,
                    crate::graph::layer_views(layers@),
                ) && layers_in_bfs_order(
                    graph.index.edges(),
                    crate::graph::Direction::Outbound,
                    crate::graph::layer_views(layers@),
                ),
            AnimMode::Outbound => match selected {
                Some(s) => is_bfs_layering(
                    graph.index.edges(),
                    graph.index.n(),
                    crate::graph::Direction::Outbound,
                    seq![s],
                    crate::graph::layer_views(layers@),
                ) && layers_in_bfs_order(
                    graph.index.edges(),
                    crate::graph::Direction::Outbound,
                    crate::graph::layer_views(layers@),
                ),
                None => layers@.len() == 0,
            },
            AnimMode::Inbound => match selected {
                Some(s) => is_bfs_layering(
                    graph.index.edges(),
                    graph.index.n(),
                    crate::graph::Direction::Inbound,
                    seq![s],
                    crate::graph::layer_views(layers@),
                ) && layers_in_bfs_order(
                    graph.index.edges(),
                    crate::graph::Direction::Inbound,
                    crate::graph::layer_views(layers@),
                ),
                None => layers@.len() == 0,
            },
        },
{
    match mode {
        AnimMode::Off => Vec::new(),
        AnimMode::Roots => graph.index.bfs(crate::graph::Direction::Outbound, graph.roots.as_slice()),
        AnimMode::Outbound => match selected {
            Some(s) => {
                let seeds = vec![s];
                proof {
                    assert(seeds@ =~= seq![s]);
                }
                graph.index.bfs(crate::graph::Direction::Outbound, seeds.as_slice())
            },
            None => Vec::new(),
        },
        AnimMode::Inbound => match selected {
            Some(s) => {
                let seeds = vec![s];
                proof {
                    assert(seeds@ =~= seq![s]);
                }
                graph.index.bfs(crate::graph::Direction::Inbound, seeds.as_slice())
            },
            None => Vec::new(),
        },
    }
}

/// The selection after a re-cull: kept while the filter still shows the
/// node (a wavefront that has not reached it yet never drops it), cleared
/// once the filter hides it.
pub fn selection_after_cull(selected: Option<usize>, filter_visible: &[bool]) -> (r: Option<usize>)
    requires
        selected matches Some(s) ==> s < filter_visible@.len(),
    ensures
        r == match selected {
            Some(s) => if filter_visible@[s as int] {
                Some(s)
            } else {
                None
            },
            None => None,
        },
{
    match selected {
        Some(s) => if filter_visible[s] {
            Some(s)
        } else {
            None
        },
        None => None,
    }
}

} // verus!

verus! {

/// The state of the background warm of the function tier's layout.
#[derive(Debug, Clone, PartialEq, Eq)]
pub enum CodeGraphWarm {
    /// No warm was ever started.
    Idle,
    /// A warm is settling the document `(sha, tree)`.
    Running { sha: String, tree: String },
    /// The warm settled, was cancelled, or failed.
    Finished,
}

/// Whether entering `tier` on a layout-cache miss should wait for a running
/// warm instead of settling a duplicate: only on the function tier (the only
/// one warmed), and only for a warm of this very document.
pub fn should_await_warm(tier: Tier, warm: &CodeGraphWarm, cg_sha: &str, cg_tree: &str) -> (r: bool)
    ensures
        r == (tier == Tier::Functions && match warm {
            CodeGraphWarm::Running { sha, tree } => sha@ == cg_sha@ && tree@ == cg_tree@,
            _ => false,
        }),
{
    match tier {
        Tier::Modules => false,
        Tier::Functions => match warm {
            CodeGraphWarm::Running { sha, tree } => str_eq(sha.as_str(), cg_sha) && str_eq(
                tree.as_str(),
                cg_tree,
            ),
            CodeGraphWarm::Idle => false,
            CodeGraphWarm::Finished => false,
        },
    }
}


/// Degree law: every node's degree is its fan-in plus its fan-out, for the
/// modules of the module tier and the functions of the function tier.
pub proof fn lemma_degree_is_fan_in_plus_fan_out(g: GraphModel, cg: CodeGraph, tier: Tier)
    requires
        g.wf(),
        nodes_match(g, cg, tier),
    ensures
        tier == Tier::Modules ==> g.degree@.len() == modules_of(cg).len() && forall|i: int|
            0 <= i < modules_of(cg).len() ==> #[trigger] g.degree@[i] == modules_of(cg)[i].fan_in
                + modules_of(cg)[i].fan_out,
        tier == Tier::Functions ==> g.degree@.len() == functions_of(cg).len() && forall|i: int|
            0 <= i < functions_of(cg).len() ==> #[trigger] g.degree@[i] == functions_of(cg)[i].fan_in
                + functions_of(cg)[i].fan_out,
{
    assert(tier_ids(cg, tier).len() == match tier {
        Tier::Modules => modules_of(cg).len(),
        Tier::Functions => functions_of(cg).len(),
    });
    assert forall|i: int| 0 <= i < tier_ids(cg, tier).len() implies #[trigger] g.degree@[i] == tier_degree(
        cg,
        tier,
        i,
    ) by {}
}

/// The depth field of a wavefront (empty without one).
pub open spec fn wave_depths(wave: Option<(Seq<i32>, i32, bool)>) -> Seq<i32> {
    match wave {
        Some(w) => w.0,
        None => seq![],
    }
}

/// The current hop of a wavefront (0 without one).
pub open spec fn wave_current(wave: Option<(Seq<i32>, i32, bool)>) -> i32 {
    match wave {
        Some(w) => w.1,
        None => 0,
    }
}

/// Upload law: a directed edge is uploaded whenever the filter shows both
/// endpoints and its kind and, under a wavefront, both endpoints have been
/// reached at or before the current hop; under a wavefront it is uploaded
/// shallower endpoint first. Without a wavefront, every such edge is
/// uploaded as it is.
pub proof fn lemma_uploaded_edges_complete(
    es: Seq<(usize, usize, bool)>,
    shown: Seq<bool>,
    filter: FilterState,
    wave: Option<(Seq<i32>, i32, bool)>,
)
    requires
        forall|k: int|
            0 <= k < es.len() ==> (#[trigger] es[k]).0 < shown.len() && es[k].1 < shown.len(),
        wave matches Some(w) ==> w.0.len() >= shown.len(),
    ensures
        forall|k: int|
            #![trigger es[k]]
            0 <= k < es.len() && shown[es[k].0 as int] && shown[es[k].1 as int] && (if es[k].2 {
                filter.show_dynamic
            } else {
                filter.show_static
            }) && wave is None ==> uploaded_edges(es, shown, filter, wave).contains(es[k]),
        forall|k: int|
            #![trigger es[k]]
            0 <= k < es.len() && shown[es[k].0 as int] && shown[es[k].1 as int] && (if es[k].2 {
                filter.show_dynamic
            } else {
                filter.show_static
            }) && wave is Some && 0 <= wave_depths(wave)[es[k].0 as int] <= wave_current(wave) && 0 <= wave_depths(wave)[es[k].1 as int]
                <= wave_current(wave) ==> uploaded_edges(es, shown, filter, wave).contains(
                if wave_depths(wave)[es[k].0 as int] <= wave_depths(wave)[es[k].1 as int] {
                    es[k]
                } else {
                    (es[k].1, es[k].0, es[k].2)
                },
            ),
    decreases es.len(),
{
    if es.len() > 0 {
        let pre = es.drop_last();
        assert forall|k: int| 0 <= k < pre.len() implies (#[trigger] pre[k]).0 < shown.len() && pre[k].1
            < shown.len() by {
            assert(pre[k] == es[k]);
        }
        lemma_uploaded_edges_complete(pre, shown, filter, wave);
        let u = uploaded_edges(es, shown, filter, wave);
        let up = uploaded_edges(pre, shown, filter, wave);
        let last = es.len() - 1;
        assert(es.last() == es[last]);
        assert forall|x: (usize, usize, bool)| up.contains(x) implies u.contains(x) by {
            let p = choose|p: int| 0 <= p < up.len() && up[p] == x;
            assert(u[p] == up[p]);
        }
        assert forall|k: int|
            #![trigger es[k]]
            0 <= k < es.len() && shown[es[k].0 as int] && shown[es[k].1 as int] && (if es[k].2 {
                filter.show_dynamic
            } else {
                filter.show_static
            }) && wave is None implies u.contains(es[k]) by {
            if k < last {
                assert(pre[k] == es[k]);
            } else {
                assert(u[up.len() as int] == es[k]);
            }
        }
        assert forall|k: int|
            #![trigger es[k]]
            0 <= k < es.len() && shown[es[k].0 as int] && shown[es[k].1 as int] && (if es[k].2 {
                filter.show_dynamic
            } else {
                filter.show_static
            }) && wave is Some && 0 <= wave_depths(wave)[es[k].0 as int] <= wave_current(wave) && 0 <= wave_depths(wave)[es[k].1 as int]
                <= wave_current(wave) implies u.contains(
                if wave_depths(wave)[es[k].0 as int] <= wave_depths(wave)[es[k].1 as int] {
                    es[k]
                } else {
                    (es[k].1, es[k].0, es[k].2)
                },
            ) by {
            if k < last {
                assert(pre[k] == es[k]);
            } else {
                                let e = if wave_depths(wave)[es[k].0 as int] <= wave_depths(wave)[es[k].1 as int] {
                    es[k]
                } else {
                    (es[k].1, es[k].0, es[k].2)
                };
                assert(edge_upload(es.last(), shown, filter, wave) == Some(e));
                assert(u[up.len() as int] == e);
            }
        }
    }
}

} // verus!
