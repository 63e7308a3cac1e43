use architext_viewer::graph::{Direction, FilterState};
use architext_viewer::models::{
    CodeGraph, CodeGraphCall, CodeGraphCounts, CodeGraphFunction, CodeGraphModule,
    CodeGraphModuleCall, CodeGraphSignature,
};
use architext_viewer::view_model::{
    build_graph, cluster_ids, cull, depth_field, selection_after_cull, should_autoplay,
    should_await_warm, CodeGraphWarm,
    wavefront_layers, AnimMode, Tier, Wavefront,
};

fn interconnected(n: usize, m: usize) -> (usize, Vec<(usize, usize)>) {
    let mut edges = Vec::new();
    let mut targets: Vec<usize> = vec![0];
    for v in 1..n {
        for k in 0..m.min(targets.len()) {
            let t = targets[(v * 7 + k * 13) % targets.len()];
            if t != v {
                edges.push((t, v));
                targets.push(t);
            }
        }
        targets.push(v);
    }
    (n, edges)
}

#[allow(clippy::too_many_arguments)]
fn func(
    id: &str,
    symbol: &str,
    pkg: &str,
    exported: bool,
    test: bool,
    root: bool,
    reachable: bool,
    prod: bool,
    fan_in: u32,
    fan_out: u32,
) -> CodeGraphFunction {
    CodeGraphFunction {
        id: id.to_string(),
        symbol: symbol.to_string(),
        pkg: pkg.to_string(),
        file: "f.go".to_string(),
        line: 1,
        kind: "func".to_string(),
        exported,
        test,
        root,
        generated: false,
        reachable,
        prod_reachable: prod,
        signature: CodeGraphSignature { params: vec![], results: vec![] },
        doc: None,
        fan_in,
        fan_out,
    }
}

fn call(from: &str, to: &str, kind: &str) -> CodeGraphCall {
    CodeGraphCall {
        from: from.to_string(),
        to: to.to_string(),
        site_file: "f.go".to_string(),
        site_line: 1,
        kind: kind.to_string(),
    }
}

fn document(
    functions: Vec<CodeGraphFunction>,
    calls: Vec<CodeGraphCall>,
    modules: Option<Vec<CodeGraphModule>>,
    module_calls: Option<Vec<CodeGraphModuleCall>>,
) -> CodeGraph {
    CodeGraph {
        contract_version: "magma-code-graph/1".to_string(),
        generator: "magma".to_string(),
        language: "go".to_string(),
        module: "example.com/x".to_string(),
        sha: "a".to_string(),
        tree: "clean".to_string(),
        fidelity: "rta".to_string(),
        computable: true,
        executed_target_code: None,
        not_computable_reason: None,
        functions: Some(functions),
        calls: Some(calls),
        modules,
        module_calls,
        limitations: vec![],
        disclosure: None,
    }
}

/// root `main` (prod) -> `handler` (prod) -> `helper` (dead), plus `tests`
/// (a test function). One static + one dynamic call.
fn fixture() -> CodeGraph {
    document(
        vec![
            func("main", "main.main", "main", false, false, true, true, true, 0, 1),
            func("handler", "srv.handle", "srv", true, false, false, true, true, 1, 2),
            func("helper", "srv.help", "srv", false, false, false, false, false, 1, 0),
            func("tests", "srv.TestHandle", "srv", true, true, true, true, false, 0, 1),
        ],
        vec![
            call("main", "handler", "static"),
            call("handler", "helper", "dynamic"),
            call("tests", "handler", "static"),
        ],
        None,
        None,
    )
}

fn show_everything() -> FilterState {
    FilterState {
        show_prod_reachable: true,
        show_dead: true,
        show_public_unreferenced: true,
        show_test_only: true,
        show_generated: true,
        show_static: true,
        show_dynamic: true,
    }
}

/// 1000 functions over `interconnected(1000, 3)`: every 10th node dead,
/// every 10th test-only, the rest prod; every 5th call dynamic.
fn fixture_1000() -> (CodeGraph, usize) {
    let (n, edges) = interconnected(1000, 3);
    let functions: Vec<CodeGraphFunction> = (0..n)
        .map(|i| {
            let dead = i % 10 == 1;
            let test = i % 10 == 3;
            let mut f = func(
                &format!("f{i}"),
                &format!("pkg.fn{i}"),
                "pkg",
                false,
                test,
                i == 0,
                !dead,
                !dead && !test,
                0,
                0,
            );
            f.line = i as u32 + 1;
            f
        })
        .collect();
    let calls: Vec<CodeGraphCall> = edges
        .iter()
        .enumerate()
        .map(|(k, &(a, b))| {
            call(&format!("f{a}"), &format!("f{b}"), if k % 5 == 0 { "dynamic" } else { "static" })
        })
        .collect();
    (document(functions, calls, None, None), n)
}

#[test]
fn build_graph_maps_functions_flags_edges_and_roots() {
    let g = build_graph(&fixture(), Tier::Functions);
    assert_eq!(g.node_count(), 4);
    assert_eq!(g.labels[1], "srv.handle");
    assert_eq!(g.prod_reachable, vec![true, true, false, false]);
    assert_eq!(g.dead, vec![false, false, true, false]);
    assert_eq!(g.test_only, vec![false, false, false, true]);
    assert_eq!(g.roots, vec![0, 3], "main and the test are roots");
    assert_eq!(g.directed_edges.len(), 3);
    assert!(g.directed_edges[1].2, "handler→helper is dynamic");
    // Layout edges are undirected + deduped; neighbours are bidirectional.
    assert_eq!(g.layout_edges.len(), 3);
    assert!(g.neighbors[1].contains(&0) && g.neighbors[1].contains(&2));
}

#[test]
fn default_filter_culls_to_prod_reachable_and_drops_their_edges() {
    let g = build_graph(&fixture(), Tier::Functions);
    let c = cull(&g, &FilterState::default(), None);
    assert_eq!(c.nodes, vec![0, 1], "dead + test nodes are culled by default");
    assert_eq!(c.edges.len(), 1, "edges touching culled nodes are culled too");
    assert_eq!(c.edges[0], (0, 1, false), "only main→handler survives");
}

#[test]
fn edge_kind_filter_culls_dynamic_edges() {
    let g = build_graph(&fixture(), Tier::Functions);
    let mut f = show_everything();
    assert_eq!(cull(&g, &f, None).edges.len(), 3, "everything shown");
    f.show_dynamic = false;
    let c = cull(&g, &f, None);
    assert_eq!(c.edges.len(), 2, "the dynamic edge is culled");
    assert!(c.edges.iter().all(|&(_, _, d)| !d));
}

#[test]
fn depth_field_marks_unreached_minus_one() {
    let g = build_graph(&fixture(), Tier::Functions);
    let layers = g.index.bfs(Direction::Outbound, &[0]);
    let depth = depth_field(4, &layers);
    assert_eq!(depth[0], 0);
    assert_eq!(depth[1], 1);
    assert_eq!(depth[2], 2, "main→handler→helper");
    assert_eq!(depth[3], -1, "the test root is unreached from main");
}

#[test]
fn wavefront_cull_admits_reached_and_in_flight_only_and_recedes_never_uploads() {
    let g = build_graph(&fixture(), Tier::Functions);
    let depth = depth_field(4, &g.index.bfs(Direction::Outbound, &[0]));
    let base = cull(&g, &FilterState::default(), None);

    let c0 = cull(
        &g,
        &FilterState::default(),
        Some(Wavefront { depth: &depth, current: 0, growth: true }),
    );
    assert_eq!(c0.nodes, vec![0], "handler hasn't fully arrived yet — not uploaded");
    assert_eq!(c0.edges, vec![(0, 1, false)], "the in-flight edge is admitted, lo-depth-first");

    let c1 = cull(
        &g,
        &FilterState::default(),
        Some(Wavefront { depth: &depth, current: 1, growth: true }),
    );
    assert_eq!(c1.nodes, vec![0, 1]);
    assert_eq!(c1.edges, vec![(0, 1, false)]);

    let reduced = cull(
        &g,
        &FilterState::default(),
        Some(Wavefront { depth: &depth, current: 0, growth: false }),
    );
    assert_eq!(reduced.nodes, vec![0]);
    assert!(reduced.edges.is_empty(), "no partial edge without growth");
    assert_eq!(base.nodes, vec![0, 1], "the filter-only cull is unaffected by any of this");
}

#[test]
fn should_autoplay_arms_only_the_function_tier() {
    assert!(should_autoplay(Tier::Functions));
    assert!(!should_autoplay(Tier::Modules));
}

#[test]
fn cull_at_1000_interconnected_nodes_is_consistent_and_accounts_counts() {
    let (doc, n) = fixture_1000();
    let g = build_graph(&doc, Tier::Functions);
    assert_eq!(g.node_count(), n);
    assert!(g.directed_edges.len() > n, "the fixture is interconnected");

    let c = cull(&g, &FilterState::default(), None);
    let expected_nodes = g.prod_reachable.iter().filter(|&&p| p).count();
    assert_eq!(c.nodes.len(), expected_nodes, "default filter shows prod-reachable only");
    assert!(c.nodes.len() < n, "the default filter must actually cull at scale");
    assert_eq!(
        c.visible.iter().filter(|&&v| v).count(),
        c.nodes.len(),
        "visible map and surviving node list agree"
    );
    assert!(c.nodes.iter().all(|&i| c.visible[i] && g.prod_reachable[i]));

    for &(a, b, _) in &c.edges {
        assert!(c.visible[a] && c.visible[b], "edge endpoint was culled but the edge survived");
    }
    let expected_edges =
        g.directed_edges.iter().filter(|&&(a, b, _)| c.visible[a] && c.visible[b]).count();
    assert_eq!(c.edges.len(), expected_edges, "cull drops exactly the endpoint-culled edges");
}

#[test]
fn wavefront_depth_field_at_1000_nodes_assigns_each_node_once() {
    let (doc, n) = fixture_1000();
    let g = build_graph(&doc, Tier::Functions);
    assert_eq!(g.roots, vec![0], "the fixture has exactly one root");

    let layers = g.index.bfs(Direction::Outbound, &g.roots);
    let depth = depth_field(n, &layers);
    assert_eq!(depth.len(), n, "the depth field spans the full graph");

    let layered: usize = layers.iter().map(|l| l.len()).sum();
    let reached = depth.iter().filter(|&&d| d >= 0).count();
    assert_eq!(layered, reached, "no node appears in two BFS layers");
    assert_eq!(
        reached + depth.iter().filter(|&&d| d == -1).count(),
        n,
        "every node is assigned a depth or the sentinel"
    );
    assert!(reached > 900, "the interconnected fixture is mostly reachable, got {reached}");
    for (d, layer) in layers.iter().enumerate() {
        for &i in layer {
            assert_eq!(depth[i], d as i32, "depth matches the layer index");
        }
    }

    let base = cull(&g, &FilterState::default(), None);
    let wave = Wavefront { depth: &depth, current: 1, growth: true };
    let c = cull(&g, &FilterState::default(), Some(wave));
    assert!(c.nodes.len() < base.nodes.len(), "the wavefront must actually cull at scale");
    assert!(c.nodes.iter().all(|&i| depth[i] >= 0 && depth[i] <= 1), "only depth 0/1 nodes upload");
    assert!(!c.edges.is_empty(), "sanity: the fixture's depth-1 wavefront has in-flight/settled edges");
    for &(lo, hi, _) in &c.edges {
        assert!(depth[lo] <= depth[hi], "cull reorders every edge lower-depth-endpoint-first");
    }
}

#[test]
fn hit_test_mask_admits_animation_culled_nodes_but_rejects_filter_culled_ones_at_1000_nodes() {
    let (doc, n) = fixture_1000();
    let g = build_graph(&doc, Tier::Functions);
    let layers = g.index.bfs(Direction::Outbound, &g.roots);
    let depth = depth_field(n, &layers);
    let wave = Wavefront { depth: &depth, current: 0, growth: true };
    let c = cull(&g, &FilterState::default(), Some(wave));

    let anim_culled = (0..n)
        .find(|&i| g.prod_reachable[i] && depth[i] > 0)
        .expect("the interconnected fixture has a node beyond depth 0");
    assert!(c.filter_visible[anim_culled], "animation-culled node must remain hit-testable");
    assert!(!c.visible[anim_culled], "sanity: it really is culled from the render");
    assert!(!c.nodes.contains(&anim_culled), "sanity: not in the uploaded set either");

    let filter_culled =
        (0..n).find(|&i| !g.prod_reachable[i]).expect("fixture has dead/test nodes");
    assert!(!c.filter_visible[filter_culled], "filter-culled node must never be hit-testable");
}

#[test]
fn a_filter_hidden_selection_is_cleared_and_a_wavefront_never_drops_one() {
    let g = build_graph(&fixture(), Tier::Functions);
    let all = cull(&g, &show_everything(), None);
    assert_eq!(selection_after_cull(Some(2), &all.filter_visible), Some(2));
    let default = cull(&g, &FilterState::default(), None);
    assert_eq!(selection_after_cull(Some(2), &default.filter_visible), None, "the dead node is hidden");
    assert_eq!(default.nodes, vec![0, 1]);

    let depth = depth_field(4, &g.index.bfs(Direction::Outbound, &[0]));
    let early =
        cull(&g, &FilterState::default(), Some(Wavefront { depth: &depth, current: 0, growth: true }));
    assert!(!early.visible[1], "handler is not drawn yet");
    assert_eq!(selection_after_cull(Some(1), &early.filter_visible), Some(1));
    assert_eq!(selection_after_cull(None, &early.filter_visible), None);
}

#[test]
fn wavefront_layers_seed_from_roots_or_selection() {
    let g = build_graph(&fixture(), Tier::Functions);
    let roots = wavefront_layers(&g, AnimMode::Roots, None);
    let depth = depth_field(4, &roots);
    assert_eq!(depth[0], 0);
    assert_eq!(depth[3], 0, "both roots seed depth 0");
    assert_eq!(depth[1], 1, "handler is 1 from main");
    assert_eq!(roots.len() - 1, 2, "main→handler→helper");

    let inbound = wavefront_layers(&g, AnimMode::Inbound, Some(2));
    let depth = depth_field(4, &inbound);
    assert_eq!(depth[2], 0, "inbound seeds at the selection");
    assert_eq!(depth[0], 2, "who reaches helper: handler, then main");

    let outbound = wavefront_layers(&g, AnimMode::Outbound, Some(1));
    assert_eq!(outbound, vec![vec![1], vec![2]]);
    assert!(wavefront_layers(&g, AnimMode::Outbound, None).is_empty());
    assert!(wavefront_layers(&g, AnimMode::Off, Some(1)).is_empty());
}

#[test]
fn module_tier_maps_modules_counts_and_calls() {
    let counts = |functions, dead, test_only| CodeGraphCounts { functions, dead, test_only };
    let module = |id: &str, pkg: &str, c: CodeGraphCounts, fan_in, fan_out| CodeGraphModule {
        id: id.to_string(),
        pkg: pkg.to_string(),
        function_ids: vec![],
        counts: c,
        fan_in,
        fan_out,
    };
    let mcall = |from: &str, to: &str, dynamic| CodeGraphModuleCall {
        from: from.to_string(),
        to: to.to_string(),
        count: 2,
        has_dynamic: dynamic,
    };
    let doc = document(
        vec![],
        vec![],
        Some(vec![
            module("a", "crate::a::x", counts(2, 0, 0), 0, 2),
            module("b", "crate::a::y", counts(3, 3, 0), 1, 0),
            module("c", "crate::c", counts(1, 0, 1), 1, 0),
        ]),
        Some(vec![mcall("a", "b", true), mcall("a", "c", false), mcall("a", "a", false), mcall("a", "zz", false)]),
    );
    let g = build_graph(&doc, Tier::Modules);
    assert_eq!(g.labels, vec!["crate::a::x", "crate::a::y", "crate::c"]);
    assert_eq!(g.degree, vec![2, 1, 1]);
    assert_eq!(g.prod_reachable, vec![true, true, true], "every module counts as prod-reachable");
    assert_eq!(g.dead, vec![false, true, false], "only a fully dead module is dead");
    assert_eq!(g.test_only, vec![false, false, true]);
    assert_eq!(g.public_unreferenced, vec![false, false, false]);
    assert!(g.roots.is_empty(), "the module tier has no roots");
    assert_eq!(
        g.directed_edges,
        vec![(0, 1, true), (0, 2, false)],
        "self-calls and calls to unknown modules are dropped"
    );
    assert_eq!(g.cluster_count, 2);
    assert_eq!(g.clusters, vec![0, 0, 1]);
    assert_eq!(cluster_ids(&doc, Tier::Modules), (vec![0, 0, 1], 2));
}

#[test]
fn awaits_a_running_warm_for_the_same_key_on_the_function_tier() {
    let warm = CodeGraphWarm::Running { sha: "abc123".to_string(), tree: "deadbeef".to_string() };
    assert!(should_await_warm(Tier::Functions, &warm, "abc123", "deadbeef"));
}

#[test]
fn never_awaits_on_the_module_tier_even_with_a_matching_running_warm() {
    let warm = CodeGraphWarm::Running { sha: "abc123".to_string(), tree: "deadbeef".to_string() };
    assert!(!should_await_warm(Tier::Modules, &warm, "abc123", "deadbeef"));
}

#[test]
fn never_awaits_a_running_warm_for_a_different_sha_or_tree() {
    let warm = CodeGraphWarm::Running { sha: "old-sha".to_string(), tree: "old-tree".to_string() };
    assert!(!should_await_warm(Tier::Functions, &warm, "new-sha", "old-tree"));
    assert!(!should_await_warm(Tier::Functions, &warm, "old-sha", "new-tree"));
}

#[test]
fn never_awaits_when_the_warm_is_idle_or_already_finished() {
    assert!(!should_await_warm(Tier::Functions, &CodeGraphWarm::Idle, "sha", "tree"));
    assert!(!should_await_warm(Tier::Functions, &CodeGraphWarm::Finished, "sha", "tree"));
}
