use architext_viewer::model::{
    assign_layers, build_function_layout, build_module_layout, format_signature, reach_badges,
    Reach,
};
use architext_viewer::models::{
    CodeGraph, CodeGraphCall, CodeGraphCounts, CodeGraphFunction, CodeGraphModule,
    CodeGraphModuleCall, CodeGraphParam, CodeGraphResult, CodeGraphSignature,
};

#[allow(clippy::too_many_arguments)]
fn func(
    id: &str,
    symbol: &str,
    pkg: &str,
    file: &str,
    line: u32,
    exported: bool,
    root: bool,
    reachable: bool,
    prod: bool,
    fan_in: u32,
    fan_out: u32,
) -> CodeGraphFunction {
    CodeGraphFunction {
        id: id.to_string(),
        symbol: symbol.to_string(),
        pkg: pkg.to_string(),
        file: file.to_string(),
        line,
        kind: "func".to_string(),
        exported,
        test: false,
        root,
        generated: false,
        reachable,
        prod_reachable: prod,
        signature: CodeGraphSignature { params: vec![], results: vec![] },
        doc: None,
        fan_in,
        fan_out,
    }
}

fn call(from: &str, to: &str, file: &str, line: u32, kind: &str) -> CodeGraphCall {
    CodeGraphCall {
        from: from.to_string(),
        to: to.to_string(),
        site_file: file.to_string(),
        site_line: line,
        kind: kind.to_string(),
    }
}

fn module(id: &str, fids: &[&str], functions: u32, dead: u32, fan_in: u32, fan_out: u32) -> CodeGraphModule {
    CodeGraphModule {
        id: id.to_string(),
        pkg: id.to_string(),
        function_ids: fids.iter().map(|s| s.to_string()).collect(),
        counts: CodeGraphCounts { functions, dead, test_only: 0 },
        fan_in,
        fan_out,
    }
}

fn mcall(from: &str, to: &str, count: u32, has_dynamic: bool) -> CodeGraphModuleCall {
    CodeGraphModuleCall { from: from.to_string(), to: to.to_string(), count, has_dynamic }
}

fn document(
    functions: Vec<CodeGraphFunction>,
    calls: Vec<CodeGraphCall>,
    modules: Vec<CodeGraphModule>,
    module_calls: Vec<CodeGraphModuleCall>,
) -> CodeGraph {
    CodeGraph {
        contract_version: "magma-code-graph/1".to_string(),
        generator: "magma/0.2.0".to_string(),
        language: "go".to_string(),
        module: "example.com/m".to_string(),
        sha: "abc".to_string(),
        tree: "clean".to_string(),
        fidelity: "rta".to_string(),
        computable: true,
        executed_target_code: None,
        not_computable_reason: None,
        functions: Some(functions),
        calls: Some(calls),
        modules: Some(modules),
        module_calls: Some(module_calls),
        limitations: vec![],
        disclosure: None,
    }
}

/// Two modules, `a` calling `b`, with one function each in `b` and two in `a`.
fn two_module_graph() -> CodeGraph {
    document(
        vec![
            func("a-main", "main", "a", "a.go", 1, false, true, true, true, 0, 1),
            func("a-helper", "helper", "a", "a.go", 9, false, false, true, true, 1, 0),
            func("b-run", "Run", "b", "b.go", 3, true, false, false, false, 0, 0),
        ],
        vec![call("a-main", "a-helper", "a.go", 4, "static")],
        vec![module("a", &["a-main", "a-helper"], 2, 0, 0, 1), module("b", &["b-run"], 1, 1, 1, 0)],
        vec![mcall("a", "b", 3, true)],
    )
}

fn flags(reachable: bool, prod: bool, test: bool, root: bool, generated: bool) -> CodeGraphFunction {
    let mut f = func("f", "F", "p", "f.go", 1, true, root, reachable, prod, 0, 0);
    f.test = test;
    f.generated = generated;
    f
}

#[test]
fn module_layout_layers_callers_left_of_callees() {
    let layout = build_module_layout(&two_module_graph());
    let a = layout.nodes.iter().find(|n| n.id == "a").expect("module a");
    let b = layout.nodes.iter().find(|n| n.id == "b").expect("module b");
    assert!(a.layer < b.layer, "caller module must sit left of its callee: {} !< {}", a.layer, b.layer);
    assert_eq!(layout.nodes.len(), 2);
    assert_eq!(layout.edges.len(), 1);
    assert!(layout.columns > 0 && layout.rows > 0);
}

#[test]
fn module_edge_carries_count_and_dynamic_flag() {
    let layout = build_module_layout(&two_module_graph());
    let e = &layout.edges[0];
    assert_eq!(e.count, 3);
    assert!(e.dynamic);
    assert_eq!(e.id, "a->b");
    assert_eq!((e.from_layer, e.from_row, e.to_layer, e.to_row), (0, 0, 1, 0));
}

#[test]
fn module_nodes_are_drillable_and_labelled_with_counts() {
    let layout = build_module_layout(&two_module_graph());
    let b = layout.nodes.iter().find(|n| n.id == "b").unwrap();
    assert!(b.drillable, "module nodes drill into their functions");
    assert_eq!(b.label, "b");
    assert!(b.sublabel.contains('1'), "sublabel should carry counts, got {:?}", b.sublabel);
    assert_eq!(b.sublabel, "1 fn · 1 dead · 0 test-only");
}

#[test]
fn function_layout_is_scoped_to_one_module() {
    let layout = build_function_layout(&two_module_graph(), "a");
    let ids: Vec<&str> = layout.nodes.iter().map(|n| n.id.as_str()).collect();
    assert_eq!(ids.len(), 2, "only module a's functions: {ids:?}");
    assert!(ids.contains(&"a-main") && ids.contains(&"a-helper"));
    assert!(!ids.contains(&"b-run"));
    assert_eq!(layout.edges.len(), 1);
    assert!(!layout.nodes.iter().any(|n| n.drillable), "function nodes do not drill further");
    assert_eq!(layout.nodes[1].sublabel, "a.go:9");
    assert_eq!(layout.nodes[0].badges, vec![Reach::Root]);
}

#[test]
fn unknown_module_yields_an_empty_layout_not_a_panic() {
    let layout = build_function_layout(&two_module_graph(), "does-not-exist");
    assert!(layout.nodes.is_empty());
    assert!(layout.edges.is_empty());
}

#[test]
fn layout_is_deterministic() {
    let cg = two_module_graph();
    let first = build_module_layout(&cg);
    for _ in 0..25 {
        assert_eq!(build_module_layout(&cg), first);
    }
}

#[test]
fn cycles_do_not_hang_and_every_node_is_placed() {
    let cg = document(
        vec![],
        vec![],
        vec![module("x", &[], 0, 0, 1, 1), module("y", &[], 0, 0, 1, 1)],
        vec![mcall("x", "y", 1, false), mcall("y", "x", 1, false)],
    );
    let layout = build_module_layout(&cg);
    assert_eq!(layout.nodes.len(), 2, "both cycle members must be placed");
    assert_eq!(layout.edges.len(), 2);
}

#[test]
fn function_tier_pure_cycle_places_every_node() {
    let cg = document(
        vec![
            func("p-one", "One", "p", "p.go", 1, true, false, true, true, 1, 1),
            func("p-two", "Two", "p", "p.go", 9, true, false, true, true, 1, 1),
            func("p-three", "Three", "p", "p.go", 17, true, false, true, true, 1, 1),
        ],
        vec![
            call("p-one", "p-two", "p.go", 2, "static"),
            call("p-two", "p-three", "p.go", 10, "static"),
            call("p-three", "p-one", "p.go", 18, "static"),
        ],
        vec![module("p", &["p-one", "p-two", "p-three"], 3, 0, 0, 0)],
        vec![],
    );
    let layout = build_function_layout(&cg, "p");
    let ids: Vec<&str> = layout.nodes.iter().map(|n| n.id.as_str()).collect();
    assert_eq!(ids.len(), 3, "every function in the pure cycle must still be placed: {ids:?}");
    assert!(ids.contains(&"p-one") && ids.contains(&"p-two") && ids.contains(&"p-three"));
    assert_eq!(layout.edges.len(), 3, "all three intra-module calls must be kept");
    assert!(layout.nodes.iter().all(|n| n.layer == 0), "with no root, every node trails in layer 0");
    assert_eq!(layout.rows, 3);
}

#[test]
fn code_graph_model_reach_badges_follow_the_contract_predicates() {
    let f = |reachable, prod, test, root, generated| reach_badges(&flags(reachable, prod, test, root, generated));
    assert!(f(false, false, false, false, false).contains(&Reach::Dead));
    assert!(!f(false, false, false, true, false).contains(&Reach::Dead), "a root is never dead");
    assert!(!f(false, false, false, false, true).contains(&Reach::Dead), "generated is never dead");
    assert!(f(true, false, false, false, false).contains(&Reach::TestOnly));
    assert!(!f(true, false, true, false, false).contains(&Reach::TestOnly), "a test is not test-only");
    assert!(!f(true, true, false, false, false).contains(&Reach::TestOnly), "prod-reachable is not test-only");
    assert!(f(true, true, false, true, false).contains(&Reach::Root));
    assert!(f(true, true, false, false, true).contains(&Reach::Generated));
}

#[test]
fn code_graph_model_signature_renders_named_and_unnamed_params() {
    let sig = CodeGraphSignature {
        params: vec![
            CodeGraphParam { name: Some("a".to_string()), param_type: "int".to_string() },
            CodeGraphParam { name: None, param_type: "string".to_string() },
        ],
        results: vec![
            CodeGraphResult { result_type: "int".to_string() },
            CodeGraphResult { result_type: "error".to_string() },
        ],
    };
    assert_eq!(format_signature(&sig), "(a int, string) (int, error)");
    let empty = CodeGraphSignature { params: vec![], results: vec![] };
    assert_eq!(format_signature(&empty), "()");
    let one = CodeGraphSignature {
        params: vec![],
        results: vec![CodeGraphResult { result_type: "error".to_string() }],
    };
    assert_eq!(format_signature(&one), "() error");
}

#[test]
fn code_graph_model_every_badge_tooltip_says_it_is_a_candidate_for_the_inferred_ones() {
    for r in [Reach::Dead, Reach::TestOnly] {
        let t = r.tooltip().to_lowercase();
        assert!(t.contains("candidate"), "{:?} tooltip must say candidate: {t}", r);
        assert!(t.contains("reflection"), "{:?} tooltip must name a blind spot: {t}", r);
    }
    for r in [Reach::Root, Reach::Generated, Reach::TestOnly, Reach::Dead] {
        assert!(!r.label().is_empty());
        assert!(r.color_var().starts_with("var(--reach-"), "{:?} needs its own scale", r);
    }
}

fn strings(v: &[&str]) -> Vec<String> {
    v.iter().map(|s| s.to_string()).collect()
}

fn pairs(v: &[(&str, &str)]) -> Vec<(String, String)> {
    v.iter().map(|(a, b)| (a.to_string(), b.to_string())).collect()
}

fn keyed(v: &[(&str, usize)]) -> Vec<(String, usize)> {
    v.iter().map(|(k, l)| (k.to_string(), *l)).collect()
}

#[test]
fn assign_layers_uses_call_depth_and_one_trailing_layer() {
    let ids = strings(&["r", "a", "b", "orphan", "c1", "c2"]);
    let edges = pairs(&[("r", "a"), ("a", "b"), ("r", "b"), ("c1", "c2"), ("c2", "c1")]);
    let layers = assign_layers(&ids, &strings(&["r"]), &edges);
    assert_eq!(
        layers,
        keyed(&[("r", 0), ("a", 1), ("b", 1), ("orphan", 2), ("c1", 2), ("c2", 2)]),
        "shortest depth wins; unreached ids trail"
    );
    assert_eq!(
        assign_layers(&ids, &strings(&[]), &edges),
        keyed(&[("r", 0), ("a", 0), ("b", 0), ("orphan", 0), ("c1", 0), ("c2", 0)]),
        "no root: one trailing layer 0"
    );
}

#[test]
fn assign_layers_walks_through_ids_it_does_not_place() {
    let ids = strings(&["r", "b"]);
    let edges = pairs(&[("r", "ghost"), ("ghost", "b")]);
    assert_eq!(assign_layers(&ids, &strings(&["r"]), &edges), keyed(&[("r", 0), ("b", 2), ("ghost", 1)]));
}

#[test]
fn assign_layers_keys_roots_and_reached_names_beyond_the_ids() {
    // `r` is a root and `x` is reached, though neither is an id; `y` is an
    // endpoint no root reaches and no id names, so it gets no layer.
    let ids = strings(&["a"]);
    let edges = pairs(&[("r", "x"), ("y", "a")]);
    assert_eq!(assign_layers(&ids, &strings(&["r"]), &edges), keyed(&[("a", 2), ("r", 0), ("x", 1)]));
}

#[test]
fn rows_follow_document_order_within_a_layer() {
    let cg = document(
        vec![],
        vec![],
        vec![
            module("root", &[], 0, 0, 0, 2),
            module("left", &[], 0, 0, 1, 0),
            module("right", &[], 0, 0, 1, 0),
        ],
        vec![mcall("root", "left", 1, false), mcall("root", "right", 2, false), mcall("root", "gone", 1, false)],
    );
    let layout = build_module_layout(&cg);
    let cells: Vec<(usize, usize)> = layout.nodes.iter().map(|n| (n.layer, n.row)).collect();
    assert_eq!(cells, vec![(0, 0), (1, 0), (1, 1)]);
    assert_eq!((layout.columns, layout.rows), (2, 2));
    assert_eq!(layout.edges.len(), 2, "a call to an unknown module draws no edge");
    assert_eq!(layout.edges[1].id, "root->right");
    assert_eq!(layout.edges[1].count, 2);
}

#[test]
fn a_module_without_entrypoints_roots_at_its_uncalled_members() {
    let cg = document(
        vec![
            func("m-a", "A", "m", "m.go", 1, true, false, true, true, 0, 1),
            func("m-b", "B", "m", "m.go", 5, true, false, true, true, 1, 0),
            func("x-c", "C", "x", "x.go", 2, true, false, true, true, 0, 0),
        ],
        vec![call("m-a", "m-b", "m.go", 2, "dynamic"), call("x-c", "m-a", "x.go", 3, "static")],
        vec![module("m", &["m-a", "m-b"], 2, 0, 0, 0)],
        vec![],
    );
    let layout = build_function_layout(&cg, "m");
    let cells: Vec<(usize, usize)> = layout.nodes.iter().map(|n| (n.layer, n.row)).collect();
    assert_eq!(cells, vec![(0, 0), (1, 0)], "calls from outside the module do not count");
    assert_eq!(layout.edges.len(), 1);
    assert!(layout.edges[0].dynamic);
    assert_eq!(layout.edges[0].count, 1);
    assert_eq!(layout.edges[0].id, "m-a->m-b");
}

#[test]
fn a_document_without_modules_lays_out_nothing() {
    let mut cg = two_module_graph();
    cg.modules = None;
    let layout = build_module_layout(&cg);
    assert_eq!((layout.columns, layout.rows, layout.nodes.len(), layout.edges.len()), (0, 0, 0, 0));
    assert!(build_function_layout(&cg, "a").nodes.is_empty());
}
