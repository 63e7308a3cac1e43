use architext_viewer::graph::{reach_badges, Reach};
use architext_viewer::inspector::{
    code_graph_function_detail, code_graph_module_detail, derive_node_relations, inspector_card,
    InspectorCard, InspectorMode, NodeRelations,
};
use architext_viewer::view_model::Tier;
use architext_viewer::models::{
    CodeGraphCounts, CodeGraphFunction, CodeGraphModule, CodeGraphParam, CodeGraphResult,
    CodeGraphSignature, DataClass, DiagramView, Lane, Node,
};

fn node(id: &str, node_type: &str, name: &str, deps: &[&str], data: &[&str]) -> Node {
    Node {
        id: id.to_string(),
        node_type: node_type.to_string(),
        name: name.to_string(),
        summary: None,
        owner: None,
        dependencies: deps.iter().map(|s| s.to_string()).collect(),
        source_paths: vec![],
        related_flows: vec![],
        related_decisions: vec![],
        known_risks: vec![],
        data_handled: data.iter().map(|s| s.to_string()).collect(),
    }
}

fn nodes() -> Vec<Node> {
    vec![
        node("cli", "service", "Architext CLI", &["validator", "store"], &["arch-model", "raw-id"]),
        node("validator", "module", "Schema validator", &["store"], &[]),
        node("store", "data-store", "Target data files", &[], &[]),
        node("unrelated", "module", "Routing engine", &[], &[]),
    ]
}

fn view(id: &str, name: &str, view_type: &str, lanes: &[(&str, &[&str])]) -> DiagramView {
    DiagramView {
        id: id.to_string(),
        name: name.to_string(),
        view_type: view_type.to_string(),
        summary: None,
        scope_node_id: None,
        lanes: lanes
            .iter()
            .map(|(lid, ids)| Lane {
                id: lid.to_string(),
                name: None,
                node_ids: ids.iter().map(|s| s.to_string()).collect(),
            })
            .collect(),
    }
}

fn views() -> Vec<DiagramView> {
    vec![
        view("v1", "System Map", "system-map", &[("l1", &["cli", "store"])]),
        view("v2", "Dataflow", "dataflow", &[("l2", &["cli"])]),
        view("v3", "Rules", "rules", &[]),
    ]
}

fn data_classes() -> Vec<DataClass> {
    vec![DataClass {
        id: "arch-model".to_string(),
        name: "Architecture model".to_string(),
        sensitivity: None,
        handling: None,
    }]
}

fn node_by_id<'a>(nodes: &'a [Node], id: &str) -> &'a Node {
    nodes.iter().find(|n| n.id == id).unwrap()
}

#[test]
fn depends_on_resolves_node_dependencies_to_names() {
    let nodes = nodes();
    let rel = derive_node_relations(&nodes, &views(), &data_classes(), node_by_id(&nodes, "cli"));
    assert_eq!(rel.depends_on, vec!["Schema validator", "Target data files"]);
}

#[test]
fn used_by_is_the_reverse_edge_set() {
    let nodes = nodes();
    let rel = derive_node_relations(&nodes, &views(), &data_classes(), node_by_id(&nodes, "store"));
    assert_eq!(rel.used_by, vec!["Architext CLI", "Schema validator"]);
    assert!(rel.depends_on.is_empty());
}

#[test]
fn data_handled_resolves_known_ids_and_keeps_unknown_raw() {
    let nodes = nodes();
    let rel = derive_node_relations(&nodes, &views(), &data_classes(), node_by_id(&nodes, "cli"));
    assert_eq!(rel.data_handled, vec!["Architecture model", "raw-id"]);
}

#[test]
fn appears_in_lists_views_whose_lanes_contain_the_node() {
    let nodes = nodes();
    let rel = derive_node_relations(&nodes, &views(), &data_classes(), node_by_id(&nodes, "cli"));
    assert_eq!(rel.appears_in, vec!["System Map", "Dataflow"]);
}

#[test]
fn node_with_no_relationships_is_all_empty() {
    let nodes = nodes();
    let rel =
        derive_node_relations(&nodes, &views(), &data_classes(), node_by_id(&nodes, "unrelated"));
    assert_eq!(rel, NodeRelations::default());
}

#[test]
fn a_dangling_dependency_keeps_its_raw_id() {
    let mut nodes = nodes();
    nodes[3].dependencies = vec!["ghost".to_string(), "cli".to_string()];
    let rel =
        derive_node_relations(&nodes, &views(), &data_classes(), node_by_id(&nodes, "unrelated"));
    assert_eq!(rel.depends_on, vec!["ghost", "Architext CLI"]);
    let cli = derive_node_relations(&nodes, &views(), &data_classes(), node_by_id(&nodes, "cli"));
    assert_eq!(cli.used_by, vec!["Routing engine"]);
}

#[test]
fn module_detail_carries_fan_and_candidate_counts() {
    let m = CodeGraphModule {
        id: "example.com/x/srv".to_string(),
        pkg: "srv".to_string(),
        function_ids: vec![],
        counts: CodeGraphCounts { functions: 9, dead: 2, test_only: 1 },
        fan_in: 4,
        fan_out: 5,
    };
    let d = code_graph_module_detail(&m);
    assert_eq!(d.pkg, "srv");
    assert_eq!((d.fan_in, d.fan_out), (4, 5));
    assert_eq!((d.functions, d.dead_candidates, d.test_only_candidates), (9, 2, 1));
}

fn function(reachable: bool, prod_reachable: bool) -> CodeGraphFunction {
    CodeGraphFunction {
        id: "f1".to_string(),
        symbol: "srv.handle".to_string(),
        pkg: "srv".to_string(),
        file: "h.go".to_string(),
        line: 42,
        kind: "func".to_string(),
        exported: true,
        test: false,
        root: false,
        generated: false,
        reachable,
        prod_reachable,
        signature: CodeGraphSignature {
            params: vec![CodeGraphParam { name: Some("a".to_string()), param_type: "int".to_string() }],
            results: vec![CodeGraphResult { result_type: "error".to_string() }],
        },
        doc: Some("Handle serves one request.".to_string()),
        fan_in: 3,
        fan_out: 2,
    }
}

#[test]
fn function_detail_assembles_the_display_facts() {
    let d = code_graph_function_detail(&function(true, true));
    assert_eq!(d.symbol, "srv.handle");
    assert_eq!(d.signature, "(a int) error");
    assert_eq!(d.location, "h.go:42");
    assert_eq!((d.fan_in, d.fan_out), (3, 2));
    assert_eq!(d.doc.as_deref(), Some("Handle serves one request."));
    assert!(d.badges.is_empty(), "a plain prod-reachable function earns no badge");
}

#[test]
fn function_detail_badges_are_the_reach_badges_unfiltered() {
    let unreached = function(false, false);
    let d = code_graph_function_detail(&unreached);
    assert_eq!(d.badges, reach_badges(&unreached));
    assert_eq!(d.badges, vec![Reach::PublicUnreferenced]);
    let test_only = function(true, false);
    assert_eq!(code_graph_function_detail(&test_only).badges, vec![Reach::TestOnly]);
    assert_eq!(code_graph_function_detail(&test_only).location, "h.go:42");
}

#[test]
fn inspector_card_follows_the_selection_precedence() {
    // A resolved diagram node wins in every mode.
    assert_eq!(inspector_card(InspectorMode::CodeGraph, true, Some(Tier::Functions), false), InspectorCard::Node);
    assert_eq!(inspector_card(InspectorMode::CodeGraph, false, Some(Tier::Functions), false), InspectorCard::Function);
    assert_eq!(inspector_card(InspectorMode::CodeGraph, false, Some(Tier::Modules), false), InspectorCard::Module);
    // A code-graph selection that no longer resolves falls through to the summary.
    assert_eq!(inspector_card(InspectorMode::CodeGraph, false, None, false), InspectorCard::Summary);
    // Outside the code-graph mode a code-graph selection is ignored.
    assert_eq!(inspector_card(InspectorMode::Other, false, Some(Tier::Modules), false), InspectorCard::View);
    assert_eq!(inspector_card(InspectorMode::DataRisks, false, None, true), InspectorCard::DataRisks);
    assert_eq!(inspector_card(InspectorMode::ReleaseTruth, false, None, true), InspectorCard::ReleaseItem);
    assert_eq!(inspector_card(InspectorMode::ReleaseTruth, false, None, false), InspectorCard::Summary);
    assert_eq!(inspector_card(InspectorMode::Rules, false, None, true), InspectorCard::Summary);
}
