use architext_viewer::blast_radius::{blast_radius_for_node, BlastInputs};
use architext_viewer::models::{
    DataClass, Decision, DiagramView, FileEntry, Flow, FlowStep, Lane, Node, Risk,
};

fn node(id: &str, ty: &str, deps: &[&str]) -> Node {
    Node {
        id: id.to_string(),
        node_type: ty.to_string(),
        name: format!("{id} name"),
        summary: None,
        owner: None,
        dependencies: deps.iter().map(|s| s.to_string()).collect(),
        source_paths: Vec::new(),
        related_flows: Vec::new(),
        related_decisions: Vec::new(),
        known_risks: Vec::new(),
        data_handled: Vec::new(),
    }
}

fn step(id: &str, from: &str, to: &str) -> FlowStep {
    FlowStep {
        id: id.to_string(),
        from: from.to_string(),
        to: to.to_string(),
        action: "act".to_string(),
        summary: None,
        kind: None,
        outcome: None,
        return_of: None,
    }
}

fn flow(id: &str, name: &str, steps: Vec<FlowStep>) -> Flow {
    Flow { id: id.into(), name: name.into(), status: None, summary: None, trigger: None, steps }
}

fn file(path: &str, size: u64) -> FileEntry {
    FileEntry { path: path.into(), size: Some(size), mtime: None }
}

#[test]
fn unknown_focus_returns_none() {
    let nodes = vec![node("a", "service", &[])];
    let input = BlastInputs {
        nodes: &nodes, flows: &[], decisions: &[], risks: &[],
        data_classes: &[], views: &[], files: &[],
    };
    assert!(blast_radius_for_node("missing", &input).is_none());
}

#[test]
fn reach_unions_declared_and_derived_links() {
    let mut a = node("a", "service", &["b"]);
    a.source_paths = vec!["src/a".into()];
    a.related_flows = vec!["f1".into()];
    a.known_risks = vec!["r1".into()];
    a.data_handled = vec!["dc1".into(), "missing-dc".into()];
    let nodes = vec![a, node("b", "data", &[]), node("c", "client", &["a"])];

    let flows = vec![
        flow("f1", "Flow One", vec![]),
        flow("f2", "Flow Two", vec![step("s1", "x", "a")]),
        flow("f3", "Flow Three", vec![step("s2", "x", "y")]),
    ];
    let decisions = vec![Decision {
        id: "d".into(), title: "Decision D".into(), status: None, context: None,
        decision: None, related_nodes: vec!["a".into()],
    }];
    let risks = vec![Risk {
        id: "r1".into(), title: "Risk One".into(), category: None, severity: Some("high".into()),
        status: None, summary: None, related_nodes: vec![],
    }];
    let data_classes = vec![DataClass {
        id: "dc1".into(), name: "PII".into(), sensitivity: Some("high".into()), handling: None,
    }];
    let views = vec![DiagramView {
        id: "v1".into(), name: "Map".into(), view_type: "system-map".into(), summary: None,
        scope_node_id: None,
        lanes: vec![Lane { id: "l".into(), name: None, node_ids: vec!["a".into(), "b".into()] }],
    }];
    let files = vec![file("src/a/main.rs", 10), file("src/other/x.rs", 5)];

    let input = BlastInputs {
        nodes: &nodes, flows: &flows, decisions: &decisions, risks: &risks,
        data_classes: &data_classes, views: &views, files: &files,
    };
    let r = blast_radius_for_node("a", &input).expect("focus a is known");

    assert_eq!(r.node.name, "a name");
    assert_eq!(r.node.node_type, "service");
    assert_eq!(r.depends_on.iter().map(|n| n.id.as_str()).collect::<Vec<_>>(), vec!["b"]);
    assert_eq!(r.dependents.iter().map(|n| n.id.as_str()).collect::<Vec<_>>(), vec!["c"]);
    assert_eq!(r.flows.iter().map(|f| f.id.as_str()).collect::<Vec<_>>(), vec!["f1", "f2"]);
    assert_eq!(r.flows[0].name, "Flow One");
    assert_eq!(r.decisions.iter().map(|d| d.id.as_str()).collect::<Vec<_>>(), vec!["d"]);
    assert_eq!(r.risks.len(), 1);
    assert_eq!(r.risks[0].severity.as_deref(), Some("high"));
    assert_eq!(r.data_handled.iter().map(|d| d.id.as_str()).collect::<Vec<_>>(), vec!["dc1"]);
    assert_eq!(r.data_handled[0].sensitivity.as_deref(), Some("high"));
    assert_eq!(r.views.iter().map(|v| v.id.as_str()).collect::<Vec<_>>(), vec!["v1"]);
    assert_eq!(r.owned_files.iter().map(|f| f.path.as_str()).collect::<Vec<_>>(), vec!["src/a/main.rs"]);
    assert_eq!(r.reach_count(), 9);
}

#[test]
fn dangling_dependency_falls_back_to_unknown_type() {
    let nodes = vec![node("a", "service", &["ghost"])];
    let input = BlastInputs {
        nodes: &nodes, flows: &[], decisions: &[], risks: &[],
        data_classes: &[], views: &[], files: &[],
    };
    let r = blast_radius_for_node("a", &input).unwrap();
    assert!(r.depends_on.is_empty());
}

#[test]
fn a_declared_and_derived_link_is_listed_once_declared_first() {
    let mut a = node("a", "service", &[]);
    a.related_flows = vec!["f2".into(), "nope".into(), "f2".into()];
    a.related_decisions = vec!["d2".into()];
    let nodes = vec![a];
    let flows = vec![
        flow("f1", "One", vec![step("s", "a", "z")]),
        flow("f2", "Two", vec![step("s", "z", "a")]),
    ];
    let decisions = vec![
        Decision { id: "d1".into(), title: "D1".into(), status: None, context: None, decision: None, related_nodes: vec!["a".into()] },
        Decision { id: "d2".into(), title: "D2".into(), status: None, context: None, decision: None, related_nodes: vec![] },
    ];
    let input = BlastInputs {
        nodes: &nodes, flows: &flows, decisions: &decisions, risks: &[],
        data_classes: &[], views: &[], files: &[],
    };
    let r = blast_radius_for_node("a", &input).unwrap();
    assert_eq!(r.flows.iter().map(|f| f.id.as_str()).collect::<Vec<_>>(), vec!["f2", "f1"]);
    assert_eq!(r.decisions.iter().map(|d| d.title.as_str()).collect::<Vec<_>>(), vec!["D2", "D1"]);
}

#[test]
fn the_longest_source_path_prefix_owns_a_file() {
    let mut a = node("a", "service", &[]);
    a.source_paths = vec!["src".into()];
    let mut b = node("b", "module", &[]);
    b.source_paths = vec!["src/b".into()];
    let nodes = vec![a, b];
    let files = vec![
        file("src/b/x.rs", 1),
        file("src/bc/y.rs", 2),
        file("src/a.rs", 3),
        file("", 4),
        file("other/z.rs", 5),
    ];
    let input = BlastInputs {
        nodes: &nodes, flows: &[], decisions: &[], risks: &[],
        data_classes: &[], views: &[], files: &files,
    };
    let ra = blast_radius_for_node("a", &input).unwrap();
    assert_eq!(ra.owned_files.iter().map(|f| f.path.as_str()).collect::<Vec<_>>(), vec!["src/bc/y.rs", "src/a.rs"]);
    let rb = blast_radius_for_node("b", &input).unwrap();
    assert_eq!(rb.owned_files.iter().map(|f| f.path.as_str()).collect::<Vec<_>>(), vec!["src/b/x.rs"]);
    assert_eq!(rb.owned_files[0].size, Some(1));
    assert_eq!(rb.declared_paths, vec!["src/b".to_string()]);
}
