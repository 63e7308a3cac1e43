use architext_viewer::graph::Reach;
use architext_viewer::models::{CodeGraph, CodeGraphDisclosure, CodeGraphLimitation};
use architext_viewer::provenance::{
    discloses_executed_target_code, dynamic_edge_explanation, fidelity_method_description,
    over_approximates_live, reachability_caveat, scope_meaning,
};

fn cg(limitations: Vec<CodeGraphLimitation>, root_percent: Option<&str>) -> CodeGraph {
    CodeGraph {
        contract_version: "magma-code-graph/1".into(),
        generator: "magma/0.3.0".into(),
        language: "rust".into(),
        module: "m".into(),
        sha: "abc".into(),
        tree: "clean".into(),
        fidelity: "semantic".into(),
        computable: true,
        executed_target_code: Some(true),
        not_computable_reason: None,
        functions: None,
        calls: None,
        modules: None,
        module_calls: None,
        limitations,
        disclosure: root_percent.map(|r| CodeGraphDisclosure {
            nodes: Some(156),
            roots: Some(136),
            generated: Some(0),
            dynamic_edges: Some(0),
            root_percent: Some(r.to_string()),
        }),
    }
}

fn over_rooting() -> CodeGraphLimitation {
    CodeGraphLimitation {
        id: "rust-derive-over-rooting".into(),
        scope: "backend".into(),
        attribution: "magma rust backend".into(),
        description: "derive-generated methods report as Public, so derive-heavy crates over-root".into(),
        effect: "over-approximates-live".into(),
        evidenced_by: Some("root_ratio".into()),
    }
}

#[test]
fn fidelity_method_description_never_echoes_the_raw_token() {
    for fidelity in ["rta", "semantic", "", "hir", "some-future-token"] {
        let d = fidelity_method_description(fidelity);
        assert!(!d.is_empty());
        assert!(
            !d.to_lowercase().contains("rta") || fidelity == "rta",
            "must not leak the raw token for {fidelity:?}: {d}"
        );
        assert_ne!(d, fidelity, "must be a description, not the token itself");
    }
    assert!(fidelity_method_description("rta").to_lowercase().contains("static"));
    assert!(fidelity_method_description("semantic").to_lowercase().contains("type inference"));
    let unknown = fidelity_method_description("some-future-token");
    assert!(!unknown.contains("some-future-token"));
}

#[test]
fn dynamic_edge_explanation_differs_by_fidelity_and_never_echoes_the_token() {
    let rta = dynamic_edge_explanation("rta");
    let semantic = dynamic_edge_explanation("semantic");
    assert_ne!(rta, semantic, "the two fidelities must read differently");
    assert!(rta.to_lowercase().contains("over-approximation") || rta.to_lowercase().contains("may not occur"));
    assert!(!semantic.to_lowercase().contains("may not occur"), "semantic edges are not an over-approximation");
    assert!(!rta.contains("\"rta\"") && !semantic.contains("\"semantic\""));
    let unknown = dynamic_edge_explanation("quantum-fidelity");
    assert!(!unknown.is_empty());
    assert!(!unknown.contains("quantum-fidelity"));
}

#[test]
fn executed_target_code_disclosure_is_driven_by_the_field_only() {
    assert!(discloses_executed_target_code(Some(true)));
    assert!(!discloses_executed_target_code(Some(false)));
    assert!(!discloses_executed_target_code(None));
}

#[test]
fn init_kind_gets_weaker_evidence_wording_dead_and_test_only() {
    let dead_init = Reach::Dead.tooltip_for_kind("init");
    assert_ne!(dead_init, Reach::Dead.tooltip(), "init must not reuse the generic wording");
    assert!(dead_init.to_lowercase().contains("initialiser"));
    assert!(dead_init.to_lowercase().contains("candidate"));

    let test_only_init = Reach::TestOnly.tooltip_for_kind("init");
    assert_ne!(test_only_init, Reach::TestOnly.tooltip());
    assert!(test_only_init.to_lowercase().contains("initialiser"));

    for kind in ["func", "method"] {
        assert_eq!(Reach::Dead.tooltip_for_kind(kind), Reach::Dead.tooltip());
        assert_eq!(Reach::TestOnly.tooltip_for_kind(kind), Reach::TestOnly.tooltip());
    }
    assert_eq!(Reach::Root.tooltip_for_kind("init"), Reach::Root.tooltip());
    assert_eq!(Reach::Generated.tooltip_for_kind("init"), Reach::Generated.tooltip());
}

#[test]
fn an_empty_dead_set_is_caveated_when_the_producer_admits_over_rooting() {
    let doc = cg(vec![over_rooting()], Some("87"));
    let caveat = reachability_caveat(&doc).expect("over-approximation must produce a caveat");
    assert!(caveat.contains("SUPPRESSED"), "{caveat}");
    assert!(caveat.contains("87%"), "the ratio must be quantified: {caveat}");
    assert!(
        caveat.contains("absence of evidence"),
        "must distinguish absence of evidence from evidence of absence: {caveat}"
    );
    assert_eq!(
        caveat,
        "Reachability is SUPPRESSED by a disclosed limitation of magma rust backend (87% of nodes are roots): derive-generated methods report as Public, so derive-heavy crates over-root. An empty dead-code result here is absence of evidence, not evidence of absence."
    );
}

#[test]
fn an_honest_artifact_gains_no_caveat_it_did_not_earn() {
    assert!(reachability_caveat(&cg(vec![], None)).is_none());
    let omits = CodeGraphLimitation { effect: "may-omit-edges".into(), ..over_rooting() };
    assert!(reachability_caveat(&cg(vec![omits], Some("3"))).is_none());
}

#[test]
fn the_caveat_survives_a_missing_or_dangling_evidence_pointer() {
    let no_ev = CodeGraphLimitation { evidenced_by: None, ..over_rooting() };
    let c = reachability_caveat(&cg(vec![no_ev], Some("87"))).expect("caveat still required");
    assert!(c.contains("SUPPRESSED") && !c.contains('%'), "{c}");
    let dangling = CodeGraphLimitation { evidenced_by: Some("nodes".into()), ..over_rooting() };
    let c = reachability_caveat(&cg(vec![dangling], Some("87"))).expect("caveat still required");
    assert!(!c.contains('%'), "{c}");
    let no_disclosure = reachability_caveat(&cg(vec![over_rooting()], None)).unwrap();
    assert!(!no_disclosure.contains('%'), "{no_disclosure}");
}

#[test]
fn the_first_over_approximating_limitation_is_the_one_reported() {
    let omits = CodeGraphLimitation { effect: "may-omit-edges".into(), ..over_rooting() };
    let second = CodeGraphLimitation { attribution: "second".into(), ..over_rooting() };
    let lims = vec![omits, over_rooting(), second];
    assert_eq!(over_approximates_live(&lims).unwrap().attribution, "magma rust backend");
    assert!(over_approximates_live(&lims[..1]).is_none());
}

#[test]
fn scope_answers_whether_waiting_helps_including_for_unknown_scopes() {
    assert!(scope_meaning("language").contains("will not change"));
    assert!(scope_meaning("analyzer").contains("pin"));
    assert!(scope_meaning("backend").contains("fixable"));
    assert!(scope_meaning("sandbox-mode").contains("cannot tell"));
}
