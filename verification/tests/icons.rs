use architext_viewer::icons::{
    c4_level_label, node_icon_path, node_type_label, peak_sensitivity, peak_severity, sens_rank, sev_rank,
    RelationshipKind,
};

#[test]
fn node_type_maps_to_diagram_icon_glyph() {
    assert_eq!(node_icon_path("actor"), "M12 5a3 3 0 1 0 0.1 0 M12 8v9 M8 12h8 M9 21l3-4 3 4");
    assert_eq!(node_icon_path("client"), "M4 5h16v11H4z M9 20h6 M12 16v4");
    assert_eq!(node_icon_path("service"), "M5 5h14v14H5z M8 9h8 M8 13h8 M8 17h4");
    assert_eq!(
        node_icon_path("data-store"),
        "M6 6c0-2 12-2 12 0v12c0 2-12 2-12 0z M6 6c0 2 12 2 12 0 M6 12c0 2 12 2 12 0"
    );
    assert_eq!(node_icon_path("software-system"), "M4 6h16v12H4z M7 9h10 M7 13h10");
    assert_eq!(node_icon_path("deployment-unit"), "M4 8l8-4 8 4v8l-8 4-8-4z M4 8l8 4 8-4 M12 12v8");
}

#[test]
fn normalized_suffixes_resolve_to_the_same_glyph() {
    assert_eq!(node_icon_path("data"), node_icon_path("data-store"));
    assert_eq!(node_icon_path("system"), node_icon_path("software-system"));
    assert_eq!(node_icon_path("deployment"), node_icon_path("deployment-unit"));
    assert_eq!(node_icon_path("external"), node_icon_path("external-service"));
}

#[test]
fn unknown_type_falls_back_to_the_node_box_glyph() {
    assert_eq!(node_icon_path("mystery"), "M5 5h14v14H5z");
    assert_eq!(node_icon_path(""), "M5 5h14v14H5z");
}

#[test]
fn labels_match_the_authored_type_words() {
    assert_eq!(node_type_label("data-store"), "Data store");
    assert_eq!(node_type_label("software-system"), "Software system");
    assert_eq!(node_type_label("deployment-unit"), "Deployment unit");
    assert_eq!(node_type_label("mystery"), "mystery");
}

#[test]
fn classifies_the_four_prompt_labels() {
    assert_eq!(RelationshipKind::classify("depends on"), RelationshipKind::DependsOn);
    assert_eq!(RelationshipKind::classify("reads/writes"), RelationshipKind::ReadsWrites);
    assert_eq!(RelationshipKind::classify("uses"), RelationshipKind::Uses);
    assert_eq!(RelationshipKind::classify("relates to"), RelationshipKind::RelatesTo);
}

#[test]
fn classifies_the_full_relationship_label_vocabulary() {
    assert_eq!(RelationshipKind::classify("publishes"), RelationshipKind::Publishes);
    assert_eq!(RelationshipKind::classify("uses provider"), RelationshipKind::Uses);
    assert_eq!(RelationshipKind::classify("calls"), RelationshipKind::DependsOn);
    assert_eq!(RelationshipKind::classify("calls API"), RelationshipKind::DependsOn);
    assert_eq!(RelationshipKind::classify("reads config"), RelationshipKind::ReadsWrites);
    assert_eq!(RelationshipKind::classify("retrieves memory"), RelationshipKind::ReadsWrites);
    assert_eq!(RelationshipKind::classify("uses MCP/tools"), RelationshipKind::Uses);
    assert_eq!(RelationshipKind::classify("uses skills/plugins"), RelationshipKind::Uses);
    assert_eq!(RelationshipKind::classify("requests model"), RelationshipKind::DependsOn);
}

#[test]
fn unknown_label_classifies_as_dependency() {
    assert_eq!(RelationshipKind::classify("some new phrase"), RelationshipKind::DependsOn);
}

#[test]
fn every_kind_has_a_glyph_and_a_word() {
    for kind in [
        RelationshipKind::DependsOn,
        RelationshipKind::ReadsWrites,
        RelationshipKind::Uses,
        RelationshipKind::Publishes,
        RelationshipKind::RelatesTo,
    ] {
        assert!(!kind.icon_path().is_empty(), "{kind:?} must have a glyph");
        assert!(!kind.word().is_empty(), "{kind:?} must have a word");
    }
}

#[test]
fn every_word_classifies_back_to_its_kind() {
    for kind in [
        RelationshipKind::DependsOn,
        RelationshipKind::ReadsWrites,
        RelationshipKind::Uses,
        RelationshipKind::Publishes,
        RelationshipKind::RelatesTo,
    ] {
        assert_eq!(RelationshipKind::classify(kind.word()), kind);
    }
    assert_eq!(node_icon_path("trust-boundary"), "M12 3l7 3v5c0 5-3 8-7 10-4-2-7-5-7-10V6z");
    assert_eq!(node_type_label("external"), "External service");
}

#[test]
fn c4_levels_and_ranks_name_what_they_rank() {
    assert_eq!(c4_level_label("c4-context"), "Context");
    assert_eq!(c4_level_label("c4-container"), "Container");
    assert_eq!(c4_level_label("c4-component"), "Component");
    assert_eq!(c4_level_label("c4-code"), "Code");
    assert_eq!(c4_level_label("dataflow"), "View");
    assert_eq!(
        ["low", "high", "medium", "other"].map(sens_rank),
        [1, 3, 2, 0],
        "high sensitivity wins"
    );
    assert_eq!(["critical", "high", "medium", "low", ""].map(sev_rank), [4, 3, 2, 1, 0]);
}

fn levels(v: &[Option<&str>]) -> Vec<Option<String>> {
    v.iter().map(|l| l.map(|s| s.to_string())).collect()
}

#[test]
fn section_accent_takes_the_highest_sensitivity() {
    assert_eq!(peak_sensitivity(&levels(&[Some("low"), None, Some("high"), Some("medium")])), Some("high".to_string()));
    assert_eq!(peak_sensitivity(&levels(&[None, None])), None);
    assert_eq!(peak_sensitivity(&levels(&[])), None);
    // Unknown levels rank lowest; among equals the later one wins.
    assert_eq!(peak_sensitivity(&levels(&[Some("secret"), Some("other")])), Some("other".to_string()));
}

#[test]
fn section_accent_takes_the_highest_severity() {
    assert_eq!(
        peak_severity(&levels(&[Some("high"), Some("critical"), Some("low")])),
        Some("critical".to_string())
    );
    assert_eq!(peak_severity(&levels(&[Some("medium"), None])), Some("medium".to_string()));
    assert_eq!(peak_severity(&levels(&[None])), None);
}
