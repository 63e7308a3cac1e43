//! Glyphs and words for the diagram vocabulary: node-type icons and labels,
//! and the relationship kinds an edge label names.
use vstd::prelude::*;

use crate::text::str_eq;

verus! {

/// The SVG path of the icon for a node type; unknown types get the plain
/// node box.
pub open spec fn node_icon_spec(t: Seq<char>) -> Seq<char> {
    if t == "actor"@ {
        "M12 5a3 3 0 1 0 0.1 0 M12 8v9 M8 12h8 M9 21l3-4 3 4"@
    } else if t == "software-system"@ || t == "system"@ {
        "M4 6h16v12H4z M7 9h10 M7 13h10"@
    } else if t == "client"@ {
        "M4 5h16v11H4z M9 20h6 M12 16v4"@
    } else if t == "service"@ {
        "M5 5h14v14H5z M8 9h8 M8 13h8 M8 17h4"@
    } else if t == "worker"@ {
        "M12 7v-3 M12 20v-3 M7 12H4 M20 12h-3 M8.5 8.5L6.3 6.3 M17.7 17.7l-2.2-2.2 M15.5 8.5l2.2-2.2 M6.3 17.7l2.2-2.2 M9 12a3 3 0 1 0 6 0 3 3 0 0 0-6 0"@
    } else if t == "queue"@ {
        "M5 6h14 M5 12h14 M5 18h14 M8 4v4 M8 10v4 M8 16v4"@
    } else if t == "data-store"@ || t == "data"@ {
        "M6 6c0-2 12-2 12 0v12c0 2-12 2-12 0z M6 6c0 2 12 2 12 0 M6 12c0 2 12 2 12 0"@
    } else if t == "external-service"@ || t == "external"@ {
        "M12 3a9 9 0 1 0 0 18 9 9 0 0 0 0-18 M3 12h18 M12 3c3 3 3 15 0 18 M12 3c-3 3-3 15 0 18"@
    } else if t == "module"@ {
        "M4 7h16v12H4z M4 7l4-4h12v12l-4 4 M20 3v12"@
    } else if t == "deployment-unit"@ || t == "deployment"@ {
        "M4 8l8-4 8 4v8l-8 4-8-4z M4 8l8 4 8-4 M12 12v8"@
    } else if t == "trust-boundary"@ {
        "M12 3l7 3v5c0 5-3 8-7 10-4-2-7-5-7-10V6z"@
    } else {
        "M5 5h14v14H5z"@
    }
}

/// The display label for a node type: its authored word, or the type
/// itself when unknown.
pub open spec fn node_type_label_spec(t: Seq<char>) -> Seq<char> {
    if t == "actor"@ {
        "Actor"@
    } else if t == "software-system"@ || t == "system"@ {
        "Software system"@
    } else if t == "client"@ {
        "Client"@
    } else if t == "service"@ {
        "Service"@
    } else if t == "worker"@ {
        "Worker"@
    } else if t == "queue"@ {
        "Queue"@
    } else if t == "data-store"@ || t == "data"@ {
        "Data store"@
    } else if t == "external-service"@ || t == "external"@ {
        "External service"@
    } else if t == "module"@ {
        "Module"@
    } else if t == "deployment-unit"@ || t == "deployment"@ {
        "Deployment unit"@
    } else if t == "trust-boundary"@ {
        "Trust boundary"@
    } else {
        t
    }
}

/// The SVG path of the icon for a node type (the diagram's glyph for it).
pub fn node_icon_path(node_type: &str) -> (r: &'static str)
    ensures
        r@ == node_icon_spec(node_type@),
{
    if str_eq(node_type, "actor") {
        "M12 5a3 3 0 1 0 0.1 0 M12 8v9 M8 12h8 M9 21l3-4 3 4"
    } else if str_eq(node_type, "software-system") || str_eq(node_type, "system") {
        "M4 6h16v12H4z M7 9h10 M7 13h10"
    } else if str_eq(node_type, "client") {
        "M4 5h16v11H4z M9 20h6 M12 16v4"
    } else if str_eq(node_type, "service") {
        "M5 5h14v14H5z M8 9h8 M8 13h8 M8 17h4"
    } else if str_eq(node_type, "worker") {
        "M12 7v-3 M12 20v-3 M7 12H4 M20 12h-3 M8.5 8.5L6.3 6.3 M17.7 17.7l-2.2-2.2 M15.5 8.5l2.2-2.2 M6.3 17.7l2.2-2.2 M9 12a3 3 0 1 0 6 0 3 3 0 0 0-6 0"
    } else if str_eq(node_type, "queue") {
        "M5 6h14 M5 12h14 M5 18h14 M8 4v4 M8 10v4 M8 16v4"
    } else if str_eq(node_type, "data-store") || str_eq(node_type, "data") {
        "M6 6c0-2 12-2 12 0v12c0 2-12 2-12 0z M6 6c0 2 12 2 12 0 M6 12c0 2 12 2 12 0"
    } else if str_eq(node_type, "external-service") || str_eq(node_type, "external") {
        "M12 3a9 9 0 1 0 0 18 9 9 0 0 0 0-18 M3 12h18 M12 3c3 3 3 15 0 18 M12 3c-3 3-3 15 0 18"
    } else if str_eq(node_type, "module") {
        "M4 7h16v12H4z M4 7l4-4h12v12l-4 4 M20 3v12"
    } else if str_eq(node_type, "deployment-unit") || str_eq(node_type, "deployment") {
        "M4 8l8-4 8 4v8l-8 4-8-4z M4 8l8 4 8-4 M12 12v8"
    } else if str_eq(node_type, "trust-boundary") {
        "M12 3l7 3v5c0 5-3 8-7 10-4-2-7-5-7-10V6z"
    } else {
        "M5 5h14v14H5z"
    }
}

/// The display label for a node type.
pub fn node_type_label(node_type: &str) -> (r: String)
    ensures
        r@ == node_type_label_spec(node_type@),
{
    if str_eq(node_type, "actor") {
        "Actor".to_owned()
    } else if str_eq(node_type, "software-system") || str_eq(node_type, "system") {
        "Software system".to_owned()
    } else if str_eq(node_type, "client") {
        "Client".to_owned()
    } else if str_eq(node_type, "service") {
        "Service".to_owned()
    } else if str_eq(node_type, "worker") {
        "Worker".to_owned()
    } else if str_eq(node_type, "queue") {
        "Queue".to_owned()
    } else if str_eq(node_type, "data-store") || str_eq(node_type, "data") {
        "Data store".to_owned()
    } else if str_eq(node_type, "external-service") || str_eq(node_type, "external") {
        "External service".to_owned()
    } else if str_eq(node_type, "module") {
        "Module".to_owned()
    } else if str_eq(node_type, "deployment-unit") || str_eq(node_type, "deployment") {
        "Deployment unit".to_owned()
    } else if str_eq(node_type, "trust-boundary") {
        "Trust boundary".to_owned()
    } else {
        node_type.to_owned()
    }
}
/// What an edge between two nodes says about them, by its label.
#[derive(Debug, Clone, Copy, PartialEq, Eq, Hash, Structural)]
pub enum RelationshipKind {
    DependsOn,
    ReadsWrites,
    Uses,
    Publishes,
    RelatesTo,
}

/// The kind an edge label names; any other label is a dependency.
pub open spec fn classify_spec(label: Seq<char>) -> RelationshipKind {
    if label == "reads/writes"@ || label == "reads config"@ || label == "retrieves memory"@ {
        RelationshipKind::ReadsWrites
    } else if label == "publishes"@ {
        RelationshipKind::Publishes
    } else if label == "uses"@ || label == "uses provider"@ || label == "uses MCP/tools"@ || label
        == "uses skills/plugins"@ || label == "uses websocket/control"@ || label == "uses runtime"@
        || label == "uses channel"@ {
        RelationshipKind::Uses
    } else if label == "relates to"@ {
        RelationshipKind::RelatesTo
    } else {
        RelationshipKind::DependsOn
    }
}

impl RelationshipKind {
    pub open spec fn icon_path_spec(self) -> Seq<char> {
        match self {
            RelationshipKind::DependsOn => "M4 12h14 M14 7l5 5-5 5"@,
            RelationshipKind::ReadsWrites => "M9 4v16 M6 7l3-3 3 3 M15 4v16 M12 17l3 3 3-3"@,
            RelationshipKind::Uses => "M4 12h7 M8 9l3 3-3 3 M14 6h6v12h-6"@,
            RelationshipKind::Publishes => "M3 12h9 M9 9l3 3-3 3 M16 5v14 M20 5v14"@,
            RelationshipKind::RelatesTo => "M7 12a2.5 2.5 0 1 0 0 .01 M17 12a2.5 2.5 0 1 0 0 .01 M9.5 12h5"@,
        }
    }

    pub open spec fn word_spec(self) -> Seq<char> {
        match self {
            RelationshipKind::DependsOn => "depends on"@,
            RelationshipKind::ReadsWrites => "reads/writes"@,
            RelationshipKind::Uses => "uses"@,
            RelationshipKind::Publishes => "publishes"@,
            RelationshipKind::RelatesTo => "relates to"@,
        }
    }

    /// Classify an edge label into the kind it names.
    pub fn classify(label: &str) -> (r: Self)
        ensures
            r == classify_spec(label@),
    {
        if str_eq(label, "reads/writes") || str_eq(label, "reads config") || str_eq(
            label,
            "retrieves memory",
        ) {
            RelationshipKind::ReadsWrites
        } else if str_eq(label, "publishes") {
            RelationshipKind::Publishes
        } else if str_eq(label, "uses") || str_eq(label, "uses provider") || str_eq(
            label,
            "uses MCP/tools",
        ) || str_eq(label, "uses skills/plugins") || str_eq(label, "uses websocket/control")
            || str_eq(label, "uses runtime") || str_eq(label, "uses channel") {
            RelationshipKind::Uses
        } else if str_eq(label, "relates to") {
            RelationshipKind::RelatesTo
        } else {
            RelationshipKind::DependsOn
        }
    }

    /// The SVG path of the kind's glyph.
    pub fn icon_path(self) -> (r: &'static str)
        ensures
            r@ == self.icon_path_spec(),
    {
        match self {
            RelationshipKind::DependsOn => "M4 12h14 M14 7l5 5-5 5",
            RelationshipKind::ReadsWrites => "M9 4v16 M6 7l3-3 3 3 M15 4v16 M12 17l3 3 3-3",
            RelationshipKind::Uses => "M4 12h7 M8 9l3 3-3 3 M14 6h6v12h-6",
            RelationshipKind::Publishes => "M3 12h9 M9 9l3 3-3 3 M16 5v14 M20 5v14",
            RelationshipKind::RelatesTo => "M7 12a2.5 2.5 0 1 0 0 .01 M17 12a2.5 2.5 0 1 0 0 .01 M9.5 12h5",
        }
    }

    /// The kind in words.
    pub fn word(self) -> (r: &'static str)
        ensures
            r@ == self.word_spec(),
    {
        match self {
            RelationshipKind::DependsOn => "depends on",
            RelationshipKind::ReadsWrites => "reads/writes",
            RelationshipKind::Uses => "uses",
            RelationshipKind::Publishes => "publishes",
            RelationshipKind::RelatesTo => "relates to",
        }
    }
}

/// Round-trip law: a kind's own word classifies back to that kind.
pub proof fn lemma_word_classifies_to_its_kind(kind: RelationshipKind)
    ensures
        classify_spec(kind.word_spec()) == kind,
{
    reveal_strlit("depends on");
    reveal_strlit("reads/writes");
    reveal_strlit("reads config");
    reveal_strlit("retrieves memory");
    reveal_strlit("publishes");
    reveal_strlit("uses");
    reveal_strlit("uses provider");
    reveal_strlit("uses MCP/tools");
    reveal_strlit("uses skills/plugins");
    reveal_strlit("uses websocket/control");
    reveal_strlit("uses runtime");
    reveal_strlit("uses channel");
    reveal_strlit("relates to");
    match kind {
        RelationshipKind::DependsOn => {
            assert("depends on"@[0] != "reads/writes"@[0]);
            assert("depends on"@[0] != "reads config"@[0]);
            assert("depends on"@[0] != "retrieves memory"@[0]);
            assert("depends on"@[0] != "publishes"@[0]);
            assert("depends on"@[0] != "uses"@[0]);
            assert("depends on"@[0] != "uses provider"@[0]);
            assert("depends on"@[0] != "uses MCP/tools"@[0]);
            assert("depends on"@[0] != "uses skills/plugins"@[0]);
            assert("depends on"@[0] != "uses websocket/control"@[0]);
            assert("depends on"@[0] != "uses runtime"@[0]);
            assert("depends on"@[0] != "uses channel"@[0]);
            assert("depends on"@[0] != "relates to"@[0]);
        },
        RelationshipKind::ReadsWrites => {
        },
        RelationshipKind::Uses => {
            assert("uses"@[0] != "reads/writes"@[0]);
            assert("uses"@[0] != "reads config"@[0]);
            assert("uses"@[0] != "retrieves memory"@[0]);
            assert("uses"@[0] != "publishes"@[0]);
        },
        RelationshipKind::Publishes => {
            assert("publishes"@[0] != "reads/writes"@[0]);
            assert("publishes"@[0] != "reads config"@[0]);
            assert("publishes"@[0] != "retrieves memory"@[0]);
        },
        RelationshipKind::RelatesTo => {
            assert("relates to"@[2] != "reads/writes"@[2]);
            assert("relates to"@[2] != "reads config"@[2]);
            assert("relates to"@[2] != "retrieves memory"@[2]);
            assert("relates to"@[0] != "publishes"@[0]);
            assert("relates to"@[0] != "uses"@[0]);
            assert("relates to"@[0] != "uses provider"@[0]);
            assert("relates to"@[0] != "uses MCP/tools"@[0]);
            assert("relates to"@[0] != "uses skills/plugins"@[0]);
            assert("relates to"@[0] != "uses websocket/control"@[0]);
            assert("relates to"@[0] != "uses runtime"@[0]);
            assert("relates to"@[0] != "uses channel"@[0]);
        },
    }
}

/// The short C4 level name of a `c4-*` view type (`View` for any other).
pub open spec fn c4_level_spec(view_type: Seq<char>) -> Seq<char> {
    if view_type == "c4-context"@ {
        "Context"@
    } else if view_type == "c4-container"@ {
        "Container"@
    } else if view_type == "c4-component"@ {
        "Component"@
    } else if view_type == "c4-code"@ {
        "Code"@
    } else {
        "View"@
    }
}

/// The short C4 level name of a view type, for the breadcrumb.
pub fn c4_level_label(view_type: &str) -> (r: &'static str)
    ensures
        r@ == c4_level_spec(view_type@),
{
    if str_eq(view_type, "c4-context") {
        "Context"
    } else if str_eq(view_type, "c4-container") {
        "Container"
    } else if str_eq(view_type, "c4-component") {
        "Component"
    } else if str_eq(view_type, "c4-code") {
        "Code"
    } else {
        "View"
    }
}

/// The rank of a sensitivity level: high 3, medium 2, low 1, else 0.
pub open spec fn sens_rank_spec(level: Seq<char>) -> u8 {
    if level == "high"@ {
        3
    } else if level == "medium"@ {
        2
    } else if level == "low"@ {
        1
    } else {
        0
    }
}

/// The rank of a severity level: critical 4, high 3, medium 2, low 1, else 0.
pub open spec fn sev_rank_spec(level: Seq<char>) -> u8 {
    if level == "critical"@ {
        4
    } else if level == "high"@ {
        3
    } else if level == "medium"@ {
        2
    } else if level == "low"@ {
        1
    } else {
        0
    }
}

/// Ordinal rank for picking a section's headline sensitivity (high wins).
pub fn sens_rank(level: &str) -> (r: u8)
    ensures
        r == sens_rank_spec(level@),
{
    if str_eq(level, "high") {
        3
    } else if str_eq(level, "medium") {
        2
    } else if str_eq(level, "low") {
        1
    } else {
        0
    }
}

/// Ordinal rank for picking a section's headline severity (critical wins).
pub fn sev_rank(level: &str) -> (r: u8)
    ensures
        r == sev_rank_spec(level@),
{
    if str_eq(level, "critical") {
        4
    } else if str_eq(level, "high") {
        3
    } else if str_eq(level, "medium") {
        2
    } else if str_eq(level, "low") {
        1
    } else {
        0
    }
}


/// The highest-ranked level among the present ones, the later on ties;
/// `None` when no level is present.
pub open spec fn peak_by_sens(levels: Seq<Option<String>>) -> Option<Seq<char>>
    decreases levels.len(),
{
    if levels.len() == 0 {
        None
    } else {
        let p = peak_by_sens(levels.drop_last());
        match levels.last() {
            None => p,
            Some(l) => match p {
                None => Some(l@),
                Some(q) => if sens_rank_spec(l@) >= sens_rank_spec(q) {
                    Some(l@)
                } else {
                    p
                },
            },
        }
    }
}

/// The highest-ranked severity among the present ones, the later on ties;
/// `None` when no severity is present.
pub open spec fn peak_by_sev(levels: Seq<Option<String>>) -> Option<Seq<char>>
    decreases levels.len(),
{
    if levels.len() == 0 {
        None
    } else {
        let p = peak_by_sev(levels.drop_last());
        match levels.last() {
            None => p,
            Some(l) => match p {
                None => Some(l@),
                Some(q) => if sev_rank_spec(l@) >= sev_rank_spec(q) {
                    Some(l@)
                } else {
                    p
                },
            },
        }
    }
}

/// A section's headline sensitivity: the highest-ranked of the data
/// classes' sensitivities (the last of equals), for the section accent.
pub fn peak_sensitivity(levels: &Vec<Option<String>>) -> (r: Option<String>)
    ensures
        match r {
            Some(l) => peak_by_sens(levels@) == Some(l@),
            None => peak_by_sens(levels@) is None,
        },
{
    let mut best: Option<String> = None;
    let mut best_rank: u8 = 0;
    let mut i: usize = 0;
    while i < levels.len()
        invariant
            i <= levels@.len(),
            match best {
                Some(l) => peak_by_sens(levels@.subrange(0, i as int)) == Some(l@) && best_rank
                    == sens_rank_spec(l@),
                None => peak_by_sens(levels@.subrange(0, i as int)) is None,
            },
        decreases levels@.len() - i,
    {
        proof {
            assert(levels@.subrange(0, i + 1).drop_last() =~= levels@.subrange(0, i as int));
            assert(levels@.subrange(0, i + 1).last() == levels@[i as int]);
        }
        match &levels[i] {
            Some(l) => {
                let rank = sens_rank(l.as_str());
                let take = match &best {
                    None => true,
                    Some(_) => rank >= best_rank,
                };
                if take {
                    best = Some(l.clone());
                    best_rank = rank;
                }
            },
            None => {},
        }
        i += 1;
    }
    proof {
        assert(levels@.subrange(0, levels@.len() as int) =~= levels@);
    }
    best
}

/// A section's headline severity: the highest-ranked of the risks'
/// severities (the last of equals), for the section accent.
pub fn peak_severity(levels: &Vec<Option<String>>) -> (r: Option<String>)
    ensures
        match r {
            Some(l) => peak_by_sev(levels@) == Some(l@),
            None => peak_by_sev(levels@) is None,
        },
{
    let mut best: Option<String> = None;
    let mut best_rank: u8 = 0;
    let mut i: usize = 0;
    while i < levels.len()
        invariant
            i <= levels@.len(),
            match best {
                Some(l) => peak_by_sev(levels@.subrange(0, i as int)) == Some(l@) && best_rank
                    == sev_rank_spec(l@),
                None => peak_by_sev(levels@.subrange(0, i as int)) is None,
            },
        decreases levels@.len() - i,
    {
        proof {
            assert(levels@.subrange(0, i + 1).drop_last() =~= levels@.subrange(0, i as int));
            assert(levels@.subrange(0, i + 1).last() == levels@[i as int]);
        }
        match &levels[i] {
            Some(l) => {
                let rank = sev_rank(l.as_str());
                let take = match &best {
                    None => true,
                    Some(_) => rank >= best_rank,
                };
                if take {
                    best = Some(l.clone());
                    best_rank = rank;
                }
            },
            None => {},
        }
        i += 1;
    }
    proof {
        assert(levels@.subrange(0, levels@.len() as int) =~= levels@);
    }
    best
}

} // verus!
