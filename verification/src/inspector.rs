//! What the inspector shows for a selection: a node's relationships derived
//! from the dataset, and the display facts of a code-graph module.
use vstd::prelude::*;

use crate::blast_radius::view_shows;
use crate::graph::{format_signature, reach_badges, reach_badges_spec, signature_text, Reach};
use crate::models::{CodeGraphFunction, CodeGraphModule, DataClass, DiagramView, Node};
use crate::text::{decimal, decimal_spec};
use crate::view_model::Tier;
use crate::text::{contains_text, names_id};

verus! {

/// A selected node's relationships and cross-references, by name.
#[derive(Debug, Clone, PartialEq, Eq, Default)]
pub struct NodeRelations {
    /// The nodes this node lists in its `dependencies` (outgoing edges).
    pub depends_on: Vec<String>,
    /// The nodes whose `dependencies` name this node (incoming edges).
    pub used_by: Vec<String>,
    /// The data classes it handles: the class name for a known id, else the
    /// raw id.
    pub data_handled: Vec<String>,
    /// The views whose lanes include it.
    pub appears_in: Vec<String>,
}

/// The position of the first node carrying `id`.
pub open spec fn first_node(nodes: Seq<Node>, id: Seq<char>) -> Option<int>
    decreases nodes.len(),
{
    if nodes.len() == 0 {
        None
    } else {
        match first_node(nodes.drop_last(), id) {
            Some(i) => Some(i),
            None => if nodes.last().id@ == id {
                Some(nodes.len() - 1)
            } else {
                None
            },
        }
    }
}

/// The display name of a node id: the first node carrying it, else the id.
pub open spec fn node_name_spec(nodes: Seq<Node>, id: Seq<char>) -> Seq<char> {
    match first_node(nodes, id) {
        Some(i) => nodes[i].name@,
        None => id,
    }
}

/// The position of the first data class carrying `id`.
pub open spec fn first_class(classes: Seq<DataClass>, id: Seq<char>) -> Option<int>
    decreases classes.len(),
{
    if classes.len() == 0 {
        None
    } else {
        match first_class(classes.drop_last(), id) {
            Some(i) => Some(i),
            None => if classes.last().id@ == id {
                Some(classes.len() - 1)
            } else {
                None
            },
        }
    }
}

/// The display name of a data-class id: the first class carrying it, else
/// the raw id.
pub open spec fn class_name_spec(classes: Seq<DataClass>, id: Seq<char>) -> Seq<char> {
    match first_class(classes, id) {
        Some(i) => classes[i].name@,
        None => id,
    }
}

/// The names of the nodes (of `scan`) other than `focus` that depend on it.
pub open spec fn used_by_spec(scan: Seq<Node>, focus: Node) -> Seq<Seq<char>>
    decreases scan.len(),
{
    if scan.len() == 0 {
        seq![]
    } else {
        let rest = used_by_spec(scan.drop_last(), focus);
        let n = scan.last();
        if n.id@ != focus.id@ && names_id(n.dependencies@, focus.id@) {
            rest.push(n.name@)
        } else {
            rest
        }
    }
}

/// The names of the views (of `scan`) with a lane that includes `focus`.
pub open spec fn appears_in_spec(scan: Seq<DiagramView>, focus: Seq<char>) -> Seq<Seq<char>>
    decreases scan.len(),
{
    if scan.len() == 0 {
        seq![]
    } else {
        let rest = appears_in_spec(scan.drop_last(), focus);
        if view_shows(scan.last(), focus) {
            rest.push(scan.last().name@)
        } else {
            rest
        }
    }
}

/// The relationships of `node`: its dependencies by name, the nodes that
/// depend on it, its data classes by name, and the views that show it.
pub open spec fn relations_spec(
    nodes: Seq<Node>,
    views: Seq<DiagramView>,
    classes: Seq<DataClass>,
    node: Node,
) -> (Seq<Seq<char>>, Seq<Seq<char>>, Seq<Seq<char>>, Seq<Seq<char>>) {
    (
        node.dependencies@.map_values(|d: String| node_name_spec(nodes, d@)),
        used_by_spec(nodes, node),
        node.data_handled@.map_values(|d: String| class_name_spec(classes, d@)),
        appears_in_spec(views, node.id@),
    )
}

/// The relations as plain values.
pub open spec fn relations_view(r: NodeRelations) -> (
    Seq<Seq<char>>,
    Seq<Seq<char>>,
    Seq<Seq<char>>,
    Seq<Seq<char>>,
) {
    (
        crate::text::texts(r.depends_on@),
        crate::text::texts(r.used_by@),
        crate::text::texts(r.data_handled@),
        crate::text::texts(r.appears_in@),
    )
}

/// The display name of a node id.
pub fn node_name(nodes: &[Node], id: &str) -> (r: String)
    ensures
        r@ == node_name_spec(nodes@, id@),
{
    let mut i: usize = 0;
    while i < nodes.len()
        invariant
            i <= nodes@.len(),
            first_node(nodes@.subrange(0, i as int), id@) is None,
        decreases nodes@.len() - i,
    {
        proof {
            let s1 = nodes@.subrange(0, i + 1);
            assert(s1.drop_last() =~= nodes@.subrange(0, i as int));
            assert(s1.last() == nodes@[i as int]);
        }
        if crate::text::str_eq(nodes[i].id.as_str(), id) {
            proof {
                lemma_first_node_prefix(nodes@, id@, i as int + 1);
            }
            return nodes[i].name.clone();
        }
        i += 1;
    }
    proof {
        assert(nodes@.subrange(0, nodes@.len() as int) =~= nodes@);
    }
    id.to_owned()
}

proof fn lemma_first_node_prefix(nodes: Seq<Node>, id: Seq<char>, p: int)
    requires
        0 <= p <= nodes.len(),
        first_node(nodes.subrange(0, p), id) is Some,
    ensures
        first_node(nodes, id) == first_node(nodes.subrange(0, p), id),
    decreases nodes.len() - p,
{
    if p < nodes.len() {
        let s1 = nodes.subrange(0, p + 1);
        assert(s1.drop_last() =~= nodes.subrange(0, p));
        lemma_first_node_prefix(nodes, id, p + 1);
    } else {
        assert(nodes.subrange(0, p) =~= nodes);
    }
}

/// The display name of a data-class id.
fn class_name(classes: &[DataClass], id: &str) -> (r: String)
    ensures
        r@ == class_name_spec(classes@, id@),
{
    let mut i: usize = 0;
    while i < classes.len()
        invariant
            i <= classes@.len(),
            first_class(classes@.subrange(0, i as int), id@) is None,
        decreases classes@.len() - i,
    {
        proof {
            let s1 = classes@.subrange(0, i + 1);
            assert(s1.drop_last() =~= classes@.subrange(0, i as int));
            assert(s1.last() == classes@[i as int]);
        }
        if crate::text::str_eq(classes[i].id.as_str(), id) {
            proof {
                lemma_first_class_prefix(classes@, id@, i as int + 1);
            }
            return classes[i].name.clone();
        }
        i += 1;
    }
    proof {
        assert(classes@.subrange(0, classes@.len() as int) =~= classes@);
    }
    id.to_owned()
}

proof fn lemma_first_class_prefix(classes: Seq<DataClass>, id: Seq<char>, p: int)
    requires
        0 <= p <= classes.len(),
        first_class(classes.subrange(0, p), id) is Some,
    ensures
        first_class(classes, id) == first_class(classes.subrange(0, p), id),
    decreases classes.len() - p,
{
    if p < classes.len() {
        let s1 = classes.subrange(0, p + 1);
        assert(s1.drop_last() =~= classes.subrange(0, p));
        lemma_first_class_prefix(classes, id, p + 1);
    } else {
        assert(classes.subrange(0, p) =~= classes);
    }
}

/// Derive a node's relationships from the dataset: `depends_on` follows its
/// own `dependencies`, `used_by` is the reverse edge set, `data_handled`
/// resolves class ids to names, `appears_in` lists the views whose lanes
/// contain it.
pub fn derive_node_relations(
    nodes: &[Node],
    views: &[DiagramView],
    data_classes: &[DataClass],
    node: &Node,
) -> (r: NodeRelations)
    ensures
        relations_view(r) == relations_spec(nodes@, views@, data_classes@, *node),
{
    let ghost deps = node.dependencies@.map_values(|d: String| node_name_spec(nodes@, d@));
    let mut depends_on: Vec<String> = Vec::new();
    let mut i: usize = 0;
    while i < node.dependencies.len()
        invariant
            i <= node.dependencies@.len(),
            deps == node.dependencies@.map_values(|d: String| node_name_spec(nodes@, d@)),
            crate::text::texts(depends_on@) == deps.subrange(0, i as int),
        decreases node.dependencies@.len() - i,
    {
        let ghost before = depends_on@;
        depends_on.push(node_name(nodes, node.dependencies[i].as_str()));
        proof {
            assert(crate::text::texts(depends_on@) =~= crate::text::texts(before).push(deps[i as int]));
            assert(crate::text::texts(depends_on@) =~= deps.subrange(0, i + 1));
        }
        i += 1;
    }
    proof {
        assert(deps.subrange(0, deps.len() as int) =~= deps);
    }
    let mut used_by: Vec<String> = Vec::new();
    let mut j: usize = 0;
    while j < nodes.len()
        invariant
            j <= nodes@.len(),
            crate::text::texts(used_by@) == used_by_spec(nodes@.subrange(0, j as int), *node),
        decreases nodes@.len() - j,
    {
        proof {
            let s1 = nodes@.subrange(0, j + 1);
            assert(s1.drop_last() =~= nodes@.subrange(0, j as int));
            assert(s1.last() == nodes@[j as int]);
        }
        let n = &nodes[j];
        if !crate::text::str_eq(n.id.as_str(), node.id.as_str()) && contains_text(
            &n.dependencies,
            node.id.as_str(),
        ) {
            let ghost before = used_by@;
            used_by.push(n.name.clone());
            proof {
                assert(crate::text::texts(used_by@) =~= crate::text::texts(before).push(n.name@));
            }
        }
        j += 1;
    }
    proof {
        assert(nodes@.subrange(0, nodes@.len() as int) =~= nodes@);
    }
    let ghost dh = node.data_handled@.map_values(|d: String| class_name_spec(data_classes@, d@));
    let mut data_handled: Vec<String> = Vec::new();
    let mut k: usize = 0;
    while k < node.data_handled.len()
        invariant
            k <= node.data_handled@.len(),
            dh == node.data_handled@.map_values(|d: String| class_name_spec(data_classes@, d@)),
            crate::text::texts(data_handled@) == dh.subrange(0, k as int),
        decreases node.data_handled@.len() - k,
    {
        let ghost before = data_handled@;
        data_handled.push(class_name(data_classes, node.data_handled[k].as_str()));
        proof {
            assert(crate::text::texts(data_handled@) =~= crate::text::texts(before).push(dh[k as int]));
            assert(crate::text::texts(data_handled@) =~= dh.subrange(0, k + 1));
        }
        k += 1;
    }
    proof {
        assert(dh.subrange(0, dh.len() as int) =~= dh);
    }
    let mut appears_in: Vec<String> = Vec::new();
    let mut v: usize = 0;
    while v < views.len()
        invariant
            v <= views@.len(),
            crate::text::texts(appears_in@) == appears_in_spec(views@.subrange(0, v as int), node.id@),
        decreases views@.len() - v,
    {
        proof {
            let s1 = views@.subrange(0, v + 1);
            assert(s1.drop_last() =~= views@.subrange(0, v as int));
            assert(s1.last() == views@[v as int]);
        }
        if crate::blast_radius::shows(&views[v], node.id.as_str()) {
            let ghost before = appears_in@;
            appears_in.push(views[v].name.clone());
            proof {
                assert(crate::text::texts(appears_in@) =~= crate::text::texts(before).push(views@[v as int].name@));
            }
        }
        v += 1;
    }
    proof {
        assert(views@.subrange(0, views@.len() as int) =~= views@);
    }
    NodeRelations { depends_on, used_by, data_handled, appears_in }
}

/// Reverse-edge law: a node that lists another in its dependencies is among
/// that node's users, and every user of a node lists it.
pub proof fn lemma_used_by_mirrors_dependencies(nodes: Seq<Node>, a: int, focus: Node)
    requires
        0 <= a < nodes.len(),
    ensures
        nodes[a].id@ != focus.id@ && names_id(nodes[a].dependencies@, focus.id@) ==> used_by_spec(
            nodes,
            focus,
        ).contains(nodes[a].name@),
        forall|k: int|
            0 <= k < used_by_spec(nodes, focus).len() ==> exists|j: int|
                0 <= j < nodes.len() && nodes[j].id@ != focus.id@ && names_id(
                    nodes[j].dependencies@,
                    focus.id@,
                ) && (#[trigger] used_by_spec(nodes, focus)[k]) == nodes[j].name@,
    decreases nodes.len(),
{
    let pre = nodes.drop_last();
    let u = used_by_spec(nodes, focus);
    let up = used_by_spec(pre, focus);
    if a < nodes.len() - 1 {
        lemma_used_by_mirrors_dependencies(pre, a, focus);
        assert(pre[a] == nodes[a]);
        if nodes[a].id@ != focus.id@ && names_id(nodes[a].dependencies@, focus.id@) {
            let k = choose|k: int| 0 <= k < up.len() && up[k] == nodes[a].name@;
            assert(u[k] == up[k]);
        }
    } else {
        if nodes[a].id@ != focus.id@ && names_id(nodes[a].dependencies@, focus.id@) {
            assert(u[up.len() as int] == nodes[a].name@);
        }
        if pre.len() > 0 {
            lemma_used_by_mirrors_dependencies(pre, 0, focus);
        }
    }
    assert forall|k: int| 0 <= k < u.len() implies exists|j: int|
        0 <= j < nodes.len() && nodes[j].id@ != focus.id@ && names_id(nodes[j].dependencies@, focus.id@)
            && (#[trigger] u[k]) == nodes[j].name@ by {
        if k < up.len() {
            assert(u[k] == up[k]);
            let j = choose|j: int|
                0 <= j < pre.len() && pre[j].id@ != focus.id@ && names_id(pre[j].dependencies@, focus.id@)
                    && up[k] == pre[j].name@;
            assert(pre[j] == nodes[j]);
        } else {
            let j = nodes.len() - 1;
            assert(nodes[j] == nodes.last());
        }
    }
}

/// The display facts of a selected code-graph function: symbol, Go-style
/// signature, `file:line`, fan, doc, and the candidate reachability badges,
/// which are exactly what `reach_badges` gives, neither filtered nor relabelled.
#[derive(Debug, Clone, PartialEq, Eq)]
pub struct CodeGraphFunctionDetail {
    pub symbol: String,
    pub signature: String,
    pub location: String,
    pub fan_in: u32,
    pub fan_out: u32,
    pub doc: Option<String>,
    pub badges: Vec<Reach>,
}

/// `file:line`.
pub open spec fn location_text(file: Seq<char>, line: nat) -> Seq<char> {
    file + ":"@ + decimal_spec(line)
}

pub fn code_graph_function_detail(f: &CodeGraphFunction) -> (d: CodeGraphFunctionDetail)
    ensures
        d.symbol@ == f.symbol@,
        d.signature@ == signature_text(f.signature),
        d.location@ == location_text(f.file@, f.line as nat),
        d.fan_in == f.fan_in,
        d.fan_out == f.fan_out,
        d.doc is Some <==> f.doc is Some,
        d.doc is Some ==> d.doc->0@ == f.doc->0@,
        d.badges@ == reach_badges_spec(*f),
{
    let mut location = f.file.clone();
    location.append(":");
    let line = decimal(f.line as u64);
    location.append(line.as_str());
    proof {
        reveal_strlit(":");
    }
    let doc = match &f.doc {
        Some(t) => Some(t.clone()),
        None => None,
    };
    CodeGraphFunctionDetail {
        symbol: f.symbol.clone(),
        signature: format_signature(&f.signature),
        location,
        fan_in: f.fan_in,
        fan_out: f.fan_out,
        doc,
        badges: reach_badges(f),
    }
}

/// The display facts of a selected code-graph module: its package, fan, and
/// the contract's function counts (dead and test-only as candidates).
#[derive(Debug, Clone, PartialEq, Eq)]
pub struct CodeGraphModuleDetail {
    pub pkg: String,
    pub fan_in: u32,
    pub fan_out: u32,
    pub functions: u32,
    pub dead_candidates: u32,
    pub test_only_candidates: u32,
}

pub fn code_graph_module_detail(m: &CodeGraphModule) -> (d: CodeGraphModuleDetail)
    ensures
        d.pkg@ == m.pkg@,
        d.fan_in == m.fan_in,
        d.fan_out == m.fan_out,
        d.functions == m.counts.functions,
        d.dead_candidates == m.counts.dead,
        d.test_only_candidates == m.counts.test_only,
{
    CodeGraphModuleDetail {
        pkg: m.pkg.clone(),
        fan_in: m.fan_in,
        fan_out: m.fan_out,
        functions: m.counts.functions,
        dead_candidates: m.counts.dead,
        test_only_candidates: m.counts.test_only,
    }
}


/// The modes whose inspector differs from the view card.
#[derive(Debug, Clone, Copy, PartialEq, Eq, Structural)]
pub enum InspectorMode {
    CodeGraph,
    DataRisks,
    ReleaseTruth,
    Rules,
    /// Any other mode: the diagram modes.
    Other,
}

/// Which card the inspector shows.
#[derive(Debug, Clone, Copy, PartialEq, Eq, Structural)]
pub enum InspectorCard {
    /// The selected diagram node with its relationships.
    Node,
    /// The selected code-graph function.
    Function,
    /// The selected code-graph module.
    Module,
    /// The data-class and risk panel.
    DataRisks,
    /// The selected release-path item.
    ReleaseItem,
    /// The mode's own set, counted.
    Summary,
    /// The current view and flow.
    View,
}

pub open spec fn inspector_card_spec(
    mode: InspectorMode,
    node_found: bool,
    code_graph_found: Option<Tier>,
    release_item_found: bool,
) -> InspectorCard {
    if node_found {
        InspectorCard::Node
    } else if mode == InspectorMode::CodeGraph && code_graph_found == Some(Tier::Functions) {
        InspectorCard::Function
    } else if mode == InspectorMode::CodeGraph && code_graph_found == Some(Tier::Modules) {
        InspectorCard::Module
    } else if mode == InspectorMode::DataRisks {
        InspectorCard::DataRisks
    } else if mode == InspectorMode::ReleaseTruth && release_item_found {
        InspectorCard::ReleaseItem
    } else if mode == InspectorMode::Rules || mode == InspectorMode::CodeGraph || mode
        == InspectorMode::ReleaseTruth {
        InspectorCard::Summary
    } else {
        InspectorCard::View
    }
}

/// The card the inspector shows. A selected diagram node that resolves wins
/// in every mode; then, in the code-graph mode, a code-graph selection that
/// resolves in its tier (`code_graph_found` names that tier); the data and
/// risks mode shows its panel; the release mode a release item that
/// resolves; the rules, code-graph and release modes otherwise summarise
/// their set; every other mode shows the view card.
pub fn inspector_card(
    mode: InspectorMode,
    node_found: bool,
    code_graph_found: Option<Tier>,
    release_item_found: bool,
) -> (r: InspectorCard)
    ensures
        r == inspector_card_spec(mode, node_found, code_graph_found, release_item_found),
{
    if node_found {
        return InspectorCard::Node;
    }
    if mode == InspectorMode::CodeGraph {
        match code_graph_found {
            Some(Tier::Functions) => return InspectorCard::Function,
            Some(Tier::Modules) => return InspectorCard::Module,
            None => {},
        }
    }
    match mode {
        InspectorMode::DataRisks => InspectorCard::DataRisks,
        InspectorMode::ReleaseTruth => if release_item_found {
            InspectorCard::ReleaseItem
        } else {
            InspectorCard::Summary
        },
        InspectorMode::Rules => InspectorCard::Summary,
        InspectorMode::CodeGraph => InspectorCard::Summary,
        InspectorMode::Other => InspectorCard::View,
    }
}


proof fn lemma_appears_in_members(scan: Seq<DiagramView>, focus: Seq<char>)
    ensures
        forall|j: int, k: int|
            #![trigger scan[j].lanes@[k]]
            0 <= j < scan.len() && 0 <= k < scan[j].lanes@.len() && names_id(scan[j].lanes@[k].node_ids@, focus)
                ==> appears_in_spec(scan, focus).contains(scan[j].name@),
        forall|x: Seq<char>|
            #[trigger] appears_in_spec(scan, focus).contains(x) ==> exists|j: int, k: int|
                #![trigger scan[j].lanes@[k]]
                0 <= j < scan.len() && 0 <= k < scan[j].lanes@.len() && names_id(scan[j].lanes@[k].node_ids@, focus)
                    && x == scan[j].name@,
    decreases scan.len(),
{
    if scan.len() > 0 {
        let pre = scan.drop_last();
        lemma_appears_in_members(pre, focus);
        let rest = appears_in_spec(pre, focus);
        let d = appears_in_spec(scan, focus);
        let last = scan.len() - 1;
        assert(scan[last] == scan.last());
        assert forall|j: int, k: int|
            #![trigger scan[j].lanes@[k]]
            0 <= j < scan.len() && 0 <= k < scan[j].lanes@.len() && names_id(scan[j].lanes@[k].node_ids@, focus)
                implies d.contains(scan[j].name@) by {
            if j < last {
                assert(pre[j] == scan[j]);
                assert(pre[j].lanes@[k] == scan[j].lanes@[k]);
                let p = choose|p: int| 0 <= p < rest.len() && rest[p] == pre[j].name@;
                assert(d[p] == rest[p]);
            } else {
                assert(view_shows(scan.last(), focus));
                assert(d[rest.len() as int] == scan[j].name@);
            }
        }
        assert forall|x: Seq<char>| #[trigger] d.contains(x) implies exists|j: int, k: int|
            #![trigger scan[j].lanes@[k]]
            0 <= j < scan.len() && 0 <= k < scan[j].lanes@.len() && names_id(scan[j].lanes@[k].node_ids@, focus)
                && x == scan[j].name@ by {
            let p = choose|p: int| 0 <= p < d.len() && d[p] == x;
            if p < rest.len() {
                assert(d[p] == rest[p]);
                assert(rest.contains(x));
                let (j, k) = choose|j: int, k: int|
                    #![trigger pre[j].lanes@[k]]
                    0 <= j < pre.len() && 0 <= k < pre[j].lanes@.len() && names_id(pre[j].lanes@[k].node_ids@, focus)
                        && x == pre[j].name@;
                assert(pre[j] == scan[j]);
                assert(scan[j].lanes@[k] == pre[j].lanes@[k]);
            } else {
                let v = scan.last();
                let k = choose|k: int| 0 <= k < v.lanes@.len() && names_id((#[trigger] v.lanes@[k]).node_ids@, focus);
                assert(scan[last].lanes@[k] == v.lanes@[k]);
                assert(d[p] == scan[last].name@);
            }
        }
    }
}

/// Relations law: the node "appears in" exactly the views with some lane
/// (any lane) whose node ids name it, listed by view name.
pub proof fn lemma_appears_in_views_naming_node(
    r: NodeRelations,
    nodes: Seq<Node>,
    views: Seq<DiagramView>,
    classes: Seq<DataClass>,
    node: Node,
)
    requires
        relations_view(r) == relations_spec(nodes, views, classes, node),
    ensures
        forall|j: int, k: int|
            #![trigger views[j].lanes@[k]]
            0 <= j < views.len() && 0 <= k < views[j].lanes@.len() && names_id(views[j].lanes@[k].node_ids@, node.id@)
                ==> crate::text::texts(r.appears_in@).contains(views[j].name@),
        forall|x: Seq<char>|
            #[trigger] crate::text::texts(r.appears_in@).contains(x) ==> exists|j: int, k: int|
                #![trigger views[j].lanes@[k]]
                0 <= j < views.len() && 0 <= k < views[j].lanes@.len() && names_id(
                    views[j].lanes@[k].node_ids@,
                    node.id@,
                ) && x == views[j].name@,
{
    assert(crate::text::texts(r.appears_in@) == appears_in_spec(views, node.id@));
    lemma_appears_in_members(views, node.id@);
}

} // verus!
