//! Blast Radius: everything a single architecture node reaches.
//!
//! For a focused node: the files it owns (longest `sourcePaths` prefix), what
//! it depends on, what depends on it, and the flows / decisions / risks / data
//! classes / views it participates in. Participation is the UNION of the
//! node's declared cross-references and the derived links, in first-seen
//! order, declared ids first.
use vstd::prelude::*;

use crate::models::{DataClass, Decision, DiagramView, FileEntry, Flow, Node, Risk};
use crate::text::{
    chars_of, dedup_first, lemma_concat_contains, lemma_concat_push, lemma_dedup_first,
    lemma_dedup_push, names_id, str_eq,
};

verus! {

// ─── result types ──────────────────────────────────────────────────────────

/// A reference to a node: `name` falls back to the id and `node_type` to
/// `"unknown"` for a dangling id.
#[derive(Debug, Clone, PartialEq, Eq)]
pub struct NodeRef {
    pub id: String,
    pub name: String,
    pub node_type: String,
}

/// A repo file the focused node owns.
#[derive(Debug, Clone, PartialEq, Eq)]
pub struct OwnedFile {
    pub path: String,
    pub size: Option<u64>,
}

/// A flow the node appears in (id + display name).
#[derive(Debug, Clone, PartialEq, Eq)]
pub struct NamedRef {
    pub id: String,
    pub name: String,
}

/// A view the node appears in.
#[derive(Debug, Clone, PartialEq, Eq)]
pub struct ViewRef {
    pub id: String,
    pub name: String,
    pub view_type: String,
}

/// A data class the node handles (with its sensitivity).
#[derive(Debug, Clone, PartialEq, Eq)]
pub struct DataRef {
    pub id: String,
    pub name: String,
    pub sensitivity: Option<String>,
}

/// A risk referencing the node (with its severity).
#[derive(Debug, Clone, PartialEq, Eq)]
pub struct RiskRef {
    pub id: String,
    pub title: String,
    pub severity: Option<String>,
}

/// A decision referencing the node.
#[derive(Debug, Clone, PartialEq, Eq)]
pub struct DecisionRef {
    pub id: String,
    pub title: String,
}

/// The full reach of one focused node.
#[derive(Debug, Clone, PartialEq, Eq)]
pub struct BlastRadius {
    pub node: NodeRef,
    pub owned_files: Vec<OwnedFile>,
    pub declared_paths: Vec<String>,
    pub depends_on: Vec<NodeRef>,
    pub dependents: Vec<NodeRef>,
    pub flows: Vec<NamedRef>,
    pub decisions: Vec<DecisionRef>,
    pub risks: Vec<RiskRef>,
    pub data_handled: Vec<DataRef>,
    pub views: Vec<ViewRef>,
}

/// The dataset slices the blast-radius compute reads. `files` is the live
/// repo file list (empty when it has not been fetched yet).
pub struct BlastInputs<'a> {
    pub nodes: &'a [Node],
    pub flows: &'a [Flow],
    pub decisions: &'a [Decision],
    pub risks: &'a [Risk],
    pub data_classes: &'a [DataClass],
    pub views: &'a [DiagramView],
    pub files: &'a [FileEntry],
}

/// An optional text, by its characters.
pub open spec fn opt_text(o: Option<String>) -> Option<Seq<char>> {
    match o {
        Some(s) => Some(s@),
        None => None,
    }
}

/// A sequence of strings, by their characters.
pub open spec fn texts(v: Seq<String>) -> Seq<Seq<char>> {
    v.map_values(|s: String| s@)
}

impl View for NodeRef {
    type V = (Seq<char>, Seq<char>, Seq<char>);

    open spec fn view(&self) -> (Seq<char>, Seq<char>, Seq<char>) {
        (self.id@, self.name@, self.node_type@)
    }
}

impl View for OwnedFile {
    type V = (Seq<char>, Option<u64>);

    open spec fn view(&self) -> (Seq<char>, Option<u64>) {
        (self.path@, self.size)
    }
}

impl View for NamedRef {
    type V = (Seq<char>, Seq<char>);

    open spec fn view(&self) -> (Seq<char>, Seq<char>) {
        (self.id@, self.name@)
    }
}

impl View for ViewRef {
    type V = (Seq<char>, Seq<char>, Seq<char>);

    open spec fn view(&self) -> (Seq<char>, Seq<char>, Seq<char>) {
        (self.id@, self.name@, self.view_type@)
    }
}

impl View for DataRef {
    type V = (Seq<char>, Seq<char>, Option<Seq<char>>);

    open spec fn view(&self) -> (Seq<char>, Seq<char>, Option<Seq<char>>) {
        (self.id@, self.name@, opt_text(self.sensitivity))
    }
}

impl View for RiskRef {
    type V = (Seq<char>, Seq<char>, Option<Seq<char>>);

    open spec fn view(&self) -> (Seq<char>, Seq<char>, Option<Seq<char>>) {
        (self.id@, self.title@, opt_text(self.severity))
    }
}

impl View for DecisionRef {
    type V = (Seq<char>, Seq<char>);

    open spec fn view(&self) -> (Seq<char>, Seq<char>) {
        (self.id@, self.title@)
    }
}

// ─── node references ───────────────────────────────────────────────────────

/// The index of the LAST node carrying `id` (the id index maps an id to the
/// last node that declares it).
pub open spec fn node_index(nodes: Seq<Node>, id: Seq<char>) -> Option<int>
    decreases nodes.len(),
{
    if nodes.len() == 0 {
        None
    } else if nodes.last().id@ == id {
        Some(nodes.len() - 1)
    } else {
        node_index(nodes.drop_last(), id)
    }
}

/// The reference for `id`: name and type of the node carrying it, or the id
/// itself and `"unknown"` for a dangling id.
pub open spec fn node_ref_spec(id: Seq<char>, nodes: Seq<Node>) -> (Seq<char>, Seq<char>, Seq<char>) {
    match node_index(nodes, id) {
        Some(i) => (id, nodes[i].name@, nodes[i].node_type@),
        None => (id, id, "unknown"@),
    }
}

proof fn lemma_node_index_bounds(nodes: Seq<Node>, id: Seq<char>)
    ensures
        node_index(nodes, id) matches Some(i) ==> 0 <= i < nodes.len() && nodes[i].id@ == id,
    decreases nodes.len(),
{
    if nodes.len() > 0 {
        lemma_node_index_bounds(nodes.drop_last(), id);
    }
}

/// The position of the last node carrying `id`.
fn find_node(nodes: &[Node], id: &str) -> (r: Option<usize>)
    ensures
        match r {
            Some(i) => node_index(nodes@, id@) == Some(i as int),
            None => node_index(nodes@, id@) is None,
        },
{
    let mut found: Option<usize> = None;
    let mut i: usize = 0;
    while i < nodes.len()
        invariant
            i <= nodes@.len(),
            match found {
                Some(k) => node_index(nodes@.subrange(0, i as int), id@) == Some(k as int),
                None => node_index(nodes@.subrange(0, i as int), id@) is None,
            },
        decreases nodes@.len() - i,
    {
        proof {
            assert(nodes@.subrange(0, i + 1).drop_last() =~= nodes@.subrange(0, i as int));
            assert(nodes@.subrange(0, i + 1).last() == nodes@[i as int]);
        }
        if str_eq(nodes[i].id.as_str(), id) {
            found = Some(i);
        }
        i += 1;
    }
    proof {
        assert(nodes@.subrange(0, nodes@.len() as int) =~= nodes@);
    }
    found
}

/// Resolve a node id to a `NodeRef`, falling back to id/"unknown" for a
/// dangling id.
fn node_ref(id: &str, nodes: &[Node]) -> (r: NodeRef)
    ensures
        r@ == node_ref_spec(id@, nodes@),
{
    proof {
        lemma_node_index_bounds(nodes@, id@);
    }
    match find_node(nodes, id) {
        Some(i) => NodeRef {
            id: id.to_owned(),
            name: nodes[i].name.clone(),
            node_type: nodes[i].node_type.clone(),
        },
        None => NodeRef { id: id.to_owned(), name: id.to_owned(), node_type: "unknown".to_owned() },
    }
}

/// The forward edges of the focus, restricted to known nodes.
pub open spec fn depends_on_spec(deps: Seq<String>, nodes: Seq<Node>) -> Seq<
    (Seq<char>, Seq<char>, Seq<char>),
>
    decreases deps.len(),
{
    if deps.len() == 0 {
        seq![]
    } else {
        let rest = depends_on_spec(deps.drop_last(), nodes);
        let id = deps.last()@;
        if node_index(nodes, id) is Some {
            rest.push(node_ref_spec(id, nodes))
        } else {
            rest
        }
    }
}

/// The node references of a sequence of `NodeRef`s.
pub open spec fn node_ref_views(v: Seq<NodeRef>) -> Seq<(Seq<char>, Seq<char>, Seq<char>)> {
    v.map_values(|r: NodeRef| r@)
}

fn depends_on(focus: &Node, nodes: &[Node]) -> (r: Vec<NodeRef>)
    ensures
        node_ref_views(r@) == depends_on_spec(focus.dependencies@, nodes@),
{
    let deps = &focus.dependencies;
    let mut out: Vec<NodeRef> = Vec::new();
    let mut i: usize = 0;
    while i < deps.len()
        invariant
            i <= deps@.len(),
            deps@ == focus.dependencies@,
            node_ref_views(out@) == depends_on_spec(deps@.subrange(0, i as int), nodes@),
        decreases deps@.len() - i,
    {
        let ghost pre = deps@.subrange(0, i as int);
        proof {
            assert(deps@.subrange(0, i + 1).drop_last() =~= pre);
            assert(deps@.subrange(0, i + 1).last() == deps@[i as int]);
        }
        let id = deps[i].as_str();
        if find_node(nodes, id).is_some() {
            let ghost old_out = out@;
            out.push(node_ref(id, nodes));
            proof {
                assert(node_ref_views(out@) =~= node_ref_views(old_out).push(node_ref_spec(id@, nodes@)));
            }
        }
        i += 1;
    }
    proof {
        assert(deps@.subrange(0, deps@.len() as int) =~= deps@);
    }
    out
}

fn contains_id(ids: &Vec<String>, id: &str) -> (r: bool)
    ensures
        r == names_id(ids@, id@),
{
    let mut i: usize = 0;
    while i < ids.len()
        invariant
            i <= ids@.len(),
            forall|k: int| 0 <= k < i ==> (#[trigger] ids@[k])@ != id@,
        decreases ids@.len() - i,
    {
        if str_eq(ids[i].as_str(), id) {
            return true;
        }
        i += 1;
    }
    false
}

/// The reverse edges: every node (of `scan`) whose dependencies name the
/// focus, referenced through the full node list.
pub open spec fn dependents_spec(scan: Seq<Node>, nodes: Seq<Node>, focus: Seq<char>) -> Seq<
    (Seq<char>, Seq<char>, Seq<char>),
>
    decreases scan.len(),
{
    if scan.len() == 0 {
        seq![]
    } else {
        let rest = dependents_spec(scan.drop_last(), nodes, focus);
        let n = scan.last();
        if names_id(n.dependencies@, focus) {
            rest.push(node_ref_spec(n.id@, nodes))
        } else {
            rest
        }
    }
}

fn dependents(focus_id: &str, nodes: &[Node]) -> (r: Vec<NodeRef>)
    ensures
        node_ref_views(r@) == dependents_spec(nodes@, nodes@, focus_id@),
{
    let mut out: Vec<NodeRef> = Vec::new();
    let mut i: usize = 0;
    while i < nodes.len()
        invariant
            i <= nodes@.len(),
            node_ref_views(out@) == dependents_spec(nodes@.subrange(0, i as int), nodes@, focus_id@),
        decreases nodes@.len() - i,
    {
        let ghost pre = nodes@.subrange(0, i as int);
        proof {
            assert(nodes@.subrange(0, i + 1).drop_last() =~= pre);
            assert(nodes@.subrange(0, i + 1).last() == nodes@[i as int]);
        }
        let n = &nodes[i];
        if contains_id(&n.dependencies, focus_id) {
            let ghost old_out = out@;
            out.push(node_ref(n.id.as_str(), nodes));
            proof {
                assert(node_ref_views(out@) =~= node_ref_views(old_out).push(
                    node_ref_spec(n.id@, nodes@),
                ));
            }
        }
        i += 1;
    }
    proof {
        assert(nodes@.subrange(0, nodes@.len() as int) =~= nodes@);
    }
    out
}

// ─── participation: declared ∪ derived, first-seen order ──────────────────

/// Push `id` onto `out` unless it is already there (first-seen order).
fn push_unique(out: &mut Vec<String>, id: &str)
    ensures
        texts(final(out)@) == if texts(old(out)@).contains(id@) {
            texts(old(out)@)
        } else {
            texts(old(out)@).push(id@)
        },
{
    let mut i: usize = 0;
    while i < out.len()
        invariant
            i <= out@.len(),
            forall|k: int| 0 <= k < i ==> (#[trigger] out@[k])@ != id@,
        decreases out@.len() - i,
    {
        if str_eq(out[i].as_str(), id) {
            proof {
                assert(texts(out@)[i as int] == id@);
            }
            return;
        }
        i += 1;
    }
    proof {
        assert forall|k: int| 0 <= k < texts(out@).len() implies texts(out@)[k] != id@ by {
            assert(texts(out@)[k] == out@[k]@);
        }
    }
    let ghost before = out@;
    out.push(id.to_owned());
    proof {
        assert(texts(out@) =~= texts(before).push(id@));
    }
}

// flows

/// The index of the FIRST flow carrying `id`.
pub open spec fn flow_index(flows: Seq<Flow>, id: Seq<char>) -> Option<int>
    decreases flows.len(),
{
    if flows.len() == 0 {
        None
    } else {
        match flow_index(flows.drop_last(), id) {
            Some(i) => Some(i),
            None => if flows.last().id@ == id {
                Some(flows.len() - 1)
            } else {
                None
            },
        }
    }
}

proof fn lemma_flow_index_bounds(flows: Seq<Flow>, id: Seq<char>)
    ensures
        flow_index(flows, id) matches Some(i) ==> 0 <= i < flows.len() && flows[i].id@ == id,
    decreases flows.len(),
{
    if flows.len() > 0 {
        lemma_flow_index_bounds(flows.drop_last(), id);
    }
}

fn find_flow(flows: &[Flow], id: &str) -> (r: Option<usize>)
    ensures
        match r {
            Some(i) => flow_index(flows@, id@) == Some(i as int),
            None => flow_index(flows@, id@) is None,
        },
{
    let mut i: usize = 0;
    while i < flows.len()
        invariant
            i <= flows@.len(),
            flow_index(flows@.subrange(0, i as int), id@) is None,
        decreases flows@.len() - i,
    {
        proof {
            assert(flows@.subrange(0, i + 1).drop_last() =~= flows@.subrange(0, i as int));
            assert(flows@.subrange(0, i + 1).last() == flows@[i as int]);
        }
        if str_eq(flows[i].id.as_str(), id) {
            proof {
                lemma_prefix_flow_index(flows@, i as int + 1, id@);
            }
            return Some(i);
        }
        i += 1;
    }
    proof {
        assert(flows@.subrange(0, flows@.len() as int) =~= flows@);
    }
    None
}

/// A first match inside a prefix is the first match of the whole sequence.
proof fn lemma_prefix_flow_index(flows: Seq<Flow>, k: int, id: Seq<char>)
    requires
        0 <= k <= flows.len(),
        flow_index(flows.subrange(0, k), id) is Some,
    ensures
        flow_index(flows, id) == flow_index(flows.subrange(0, k), id),
    decreases flows.len() - k,
{
    if k < flows.len() {
        assert(flows.subrange(0, k + 1).drop_last() =~= flows.subrange(0, k));
        lemma_prefix_flow_index(flows, k + 1, id);
    } else {
        assert(flows.subrange(0, k) =~= flows);
    }
}

/// The declared flow ids that name an existing flow, in declared order.
pub open spec fn declared_flows(decl: Seq<String>, flows: Seq<Flow>) -> Seq<Seq<char>>
    decreases decl.len(),
{
    if decl.len() == 0 {
        seq![]
    } else {
        let rest = declared_flows(decl.drop_last(), flows);
        if flow_index(flows, decl.last()@) is Some {
            rest.push(decl.last()@)
        } else {
            rest
        }
    }
}

/// A flow step goes from or to the focus.
pub open spec fn flow_touches(f: Flow, focus: Seq<char>) -> bool {
    exists|k: int|
        0 <= k < f.steps@.len() && ((#[trigger] f.steps@[k]).from@ == focus || f.steps@[k].to@
            == focus)
}

/// The ids of the flows (of `scan`) with a step from or to the focus.
pub open spec fn touching_flows(scan: Seq<Flow>, focus: Seq<char>) -> Seq<Seq<char>>
    decreases scan.len(),
{
    if scan.len() == 0 {
        seq![]
    } else {
        let rest = touching_flows(scan.drop_last(), focus);
        if flow_touches(scan.last(), focus) {
            rest.push(scan.last().id@)
        } else {
            rest
        }
    }
}

/// The flow ids the focus participates in: declared `relatedFlows` ∪ flows
/// with a step touching it.
pub open spec fn flow_ids_spec(node: Node, flows: Seq<Flow>, focus: Seq<char>) -> Seq<Seq<char>> {
    dedup_first(declared_flows(node.related_flows@, flows) + touching_flows(flows, focus))
}

/// The display name of a flow id: the first flow's name, else the id.
pub open spec fn flow_name(flows: Seq<Flow>, id: Seq<char>) -> Seq<char> {
    match flow_index(flows, id) {
        Some(i) => flows[i].name@,
        None => id,
    }
}

/// The flow references of the focus.
pub open spec fn flows_spec(node: Node, flows: Seq<Flow>, focus: Seq<char>) -> Seq<
    (Seq<char>, Seq<char>),
> {
    flow_ids_spec(node, flows, focus).map_values(|id: Seq<char>| (id, flow_name(flows, id)))
}

fn touches(f: &Flow, focus_id: &str) -> (r: bool)
    ensures
        r == flow_touches(*f, focus_id@),
{
    let mut k: usize = 0;
    while k < f.steps.len()
        invariant
            k <= f.steps@.len(),
            forall|j: int|
                0 <= j < k ==> (#[trigger] f.steps@[j]).from@ != focus_id@ && f.steps@[j].to@
                    != focus_id@,
        decreases f.steps@.len() - k,
    {
        if str_eq(f.steps[k].from.as_str(), focus_id) || str_eq(f.steps[k].to.as_str(), focus_id) {
            return true;
        }
        k += 1;
    }
    false
}

fn related_flows(node: &Node, focus_id: &str, flows: &[Flow]) -> (r: Vec<NamedRef>)
    ensures
        r@.map_values(|x: NamedRef| x@) == flows_spec(*node, flows@, focus_id@),
{
    let decl = &node.related_flows;
    let mut ids: Vec<String> = Vec::new();
    let mut i: usize = 0;
    while i < decl.len()
        invariant
            i <= decl@.len(),
            decl@ == node.related_flows@,
            texts(ids@) == dedup_first(declared_flows(decl@.subrange(0, i as int), flows@)),
        decreases decl@.len() - i,
    {
        proof {
            assert(decl@.subrange(0, i + 1).drop_last() =~= decl@.subrange(0, i as int));
            assert(decl@.subrange(0, i + 1).last() == decl@[i as int]);
        }
        if find_flow(flows, decl[i].as_str()).is_some() {
            proof {
                lemma_dedup_push(declared_flows(decl@.subrange(0, i as int), flows@), decl@[i as int]@);
            }
            push_unique(&mut ids, decl[i].as_str());
        }
        i += 1;
    }
    proof {
        assert(decl@.subrange(0, decl@.len() as int) =~= decl@);
        assert(touching_flows(flows@.subrange(0, 0), focus_id@) =~= Seq::<Seq<char>>::empty());
        assert(declared_flows(decl@, flows@) + Seq::<Seq<char>>::empty() =~= declared_flows(decl@, flows@));
    }
    let ghost declared = declared_flows(decl@, flows@);
    let mut j: usize = 0;
    while j < flows.len()
        invariant
            j <= flows@.len(),
            declared == declared_flows(node.related_flows@, flows@),
            texts(ids@) == dedup_first(declared + touching_flows(flows@.subrange(0, j as int), focus_id@)),
        decreases flows@.len() - j,
    {
        proof {
            assert(flows@.subrange(0, j + 1).drop_last() =~= flows@.subrange(0, j as int));
            assert(flows@.subrange(0, j + 1).last() == flows@[j as int]);
        }
        if touches(&flows[j], focus_id) {
            proof {
                lemma_concat_push(declared, touching_flows(flows@.subrange(0, j as int), focus_id@), flows@[j as int].id@);
                lemma_dedup_push(declared + touching_flows(flows@.subrange(0, j as int), focus_id@), flows@[j as int].id@);
            }
            push_unique(&mut ids, flows[j].id.as_str());
        }
        j += 1;
    }
    proof {
        assert(flows@.subrange(0, flows@.len() as int) =~= flows@);
        lemma_flow_index_bounds(flows@, focus_id@);
    }
    let ghost all_ids = texts(ids@);
    let mut out: Vec<NamedRef> = Vec::new();
    let mut k: usize = 0;
    while k < ids.len()
        invariant
            k <= ids@.len(),
            all_ids == texts(ids@),
            out@.len() == k,
            forall|m: int|
                0 <= m < k ==> (#[trigger] out@[m])@ == (all_ids[m], flow_name(flows@, all_ids[m])),
        decreases ids@.len() - k,
    {
        let id = ids[k].as_str();
        proof {
            lemma_flow_index_bounds(flows@, id@);
            assert(all_ids[k as int] == id@);
        }
        let name = match find_flow(flows, id) {
            Some(fi) => flows[fi].name.clone(),
            None => id.to_owned(),
        };
        out.push(NamedRef { id: id.to_owned(), name });
        k += 1;
    }
    proof {
        assert(out@.map_values(|x: NamedRef| x@) =~= flows_spec(*node, flows@, focus_id@));
    }
    out
}

// decisions

/// The index of the FIRST decision carrying `id`.
pub open spec fn decision_index(items: Seq<Decision>, id: Seq<char>) -> Option<int>
    decreases items.len(),
{
    if items.len() == 0 {
        None
    } else {
        match decision_index(items.drop_last(), id) {
            Some(i) => Some(i),
            None => if items.last().id@ == id {
                Some(items.len() - 1)
            } else {
                None
            },
        }
    }
}

proof fn lemma_decision_index_bounds(items: Seq<Decision>, id: Seq<char>)
    ensures
        decision_index(items, id) matches Some(i) ==> 0 <= i < items.len() && items[i].id@ == id,
    decreases items.len(),
{
    if items.len() > 0 {
        lemma_decision_index_bounds(items.drop_last(), id);
    }
}

proof fn lemma_prefix_decision_index(items: Seq<Decision>, k: int, id: Seq<char>)
    requires
        0 <= k <= items.len(),
        decision_index(items.subrange(0, k), id) is Some,
    ensures
        decision_index(items, id) == decision_index(items.subrange(0, k), id),
    decreases items.len() - k,
{
    if k < items.len() {
        assert(items.subrange(0, k + 1).drop_last() =~= items.subrange(0, k));
        lemma_prefix_decision_index(items, k + 1, id);
    } else {
        assert(items.subrange(0, k) =~= items);
    }
}

fn find_decision(items: &[Decision], id: &str) -> (r: Option<usize>)
    ensures
        match r {
            Some(i) => decision_index(items@, id@) == Some(i as int),
            None => decision_index(items@, id@) is None,
        },
{
    let mut i: usize = 0;
    while i < items.len()
        invariant
            i <= items@.len(),
            decision_index(items@.subrange(0, i as int), id@) is None,
        decreases items@.len() - i,
    {
        proof {
            assert(items@.subrange(0, i + 1).drop_last() =~= items@.subrange(0, i as int));
            assert(items@.subrange(0, i + 1).last() == items@[i as int]);
        }
        if str_eq(items[i].id.as_str(), id) {
            proof {
                lemma_prefix_decision_index(items@, i as int + 1, id@);
            }
            return Some(i);
        }
        i += 1;
    }
    proof {
        assert(items@.subrange(0, items@.len() as int) =~= items@);
    }
    None
}

/// The declared decision ids that name an existing decision, in declared order.
pub open spec fn declared_decisions(decl: Seq<String>, items: Seq<Decision>) -> Seq<Seq<char>>
    decreases decl.len(),
{
    if decl.len() == 0 {
        seq![]
    } else {
        let rest = declared_decisions(decl.drop_last(), items);
        if decision_index(items, decl.last()@) is Some {
            rest.push(decl.last()@)
        } else {
            rest
        }
    }
}

/// The ids of the decisions (of `scan`) whose `relatedNodes` name the focus.
pub open spec fn naming_decisions(scan: Seq<Decision>, focus: Seq<char>) -> Seq<Seq<char>>
    decreases scan.len(),
{
    if scan.len() == 0 {
        seq![]
    } else {
        let rest = naming_decisions(scan.drop_last(), focus);
        if names_id(scan.last().related_nodes@, focus) {
            rest.push(scan.last().id@)
        } else {
            rest
        }
    }
}

/// The decision ids the focus participates in: declared ∪ derived.
pub open spec fn decision_ids_spec(node: Node, items: Seq<Decision>, focus: Seq<char>) -> Seq<Seq<char>> {
    dedup_first(declared_decisions(node.related_decisions@, items) + naming_decisions(items, focus))
}

/// The reference of one decision id.
pub open spec fn decision_ref_spec(items: Seq<Decision>, id: Seq<char>) -> (Seq<char>, Seq<char>) {
    match decision_index(items, id) {
        Some(i) => (id, items[i].title@),
        None => (id, id),
    }
}

/// The decision references of the focus.
pub open spec fn decisions_spec(node: Node, items: Seq<Decision>, focus: Seq<char>) -> Seq<(Seq<char>, Seq<char>)> {
    decision_ids_spec(node, items, focus).map_values(|id: Seq<char>| decision_ref_spec(items, id))
}

fn related_decisions(node: &Node, focus_id: &str, items: &[Decision]) -> (r: Vec<DecisionRef>)
    ensures
        r@.map_values(|x: DecisionRef| x@) == decisions_spec(*node, items@, focus_id@),
{
    let decl = &node.related_decisions;
    let mut ids: Vec<String> = Vec::new();
    let mut i: usize = 0;
    while i < decl.len()
        invariant
            i <= decl@.len(),
            decl@ == node.related_decisions@,
            texts(ids@) == dedup_first(declared_decisions(decl@.subrange(0, i as int), items@)),
        decreases decl@.len() - i,
    {
        proof {
            assert(decl@.subrange(0, i + 1).drop_last() =~= decl@.subrange(0, i as int));
            assert(decl@.subrange(0, i + 1).last() == decl@[i as int]);
        }
        if find_decision(items, decl[i].as_str()).is_some() {
            proof {
                lemma_dedup_push(declared_decisions(decl@.subrange(0, i as int), items@), decl@[i as int]@);
            }
            push_unique(&mut ids, decl[i].as_str());
        }
        i += 1;
    }
    proof {
        assert(decl@.subrange(0, decl@.len() as int) =~= decl@);
        assert(naming_decisions(items@.subrange(0, 0), focus_id@) =~= Seq::<Seq<char>>::empty());
        assert(declared_decisions(decl@, items@) + Seq::<Seq<char>>::empty() =~= declared_decisions(decl@, items@));
    }
    let ghost declared = declared_decisions(decl@, items@);
    let mut j: usize = 0;
    while j < items.len()
        invariant
            j <= items@.len(),
            declared == declared_decisions(node.related_decisions@, items@),
            texts(ids@) == dedup_first(declared + naming_decisions(items@.subrange(0, j as int), focus_id@)),
        decreases items@.len() - j,
    {
        proof {
            assert(items@.subrange(0, j + 1).drop_last() =~= items@.subrange(0, j as int));
            assert(items@.subrange(0, j + 1).last() == items@[j as int]);
        }
        if contains_id(&items[j].related_nodes, focus_id) {
            proof {
                lemma_concat_push(declared, naming_decisions(items@.subrange(0, j as int), focus_id@), items@[j as int].id@);
                lemma_dedup_push(declared + naming_decisions(items@.subrange(0, j as int), focus_id@), items@[j as int].id@);
            }
            push_unique(&mut ids, items[j].id.as_str());
        }
        j += 1;
    }
    proof {
        assert(items@.subrange(0, items@.len() as int) =~= items@);
    }
    let ghost all_ids = texts(ids@);
    let mut out: Vec<DecisionRef> = Vec::new();
    let mut k: usize = 0;
    while k < ids.len()
        invariant
            k <= ids@.len(),
            all_ids == texts(ids@),
            out@.len() == k,
            forall|m: int|
                0 <= m < k ==> (#[trigger] out@[m])@ == decision_ref_spec(items@, all_ids[m]),
        decreases ids@.len() - k,
    {
        let id = ids[k].as_str();
        proof {
            lemma_decision_index_bounds(items@, id@);
            assert(all_ids[k as int] == id@);
        }
        let item = match find_decision(items, id) {
            Some(di) => DecisionRef { id: id.to_owned(), title: items[di].title.clone() },
            None => DecisionRef { id: id.to_owned(), title: id.to_owned() },
        };
        out.push(item);
        k += 1;
    }
    proof {
        assert(out@.map_values(|x: DecisionRef| x@) =~= decisions_spec(*node, items@, focus_id@));
    }
    out
}

// risks

/// The index of the FIRST risk carrying `id`.
pub open spec fn risk_index(items: Seq<Risk>, id: Seq<char>) -> Option<int>
    decreases items.len(),
{
    if items.len() == 0 {
        None
    } else {
        match risk_index(items.drop_last(), id) {
            Some(i) => Some(i),
            None => if items.last().id@ == id {
                Some(items.len() - 1)
            } else {
                None
            },
        }
    }
}

proof fn lemma_risk_index_bounds(items: Seq<Risk>, id: Seq<char>)
    ensures
        risk_index(items, id) matches Some(i) ==> 0 <= i < items.len() && items[i].id@ == id,
    decreases items.len(),
{
    if items.len() > 0 {
        lemma_risk_index_bounds(items.drop_last(), id);
    }
}

proof fn lemma_prefix_risk_index(items: Seq<Risk>, k: int, id: Seq<char>)
    requires
        0 <= k <= items.len(),
        risk_index(items.subrange(0, k), id) is Some,
    ensures
        risk_index(items, id) == risk_index(items.subrange(0, k), id),
    decreases items.len() - k,
{
    if k < items.len() {
        assert(items.subrange(0, k + 1).drop_last() =~= items.subrange(0, k));
        lemma_prefix_risk_index(items, k + 1, id);
    } else {
        assert(items.subrange(0, k) =~= items);
    }
}

fn find_risk(items: &[Risk], id: &str) -> (r: Option<usize>)
    ensures
        match r {
            Some(i) => risk_index(items@, id@) == Some(i as int),
            None => risk_index(items@, id@) is None,
        },
{
    let mut i: usize = 0;
    while i < items.len()
        invariant
            i <= items@.len(),
            risk_index(items@.subrange(0, i as int), id@) is None,
        decreases items@.len() - i,
    {
        proof {
            assert(items@.subrange(0, i + 1).drop_last() =~= items@.subrange(0, i as int));
            assert(items@.subrange(0, i + 1).last() == items@[i as int]);
        }
        if str_eq(items[i].id.as_str(), id) {
            proof {
                lemma_prefix_risk_index(items@, i as int + 1, id@);
            }
            return Some(i);
        }
        i += 1;
    }
    proof {
        assert(items@.subrange(0, items@.len() as int) =~= items@);
    }
    None
}

/// The declared risk ids that name an existing risk, in declared order.
pub open spec fn declared_risks(decl: Seq<String>, items: Seq<Risk>) -> Seq<Seq<char>>
    decreases decl.len(),
{
    if decl.len() == 0 {
        seq![]
    } else {
        let rest = declared_risks(decl.drop_last(), items);
        if risk_index(items, decl.last()@) is Some {
            rest.push(decl.last()@)
        } else {
            rest
        }
    }
}

/// The ids of the risks (of `scan`) whose `relatedNodes` name the focus.
pub open spec fn naming_risks(scan: Seq<Risk>, focus: Seq<char>) -> Seq<Seq<char>>
    decreases scan.len(),
{
    if scan.len() == 0 {
        seq![]
    } else {
        let rest = naming_risks(scan.drop_last(), focus);
        if names_id(scan.last().related_nodes@, focus) {
            rest.push(scan.last().id@)
        } else {
            rest
        }
    }
}

/// The risk ids the focus participates in: declared ∪ derived.
pub open spec fn risk_ids_spec(node: Node, items: Seq<Risk>, focus: Seq<char>) -> Seq<Seq<char>> {
    dedup_first(declared_risks(node.known_risks@, items) + naming_risks(items, focus))
}

/// The reference of one risk id.
pub open spec fn risk_ref_spec(items: Seq<Risk>, id: Seq<char>) -> (Seq<char>, Seq<char>, Option<Seq<char>>) {
    match risk_index(items, id) {
        Some(i) => (id, items[i].title@, opt_text(items[i].severity)),
        None => (id, id, None),
    }
}

/// The risk references of the focus.
pub open spec fn risks_spec(node: Node, items: Seq<Risk>, focus: Seq<char>) -> Seq<(Seq<char>, Seq<char>, Option<Seq<char>>)> {
    risk_ids_spec(node, items, focus).map_values(|id: Seq<char>| risk_ref_spec(items, id))
}

fn related_risks(node: &Node, focus_id: &str, items: &[Risk]) -> (r: Vec<RiskRef>)
    ensures
        r@.map_values(|x: RiskRef| x@) == risks_spec(*node, items@, focus_id@),
{
    let decl = &node.known_risks;
    let mut ids: Vec<String> = Vec::new();
    let mut i: usize = 0;
    while i < decl.len()
        invariant
            i <= decl@.len(),
            decl@ == node.known_risks@,
            texts(ids@) == dedup_first(declared_risks(decl@.subrange(0, i as int), items@)),
        decreases decl@.len() - i,
    {
        proof {
            assert(decl@.subrange(0, i + 1).drop_last() =~= decl@.subrange(0, i as int));
            assert(decl@.subrange(0, i + 1).last() == decl@[i as int]);
        }
        if find_risk(items, decl[i].as_str()).is_some() {
            proof {
                lemma_dedup_push(declared_risks(decl@.subrange(0, i as int), items@), decl@[i as int]@);
            }
            push_unique(&mut ids, decl[i].as_str());
        }
        i += 1;
    }
    proof {
        assert(decl@.subrange(0, decl@.len() as int) =~= decl@);
        assert(naming_risks(items@.subrange(0, 0), focus_id@) =~= Seq::<Seq<char>>::empty());
        assert(declared_risks(decl@, items@) + Seq::<Seq<char>>::empty() =~= declared_risks(decl@, items@));
    }
    let ghost declared = declared_risks(decl@, items@);
    let mut j: usize = 0;
    while j < items.len()
        invariant
            j <= items@.len(),
            declared == declared_risks(node.known_risks@, items@),
            texts(ids@) == dedup_first(declared + naming_risks(items@.subrange(0, j as int), focus_id@)),
        decreases items@.len() - j,
    {
        proof {
            assert(items@.subrange(0, j + 1).drop_last() =~= items@.subrange(0, j as int));
            assert(items@.subrange(0, j + 1).last() == items@[j as int]);
        }
        if contains_id(&items[j].related_nodes, focus_id) {
            proof {
                lemma_concat_push(declared, naming_risks(items@.subrange(0, j as int), focus_id@), items@[j as int].id@);
                lemma_dedup_push(declared + naming_risks(items@.subrange(0, j as int), focus_id@), items@[j as int].id@);
            }
            push_unique(&mut ids, items[j].id.as_str());
        }
        j += 1;
    }
    proof {
        assert(items@.subrange(0, items@.len() as int) =~= items@);
    }
    let ghost all_ids = texts(ids@);
    let mut out: Vec<RiskRef> = Vec::new();
    let mut k: usize = 0;
    while k < ids.len()
        invariant
            k <= ids@.len(),
            all_ids == texts(ids@),
            out@.len() == k,
            forall|m: int|
                0 <= m < k ==> (#[trigger] out@[m])@ == risk_ref_spec(items@, all_ids[m]),
        decreases ids@.len() - k,
    {
        let id = ids[k].as_str();
        proof {
            lemma_risk_index_bounds(items@, id@);
            assert(all_ids[k as int] == id@);
        }
        let item = match find_risk(items, id) {
            Some(ri) => RiskRef {
                id: id.to_owned(),
                title: items[ri].title.clone(),
                severity: match &items[ri].severity {
                    Some(sv) => Some(sv.clone()),
                    None => None,
                },
            },
            None => RiskRef { id: id.to_owned(), title: id.to_owned(), severity: None },
        };
        out.push(item);
        k += 1;
    }
    proof {
        assert(out@.map_values(|x: RiskRef| x@) =~= risks_spec(*node, items@, focus_id@));
    }
    out
}

// data handled

/// The index of the LAST data class carrying `id` (the class index maps an
/// id to the last class that declares it).
pub open spec fn class_index(dcs: Seq<DataClass>, id: Seq<char>) -> Option<int>
    decreases dcs.len(),
{
    if dcs.len() == 0 {
        None
    } else if dcs.last().id@ == id {
        Some(dcs.len() - 1)
    } else {
        class_index(dcs.drop_last(), id)
    }
}

proof fn lemma_class_index_bounds(dcs: Seq<DataClass>, id: Seq<char>)
    ensures
        class_index(dcs, id) matches Some(i) ==> 0 <= i < dcs.len() && dcs[i].id@ == id,
    decreases dcs.len(),
{
    if dcs.len() > 0 {
        lemma_class_index_bounds(dcs.drop_last(), id);
    }
}

fn find_class(dcs: &[DataClass], id: &str) -> (r: Option<usize>)
    ensures
        match r {
            Some(i) => class_index(dcs@, id@) == Some(i as int),
            None => class_index(dcs@, id@) is None,
        },
{
    let mut found: Option<usize> = None;
    let mut i: usize = 0;
    while i < dcs.len()
        invariant
            i <= dcs@.len(),
            match found {
                Some(k) => class_index(dcs@.subrange(0, i as int), id@) == Some(k as int),
                None => class_index(dcs@.subrange(0, i as int), id@) is None,
            },
        decreases dcs@.len() - i,
    {
        proof {
            assert(dcs@.subrange(0, i + 1).drop_last() =~= dcs@.subrange(0, i as int));
            assert(dcs@.subrange(0, i + 1).last() == dcs@[i as int]);
        }
        if str_eq(dcs[i].id.as_str(), id) {
            found = Some(i);
        }
        i += 1;
    }
    proof {
        assert(dcs@.subrange(0, dcs@.len() as int) =~= dcs@);
    }
    found
}

/// The declared `dataHandled` ids restricted to known data classes, in
/// declared order (repeats kept), each with its class's name and sensitivity.
pub open spec fn data_handled_spec(decl: Seq<String>, dcs: Seq<DataClass>) -> Seq<
    (Seq<char>, Seq<char>, Option<Seq<char>>),
>
    decreases decl.len(),
{
    if decl.len() == 0 {
        seq![]
    } else {
        let rest = data_handled_spec(decl.drop_last(), dcs);
        let id = decl.last()@;
        match class_index(dcs, id) {
            Some(i) => rest.push((id, dcs[i].name@, opt_text(dcs[i].sensitivity))),
            None => rest,
        }
    }
}

fn data_handled(node: &Node, dcs: &[DataClass]) -> (r: Vec<DataRef>)
    ensures
        r@.map_values(|x: DataRef| x@) == data_handled_spec(node.data_handled@, dcs@),
{
    let decl = &node.data_handled;
    let mut out: Vec<DataRef> = Vec::new();
    let mut i: usize = 0;
    while i < decl.len()
        invariant
            i <= decl@.len(),
            decl@ == node.data_handled@,
            out@.map_values(|x: DataRef| x@) == data_handled_spec(decl@.subrange(0, i as int), dcs@),
        decreases decl@.len() - i,
    {
        proof {
            assert(decl@.subrange(0, i + 1).drop_last() =~= decl@.subrange(0, i as int));
            assert(decl@.subrange(0, i + 1).last() == decl@[i as int]);
            lemma_class_index_bounds(dcs@, decl@[i as int]@);
        }
        let id = decl[i].as_str();
        if let Some(ci) = find_class(dcs, id) {
            let ghost before = out@;
            let item = DataRef {
                id: id.to_owned(),
                name: dcs[ci].name.clone(),
                sensitivity: match &dcs[ci].sensitivity {
                    Some(sv) => Some(sv.clone()),
                    None => None,
                },
            };
            out.push(item);
            proof {
                assert(out@.map_values(|x: DataRef| x@) =~= before.map_values(|x: DataRef| x@).push(
                    (id@, dcs@[ci as int].name@, opt_text(dcs@[ci as int].sensitivity)),
                ));
            }
        }
        i += 1;
    }
    proof {
        assert(decl@.subrange(0, decl@.len() as int) =~= decl@);
    }
    out
}

// views

/// Some lane of the view includes the focus.
pub open spec fn view_shows(v: DiagramView, focus: Seq<char>) -> bool {
    exists|k: int| 0 <= k < v.lanes@.len() && names_id((#[trigger] v.lanes@[k]).node_ids@, focus)
}

/// Every view (of `scan`) with a lane that includes the focus.
pub open spec fn views_spec(scan: Seq<DiagramView>, focus: Seq<char>) -> Seq<
    (Seq<char>, Seq<char>, Seq<char>),
>
    decreases scan.len(),
{
    if scan.len() == 0 {
        seq![]
    } else {
        let rest = views_spec(scan.drop_last(), focus);
        let v = scan.last();
        if view_shows(v, focus) {
            rest.push((v.id@, v.name@, v.view_type@))
        } else {
            rest
        }
    }
}

pub(crate) fn shows(v: &DiagramView, focus_id: &str) -> (r: bool)
    ensures
        r == view_shows(*v, focus_id@),
{
    let mut k: usize = 0;
    while k < v.lanes.len()
        invariant
            k <= v.lanes@.len(),
            forall|j: int| 0 <= j < k ==> !names_id((#[trigger] v.lanes@[j]).node_ids@, focus_id@),
        decreases v.lanes@.len() - k,
    {
        if contains_id(&v.lanes[k].node_ids, focus_id) {
            return true;
        }
        k += 1;
    }
    false
}

fn appears_in_views(focus_id: &str, views: &[DiagramView]) -> (r: Vec<ViewRef>)
    ensures
        r@.map_values(|x: ViewRef| x@) == views_spec(views@, focus_id@),
{
    let mut out: Vec<ViewRef> = Vec::new();
    let mut i: usize = 0;
    while i < views.len()
        invariant
            i <= views@.len(),
            out@.map_values(|x: ViewRef| x@) == views_spec(views@.subrange(0, i as int), focus_id@),
        decreases views@.len() - i,
    {
        proof {
            assert(views@.subrange(0, i + 1).drop_last() =~= views@.subrange(0, i as int));
            assert(views@.subrange(0, i + 1).last() == views@[i as int]);
        }
        let v = &views[i];
        if shows(v, focus_id) {
            let ghost before = out@;
            out.push(
                ViewRef { id: v.id.clone(), name: v.name.clone(), view_type: v.view_type.clone() },
            );
            proof {
                assert(out@.map_values(|x: ViewRef| x@) =~= before.map_values(|x: ViewRef| x@).push(
                    (v.id@, v.name@, v.view_type@),
                ));
            }
        }
        i += 1;
    }
    proof {
        assert(views@.subrange(0, views@.len() as int) =~= views@);
    }
    out
}

// owned files

/// `path` lies under the source path `prefix`: the prefix is non-empty and
/// either equals the path or is followed in it by a `/` (or ends in one).
pub open spec fn path_under(path: Seq<char>, prefix: Seq<char>) -> bool {
    &&& prefix.len() > 0
    &&& prefix.len() <= path.len()
    &&& path.subrange(0, prefix.len() as int) == prefix
    &&& (path.len() == prefix.len() || path[prefix.len() as int] == '/' || prefix.last() == '/')
}

/// The length of the longest source path (of `sps`) that `path` lies under,
/// `0` when none matches.
pub open spec fn match_len(sps: Seq<String>, path: Seq<char>) -> nat
    decreases sps.len(),
{
    if sps.len() == 0 {
        0
    } else {
        let rest = match_len(sps.drop_last(), path);
        let sp = sps.last()@;
        if path_under(path, sp) && sp.len() > rest {
            sp.len()
        } else {
            rest
        }
    }
}

/// The owning node of `path`: among the nodes of `nodes` with a matching
/// source path, the first one whose match is longest.
pub open spec fn owner_spec(nodes: Seq<Node>, path: Seq<char>) -> Option<int>
    decreases nodes.len(),
{
    if nodes.len() == 0 {
        None
    } else {
        let l = match_len(nodes.last().source_paths@, path);
        match owner_spec(nodes.drop_last(), path) {
            None => if l > 0 {
                Some(nodes.len() - 1)
            } else {
                None
            },
            Some(j) => if l > match_len(nodes[j].source_paths@, path) {
                Some(nodes.len() - 1)
            } else {
                Some(j)
            },
        }
    }
}

proof fn lemma_owner_bounds(nodes: Seq<Node>, path: Seq<char>)
    ensures
        owner_spec(nodes, path) matches Some(i) ==> 0 <= i < nodes.len() && match_len(
            nodes[i].source_paths@,
            path,
        ) > 0,
    decreases nodes.len(),
{
    if nodes.len() > 0 {
        lemma_owner_bounds(nodes.drop_last(), path);
    }
}

fn is_under(path: &Vec<char>, prefix: &str) -> (r: bool)
    ensures
        r == path_under(path@, prefix@),
{
    let p = chars_of(prefix);
    let n = p.len();
    if n == 0 || n > path.len() {
        return false;
    }
    let mut k: usize = 0;
    while k < n
        invariant
            k <= n,
            n == p@.len(),
            p@ == prefix@,
            n <= path@.len(),
            forall|j: int| 0 <= j < k ==> path@[j] == p@[j],
        decreases n - k,
    {
        if path[k] != p[k] {
            proof {
                assert(path@.subrange(0, n as int)[k as int] != p@[k as int]);
                assert(path@.subrange(0, n as int) != prefix@);
            }
            return false;
        }
        k += 1;
    }
    proof {
        assert(path@.subrange(0, n as int) =~= p@);
    }
    n == path.len() || path[n] == '/' || p[n - 1] == '/'
}

fn longest_match(sps: &Vec<String>, path: &Vec<char>) -> (r: usize)
    ensures
        r == match_len(sps@, path@),
{
    let mut best: usize = 0;
    let mut i: usize = 0;
    while i < sps.len()
        invariant
            i <= sps@.len(),
            best == match_len(sps@.subrange(0, i as int), path@),
        decreases sps@.len() - i,
    {
        proof {
            assert(sps@.subrange(0, i + 1).drop_last() =~= sps@.subrange(0, i as int));
            assert(sps@.subrange(0, i + 1).last() == sps@[i as int]);
        }
        if is_under(path, sps[i].as_str()) {
            let l = chars_of(sps[i].as_str()).len();
            if l > best {
                best = l;
            }
        }
        i += 1;
    }
    proof {
        assert(sps@.subrange(0, sps@.len() as int) =~= sps@);
    }
    best
}

/// Longest-prefix ownership: the node owning `path`.
fn resolve_owner(path: &Vec<char>, nodes: &[Node]) -> (r: Option<usize>)
    ensures
        match r {
            Some(i) => owner_spec(nodes@, path@) == Some(i as int),
            None => owner_spec(nodes@, path@) is None,
        },
{
    let mut best: Option<usize> = None;
    let mut best_len: usize = 0;
    let mut i: usize = 0;
    while i < nodes.len()
        invariant
            i <= nodes@.len(),
            match best {
                Some(k) => owner_spec(nodes@.subrange(0, i as int), path@) == Some(k as int) && k < i
                    && best_len == match_len(nodes@[k as int].source_paths@, path@),
                None => owner_spec(nodes@.subrange(0, i as int), path@) is None,
            },
        decreases nodes@.len() - i,
    {
        proof {
            assert(nodes@.subrange(0, i + 1).drop_last() =~= nodes@.subrange(0, i as int));
            assert(nodes@.subrange(0, i + 1).last() == nodes@[i as int]);
        }
        let l = longest_match(&nodes[i].source_paths, path);
        match best {
            None => {
                if l > 0 {
                    best = Some(i);
                    best_len = l;
                }
            },
            Some(_) => {
                if l > best_len {
                    best = Some(i);
                    best_len = l;
                }
            },
        }
        proof {
            if let Some(k) = best {
                assert(nodes@.subrange(0, i + 1)[k as int] == nodes@[k as int]);
            }
        }
        i += 1;
    }
    proof {
        assert(nodes@.subrange(0, nodes@.len() as int) =~= nodes@);
    }
    best
}

/// The owner of `path` carries the focus id.
pub open spec fn owned_by(nodes: Seq<Node>, path: Seq<char>, focus: Seq<char>) -> bool {
    match owner_spec(nodes, path) {
        Some(i) => nodes[i].id@ == focus,
        None => false,
    }
}

/// The files (of `scan`) with a non-empty path whose owner is a node carrying
/// the focus id, in listing order.
pub open spec fn owned_files_spec(scan: Seq<FileEntry>, nodes: Seq<Node>, focus: Seq<char>) -> Seq<
    (Seq<char>, Option<u64>),
>
    decreases scan.len(),
{
    if scan.len() == 0 {
        seq![]
    } else {
        let rest = owned_files_spec(scan.drop_last(), nodes, focus);
        let f = scan.last();
        if f.path@.len() > 0 && owned_by(nodes, f.path@, focus) {
            rest.push((f.path@, f.size))
        } else {
            rest
        }
    }
}

fn owned_files(focus_id: &str, nodes: &[Node], files: &[FileEntry]) -> (r: Vec<OwnedFile>)
    ensures
        r@.map_values(|x: OwnedFile| x@) == owned_files_spec(files@, nodes@, focus_id@),
{
    let mut out: Vec<OwnedFile> = Vec::new();
    let mut i: usize = 0;
    while i < files.len()
        invariant
            i <= files@.len(),
            out@.map_values(|x: OwnedFile| x@) == owned_files_spec(files@.subrange(0, i as int), nodes@, focus_id@),
        decreases files@.len() - i,
    {
        proof {
            assert(files@.subrange(0, i + 1).drop_last() =~= files@.subrange(0, i as int));
            assert(files@.subrange(0, i + 1).last() == files@[i as int]);
        }
        let f = &files[i];
        let path = chars_of(f.path.as_str());
        if path.len() > 0 {
            proof {
                lemma_owner_bounds(nodes@, f.path@);
            }
            if let Some(o) = resolve_owner(&path, nodes) {
                if str_eq(nodes[o].id.as_str(), focus_id) {
                    let ghost before = out@;
                    out.push(OwnedFile { path: f.path.clone(), size: f.size });
                    proof {
                        assert(out@.map_values(|x: OwnedFile| x@) =~= before.map_values(|x: OwnedFile| x@).push(
                            (f.path@, f.size),
                        ));
                    }
                }
            }
        }
        i += 1;
    }
    proof {
        assert(files@.subrange(0, files@.len() as int) =~= files@);
    }
    out
}

// ─── the whole reach ───────────────────────────────────────────────────────

impl BlastRadius {
    /// Total elements reached, across every section.
    pub open spec fn reach_count_spec(&self) -> nat {
        self.depends_on@.len() + self.dependents@.len() + self.flows@.len()
            + self.decisions@.len() + self.risks@.len() + self.data_handled@.len()
            + self.views@.len() + self.owned_files@.len()
    }

    /// Total elements reached, across every section (the header "reach" count).
    pub fn reach_count(&self) -> (r: usize)
        requires
            self.reach_count_spec() <= usize::MAX,
        ensures
            r == self.reach_count_spec(),
    {
        self.depends_on.len() + self.dependents.len() + self.flows.len() + self.decisions.len()
            + self.risks.len() + self.data_handled.len() + self.views.len()
            + self.owned_files.len()
    }
}

/// `b` is the blast radius of the node `node` (the node carrying `focus`)
/// over the given dataset.
pub open spec fn is_blast_radius(
    b: BlastRadius,
    focus: Seq<char>,
    node: Node,
    nodes: Seq<Node>,
    flows: Seq<Flow>,
    decisions: Seq<Decision>,
    risks: Seq<Risk>,
    dcs: Seq<DataClass>,
    views: Seq<DiagramView>,
    files: Seq<FileEntry>,
) -> bool {
    &&& b.node@ == node_ref_spec(focus, nodes)
    &&& b.owned_files@.map_values(|x: OwnedFile| x@) == owned_files_spec(files, nodes, focus)
    &&& texts(b.declared_paths@) == texts(node.source_paths@)
    &&& node_ref_views(b.depends_on@) == depends_on_spec(node.dependencies@, nodes)
    &&& node_ref_views(b.dependents@) == dependents_spec(nodes, nodes, focus)
    &&& b.flows@.map_values(|x: NamedRef| x@) == flows_spec(node, flows, focus)
    &&& b.decisions@.map_values(|x: DecisionRef| x@) == decisions_spec(node, decisions, focus)
    &&& b.risks@.map_values(|x: RiskRef| x@) == risks_spec(node, risks, focus)
    &&& b.data_handled@.map_values(|x: DataRef| x@) == data_handled_spec(node.data_handled@, dcs)
    &&& b.views@.map_values(|x: ViewRef| x@) == views_spec(views, focus)
}

fn clone_texts(v: &Vec<String>) -> (r: Vec<String>)
    ensures
        texts(r@) == texts(v@),
{
    let mut out: Vec<String> = Vec::new();
    let mut i: usize = 0;
    while i < v.len()
        invariant
            i <= v@.len(),
            out@.len() == i,
            texts(out@) == texts(v@.subrange(0, i as int)),
        decreases v@.len() - i,
    {
        let ghost before = out@;
        out.push(v[i].clone());
        proof {
            assert forall|k: int| 0 <= k < i + 1 implies #[trigger] texts(out@)[k] == texts(
                v@.subrange(0, i + 1),
            )[k] by {
                if k < i {
                    assert(texts(before)[k] == texts(v@.subrange(0, i as int))[k]);
                    assert(out@[k] == before[k]);
                }
            }
            assert(texts(out@) =~= texts(v@.subrange(0, i + 1)));
        }
        i += 1;
    }
    proof {
        assert(v@.subrange(0, v@.len() as int) =~= v@);
    }
    out
}

/// Compute the blast radius for `focus_id`; `None` when no node carries that
/// id. When several nodes carry it, the last one is the focus.
pub fn blast_radius_for_node(focus_id: &str, input: &BlastInputs<'_>) -> (r: Option<BlastRadius>)
    ensures
        match node_index(input.nodes@, focus_id@) {
            None => r is None,
            Some(i) => r is Some && is_blast_radius(
                r->0,
                focus_id@,
                input.nodes@[i],
                input.nodes@,
                input.flows@,
                input.decisions@,
                input.risks@,
                input.data_classes@,
                input.views@,
                input.files@,
            ),
        },
{
    let nodes = input.nodes;
    let fi = match find_node(nodes, focus_id) {
        Some(i) => i,
        None => return None,
    };
    proof {
        lemma_node_index_bounds(nodes@, focus_id@);
    }
    let focus = &nodes[fi];
    let owned = owned_files(focus_id, nodes, input.files);
    let deps = depends_on(focus, nodes);
    let dependents = dependents(focus_id, nodes);
    let flows = related_flows(focus, focus_id, input.flows);
    let decisions = related_decisions(focus, focus_id, input.decisions);
    let risks = related_risks(focus, focus_id, input.risks);
    let data = data_handled(focus, input.data_classes);
    let views = appears_in_views(focus_id, input.views);
    Some(
        BlastRadius {
            node: node_ref(focus_id, nodes),
            owned_files: owned,
            declared_paths: clone_texts(&focus.source_paths),
            depends_on: deps,
            dependents,
            flows,
            decisions,
            risks,
            data_handled: data,
            views,
        },
    )
}

// ─── laws ──────────────────────────────────────────────────────────────────

/// Union law: a blast radius lists each flow, decision and risk the focus
/// participates in exactly once, and the listed ids are exactly the declared
/// cross-references that name an existing item together with the items whose
/// own links name the focus.
pub proof fn lemma_participation_is_union(
    node: Node,
    flows: Seq<Flow>,
    decisions: Seq<Decision>,
    risks: Seq<Risk>,
    focus: Seq<char>,
)
    ensures
        flow_ids_spec(node, flows, focus).no_duplicates(),
        forall|id: Seq<char>|
            flow_ids_spec(node, flows, focus).contains(id) <==> (declared_flows(
                node.related_flows@,
                flows,
            ).contains(id) || touching_flows(flows, focus).contains(id)),
        decision_ids_spec(node, decisions, focus).no_duplicates(),
        forall|id: Seq<char>|
            decision_ids_spec(node, decisions, focus).contains(id) <==> (declared_decisions(
                node.related_decisions@,
                decisions,
            ).contains(id) || naming_decisions(decisions, focus).contains(id)),
        risk_ids_spec(node, risks, focus).no_duplicates(),
        forall|id: Seq<char>|
            risk_ids_spec(node, risks, focus).contains(id) <==> (declared_risks(
                node.known_risks@,
                risks,
            ).contains(id) || naming_risks(risks, focus).contains(id)),
{
    let a = declared_flows(node.related_flows@, flows);
    let b = touching_flows(flows, focus);
    lemma_dedup_first(a + b);
    assert forall|id: Seq<char>| (a + b).contains(id) <==> (a.contains(id) || b.contains(id)) by {
        lemma_concat_contains(a, b, id);
    }
    let a = declared_decisions(node.related_decisions@, decisions);
    let b = naming_decisions(decisions, focus);
    lemma_dedup_first(a + b);
    assert forall|id: Seq<char>| (a + b).contains(id) <==> (a.contains(id) || b.contains(id)) by {
        lemma_concat_contains(a, b, id);
    }
    let a = declared_risks(node.known_risks@, risks);
    let b = naming_risks(risks, focus);
    lemma_dedup_first(a + b);
    assert forall|id: Seq<char>| (a + b).contains(id) <==> (a.contains(id) || b.contains(id)) by {
        lemma_concat_contains(a, b, id);
    }
}



/// A node carrying `id` makes the index find one.
proof fn lemma_node_index_some(nodes: Seq<Node>, id: Seq<char>, j: int)
    requires
        0 <= j < nodes.len(),
        nodes[j].id@ == id,
    ensures
        node_index(nodes, id) is Some,
    decreases nodes.len(),
{
    if nodes.last().id@ != id {
        assert(j < nodes.len() - 1);
        assert(nodes.drop_last()[j] == nodes[j]);
        lemma_node_index_some(nodes.drop_last(), id, j);
    }
}

proof fn lemma_depends_on_members(deps: Seq<String>, nodes: Seq<Node>)
    ensures
        forall|k: int, j: int|
            #![trigger deps[k], nodes[j]]
            0 <= k < deps.len() && 0 <= j < nodes.len() && nodes[j].id@ == deps[k]@ ==> exists|p: int|
                0 <= p < depends_on_spec(deps, nodes).len() && (#[trigger] depends_on_spec(deps, nodes)[p]).0
                    == deps[k]@,
        forall|x: (Seq<char>, Seq<char>, Seq<char>)|
            #[trigger] depends_on_spec(deps, nodes).contains(x) ==> exists|k: int, j: int|
                #![trigger deps[k], nodes[j]]
                0 <= k < deps.len() && 0 <= j < nodes.len() && nodes[j].id@ == deps[k]@ && x == (
                    deps[k]@,
                    nodes[j].name@,
                    nodes[j].node_type@,
                ),
    decreases deps.len(),
{
    if deps.len() > 0 {
        let pre = deps.drop_last();
        lemma_depends_on_members(pre, nodes);
        let rest = depends_on_spec(pre, nodes);
        let d = depends_on_spec(deps, nodes);
        let id = deps.last()@;
        let last = deps.len() - 1;
        assert(deps[last] == deps.last());
        lemma_node_index_bounds(nodes, id);
        assert forall|k: int, j: int|
            #![trigger deps[k], nodes[j]]
            0 <= k < deps.len() && 0 <= j < nodes.len() && nodes[j].id@ == deps[k]@ implies exists|p: int|
                0 <= p < d.len() && (#[trigger] d[p]).0 == deps[k]@ by {
            if k < last {
                assert(pre[k] == deps[k]);
                assert(pre[k] == deps[k] && nodes[j] == nodes[j]);
                let p = choose|p: int| 0 <= p < rest.len() && (#[trigger] rest[p]).0 == pre[k]@;
                assert(d[p] == rest[p]);
            } else {
                lemma_node_index_some(nodes, id, j);
                assert(d[rest.len() as int] == node_ref_spec(id, nodes));
            }
        }
        assert forall|x: (Seq<char>, Seq<char>, Seq<char>)| #[trigger] d.contains(x) implies exists|k: int, j: int|
            #![trigger deps[k], nodes[j]]
            0 <= k < deps.len() && 0 <= j < nodes.len() && nodes[j].id@ == deps[k]@ && x == (
                deps[k]@,
                nodes[j].name@,
                nodes[j].node_type@,
            ) by {
            let p = choose|p: int| 0 <= p < d.len() && d[p] == x;
            if p < rest.len() {
                assert(d[p] == rest[p]);
                assert(rest.contains(x));
                let (k, j) = choose|k: int, j: int|
                    #![trigger pre[k], nodes[j]]
                    0 <= k < pre.len() && 0 <= j < nodes.len() && nodes[j].id@ == pre[k]@ && x == (
                        pre[k]@,
                        nodes[j].name@,
                        nodes[j].node_type@,
                    );
                assert(pre[k] == deps[k]);
                assert(0 <= k < deps.len() && 0 <= j < nodes.len() && nodes[j].id@ == deps[k]@ && x == (
                    deps[k]@,
                    nodes[j].name@,
                    nodes[j].node_type@,
                ));
            } else {
                let j = node_index(nodes, id)->0;
                assert(d[p] == (deps[last]@, nodes[j].name@, nodes[j].node_type@));
            }
        }
    }
}

/// Each entry of `depends_on_spec` is the reference of its own id.
proof fn lemma_depends_on_entry(deps: Seq<String>, nodes: Seq<Node>, p: int)
    requires
        0 <= p < depends_on_spec(deps, nodes).len(),
    ensures
        depends_on_spec(deps, nodes)[p] == node_ref_spec(depends_on_spec(deps, nodes)[p].0, nodes),
    decreases deps.len(),
{
    let rest = depends_on_spec(deps.drop_last(), nodes);
    if p < rest.len() {
        lemma_depends_on_entry(deps.drop_last(), nodes, p);
    }
}

proof fn lemma_views_members(scan: Seq<DiagramView>, focus: Seq<char>)
    ensures
        forall|j: int, k: int|
            #![trigger scan[j].lanes@[k]]
            0 <= j < scan.len() && 0 <= k < scan[j].lanes@.len() && names_id(scan[j].lanes@[k].node_ids@, focus)
                ==> views_spec(scan, focus).contains((scan[j].id@, scan[j].name@, scan[j].view_type@)),
        forall|x: (Seq<char>, Seq<char>, Seq<char>)|
            #[trigger] views_spec(scan, focus).contains(x) ==> exists|j: int, k: int|
                #![trigger scan[j].lanes@[k]]
                0 <= j < scan.len() && 0 <= k < scan[j].lanes@.len() && names_id(scan[j].lanes@[k].node_ids@, focus)
                    && x == (scan[j].id@, scan[j].name@, scan[j].view_type@),
    decreases scan.len(),
{
    if scan.len() > 0 {
        let pre = scan.drop_last();
        lemma_views_members(pre, focus);
        let rest = views_spec(pre, focus);
        let d = views_spec(scan, focus);
        let last = scan.len() - 1;
        assert(scan[last] == scan.last());
        assert forall|j: int, k: int|
            #![trigger scan[j].lanes@[k]]
            0 <= j < scan.len() && 0 <= k < scan[j].lanes@.len() && names_id(scan[j].lanes@[k].node_ids@, focus)
                implies d.contains((scan[j].id@, scan[j].name@, scan[j].view_type@)) by {
            if j < last {
                assert(pre[j] == scan[j]);
                assert(pre[j].lanes@[k] == scan[j].lanes@[k]);
                let p = choose|p: int| 0 <= p < rest.len() && rest[p] == (pre[j].id@, pre[j].name@, pre[j].view_type@);
                assert(d[p] == rest[p]);
            } else {
                assert(view_shows(scan.last(), focus));
                assert(d[rest.len() as int] == (scan[j].id@, scan[j].name@, scan[j].view_type@));
            }
        }
        assert forall|x: (Seq<char>, Seq<char>, Seq<char>)| #[trigger] d.contains(x) implies exists|j: int, k: int|
            #![trigger scan[j].lanes@[k]]
            0 <= j < scan.len() && 0 <= k < scan[j].lanes@.len() && names_id(scan[j].lanes@[k].node_ids@, focus)
                && x == (scan[j].id@, scan[j].name@, scan[j].view_type@) by {
            let p = choose|p: int| 0 <= p < d.len() && d[p] == x;
            if p < rest.len() {
                assert(d[p] == rest[p]);
                assert(rest.contains(x));
                let (j, k) = choose|j: int, k: int|
                    #![trigger pre[j].lanes@[k]]
                    0 <= j < pre.len() && 0 <= k < pre[j].lanes@.len() && names_id(pre[j].lanes@[k].node_ids@, focus)
                        && x == (pre[j].id@, pre[j].name@, pre[j].view_type@);
                assert(pre[j] == scan[j]);
                assert(scan[j].lanes@[k] == pre[j].lanes@[k]);
            } else {
                let v = scan.last();
                let k = choose|k: int| 0 <= k < v.lanes@.len() && names_id((#[trigger] v.lanes@[k]).node_ids@, focus);
                assert(scan[last].lanes@[k] == v.lanes@[k]);
                assert(d[p] == (scan[last].id@, scan[last].name@, scan[last].view_type@));
            }
        }
    }
}

/// The view references of a sequence of `ViewRef`s.
pub open spec fn view_ref_views(v: Seq<ViewRef>) -> Seq<(Seq<char>, Seq<char>, Seq<char>)> {
    v.map_values(|r: ViewRef| r@)
}

/// Blast-radius law: `depends_on` lists every dependency of the focus that
/// names an existing node, and only such dependencies, each with the name
/// and type of a node carrying its id; `views` lists every view with some
/// lane (any lane) whose node ids name the focus, and only such views.
pub proof fn lemma_blast_radius_reaches(
    b: BlastRadius,
    focus: Seq<char>,
    node: Node,
    nodes: Seq<Node>,
    flows: Seq<Flow>,
    decisions: Seq<Decision>,
    risks: Seq<Risk>,
    dcs: Seq<DataClass>,
    views: Seq<DiagramView>,
    files: Seq<FileEntry>,
)
    requires
        is_blast_radius(b, focus, node, nodes, flows, decisions, risks, dcs, views, files),
    ensures
        forall|k: int, j: int|
            #![trigger node.dependencies@[k], nodes[j]]
            0 <= k < node.dependencies@.len() && 0 <= j < nodes.len() && nodes[j].id@
                == node.dependencies@[k]@ ==> node_ref_views(b.depends_on@).contains(
                node_ref_spec(node.dependencies@[k]@, nodes),
            ),
        forall|x: (Seq<char>, Seq<char>, Seq<char>)|
            #[trigger] node_ref_views(b.depends_on@).contains(x) ==> exists|k: int, j: int|
                #![trigger node.dependencies@[k], nodes[j]]
                0 <= k < node.dependencies@.len() && 0 <= j < nodes.len() && nodes[j].id@
                    == node.dependencies@[k]@ && x == (
                    node.dependencies@[k]@,
                    nodes[j].name@,
                    nodes[j].node_type@,
                ),
        forall|j: int, k: int|
            #![trigger views[j].lanes@[k]]
            0 <= j < views.len() && 0 <= k < views[j].lanes@.len() && names_id(views[j].lanes@[k].node_ids@, focus)
                ==> view_ref_views(b.views@).contains(
                (views[j].id@, views[j].name@, views[j].view_type@),
            ),
        forall|x: (Seq<char>, Seq<char>, Seq<char>)|
            #[trigger] view_ref_views(b.views@).contains(x) ==> exists|j: int, k: int|
                #![trigger views[j].lanes@[k]]
                0 <= j < views.len() && 0 <= k < views[j].lanes@.len() && names_id(views[j].lanes@[k].node_ids@, focus)
                    && x == (views[j].id@, views[j].name@, views[j].view_type@),
{
    let deps = node.dependencies@;
    lemma_depends_on_members(deps, nodes);
    assert forall|k: int, j: int|
        #![trigger deps[k], nodes[j]]
        0 <= k < deps.len() && 0 <= j < nodes.len() && nodes[j].id@ == deps[k]@ implies node_ref_views(
            b.depends_on@,
        ).contains(node_ref_spec(deps[k]@, nodes)) by {
        let dd = depends_on_spec(deps, nodes);
        let p = choose|p: int| 0 <= p < dd.len() && (#[trigger] dd[p]).0 == deps[k]@;
        lemma_depends_on_entry(deps, nodes, p);
        assert(dd[p] == node_ref_spec(deps[k]@, nodes));
        assert(node_ref_views(b.depends_on@)[p] == dd[p]);
    }
    lemma_views_members(views, focus);
    assert(view_ref_views(b.views@) =~= b.views@.map_values(|x: ViewRef| x@));
}

} // verus!
