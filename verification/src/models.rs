//! The dataset the viewer reads, held as plain values: the architecture
//! documents (nodes, flows, views, ...) and the `magma-code-graph/1` code-graph
//! document. Parsing from JSON happens outside the library; these types carry
//! exactly the fields the library's logic reads.
use vstd::prelude::*;

verus! {

// ─── architecture documents ────────────────────────────────────────────────

/// An architecture node (`nodes.json`).
#[derive(Debug, Clone, PartialEq, Eq)]
pub struct Node {
    pub id: String,
    pub node_type: String,
    pub name: String,
    pub summary: Option<String>,
    pub owner: Option<String>,
    pub dependencies: Vec<String>,
    pub source_paths: Vec<String>,
    pub related_flows: Vec<String>,
    pub related_decisions: Vec<String>,
    pub known_risks: Vec<String>,
    pub data_handled: Vec<String>,
}

/// One ordered step of a flow.
#[derive(Debug, Clone, PartialEq, Eq)]
pub struct FlowStep {
    pub id: String,
    pub from: String,
    pub to: String,
    pub action: String,
    pub summary: Option<String>,
    pub kind: Option<String>,
    pub outcome: Option<String>,
    pub return_of: Option<String>,
}

/// An ordered flow (`flows.json`).
#[derive(Debug, Clone, PartialEq, Eq)]
pub struct Flow {
    pub id: String,
    pub name: String,
    pub status: Option<String>,
    pub summary: Option<String>,
    pub trigger: Option<String>,
    pub steps: Vec<FlowStep>,
}

/// An architecture decision (`decisions.json`).
#[derive(Debug, Clone, PartialEq, Eq)]
pub struct Decision {
    pub id: String,
    pub title: String,
    pub status: Option<String>,
    pub context: Option<String>,
    pub decision: Option<String>,
    pub related_nodes: Vec<String>,
}

/// A known risk (`risks.json`).
#[derive(Debug, Clone, PartialEq, Eq)]
pub struct Risk {
    pub id: String,
    pub title: String,
    pub category: Option<String>,
    pub severity: Option<String>,
    pub status: Option<String>,
    pub summary: Option<String>,
    pub related_nodes: Vec<String>,
}

/// A data class (`data-classification.json`).
#[derive(Debug, Clone, PartialEq, Eq)]
pub struct DataClass {
    pub id: String,
    pub name: String,
    pub sensitivity: Option<String>,
    pub handling: Option<String>,
}

/// One lane of a view: the nodes drawn in it.
#[derive(Debug, Clone, PartialEq, Eq)]
pub struct Lane {
    pub id: String,
    pub name: Option<String>,
    pub node_ids: Vec<String>,
}

/// A projection of the model (`views.json`).
#[derive(Debug, Clone, PartialEq, Eq)]
pub struct DiagramView {
    pub id: String,
    pub name: String,
    pub view_type: String,
    pub summary: Option<String>,
    pub scope_node_id: Option<String>,
    pub lanes: Vec<Lane>,
}

/// One file of the live repository listing.
#[derive(Debug, Clone, PartialEq, Eq)]
pub struct FileEntry {
    pub path: String,
    pub size: Option<u64>,
    pub mtime: Option<u64>,
}

/// What a note is attached to: an element kind (`node`, `view`, `flow`) and
/// its id.
#[derive(Debug, Clone, PartialEq, Eq)]
pub struct NoteTarget {
    pub kind: String,
    pub id: String,
}

/// A user annotation (`notes.json`); timestamps are ISO 8601 strings.
#[derive(Debug, Clone, PartialEq, Eq)]
pub struct Note {
    pub id: String,
    pub target: NoteTarget,
    pub category: String,
    pub body: String,
    pub author: Option<String>,
    pub created_at: String,
    pub updated_at: String,
}

// ─── the code-graph document ───────────────────────────────────────────────

/// One parameter of a function signature (`name` is absent for unnamed ones).
#[derive(Debug, Clone, PartialEq, Eq)]
pub struct CodeGraphParam {
    pub name: Option<String>,
    pub param_type: String,
}

/// One result of a function signature.
#[derive(Debug, Clone, PartialEq, Eq)]
pub struct CodeGraphResult {
    pub result_type: String,
}

/// A function signature: parameters and results, in order.
#[derive(Debug, Clone, PartialEq, Eq)]
pub struct CodeGraphSignature {
    pub params: Vec<CodeGraphParam>,
    pub results: Vec<CodeGraphResult>,
}

/// One function of the code graph with the producer's reachability flags.
#[derive(Debug, Clone, PartialEq, Eq)]
pub struct CodeGraphFunction {
    pub id: String,
    pub symbol: String,
    pub pkg: String,
    pub file: String,
    pub line: u32,
    pub kind: String,
    pub exported: bool,
    pub test: bool,
    pub root: bool,
    pub generated: bool,
    pub reachable: bool,
    pub prod_reachable: bool,
    pub signature: CodeGraphSignature,
    pub doc: Option<String>,
    pub fan_in: u32,
    pub fan_out: u32,
}

/// One call edge between two functions; `kind` is `static` or `dynamic`.
#[derive(Debug, Clone, PartialEq, Eq)]
pub struct CodeGraphCall {
    pub from: String,
    pub to: String,
    pub site_file: String,
    pub site_line: u32,
    pub kind: String,
}

/// The per-module function counts.
#[derive(Debug, Clone, Copy, PartialEq, Eq)]
pub struct CodeGraphCounts {
    pub functions: u32,
    pub dead: u32,
    pub test_only: u32,
}

/// One module (package) of the code graph.
#[derive(Debug, Clone, PartialEq, Eq)]
pub struct CodeGraphModule {
    pub id: String,
    pub pkg: String,
    pub function_ids: Vec<String>,
    pub counts: CodeGraphCounts,
    pub fan_in: u32,
    pub fan_out: u32,
}

/// A module-to-module edge aggregating `count` function calls.
#[derive(Debug, Clone, PartialEq, Eq)]
pub struct CodeGraphModuleCall {
    pub from: String,
    pub to: String,
    pub count: u32,
    pub has_dynamic: bool,
}

/// A limitation the producer discloses about its own analysis.
#[derive(Debug, Clone, PartialEq, Eq)]
pub struct CodeGraphLimitation {
    pub id: String,
    pub scope: String,
    pub attribution: String,
    pub description: String,
    pub effect: String,
    pub evidenced_by: Option<String>,
}

/// The producer's own measurements of the graph. `root_percent` is the share
/// of nodes that are roots as the text of a whole percentage: the
/// document's `root_ratio` times 100, printed with no decimals.
#[derive(Debug, Clone, PartialEq, Eq)]
pub struct CodeGraphDisclosure {
    pub nodes: Option<u64>,
    pub roots: Option<u64>,
    pub generated: Option<u64>,
    pub dynamic_edges: Option<u64>,
    pub root_percent: Option<String>,
}

/// The whole code-graph document.
#[derive(Debug, Clone, PartialEq, Eq)]
pub struct CodeGraph {
    pub contract_version: String,
    pub generator: String,
    pub language: String,
    pub module: String,
    pub sha: String,
    pub tree: String,
    pub fidelity: String,
    pub computable: bool,
    pub executed_target_code: Option<bool>,
    pub not_computable_reason: Option<String>,
    pub functions: Option<Vec<CodeGraphFunction>>,
    pub calls: Option<Vec<CodeGraphCall>>,
    pub modules: Option<Vec<CodeGraphModule>>,
    pub module_calls: Option<Vec<CodeGraphModuleCall>>,
    pub limitations: Vec<CodeGraphLimitation>,
    pub disclosure: Option<CodeGraphDisclosure>,
}

} // verus!
