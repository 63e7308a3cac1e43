use architext_viewer::graph::{
    format_signature, reach_badges, Direction, FilterState, GraphIndex, Reach,
};
use architext_viewer::models::{
    CodeGraphFunction, CodeGraphParam, CodeGraphResult, CodeGraphSignature,
};

/// A connected scale-free-ish graph: `n` nodes, each new node attaching to
/// `m` earlier ones (deterministic preferential attachment).
fn interconnected(n: usize, m: usize) -> (usize, Vec<(usize, usize)>) {
    let mut edges = Vec::new();
    let mut targets: Vec<usize> = vec![0];
    for v in 1..n {
        for k in 0..m.min(targets.len()) {
            let t = targets[(v * 7 + k * 13) % targets.len()];
            if t != v {
                edges.push((t, v));
                targets.push(t);
            }
        }
        targets.push(v);
    }
    (n, edges)
}

fn function(
    exported: bool,
    reachable: bool,
    prod: bool,
    test: bool,
    root: bool,
    generated: bool,
) -> CodeGraphFunction {
    CodeGraphFunction {
        id: "f".to_string(),
        symbol: "F".to_string(),
        pkg: "p".to_string(),
        file: "f.go".to_string(),
        line: 1,
        kind: "func".to_string(),
        exported,
        test,
        root,
        generated,
        reachable,
        prod_reachable: prod,
        signature: CodeGraphSignature { params: vec![], results: vec![] },
        doc: None,
        fan_in: 0,
        fan_out: 0,
    }
}

#[test]
fn bfs_from_roots_orders_by_call_depth() {
    let g = GraphIndex::from_edges(4, &[(0, 1), (1, 2), (0, 3)]);
    let layers = g.bfs(Direction::Outbound, &[0]);
    assert_eq!(layers[0], vec![0]);
    assert_eq!(layers[1], vec![1, 3]);
    assert_eq!(layers[2], vec![2]);
}

#[test]
fn bfs_inbound_traverses_edges_backwards() {
    let g = GraphIndex::from_edges(4, &[(0, 1), (1, 2), (0, 3)]);
    let layers = g.bfs(Direction::Inbound, &[2]);
    assert_eq!(layers[0], vec![2]);
    assert_eq!(layers[1], vec![1]);
    assert_eq!(layers[2], vec![0]);
}

#[test]
fn bfs_terminates_on_cycles() {
    let g = GraphIndex::from_edges(3, &[(0, 1), (1, 2), (2, 0)]);
    let layers = g.bfs(Direction::Outbound, &[0]);
    let total: usize = layers.iter().map(|l| l.len()).sum();
    assert_eq!(total, 3, "each node visited exactly once");
}

#[test]
fn bfs_handles_1000_interconnected_nodes() {
    let (n, edges) = interconnected(1000, 3);
    let g = GraphIndex::from_edges(n, &edges);
    let layers = g.bfs(Direction::Outbound, &[0]);
    let total: usize = layers.iter().map(|l| l.len()).sum();
    assert!(total > 900, "expected most of the graph reachable, got {total}");
    assert!(layers.len() > 2, "expected real depth, got {}", layers.len());
}

#[test]
fn bfs_seeds_are_deduplicated_and_out_of_range_seeds_dropped() {
    let g = GraphIndex::from_edges(3, &[(0, 1), (1, 2)]);
    let layers = g.bfs(Direction::Outbound, &[2, 9, 0, 2]);
    assert_eq!(layers, vec![vec![2, 0], vec![1]]);
    assert!(g.bfs(Direction::Outbound, &[7]).is_empty());
    assert!(g.bfs(Direction::Outbound, &[]).is_empty());
}

#[test]
fn bfs_layer_order_follows_frontier_then_edge_order() {
    // Seeds 3 then 0; 3 reaches 5 and 4 (in edge order), 0 reaches 4 (already
    // taken) and 1; the next layer expands 5, then 4, then 1.
    let g = GraphIndex::from_edges(7, &[(3, 5), (3, 4), (0, 4), (0, 1), (1, 6), (4, 2), (5, 2)]);
    let layers = g.bfs(Direction::Outbound, &[3, 0]);
    assert_eq!(layers, vec![vec![3, 0], vec![5, 4, 1], vec![2, 6]]);
}

#[test]
fn out_of_range_edges_are_dropped_and_degrees_counted() {
    let g = GraphIndex::from_edges(3, &[(0, 1), (0, 5), (2, 1), (1, 1)]);
    assert_eq!(g.node_count(), 3);
    assert_eq!(g.out_degree(0), 1);
    assert_eq!(g.in_degree(1), 3);
    assert_eq!(g.out_degree(1), 1);
    assert_eq!(g.degree(1), 4);
    assert_eq!(g.degree(2), 1);
}

#[test]
fn default_filter_culls_non_prod_reachable() {
    let f = FilterState::default();
    assert!(f.show_prod_reachable);
    assert!(!f.show_dead, "dead-code candidates are hidden by default");
    assert!(!f.show_test_only);
    assert!(!f.show_generated);
}

#[test]
fn visible_nodes_matches_any_shown_class() {
    let prod = vec![true, false, false, false, false, false];
    let dead = vec![false, true, false, false, false, false];
    let public = vec![false, false, false, false, false, true];
    let test_only = vec![false, false, true, false, false, false];
    let generated = vec![false, false, false, true, false, false];

    let default_visible =
        FilterState::default().visible_nodes(&prod, &dead, &public, &test_only, &generated);
    assert_eq!(default_visible, vec![true, false, false, false, false, false]);

    let show_all = FilterState {
        show_prod_reachable: true,
        show_dead: true,
        show_public_unreferenced: true,
        show_test_only: true,
        show_generated: true,
        show_static: true,
        show_dynamic: true,
    };
    let all_visible = show_all.visible_nodes(&prod, &dead, &public, &test_only, &generated);
    assert_eq!(all_visible, vec![true, true, true, true, false, true]);
}

#[test]
fn public_unreferenced_has_its_own_toggle_so_narrowing_dead_hides_nothing() {
    let public = vec![true];
    let none = vec![false];
    let mut f = FilterState { show_prod_reachable: false, ..FilterState::default() };
    assert_eq!(f.visible_nodes(&none, &none, &public, &none, &none), vec![false]);
    f.show_dead = true;
    assert_eq!(
        f.visible_nodes(&none, &none, &public, &none, &none),
        vec![false],
        "the dead toggle must not drag the public class back in"
    );
    f.show_public_unreferenced = true;
    assert_eq!(f.visible_nodes(&none, &none, &public, &none, &none), vec![true]);
}

#[test]
fn edge_visible_respects_static_and_dynamic_flags() {
    let mut f = FilterState::default();
    assert!(f.edge_visible(false) && f.edge_visible(true), "both kinds shown by default");
    f.show_dynamic = false;
    assert!(f.edge_visible(false) && !f.edge_visible(true));
}

#[test]
fn code_graph_graph_reach_badges_follow_the_contract_predicates() {
    let f = |reachable, prod, test, root, generated| {
        reach_badges(&function(false, reachable, prod, test, root, generated))
    };
    assert!(f(false, false, false, false, false).contains(&Reach::Dead));
    assert!(!f(false, false, false, true, false).contains(&Reach::Dead), "a root is never dead");
    assert!(!f(false, false, false, false, true).contains(&Reach::Dead), "generated is never dead");
    assert!(f(true, false, false, false, false).contains(&Reach::TestOnly));
    assert!(!f(true, false, true, false, false).contains(&Reach::TestOnly), "a test is not test-only");
    assert!(!f(true, true, false, false, false).contains(&Reach::TestOnly), "prod-reachable is not test-only");
    assert!(f(true, true, false, true, false).contains(&Reach::Root));
    assert!(f(true, true, false, false, true).contains(&Reach::Generated));
}

#[test]
fn an_exported_unreachable_function_is_not_badged_dead() {
    let mut f = function(true, false, false, false, false, false);
    f.id = "s".to_string();
    f.symbol = "entries_map::serialize".to_string();
    f.pkg = "routing".to_string();
    f.file = "m.rs".to_string();
    assert!(!reach_badges(&f).contains(&Reach::Dead), "a public function is never asserted dead");
    assert_eq!(reach_badges(&f), vec![Reach::PublicUnreferenced], "it still gets a class");
}

#[test]
fn root_and_generated_still_win_over_the_public_class() {
    let f = |root, generated| {
        let mut g = function(true, false, false, false, root, generated);
        g.file = "f.rs".to_string();
        reach_badges(&g)
    };
    assert!(!f(true, false).contains(&Reach::PublicUnreferenced), "a root is not unreferenced");
    assert!(!f(false, true).contains(&Reach::PublicUnreferenced), "generated stays excluded");
}

#[test]
fn reach_badges_come_in_badge_order() {
    assert_eq!(
        reach_badges(&function(false, false, false, false, true, true)),
        vec![Reach::Root, Reach::Generated]
    );
    assert_eq!(reach_badges(&function(false, true, true, false, false, false)), vec![]);
}

#[test]
fn code_graph_graph_signature_renders_named_and_unnamed_params() {
    let sig = CodeGraphSignature {
        params: vec![
            CodeGraphParam { name: Some("a".to_string()), param_type: "int".to_string() },
            CodeGraphParam { name: None, param_type: "string".to_string() },
        ],
        results: vec![
            CodeGraphResult { result_type: "int".to_string() },
            CodeGraphResult { result_type: "error".to_string() },
        ],
    };
    assert_eq!(format_signature(&sig), "(a int, string) (int, error)");

    let empty = CodeGraphSignature { params: vec![], results: vec![] };
    assert_eq!(format_signature(&empty), "()");

    let one = CodeGraphSignature {
        params: vec![],
        results: vec![CodeGraphResult { result_type: "error".to_string() }],
    };
    assert_eq!(format_signature(&one), "() error");
}

#[test]
fn code_graph_graph_every_badge_tooltip_says_it_is_a_candidate_for_the_inferred_ones() {
    for r in [Reach::Dead, Reach::TestOnly] {
        let t = r.tooltip().to_lowercase();
        assert!(t.contains("candidate"), "{:?} tooltip must say candidate: {t}", r);
        assert!(t.contains("reflection"), "{:?} tooltip must name a blind spot: {t}", r);
    }
    for r in [Reach::Root, Reach::Generated, Reach::TestOnly, Reach::Dead, Reach::PublicUnreferenced] {
        assert!(!r.label().is_empty());
        assert!(r.color_var().starts_with("var(--reach-"), "{:?} needs its own scale", r);
    }
    assert_eq!(Reach::PublicUnreferenced.label(), "public, unreferenced");
    assert_eq!(Reach::TestOnly.color_var(), "var(--reach-test-only)");
}

#[test]
fn inbound_bfs_matches_outbound_bfs_on_reversed_edges() {
    let edges = [(0, 1), (1, 2), (0, 3), (3, 2), (2, 4), (4, 0), (5, 9)];
    let rev: Vec<(usize, usize)> = edges.iter().map(|&(a, b)| (b, a)).collect();
    let g = GraphIndex::from_edges(6, &edges);
    let r = GraphIndex::from_edges(6, &rev);
    for seeds in [vec![2], vec![4, 1], vec![0, 5]] {
        assert_eq!(g.bfs(Direction::Inbound, &seeds), r.bfs(Direction::Outbound, &seeds));
    }
}
