use transitive_frontier::graph::{Edge, Graph, Node};
use transitive_frontier::report::{FrontierEntry, Report};
use transitive_frontier::resolve::{resolve_frontier, resolve_target, FrontierError};

fn node(id: &str, name: &str, version: &str, in_workspace: bool) -> Node {
    Node {
        id: id.to_string(),
        name: name.to_string(),
        version: version.to_string(),
        in_workspace,
    }
}

/// The example scenario: A(ws) -> B(ws) -> C(ext) -> D(ext, "target").
fn chain_graph() -> Graph {
    Graph {
        nodes: vec![
            node("id-A", "A", "1.0.0", true),
            node("id-B", "B", "1.0.0", true),
            node("id-C", "C", "0.3.0", false),
            node("id-D", "target", "2.0.0", false),
        ],
        edges: vec![
            Edge { from: 0, to: 1 },
            Edge { from: 1, to: 2 },
            Edge { from: 2, to: 3 },
        ],
    }
}

fn entries(report: &Report) -> Vec<(String, Vec<String>)> {
    report
        .frontier
        .iter()
        .map(|e: &FrontierEntry| (e.source.clone(), e.deps.clone()))
        .collect()
}

#[test]
fn chain_reports_single_boundary_edge() {
    let g = chain_graph();
    assert!(g.check_wf());
    let report = resolve_frontier(&g, "id-D", &Vec::new()).unwrap();
    assert_eq!(report.target_display, "target 2.0.0");
    assert_eq!(
        entries(&report),
        vec![("B".to_string(), vec!["C 0.3.0".to_string()])]
    );
}

#[test]
fn skip_list_prunes_everything_upstream() {
    let g = chain_graph();
    let skip = vec!["C".to_string()];
    let report = resolve_frontier(&g, "id-D", &skip).unwrap();
    // B -> C is inadmissible, so B and A never enter the closure and the
    // remaining closure {C, D} holds no boundary-crossing edge.
    assert_eq!(report.target_display, "target 2.0.0");
    assert!(report.frontier.is_empty());
}

#[test]
fn repeated_invocations_are_identical() {
    let g = chain_graph();
    let skip = vec!["nothing-matches-this".to_string()];
    let first = resolve_frontier(&g, "id-D", &skip).unwrap();
    let second = resolve_frontier(&g, "id-D", &skip).unwrap();
    assert_eq!(first.target_display, second.target_display);
    assert_eq!(entries(&first), entries(&second));
}

#[test]
fn internal_and_external_edges_are_never_reported() {
    // ws -> ws and ext -> ext edges must not appear, whichever side the
    // target is on.
    let g = Graph {
        nodes: vec![
            node("id-w1", "w1", "0.1.0", true),
            node("id-w2", "w2", "0.1.0", true),
            node("id-x1", "x1", "0.2.0", false),
            node("id-x2", "x2", "0.2.0", false),
        ],
        edges: vec![
            Edge { from: 0, to: 1 }, // ws -> ws
            Edge { from: 1, to: 2 }, // ws -> ext (the only crossing)
            Edge { from: 2, to: 3 }, // ext -> ext
        ],
    };
    let report = resolve_frontier(&g, "id-x2", &Vec::new()).unwrap();
    assert_eq!(
        entries(&report),
        vec![("w2".to_string(), vec!["x1 0.2.0".to_string()])]
    );
}

#[test]
fn edges_reachable_only_through_pruned_node_vanish() {
    // w -> p -> t and p is pruned: the crossing w -> p must not appear even
    // though w would cross the boundary, because traversal never reaches w.
    let g = Graph {
        nodes: vec![
            node("id-w", "w", "1.0.0", true),
            node("id-prune-me", "p", "1.0.0", false),
            node("id-t", "t", "1.0.0", false),
        ],
        edges: vec![Edge { from: 0, to: 1 }, Edge { from: 1, to: 2 }],
    };
    let report = resolve_frontier(&g, "id-t", &vec!["prune-me".to_string()]).unwrap();
    assert!(report.frontier.is_empty());
}

#[test]
fn diamond_keeps_node_with_alternate_admissible_path() {
    // a -> b -> t and a -> c -> t; pruning b removes the a -> b crossing,
    // but a stays in the closure via c and a -> c is still reported.
    let g = Graph {
        nodes: vec![
            node("id-a", "a", "1.0.0", true),
            node("id-b", "b", "1.5.0", false),
            node("id-c", "c", "2.0.0", false),
            node("id-t", "t", "3.0.0", false),
        ],
        edges: vec![
            Edge { from: 0, to: 1 },
            Edge { from: 1, to: 3 },
            Edge { from: 0, to: 2 },
            Edge { from: 2, to: 3 },
        ],
    };
    let full = resolve_frontier(&g, "id-t", &Vec::new()).unwrap();
    assert_eq!(
        entries(&full),
        vec![(
            "a".to_string(),
            vec!["b 1.5.0".to_string(), "c 2.0.0".to_string()]
        )]
    );
    let pruned = resolve_frontier(&g, "id-t", &vec!["id-b".to_string()]).unwrap();
    assert_eq!(
        entries(&pruned),
        vec![("a".to_string(), vec!["c 2.0.0".to_string()])]
    );
}

#[test]
fn deps_with_same_source_accumulate_in_one_entry() {
    // Two crossings out of the same workspace package group under one key,
    // in discovery order.
    let g = Graph {
        nodes: vec![
            node("id-w", "w", "1.0.0", true),
            node("id-x", "x", "0.1.0", false),
            node("id-y", "y", "0.2.0", false),
            node("id-t", "t", "9.9.9", false),
        ],
        edges: vec![
            Edge { from: 0, to: 1 },
            Edge { from: 0, to: 2 },
            Edge { from: 1, to: 3 },
            Edge { from: 2, to: 3 },
        ],
    };
    let report = resolve_frontier(&g, "id-t", &Vec::new()).unwrap();
    assert_eq!(
        entries(&report),
        vec![(
            "w".to_string(),
            vec!["x 0.1.0".to_string(), "y 0.2.0".to_string()]
        )]
    );
}

#[test]
fn source_names_are_dash_normalized_in_report_keys() {
    let g = Graph {
        nodes: vec![
            node("id-my_tool", "my_tool", "1.0.0", true),
            node("id-dep", "dep", "0.1.0", false),
        ],
        edges: vec![Edge { from: 0, to: 1 }],
    };
    let report = resolve_frontier(&g, "id-dep", &Vec::new()).unwrap();
    assert_eq!(
        entries(&report),
        vec![("my-tool".to_string(), vec!["dep 0.1.0".to_string()])]
    );
}

#[test]
fn zero_matches_fail_with_empty_candidate_list() {
    let g = chain_graph();
    match resolve_frontier(&g, "no-such-package", &Vec::new()) {
        Err(FrontierError::AmbiguousTarget { matches }) => assert!(matches.is_empty()),
        Ok(_) => panic!("expected AmbiguousTarget"),
    }
}

#[test]
fn several_matches_fail_with_full_candidate_list() {
    let g = chain_graph();
    // "id-" occurs in every identifier.
    match resolve_frontier(&g, "id-", &Vec::new()) {
        Err(FrontierError::AmbiguousTarget { matches }) => {
            assert_eq!(
                matches,
                vec![
                    "id-A".to_string(),
                    "id-B".to_string(),
                    "id-C".to_string(),
                    "id-D".to_string()
                ]
            );
        }
        Ok(_) => panic!("expected AmbiguousTarget"),
    }
}

#[test]
fn target_selection_is_by_containment_not_prefix() {
    let g = chain_graph();
    // "d-D" is an inner substring of "id-D" only.
    let t = resolve_target(&g, "d-D").unwrap();
    assert_eq!(t, 3);
}

#[test]
fn target_selection_is_case_sensitive() {
    let g = chain_graph();
    match resolve_target(&g, "ID-D") {
        Err(FrontierError::AmbiguousTarget { matches }) => assert!(matches.is_empty()),
        Ok(_) => panic!("expected AmbiguousTarget"),
    }
}

#[test]
fn workspace_target_is_not_special_cased() {
    // Target inside the workspace: the crossing ext -> ws into the target is
    // reported like any other.
    let g = Graph {
        nodes: vec![
            node("id-ext", "ext", "1.0.0", false),
            node("id-ws", "ws", "2.0.0", true),
        ],
        edges: vec![Edge { from: 0, to: 1 }],
    };
    let report = resolve_frontier(&g, "id-ws", &Vec::new()).unwrap();
    assert_eq!(report.target_display, "ws 2.0.0");
    assert_eq!(
        entries(&report),
        vec![("ext".to_string(), vec!["ws 2.0.0".to_string()])]
    );
}

#[test]
fn check_wf_rejects_out_of_range_edges() {
    let g = Graph {
        nodes: vec![node("id-a", "a", "1.0.0", true)],
        edges: vec![Edge { from: 0, to: 1 }],
    };
    assert!(!g.check_wf());
    let ok = Graph {
        nodes: vec![node("id-a", "a", "1.0.0", true)],
        edges: vec![],
    };
    assert!(ok.check_wf());
}
