use pyscope::ci::check;
use pyscope::model::{
    CodeGraph, Edge, EdgeCertainty, EdgeKind, EdgeSource, Node, NodeKind, Project,
};
use pyscope::nav::health::{health, is_test_file, top_module, truncate};
use pyscope::nav::quality::quality;

fn node(kind: NodeKind, name: &str, file: &str, vis: Option<&str>) -> Node {
    Node {
        id: format!("{}:{}", kind.as_str(), name),
        kind,
        name: name.to_string(),
        qualified_name: name.to_string(),
        file: Some(file.to_string()),
        range: None,
        visibility: vis.map(|v| v.to_string()),
        signature: Some("(x)".to_string()),
        docs: None,
        metrics: Vec::new(),
    }
}

fn call(from: &str, to: &str) -> Edge {
    Edge {
        from: from.to_string(),
        to: to.to_string(),
        kind: EdgeKind::Calls,
        label: None,
        evidence: None,
        weight: 1,
        source: EdgeSource::Ast,
        certainty: EdgeCertainty::Definite,
        call_style: None,
    }
}

/// Two modules calling each other, one dead public symbol, one warning.
fn sample() -> CodeGraph {
    CodeGraph {
        schema_version: 1,
        project: Project { root: "/p".to_string(), packages: Vec::new() },
        nodes: vec![
            node(NodeKind::File, "a/x.py", "a/x.py", None),
            node(NodeKind::Function, "f", "a/x.py", Some("public")),
            node(NodeKind::Function, "g", "b/y.py", Some("pub")),
            node(NodeKind::Function, "h", "c/z.py", Some("public")),
            node(NodeKind::Function, "t", "pkg/tests/t.py", Some("public")),
        ],
        edges: vec![call("function:f", "function:g"), call("function:g", "function:f")],
        semantic: None,
        warnings: vec!["parse failed".to_string()],
        generated_at_ms: 0,
    }
}

#[test]
fn health_helpers() {
    assert_eq!(top_module("src/pkg/a.py"), "pkg");
    assert_eq!(top_module("a.py"), "a.py");
    assert!(is_test_file("pkg/tests/x.py"));
    assert!(is_test_file("pkg/a_test.py"));
    assert!(!is_test_file("src/a.py"));
    assert_eq!(truncate("abcdef", 3), "abc...");
    assert_eq!(truncate("ab", 3), "ab");
}

#[test]
fn health_score_and_findings() {
    let g = sample();
    let h = health(&g, 10);
    assert_eq!(h.dead_public, vec![3]);
    assert_eq!(h.cycles.len(), 2);
    assert_eq!(h.cycles[0].len(), 3);
    assert!(h.god_modules.is_empty());
    assert!(h.hot_symbols.is_empty());
    assert_eq!(h.score, 100 - 2 * 5 - 1 - 2);
    assert_eq!(h.label, "high");
}

#[test]
fn ci_thresholds() {
    let g = sample();
    let r = check(&g, 90, 0, 0, 5);
    assert!(!r.passed);
    assert_eq!(r.checks.len(), 4);
    assert_eq!(r.checks[0].name, "min_health");
    assert_eq!(r.checks[0].actual, 87);
    assert_eq!(r.checks[0].threshold, 90);
    assert!(!r.checks[0].passed);
    assert!(!r.checks[1].passed);
    assert!(r.checks[2].passed);
    assert!(r.checks[3].passed);
    assert_eq!(r.passed_count, 2);
    assert_eq!(r.failed_count, 2);
    assert_eq!(r.total, 4);
    assert_eq!(r.health_label, "high");
    let ok = check(&g, 50, 5, 5, 5);
    assert!(ok.passed);
}

#[test]
fn quality_counts() {
    let mut g = sample();
    g.nodes[1].docs = Some("Does f.".to_string());
    g.nodes[2].signature = Some("   ".to_string());
    let q = quality(&g);
    assert_eq!(q.total_nodes, 5);
    assert_eq!(q.total_edges, 2);
    assert_eq!(q.definite_edges, 2);
    assert_eq!(q.files_indexed, 1);
    assert_eq!(q.files_with_symbols, 4);
    assert_eq!(q.symbol_nodes, 4);
    assert_eq!(q.nodes_with_docs, 1);
    assert_eq!(q.nodes_with_signature, 3);
}
