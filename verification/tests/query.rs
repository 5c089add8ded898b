use pyscope::query::filter::SymbolFilter;
use pyscope::model::{
    CodeGraph, Edge, EdgeCertainty, EdgeKind, EdgeSource, Node, NodeKind, Project, Range,
};
use pyscope::query::export::{export, format_name, ExportFormat};
use pyscope::query::find::{find_nodes, levenshtein, require_unique_node, suggest, NodeLookupError};
use pyscope::query::index::QueryIndex;
use pyscope::query::lookup::{inspect, pick_node, search, Lookup};
use pyscope::query::traversal::{adjacent, node_value, shortest_path, walk};

fn node(kind: NodeKind, name: &str, qn: &str, file: Option<&str>) -> Node {
    Node {
        id: format!("{}:{}", kind.as_str(), qn),
        kind,
        name: name.to_string(),
        qualified_name: qn.to_string(),
        file: file.map(|f| f.to_string()),
        range: Some(Range { start_line: 1, end_line: 4 }),
        visibility: None,
        signature: None,
        docs: None,
        metrics: Vec::new(),
    }
}

fn edge(from: &str, to: &str, kind: EdgeKind) -> Edge {
    Edge {
        from: from.to_string(),
        to: to.to_string(),
        kind,
        label: None,
        evidence: None,
        weight: 1,
        source: EdgeSource::Ast,
        certainty: EdgeCertainty::Definite,
        call_style: None,
    }
}

/// main -> load -> parse, main -> parse; a class `Loader` beside them.
fn sample() -> CodeGraph {
    CodeGraph {
        schema_version: 1,
        project: Project { root: "/p".to_string(), packages: Vec::new() },
        nodes: vec![
            node(NodeKind::Function, "main", "app.main", Some("app.py")),
            node(NodeKind::Function, "load", "app.load", Some("app.py")),
            node(NodeKind::Function, "parse", "util.parse", Some("util.py")),
            node(NodeKind::Class, "Loader", "util.Loader", Some("util.py")),
        ],
        edges: vec![
            edge("function:app.main", "function:app.load", EdgeKind::Calls),
            edge("function:app.load", "function:util.parse", EdgeKind::Calls),
            edge("function:app.main", "function:util.parse", EdgeKind::Calls),
        ],
        semantic: None,
        warnings: Vec::new(),
        generated_at_ms: 0,
    }
}

#[test]
fn levenshtein_values() {
    assert_eq!(levenshtein("kitten", "sitting"), 3);
    assert_eq!(levenshtein("", "abc"), 3);
    assert_eq!(levenshtein("same", "same"), 0);
}

#[test]
fn suggestions_are_near_names() {
    let s = suggest("lod", &["load", "parse", "zzzzzzzzzz"], 3);
    assert_eq!(s, "\nDid you mean?\n  • load");
    assert_eq!(suggest("x", &[], 3), "");
}

#[test]
fn search_ignores_case() {
    let g = sample();
    let r = search(&g, "LOAD", 10);
    // `load` (degree 2) before `Loader` (degree 0)
    assert_eq!(r, vec![1, 3]);
    assert_eq!(search(&g, "LOAD", 1), vec![1]);
}

#[test]
fn find_nodes_by_id_name_and_suffix() {
    let g = sample();
    let by_id = find_nodes(&g, "function:app.load");
    assert_eq!(by_id.len(), 1);
    assert_eq!(by_id[0].name, "load");
    let by_name = find_nodes(&g, "parse");
    assert_eq!(by_name[0].qualified_name, "util.parse");
    let by_suffix = find_nodes(&g, "Loader");
    assert_eq!(by_suffix.len(), 1);
    assert!(find_nodes(&g, "missing").is_empty());
}

#[test]
fn unique_lookup_errors() {
    let mut g = sample();
    g.nodes.push(node(NodeKind::Function, "load", "other.load", Some("other.py")));
    match require_unique_node(&g, "load", "symbol") {
        Err(NodeLookupError::Ambiguous(m)) => {
            assert_eq!(m, "symbol `load` is ambiguous, matches: app.load, other.load")
        }
        _ => panic!("expected an ambiguous lookup"),
    }
    match require_unique_node(&g, "mian", "symbol") {
        Err(NodeLookupError::NotFound(m)) => assert!(m.starts_with("symbol `mian` not found")),
        _ => panic!("expected a missing symbol"),
    }
    assert!(require_unique_node(&g, "main", "symbol").is_ok());
}

#[test]
fn pick_and_inspect() {
    let g = sample();
    assert!(matches!(pick_node(&g, "parse"), Lookup::Found(2)));
    assert!(matches!(pick_node(&g, "nothing"), Lookup::NotFound(_)));
    match inspect(&g, "parse") {
        Lookup::Found(v) => {
            assert_eq!(v.node, 2);
            assert_eq!(v.incoming.len(), 2);
            assert_eq!(v.outgoing.len(), 0);
        }
        _ => panic!("expected one node"),
    }
}

#[test]
fn neighbours_and_walk() {
    let g = sample();
    let index = QueryIndex::new(&g);
    let out = adjacent(&index, "function:app.main", true, None, 10);
    assert_eq!(out, vec![(0, 1), (2, 2)]);
    let limited = adjacent(&index, "function:app.main", true, Some("imports"), 10);
    assert!(limited.is_empty());
    let steps = walk(&index, "function:app.main", true, None, 3, 10);
    let reached: Vec<(usize, usize)> = steps.iter().map(|s| (s.depth, s.node)).collect();
    assert_eq!(reached, vec![(1, 1), (1, 2)]);
    let v = node_value(&index, &g.nodes[2]);
    assert_eq!(v.degree, 2);
    assert_eq!(v.node.qualified_name, "util.parse");
}

#[test]
fn shortest_call_path() {
    let g = sample();
    let p = shortest_path(&g, "main", "parse", 5);
    assert!(p.found);
    assert_eq!(p.length, 1);
    assert_eq!(p.ids, vec!["function:app.main".to_string(), "function:util.parse".to_string()]);
    let none = shortest_path(&g, "parse", "main", 5);
    assert!(!none.found);
    let short = shortest_path(&g, "main", "parse", 0);
    assert!(!short.found);
}

#[test]
fn export_text_formats() {
    let mut g = sample();
    g.nodes.truncate(2);
    g.edges.truncate(1);
    assert_eq!(format_name(ExportFormat::Dot), "dot");
    let dot = export(&g, ExportFormat::Dot).unwrap();
    assert_eq!(
        dot,
        "digraph pyscope {\n  rankdir=LR;\n  \"function_app_main\" [label=\"main [function]\"];\n  \"function_app_load\" [label=\"load [function]\"];\n  \"function_app_main\" -> \"function_app_load\" [label=\"calls\"];\n}\n"
    );
    let mermaid = export(&g, ExportFormat::Mermaid).unwrap();
    assert_eq!(
        mermaid,
        "graph LR\n  function_app_main[\"main [function]\"]\n  function_app_load[\"load [function]\"]\n  function_app_main -->|calls| function_app_load\n"
    );
    assert!(export(&g, ExportFormat::Json).is_none());
}

#[test]
fn walk_reaches_every_node_within_depth() {
    let mut g = sample();
    g.edges.push(edge("function:util.parse", "class:util.Loader", EdgeKind::Calls));
    let index = QueryIndex::new(&g);
    // parse is one step away from main, so Loader is two steps away
    let two = walk(&index, "function:app.main", true, Some("calls"), 2, 10);
    let reached: Vec<(usize, usize)> = two.iter().map(|s| (s.depth, s.node)).collect();
    assert_eq!(reached, vec![(1, 1), (1, 2), (2, 3)]);
    let one = walk(&index, "function:app.main", true, Some("calls"), 1, 10);
    let reached: Vec<(usize, usize)> = one.iter().map(|s| (s.depth, s.node)).collect();
    assert_eq!(reached, vec![(1, 1), (1, 2)]);
    // going inbound from Loader finds every caller chain back to main
    let back = walk(&index, "class:util.Loader", false, None, 3, 10);
    let nodes: Vec<usize> = back.iter().map(|s| s.node).collect();
    assert_eq!(nodes, vec![2, 1, 0]);
}

#[test]
fn visibility_filter_counts_unmarked_names_as_public() {
    let mut g = sample();
    g.nodes[1].visibility = Some("private".to_string());
    let index = QueryIndex::new(&g);
    let public = SymbolFilter {
        visibility: Some("public".to_string()),
        no_docs: false,
        dead: false,
        test_only: false,
        min_callers: None,
        max_callers: None,
        min_degree: None,
        max_degree: None,
    };
    assert!(public.matches(&g.nodes[0], &index));
    assert!(!public.matches(&g.nodes[1], &index));
    let private = SymbolFilter { visibility: Some("private".to_string()), ..public };
    assert!(!private.matches(&g.nodes[0], &index));
    assert!(private.matches(&g.nodes[1], &index));
}

#[test]
fn walk_returns_at_most_limit_steps() {
    let g = sample();
    let index = QueryIndex::new(&g);
    let all = walk(&index, "function:app.main", true, None, 3, 10);
    assert_eq!(all.len(), 2);
    let one = walk(&index, "function:app.main", true, None, 3, 1);
    assert_eq!(one.len(), 1);
    assert_eq!(one[0].node, 1);
    let none = walk(&index, "function:app.main", true, None, 3, 0);
    assert!(none.is_empty());
}

#[test]
fn edit_distance_laws_on_examples() {
    assert_eq!(levenshtein("flaw", "lawn"), levenshtein("lawn", "flaw"));
    assert_eq!(levenshtein("abc", ""), 3);
    assert_eq!(levenshtein("", "abc"), 3);
    assert_eq!(levenshtein("abc", "abc"), 0);
    assert!(levenshtein("ab", "abcd") >= 2);
}
