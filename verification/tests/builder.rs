use pyscope::analyzer::builder::Builder;
use pyscope::model::{EdgeCertainty, EdgeKind, EdgeSource, NodeKind};

#[test]
fn test_builder_new() {
    let b = Builder::new();
    assert!(b.nodes.is_empty());
    assert!(b.edges.is_empty());
    assert!(b.pending.is_empty());
    assert!(b.warnings.is_empty());
}

#[test]
fn test_add_node_unique() {
    let mut b = Builder::new();
    let id = b.add_node(
        NodeKind::Function,
        "foo",
        "pkg.mod.foo",
        Some("mod.py"),
        1,
        5,
        None,
        None,
        None,
    );
    assert_eq!(id, "function:pkg.mod.foo");
    assert_eq!(b.nodes.len(), 1);
    assert_eq!(b.nodes[0].id, "function:pkg.mod.foo");
}

#[test]
fn test_add_node_duplicate_suffix() {
    let mut b = Builder::new();
    let id1 = b.add_node(NodeKind::Function, "foo", "pkg.foo", None, 1, 1, None, None, None);
    let id2 = b.add_node(NodeKind::Function, "foo", "pkg.foo", None, 10, 10, None, None, None);
    assert_eq!(id1, "function:pkg.foo");
    assert_eq!(id2, "function:pkg.foo#2");
}

#[test]
fn test_symbol_converts_offsets() {
    let mut b = Builder::new();
    let src = "line1\nline2\nline3\n";
    let id = b.symbol(
        NodeKind::Function,
        "bar",
        "mod.bar",
        "mod.py",
        src,
        6,
        11,
        None,
        None,
        None,
    );
    assert_eq!(id, "function:mod.bar");
    assert_eq!(b.nodes[0].range.as_ref().unwrap().start_line, 2);
    assert_eq!(b.nodes[0].range.as_ref().unwrap().end_line, 2);
}

#[test]
fn test_edge_creation() {
    let mut b = Builder::new();
    b.add_node(NodeKind::Function, "a", "mod.a", None, 1, 1, None, None, None);
    b.add_node(NodeKind::Function, "b", "mod.b", None, 5, 5, None, None, None);
    b.edge("function:mod.a", "function:mod.b", EdgeKind::Calls, None, None, None);
    assert_eq!(b.edges.len(), 1);
    assert_eq!(b.edges[0].from, "function:mod.a");
    assert_eq!(b.edges[0].to, "function:mod.b");
    assert_eq!(b.edges[0].source, EdgeSource::Ast);
    assert_eq!(b.edges[0].certainty, EdgeCertainty::Definite);
    assert_eq!(b.edges[0].weight, 1);
}

#[test]
fn test_resolve_pending_found() {
    let mut b = Builder::new();
    b.add_node(NodeKind::Function, "caller", "mod.caller", None, 1, 1, None, None, None);
    b.add_node(NodeKind::Function, "callee", "mod.callee", None, 10, 10, None, None, None);
    b.add_pending("function:mod.caller", "mod.callee", EdgeKind::Calls, None, None);
    b.resolve_pending();
    assert!(b.pending.is_empty());
    assert_eq!(b.edges.len(), 1);
    assert_eq!(b.edges[0].to, "function:mod.callee");
}

#[test]
fn test_resolve_pending_ambiguous() {
    let mut b = Builder::new();
    b.add_node(NodeKind::Function, "caller", "mod.caller", None, 1, 1, None, None, None);
    b.add_node(NodeKind::Function, "foo", "a.foo", None, 10, 10, None, None, None);
    b.add_node(NodeKind::Function, "foo", "b.foo", None, 20, 20, None, None, None);
    b.add_pending("function:mod.caller", "foo", EdgeKind::Calls, None, None);
    b.resolve_pending();
    assert!(b.pending.is_empty());
    assert!(b.edges.is_empty());
    assert_eq!(b.warnings.len(), 1);
    assert!(b.warnings[0].contains("ambiguous"));
}

#[test]
fn test_resolve_pending_not_found() {
    let mut b = Builder::new();
    b.add_node(NodeKind::Function, "caller", "mod.caller", None, 1, 1, None, None, None);
    b.add_pending("function:mod.caller", "nonexistent", EdgeKind::Calls, None, None);
    b.resolve_pending();
    assert!(b.pending.is_empty());
    assert!(b.edges.is_empty());
    assert!(b.warnings.is_empty());
}

#[test]
fn test_find_node_id() {
    let mut b = Builder::new();
    b.add_node(NodeKind::Class, "MyClass", "pkg.MyClass", None, 1, 50, None, None, None);
    assert!(b.find_node_id("pkg.MyClass").is_some());
    assert!(b.find_node_id("other").is_none());
}

#[test]
fn builder_ids_stay_distinct_under_repeats() {
    let mut b = Builder::new();
    let a = b.add_node(NodeKind::Function, "f", "m.f", None, 1, 1, None, None, None);
    let c = b.add_node(NodeKind::Function, "f", "m.f", None, 2, 2, None, None, None);
    let d = b.add_node(NodeKind::Function, "f", "m.f", None, 3, 3, None, None, None);
    assert_eq!(a, "function:m.f");
    assert_eq!(c, "function:m.f#2");
    assert_eq!(d, "function:m.f#3");
    assert_ne!(a, c);
    assert_ne!(c, d);
}

#[test]
fn resolve_pending_by_simple_name() {
    let mut b = Builder::new();
    b.add_node(NodeKind::Function, "caller", "mod.caller", None, 1, 1, None, None, None);
    b.add_node(NodeKind::Function, "helper", "util.helper", None, 3, 3, None, None, None);
    b.add_pending("function:mod.caller", "helper", EdgeKind::Calls, None, None);
    b.resolve_pending();
    assert_eq!(b.edges.len(), 1);
    assert_eq!(b.edges[0].from, "function:mod.caller");
    assert_eq!(b.edges[0].to, "function:util.helper");
    assert_eq!(b.edges[0].kind, EdgeKind::Calls);
}
