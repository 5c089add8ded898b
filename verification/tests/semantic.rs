use pyscope::model::{
    CodeGraph, EdgeCertainty, EdgeKind, EdgeSource, Node, NodeKind, Project, Range,
};
use pyscope::semantic::{
    apply_hover, apply_references, content_length, format_signature, frame_header, hover_type,
    lsp_position, path_to_uri, started_info, strip_root, FrameError, HoverContent, ParamLabel,
    ReferenceSite,
};

fn function(name: &str, qn: &str, file: &str, start: usize, end: usize) -> Node {
    Node {
        id: format!("function:{qn}"),
        kind: NodeKind::Function,
        name: name.to_string(),
        qualified_name: qn.to_string(),
        file: Some(file.to_string()),
        range: Some(Range { start_line: start, end_line: end }),
        visibility: None,
        signature: Some("(x)".to_string()),
        docs: None,
        metrics: Vec::new(),
    }
}

fn graph() -> CodeGraph {
    CodeGraph {
        schema_version: 1,
        project: Project { root: "/p".to_string(), packages: Vec::new() },
        nodes: vec![function("run", "a.run", "a.py", 1, 10), function("load", "a.load", "a.py", 12, 14)],
        edges: Vec::new(),
        semantic: None,
        warnings: Vec::new(),
        generated_at_ms: 0,
    }
}

#[test]
fn frame_lengths() {
    assert_eq!(content_length("Content-Length: 42\r\n\r\n"), Ok(42));
    assert_eq!(content_length("Content-Type: x\r\ncontent-length:   7\r\n\r\n"), Ok(7));
    assert_eq!(content_length("Content-Type: x\r\n\r\n"), Err(FrameError::MissingLength));
    assert_eq!(content_length("Content-Length: abc\r\n\r\n"), Err(FrameError::BadLength));
    assert_eq!(frame_header(12), "Content-Length: 12\r\n\r\n");
}

#[test]
fn hover_texts() {
    assert_eq!(hover_type(&HoverContent::Markup("  int  ".to_string())), Some("int".to_string()));
    assert_eq!(
        hover_type(&HoverContent::Items(vec!["".to_string(), "  ".to_string(), " str ".to_string()])),
        Some("str".to_string())
    );
    assert_eq!(hover_type(&HoverContent::Text("   ".to_string())), None);
}

#[test]
fn positions_and_signatures() {
    assert_eq!(lsp_position("", 0), (0, 0));
    assert_eq!(lsp_position("", 5), (4, 0));
    let params = vec![ParamLabel::Simple("a".to_string()), ParamLabel::Offsets(3, 7)];
    assert_eq!(format_signature(&params), "(a, param[3..7])");
    assert_eq!(format_signature(&Vec::new()), "()");
}

#[test]
fn file_urls() {
    assert_eq!(path_to_uri("/tmp/x.py"), Ok("file:///tmp/x.py".to_string()));
    assert_eq!(
        path_to_uri("rel.py"),
        Err("failed to convert path to file URI: rel.py".to_string())
    );
}

#[test]
fn root_relative_paths() {
    assert_eq!(strip_root("/p", "/p/a.py"), Some("a.py".to_string()));
    assert_eq!(strip_root("/p/", "/p/sub/b.py"), Some("sub/b.py".to_string()));
    assert_eq!(strip_root("/p", "/q/a.py"), None);
}

#[test]
fn hover_adds_type_once() {
    let mut g = graph();
    let mut info = started_info("pyright-langserver".to_string());
    apply_hover(&mut g, 1, "int", &mut info);
    assert_eq!(g.nodes[1].signature, Some("(x) -> int".to_string()));
    assert_eq!(info.confirmed_symbols, 1);
    assert_eq!(info.enriched_symbols, 1);
    apply_hover(&mut g, 1, "int", &mut info);
    assert_eq!(g.nodes[1].signature, Some("(x) -> int".to_string()));
    assert_eq!(info.confirmed_symbols, 2);
    assert_eq!(info.enriched_symbols, 1);
}

#[test]
fn references_become_call_edges() {
    let mut g = graph();
    let mut info = started_info("pylsp".to_string());
    let refs = vec![
        ReferenceSite { path: Some("/p/a.py".to_string()), line: 4 },
        ReferenceSite { path: Some("/p/a.py".to_string()), line: 12 },
        ReferenceSite { path: None, line: 0 },
        ReferenceSite { path: Some("/q/b.py".to_string()), line: 1 },
        ReferenceSite { path: Some("/p/a.py".to_string()), line: 4 },
    ];
    apply_references(&mut g, 1, &refs, "/p", &mut info);
    assert_eq!(g.edges.len(), 1);
    let e = &g.edges[0];
    assert_eq!(e.from, "function:a.run");
    assert_eq!(e.to, "function:a.load");
    assert_eq!(e.kind, EdgeKind::Calls);
    assert_eq!(e.source, EdgeSource::Inferred);
    assert_eq!(e.certainty, EdgeCertainty::Possible);
    assert_eq!(e.call_style, Some("lsp_reference".to_string()));
    let ev = e.evidence.as_ref().unwrap();
    assert_eq!(ev.file, "a.py");
    assert_eq!(ev.line, 5);
    assert_eq!(info.unresolved_items, 2);
    assert_eq!(info.enriched_edges, 1);
    assert_eq!(info.confirmed_edges, 1);
}
