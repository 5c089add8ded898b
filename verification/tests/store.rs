use pyscope::model::{
    CodeGraph, Edge, EdgeCertainty, EdgeKind, EdgeSource, Node, NodeKind, Package, Project,
};
use pyscope::store::{
    default_path, default_project_path, encode_graph, graph_prefix, is_graph_file_name,
    join_path_exec, load, load_many, merge, StoreError,
};

fn node(kind: NodeKind, name: &str, qn: &str) -> Node {
    Node {
        id: format!("{}:{}", kind.as_str(), qn),
        kind,
        name: name.to_string(),
        qualified_name: qn.to_string(),
        file: None,
        range: None,
        visibility: None,
        signature: None,
        docs: None,
        metrics: Vec::new(),
    }
}

fn edge(from: &str, to: &str, kind: EdgeKind) -> Edge {
    Edge {
        from: from.to_string(),
        to: to.to_string(),
        kind,
        label: None,
        evidence: None,
        weight: 1,
        source: EdgeSource::Ast,
        certainty: EdgeCertainty::Definite,
        call_style: None,
    }
}

fn graph(root: &str, package: Option<&str>, version: u32, time: u128) -> CodeGraph {
    CodeGraph {
        schema_version: version,
        project: Project {
            root: root.to_string(),
            packages: package
                .map(|p| {
                    vec![Package { name: p.to_string(), root: root.to_string(), files: Vec::new() }]
                })
                .unwrap_or_default(),
        },
        nodes: vec![
            node(NodeKind::Project, "proj", "proj"),
            node(NodeKind::Function, "f", "m.f"),
        ],
        edges: vec![edge("project:proj", "function:m.f", EdgeKind::Contains)],
        semantic: None,
        warnings: vec![format!("w-{root}")],
        generated_at_ms: time,
    }
}

#[test]
fn saved_bytes_load_back() {
    let json = br#"{"schema_version":1}"#.to_vec();
    let saved = encode_graph(&json);
    assert_ne!(saved, json);
    assert_eq!(&saved[..2], &[0x1f, 0x8b]);
    let back = load(&saved);
    assert_eq!(back, Ok(json));
}

#[test]
fn loading_plain_text_is_refused() {
    let r = load(b"not a gzip stream");
    assert_eq!(r, Err(StoreError::NotGzip));
}

#[test]
fn default_paths() {
    assert_eq!(default_path("/work", None), "/work/.pyscope/pyscope.json.gz");
    assert_eq!(default_path("/work", Some("g.json.gz")), "g.json.gz");
    assert_eq!(default_project_path("/proj/", None), "/proj/.pyscope/pyscope.json.gz");
    assert_eq!(default_project_path("/proj", Some("/out.gz")), "/out.gz");
    assert_eq!(join_path_exec("/a", "b"), "/a/b");
    assert_eq!(join_path_exec("/a/", "b"), "/a/b");
}

#[test]
fn graph_file_names() {
    assert!(is_graph_file_name("pyscope.json.gz"));
    assert!(!is_graph_file_name("pyscope.json"));
}

#[test]
fn prefix_from_package_or_root() {
    assert_eq!(graph_prefix(&graph("/x/y", Some("my pkg"), 1, 0)), "my_pkg");
    assert_eq!(graph_prefix(&graph("/x/my.app", None, 1, 0)), "my_app");
}

#[test]
fn merge_prefixes_each_graph() {
    let m = merge(vec![graph("/a", Some("a"), 1, 5), graph("/b", Some("b"), 2, 3)], "/cwd".to_string());
    assert_eq!(m.project.root, "/cwd");
    assert_eq!(m.schema_version, 2);
    assert_eq!(m.generated_at_ms, 5);
    assert_eq!(m.nodes.len(), 4);
    assert_eq!(m.edges.len(), 2);
    assert_eq!(m.nodes[0].id, "a1:project:proj");
    assert_eq!(m.nodes[0].name, "a1:proj");
    assert_eq!(m.nodes[0].qualified_name, "a1:proj");
    assert_eq!(m.nodes[1].id, "a1:function:m.f");
    assert_eq!(m.nodes[1].name, "f");
    assert_eq!(m.nodes[3].id, "b2:function:m.f");
    assert_eq!(m.edges[1].from, "b2:project:proj");
    assert_eq!(m.edges[1].to, "b2:function:m.f");
    assert_eq!(m.warnings, vec!["w-/a".to_string(), "w-/b".to_string()]);
    assert_eq!(m.project.packages.len(), 2);
}

#[test]
fn load_many_of_one_graph_keeps_it() {
    let g = load_many(vec![graph("/a", Some("a"), 1, 5)], "/cwd".to_string()).unwrap();
    assert_eq!(g.project.root, "/a");
    assert_eq!(g.nodes[1].id, "function:m.f");
    assert!(load_many(Vec::new(), "/cwd".to_string()).is_none());
}

#[test]
fn merge_of_one_graph_has_unnumbered_prefix() {
    let m = merge(vec![graph("/a", Some("a"), 1, 5)], "/cwd".to_string());
    assert_eq!(m.nodes[1].id, "a:function:m.f");
    assert_eq!(m.schema_version, 1);
}
