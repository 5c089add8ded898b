use pyscope::analyze::refactor_order::refactor_order;
use pyscope::analyze::decorator_usage::decorator_usage;
use pyscope::analyze::diff::{
    changed_files, diff, file_matches, git_failure_warning, normalize_path, resolve_project_root,
    GitOutcome,
};
use pyscope::analyze::hotspots::{hotspots, hotspots_warning, log_failure_warning, parse_git_log};
use pyscope::analyze::test_impact::{is_test_function, package_targets, test_impact};
use pyscope::model::{
    CodeGraph, Edge, EdgeCertainty, EdgeKind, EdgeSource, Node, NodeKind, Package, Project,
};

fn node(kind: NodeKind, name: &str, qn: &str, file: Option<&str>) -> Node {
    Node {
        id: format!("{}:{}", kind.as_str(), qn),
        kind,
        name: name.to_string(),
        qualified_name: qn.to_string(),
        file: file.map(|f| f.to_string()),
        range: None,
        visibility: None,
        signature: None,
        docs: None,
        metrics: Vec::new(),
    }
}

fn edge(from: &str, to: &str, kind: EdgeKind) -> Edge {
    Edge {
        from: from.to_string(),
        to: to.to_string(),
        kind,
        label: None,
        evidence: None,
        weight: 1,
        source: EdgeSource::Ast,
        certainty: EdgeCertainty::Definite,
        call_style: None,
    }
}

fn graph(nodes: Vec<Node>, edges: Vec<Edge>) -> CodeGraph {
    CodeGraph {
        schema_version: 1,
        project: Project { root: "/p".to_string(), packages: Vec::new() },
        nodes,
        edges,
        semantic: None,
        warnings: Vec::new(),
        generated_at_ms: 0,
    }
}

#[test]
fn decorators_counted_and_ranked() {
    let mut second = node(NodeKind::Decorator, "route", "app.route", Some("app.py"));
    second.id = "decorator:app.route#2".to_string();
    let g = graph(
        vec![
            node(NodeKind::File, "app.py", "app.py", Some("app.py")),
            node(NodeKind::Function, "f", "app.f", Some("app.py")),
            node(NodeKind::Function, "g", "app.g", Some("app.py")),
            node(NodeKind::Decorator, "property", "property", None),
            node(NodeKind::Decorator, "route", "app.route", Some("lib.py")),
            second,
        ],
        vec![
            edge("file:app.py", "decorator:app.route", EdgeKind::Declares),
            edge("decorator:app.route", "function:app.f", EdgeKind::Decorates),
            edge("decorator:app.route#2", "function:app.g", EdgeKind::Decorates),
        ],
    );
    let r = decorator_usage(&g, 10);
    assert_eq!(r.total_decorators, 2);
    assert_eq!(r.total_applications, 3);
    assert_eq!(r.decorators.len(), 2);
    assert_eq!(r.decorators[0].name, "@app.route");
    assert_eq!(r.decorators[0].count, 2);
    assert_eq!(r.decorators[0].files, vec!["app.py".to_string()]);
    assert_eq!(r.decorators[0].targets, vec!["app.f".to_string(), "app.g".to_string()]);
    assert_eq!(r.decorators[1].name, "@property");
    assert_eq!(r.decorators[1].count, 1);
    assert!(r.decorators[1].files.is_empty());
    assert_eq!(r.custom.len(), 1);
    assert_eq!(r.custom[0].name, "@app.route");
    assert_eq!(r.custom[0].defined_in, Some("app.py".to_string()));
    assert_eq!(r.custom[0].usage_count, 2);
    let top = decorator_usage(&g, 1);
    assert_eq!(top.decorators.len(), 1);
    assert_eq!(top.custom.len(), 1);
}

#[test]
fn changed_file_listing() {
    let out = "a.py\n  \n/p/b\\c.py\r\nsub/x.py\na.py\n";
    assert_eq!(
        changed_files(out, "/p"),
        vec!["a.py".to_string(), "b/c.py".to_string(), "sub/x.py".to_string()]
    );
    assert_eq!(normalize_path("/q/z.py", "/p"), "/q/z.py");
    assert_eq!(normalize_path("x\\y.py", "/p"), "x/y.py");
}

#[test]
fn file_matching_by_suffix() {
    let changed = vec!["a.py".to_string()];
    assert!(file_matches(&Some("src/a.py".to_string()), &changed));
    assert!(!file_matches(&Some("b.py".to_string()), &changed));
    assert!(!file_matches(&None, &changed));
}

#[test]
fn diff_lists_touched_symbols() {
    let g = graph(
        vec![
            node(NodeKind::Function, "f", "a.f", Some("a.py")),
            node(NodeKind::Function, "g", "o.g", Some("other.py")),
            node(NodeKind::Module, "m", "m", None),
        ],
        vec![
            edge("function:o.g", "function:a.f", EdgeKind::Calls),
            edge("function:o.g", "module:m", EdgeKind::Imports),
        ],
    );
    let r = diff(&g, "HEAD~1", &None, GitOutcome::Succeeded("a.py\n".to_string()));
    assert_eq!(r.base, "HEAD~1");
    assert!(r.warning.is_none());
    assert_eq!(r.changed_files, vec!["a.py".to_string()]);
    assert_eq!(r.added_nodes.len(), 1);
    assert_eq!(r.added_nodes[0].id, "function:a.f");
    assert_eq!(r.added_nodes[0].kind, NodeKind::Function);
    assert_eq!(r.added_nodes[0].qualified_name, "a.f");
    assert_eq!(r.added_edges.len(), 1);
    assert_eq!(r.added_edges[0].from, "function:o.g");
    assert_eq!(r.added_edges[0].kind, EdgeKind::Calls);
    assert_eq!(resolve_project_root(&g, &None), "/p");
    assert_eq!(resolve_project_root(&g, &Some("/q".to_string())), "/q");
}

#[test]
fn diff_warnings() {
    let g = graph(Vec::new(), Vec::new());
    let r = diff(&g, "main", &None, GitOutcome::SpawnFailed("no git".to_string()));
    assert_eq!(r.warning, Some("failed to execute git diff: no git".to_string()));
    assert!(r.changed_files.is_empty());
    let r = diff(&g, "main", &None, GitOutcome::Failed("  fatal: bad revision \n".to_string()));
    assert_eq!(r.warning, Some("git diff failed: fatal: bad revision".to_string()));
    assert_eq!(git_failure_warning(" \n"), "git diff failed");
}

#[test]
fn hotspots_from_log() {
    let log = "__COMMIT__\nh1\nann\n2024-01-02\n\na.py\nb.py\n__COMMIT__\nh2\nbob\n2024-01-05\n\na.py\n";
    let commits = parse_git_log(log, "/r");
    assert_eq!(commits.len(), 2);
    assert_eq!(commits[0].author, "ann");
    assert_eq!(commits[0].files, vec!["a.py".to_string(), "b.py".to_string()]);
    let r = hotspots(log, "/r", 10, None);
    assert_eq!(r.period, "all time");
    assert_eq!(r.total_files, 2);
    assert_eq!(r.total_commits, 2);
    assert_eq!(r.hotspots[0].file, "a.py");
    assert_eq!(r.hotspots[0].commits, 2);
    assert_eq!(r.hotspots[0].authors, 2);
    assert_eq!(r.hotspots[0].last_commit, Some("2024-01-05".to_string()));
    assert_eq!(r.hotspots[1].file, "b.py");
    assert_eq!(r.cochange.len(), 1);
    assert_eq!(r.cochange[0].count, 1);
    assert!(r.warning.is_none());
    let w = hotspots_warning("1 week", log_failure_warning(""));
    assert_eq!(w.period, "1 week");
    assert_eq!(w.warning, Some("git log failed".to_string()));
}

#[test]
fn test_targets_and_names() {
    assert!(is_test_function("test_load", &None));
    assert!(is_test_function("load_test", &None));
    assert!(is_test_function("load", &Some("tests/x.py".to_string())));
    assert!(!is_test_function("load", &Some("src/x.py".to_string())));
    let mut g = graph(Vec::new(), Vec::new());
    g.project.packages.push(Package {
        name: "app".to_string(),
        root: "/p/app".to_string(),
        files: vec!["a.py".to_string(), "b.py".to_string()],
    });
    let t = package_targets(&g);
    assert_eq!(t.len(), 1);
    assert_eq!(t[0].name, "app");
    assert_eq!(t[0].root, "/p/app");
    assert_eq!(t[0].file_count, 2);
    let r = test_impact(&g, None, 5);
    assert_eq!(r.targets.len(), 1);
    assert_eq!(r.note, "static test discovery (no symbol specified)");
}

#[test]
fn test_impact_follows_callers() {
    let g = graph(
        vec![
            node(NodeKind::Function, "load", "app.load", Some("app.py")),
            node(NodeKind::Function, "helper", "app.helper", Some("app.py")),
            node(NodeKind::Function, "test_load", "tests.test_load", Some("tests/test_app.py")),
        ],
        vec![
            edge("function:app.helper", "function:app.load", EdgeKind::Calls),
            edge("function:tests.test_load", "function:app.helper", EdgeKind::Calls),
        ],
    );
    let r = test_impact(&g, Some("load"), 5);
    assert_eq!(r.target, Some(0));
    assert_eq!(r.hits.len(), 1);
    assert_eq!(r.hits[0].node, 2);
    assert_eq!(r.hits[0].level, 2);
    let missing = test_impact(&g, Some("nothing"), 5);
    assert_eq!(missing.note, "symbol `nothing` not found");
}

#[test]
fn test_impact_takes_the_shortest_chain() {
    let g = graph(
        vec![
            node(NodeKind::Function, "load", "app.load", Some("app.py")),
            node(NodeKind::Function, "helper", "app.helper", Some("app.py")),
            node(NodeKind::Function, "test_load", "tests.test_load", Some("tests/test_app.py")),
            node(NodeKind::Function, "test_far", "tests.test_far", Some("tests/test_app.py")),
        ],
        vec![
            edge("function:app.helper", "function:app.load", EdgeKind::Calls),
            edge("function:tests.test_load", "function:app.helper", EdgeKind::Calls),
            edge("function:tests.test_load", "function:app.load", EdgeKind::Calls),
            edge("function:tests.test_far", "function:tests.test_load", EdgeKind::Calls),
        ],
    );
    let r = test_impact(&g, Some("load"), 5);
    let found: Vec<(usize, usize)> = r.hits.iter().map(|h| (h.node, h.level)).collect();
    assert_eq!(found, vec![(2, 1), (3, 2)]);
    let one = test_impact(&g, Some("load"), 1);
    assert_eq!(one.hits.len(), 1);
    assert_eq!(one.hits[0].node, 2);
}

#[test]
fn refactor_order_places_in_first_in_first_out_order() {
    let g = graph(
        vec![
            node(NodeKind::Function, "f", "a.f", Some("a.py")),
            node(NodeKind::Function, "g", "b.g", Some("b.py")),
            node(NodeKind::Function, "h", "c.h", Some("c.py")),
        ],
        vec![
            edge("function:a.f", "function:c.h", EdgeKind::Calls),
            edge("function:b.g", "function:c.h", EdgeKind::Calls),
        ],
    );
    let modules = vec!["c".to_string(), "b".to_string(), "a".to_string()];
    let r = refactor_order(&g, &modules, 10);
    let names: Vec<String> = r.order.iter().map(|s| s.module.clone()).collect();
    assert_eq!(names, vec!["c".to_string(), "a".to_string(), "b".to_string()]);
    assert!(!r.has_cycles);
    assert_eq!(r.total_modules, 3);
}
