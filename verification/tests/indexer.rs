use pyscope::analyzer::index::{index_project, FileSource, SourceFile};
use pyscope::analyzer::syntax::{Arguments, Expr, ExprKind, FunctionDef, PyModule, Stmt};
use pyscope::model::{EdgeKind, NodeKind};

fn one_function_file() -> SourceFile {
    let def = FunctionDef {
        start: 0,
        name: "run".to_string(),
        args: Arguments {
            posonlyargs: Vec::new(),
            args: Vec::new(),
            vararg: None,
            kwonlyargs: Vec::new(),
            kwarg: None,
        },
        return_type: None,
        body: Vec::new(),
        decorators: Vec::new(),
    };
    SourceFile {
        path: "/p/pkg/mod.py".to_string(),
        content: FileSource::Parsed {
            source: "def run():\n    pass\n".to_string(),
            module: PyModule { body: vec![Stmt::FunctionDef(def)] },
        },
    }
}

#[test]
fn index_project_lays_out_files_and_declarations() {
    let files = vec![
        one_function_file(),
        SourceFile { path: "/p/broken.py".to_string(), content: FileSource::Unparsable },
    ];
    let g = index_project("/p", &files, 7);
    assert_eq!(g.nodes[0].id, "project:/p");
    assert_eq!(g.nodes[0].kind, NodeKind::Project);
    assert_eq!(g.nodes[1].kind, NodeKind::File);
    assert_eq!(g.nodes[1].name, "pkg/mod.py");
    assert_eq!(g.nodes[2].kind, NodeKind::Module);
    assert_eq!(g.nodes[2].qualified_name, "pkg.mod");
    assert_eq!(g.nodes[3].kind, NodeKind::Function);
    assert_eq!(g.nodes[3].qualified_name, "pkg.mod.run");
    assert!(g
        .edges
        .iter()
        .any(|e| e.kind == EdgeKind::ModuleFile && e.from == g.nodes[1].id && e.to == g.nodes[2].id));
    assert_eq!(g.warnings.len(), 1);
    assert_eq!(g.generated_at_ms, 7);
}

fn no_args() -> Arguments {
    Arguments { posonlyargs: Vec::new(), args: Vec::new(), vararg: None, kwonlyargs: Vec::new(), kwarg: None }
}

#[test]
fn index_project_links_calls_between_functions() {
    let source = "def helper():\n    pass\ndef run():\n    helper()\n";
    let helper = FunctionDef {
        start: 0,
        name: "helper".to_string(),
        args: no_args(),
        return_type: None,
        body: Vec::new(),
        decorators: Vec::new(),
    };
    let call = Expr {
        start: 37,
        node: ExprKind::Call {
            func: Box::new(Expr { start: 37, node: ExprKind::Name("helper".to_string()) }),
            args: Vec::new(),
            keywords: Vec::new(),
        },
    };
    let run = FunctionDef {
        start: 24,
        name: "run".to_string(),
        args: no_args(),
        return_type: None,
        body: vec![Stmt::Expr(call)],
        decorators: Vec::new(),
    };
    let files = vec![SourceFile {
        path: "/p/app.py".to_string(),
        content: FileSource::Parsed {
            source: source.to_string(),
            module: PyModule { body: vec![Stmt::FunctionDef(helper), Stmt::FunctionDef(run)] },
        },
    }];
    let g = index_project("/p", &files, 0);
    let helper_id = g.nodes.iter().find(|n| n.qualified_name == "app.helper").unwrap().id.clone();
    let run_id = g.nodes.iter().find(|n| n.qualified_name == "app.run").unwrap().id.clone();
    assert!(g.edges.iter().any(|e| e.kind == EdgeKind::Calls && e.from == run_id && e.to == helper_id));
}
