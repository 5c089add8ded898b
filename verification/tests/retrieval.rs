use pyscope::config::{
    default_api_base, default_embedding_model, default_model, path, set_api_key,
    set_embedding_key, set_model, CodegraphConfig,
};
use pyscope::llm::{answer_text, api_key, chat_url, system_prompt};
use pyscope::model::{CodeGraph, Node, NodeKind, Project};
use pyscope::rag::lexical::lexical_search;
use pyscope::rag::{embedding_enabled, lexical_limit, node_text};

fn node(kind: NodeKind, name: &str, qn: &str, docs: Option<&str>) -> Node {
    Node {
        id: format!("{}:{}", kind.as_str(), qn),
        kind,
        name: name.to_string(),
        qualified_name: qn.to_string(),
        file: Some("app.py".to_string()),
        range: None,
        visibility: None,
        signature: None,
        docs: docs.map(|d| d.to_string()),
        metrics: Vec::new(),
    }
}

fn graph() -> CodeGraph {
    CodeGraph {
        schema_version: 1,
        project: Project { root: "/p".to_string(), packages: Vec::new() },
        nodes: vec![
            node(NodeKind::File, "app.py", "app.py", Some("load config")),
            node(NodeKind::Function, "save_config", "app.save_config", None),
            node(NodeKind::Function, "Load", "app.Load", Some("Reads the CONFIG file")),
            node(NodeKind::Function, "parse", "app.parse", None),
            node(NodeKind::Function, "load_all", "app.load_all", None),
        ],
        edges: Vec::new(),
        semantic: None,
        warnings: Vec::new(),
        generated_at_ms: 0,
    }
}

#[test]
fn node_text_lines() {
    let n = node(NodeKind::Function, "f", "m.f", Some("Doc"));
    assert_eq!(node_text(&n), "f\nm.f\n\nDoc\napp.py");
}

#[test]
fn lexical_scores_and_order() {
    let g = graph();
    let r = lexical_search(&g, "load config", 10);
    let got: Vec<(&str, usize)> = r.iter().map(|s| (s.node.qualified_name.as_str(), s.score)).collect();
    // `Load`: both terms (docs hold CONFIG); `load_all` and `save_config`
    // hold one term each (as substrings) and tie, then go by name.
    assert_eq!(got, vec![("app.Load", 2), ("app.load_all", 1), ("app.save_config", 1)]);
    assert!(r.iter().all(|s| s.source == "lexical"));
    let exact = lexical_search(&g, "LOAD", 10);
    assert_eq!(exact[0].node.qualified_name, "app.Load");
    assert_eq!(exact[0].score, 3);
    assert_eq!(lexical_search(&g, "load config", 1).len(), 1);
    assert!(lexical_search(&g, "--", 10).is_empty());
}

#[test]
fn retrieval_settings() {
    let mut c = CodegraphConfig::default();
    assert!(!embedding_enabled(&c));
    c.embedding_key = Some("  ".to_string());
    assert!(!embedding_enabled(&c));
    set_embedding_key(&mut c, "sk-1");
    assert!(embedding_enabled(&c));
    assert_eq!(lexical_limit(0), 5);
    assert_eq!(lexical_limit(4), 20);
}

#[test]
fn config_defaults_and_setters() {
    let mut c = CodegraphConfig::default();
    assert_eq!(c.api_base, "https://api.openai.com/v1");
    assert_eq!(c.model, "gpt-4o");
    assert_eq!(c.embedding_model, "text-embedding-3-small");
    assert_eq!(default_api_base(), c.api_base);
    assert_eq!(default_model(), c.model);
    assert_eq!(default_embedding_model(), c.embedding_model);
    set_model(&mut c, "small");
    assert_eq!(c.model, "small");
    set_api_key(&mut c, "key");
    assert_eq!(c.api_key, Some("key".to_string()));
    assert_eq!(path("/home/u"), "/home/u/.config/pyscope/config.json");
}

#[test]
fn chat_helpers() {
    let mut c = CodegraphConfig::default();
    assert_eq!(
        api_key(&c),
        Err("pyscope config is missing api_key; run `pyscope config set-api-key <key>`".to_string())
    );
    c.api_key = Some(" ".to_string());
    assert!(api_key(&c).is_err());
    c.api_key = Some("sk".to_string());
    assert_eq!(api_key(&c), Ok("sk".to_string()));
    assert_eq!(chat_url("https://x/v1//"), "https://x/v1/chat/completions");
    assert!(system_prompt("MAP").ends_with("about the codebase.\n\nMAP"));
    let answer = answer_text(&vec![Some("a".to_string()), None, Some("b".to_string())]);
    assert_eq!(answer, Ok("a\nb".to_string()));
    assert_eq!(
        answer_text(&vec![None, Some("  ".to_string())]),
        Err("LLM returned no answer content".to_string())
    );
}
