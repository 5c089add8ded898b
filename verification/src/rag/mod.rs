//! Retrieval of the symbols that a question is about: a lexical search over
//! the graph, whose hits a semantic reranking may reorder.

use vstd::prelude::*;
use crate::config::CodegraphConfig;
use crate::model::Node;
use crate::text::{is_blank, join, join_spec, owned, trim_spec};

pub mod lexical;

verus! {

/// A hit of a search: the node and its score.
pub struct ScoredNode {
    pub node: Node,
    pub score: usize,
    pub source: String,
}

/// The text of an optional field, empty when absent.
pub open spec fn text_or_empty(o: Option<String>) -> Seq<char> {
    match o {
        Some(s) => s@,
        None => Seq::empty(),
    }
}

/// The text a node is searched and embedded by: its name, qualified name,
/// signature, docs and file, one per line.
pub open spec fn node_text_spec(n: Node) -> Seq<char> {
    join_spec(
        seq![
            n.name@,
            n.qualified_name@,
            text_or_empty(n.signature),
            text_or_empty(n.docs),
            text_or_empty(n.file),
        ],
        "\n"@,
    )
}

fn text_or_empty_of(o: &Option<String>) -> (r: String)
    ensures
        r@ == text_or_empty(*o),
{
    match o {
        Some(s) => owned(s.as_str()),
        None => String::new(),
    }
}

/// The text a node is searched and embedded by.
pub fn node_text(n: &Node) -> (r: String)
    ensures
        r@ == node_text_spec(*n),
{
    let mut parts: Vec<String> = Vec::new();
    parts.push(owned(n.name.as_str()));
    parts.push(owned(n.qualified_name.as_str()));
    parts.push(text_or_empty_of(&n.signature));
    parts.push(text_or_empty_of(&n.docs));
    parts.push(text_or_empty_of(&n.file));
    assert(parts@.map_values(|x: String| x@) =~= seq![
        n.name@,
        n.qualified_name@,
        text_or_empty(n.signature),
        text_or_empty(n.docs),
        text_or_empty(n.file),
    ]);
    join(&parts, "\n")
}

/// Whether an embedding key is set (and not blank): then hits are
/// reranked by embeddings.
pub fn embedding_enabled(config: &CodegraphConfig) -> (r: bool)
    ensures
        r == (config.embedding_key is Some && trim_spec(config.embedding_key->0@).len() > 0),
{
    match &config.embedding_key {
        Some(k) => !is_blank(k.as_str()),
        None => false,
    }
}

/// How many lexical hits are fetched for a reranking that keeps `limit`.
pub fn lexical_limit(limit: usize) -> (r: usize)
    requires
        limit <= usize::MAX / 5,
    ensures
        r == (if limit == 0 {
            1
        } else {
            limit
        }) * 5,
{
    let l = if limit == 0 {
        1
    } else {
        limit
    };
    l * 5
}

} // verus!
