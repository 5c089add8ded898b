//! User settings for the language-model features: keys, endpoint and
//! models, and where they are kept.

use vstd::prelude::*;
use crate::store::join_path;
use crate::text::owned;

verus! {

/// The settings, with their defaults filled in when absent.
#[derive(Clone, Debug)]
pub struct CodegraphConfig {
    pub api_key: Option<String>,
    pub api_base: String,
    pub model: String,
    pub embedding_key: Option<String>,
    pub embedding_model: String,
    pub rerank_model: Option<String>,
}

/// The endpoint used when none is set.
pub open spec fn default_api_base_spec() -> Seq<char> {
    "https://api.openai.com/v1"@
}

/// The chat model used when none is set.
pub open spec fn default_model_spec() -> Seq<char> {
    "gpt-4o"@
}

/// The embedding model used when none is set.
pub open spec fn default_embedding_model_spec() -> Seq<char> {
    "text-embedding-3-small"@
}

/// The endpoint used when none is set.
pub fn default_api_base() -> (r: String)
    ensures
        r@ == default_api_base_spec(),
{
    proof {
        reveal_strlit("https://api.openai.com/v1");
    }
    owned("https://api.openai.com/v1")
}

/// The chat model used when none is set.
pub fn default_model() -> (r: String)
    ensures
        r@ == default_model_spec(),
{
    proof {
        reveal_strlit("gpt-4o");
    }
    owned("gpt-4o")
}

/// The embedding model used when none is set.
pub fn default_embedding_model() -> (r: String)
    ensures
        r@ == default_embedding_model_spec(),
{
    proof {
        reveal_strlit("text-embedding-3-small");
    }
    owned("text-embedding-3-small")
}

impl Default for CodegraphConfig {
    fn default() -> (c: Self)
        ensures
            c.api_key is None,
            c.api_base@ == default_api_base_spec(),
            c.model@ == default_model_spec(),
            c.embedding_key is None,
            c.embedding_model@ == default_embedding_model_spec(),
            c.rerank_model is None,
    {
        CodegraphConfig {
            api_key: None,
            api_base: default_api_base(),
            model: default_model(),
            embedding_key: None,
            embedding_model: default_embedding_model(),
            rerank_model: None,
        }
    }
}

/// The settings file under a home directory:
/// `.config/pyscope/config.json`.
pub fn path(home: &str) -> (r: String)
    ensures
        r@ == join_path(home@, ".config/pyscope/config.json"@),
{
    proof {
        reveal_strlit(".config/pyscope/config.json");
    }
    crate::store::join_path_exec(home, ".config/pyscope/config.json")
}

/// Sets the chat API key.
pub fn set_api_key(config: &mut CodegraphConfig, key: &str)
    ensures
        final(config).api_key is Some && final(config).api_key->0@ == key@,
        final(config).api_base == old(config).api_base,
        final(config).model == old(config).model,
        final(config).embedding_key == old(config).embedding_key,
        final(config).embedding_model == old(config).embedding_model,
        final(config).rerank_model == old(config).rerank_model,
{
    config.api_key = Some(crate::text::owned(key));
}

/// Sets the chat model.
pub fn set_model(config: &mut CodegraphConfig, model: &str)
    ensures
        final(config).model@ == model@,
        final(config).api_key == old(config).api_key,
        final(config).api_base == old(config).api_base,
        final(config).embedding_key == old(config).embedding_key,
        final(config).embedding_model == old(config).embedding_model,
        final(config).rerank_model == old(config).rerank_model,
{
    config.model = crate::text::owned(model);
}

/// Sets the embedding API key.
pub fn set_embedding_key(config: &mut CodegraphConfig, key: &str)
    ensures
        final(config).embedding_key is Some && final(config).embedding_key->0@ == key@,
        final(config).api_key == old(config).api_key,
        final(config).api_base == old(config).api_base,
        final(config).model == old(config).model,
        final(config).embedding_model == old(config).embedding_model,
        final(config).rerank_model == old(config).rerank_model,
{
    config.embedding_key = Some(crate::text::owned(key));
}

} // verus!
