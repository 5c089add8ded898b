//! Questions about a project put to a chat model: the key check, the
//! prompt, the endpoint and the answer taken from the reply.

use vstd::prelude::*;
use crate::analyze::refactor_order::strip_trail;
use crate::config::CodegraphConfig;
use crate::text::{chars_of, concat2, is_blank, join, join_spec, owned, string_from_range, trim_spec};

verus! {

/// The error when no usable API key is configured.
pub open spec fn missing_key_text() -> Seq<char> {
    "pyscope config is missing api_key; run `pyscope config set-api-key <key>`"@
}

/// The configured API key, unless it is missing or blank.
pub fn api_key(config: &CodegraphConfig) -> (r: Result<String, String>)
    ensures
        match r {
            Ok(k) => config.api_key is Some && k@ == config.api_key->0@ && trim_spec(k@).len() > 0,
            Err(e) => e@ == missing_key_text() && (config.api_key is None || trim_spec(
                config.api_key->0@,
            ).len() == 0),
        },
{
    proof {
        reveal_strlit("pyscope config is missing api_key; run `pyscope config set-api-key <key>`");
    }
    match &config.api_key {
        Some(k) => {
            if is_blank(k.as_str()) {
                Err(owned("pyscope config is missing api_key; run `pyscope config set-api-key <key>`"))
            } else {
                Ok(owned(k.as_str()))
            }
        },
        None => Err(owned("pyscope config is missing api_key; run `pyscope config set-api-key <key>`")),
    }
}

/// The opening of the system prompt; the project map follows it.
pub open spec fn prompt_head() -> Seq<char> {
    "You are a code navigation assistant. Use the following project structure to answer questions about the codebase.\n\n"@
}

/// The system prompt: the instructions, then the project map.
pub fn system_prompt(project_map: &str) -> (r: String)
    ensures
        r@ == prompt_head() + project_map@,
{
    concat2(
        "You are a code navigation assistant. Use the following project structure to answer questions about the codebase.\n\n",
        project_map,
    )
}

/// The chat endpoint: the API base without trailing slashes, then
/// `/chat/completions`.
pub fn chat_url(api_base: &str) -> (r: String)
    ensures
        r@ == strip_trail(api_base@, '/') + "/chat/completions"@,
{
    let c = chars_of(api_base);
    let mut hi: usize = c.len();
    assert(c@.subrange(0, c@.len() as int) =~= c@);
    while hi > 0 && c[hi - 1] == '/'
        invariant
            hi <= c@.len(),
            c@ == api_base@,
            strip_trail(api_base@, '/') == strip_trail(c@.subrange(0, hi as int), '/'),
        decreases hi,
    {
        assert(c@.subrange(0, hi as int).drop_last() =~= c@.subrange(0, hi - 1));
        hi = hi - 1;
    }
    let base = string_from_range(c.as_slice(), 0, hi);
    concat2(base.as_str(), "/chat/completions")
}

/// The texts of the choices that carry one, in order.
pub open spec fn present_texts(cs: Seq<Option<String>>) -> Seq<Seq<char>>
    decreases cs.len(),
{
    if cs.len() == 0 {
        Seq::empty()
    } else {
        let prev = present_texts(cs.drop_last());
        match cs.last() {
            Some(s) => prev.push(s@),
            None => prev,
        }
    }
}

/// The error when the model answered nothing.
pub open spec fn no_answer_text() -> Seq<char> {
    "LLM returned no answer content"@
}

/// The answer of a reply: the contents of its choices joined by line
/// feeds, or an error when that is blank.
pub fn answer_text(contents: &Vec<Option<String>>) -> (r: Result<String, String>)
    ensures
        ({
            let a = join_spec(present_texts(contents@), "\n"@);
            match r {
                Ok(s) => s@ == a && trim_spec(a).len() > 0,
                Err(e) => e@ == no_answer_text() && trim_spec(a).len() == 0,
            }
        }),
{
    let mut parts: Vec<String> = Vec::new();
    let mut i: usize = 0;
    while i < contents.len()
        invariant
            i <= contents@.len(),
            parts@.map_values(|x: String| x@) == present_texts(contents@.take(i as int)),
        decreases contents@.len() - i,
    {
        assert(contents@.take(i + 1).drop_last() =~= contents@.take(i as int));
        let ghost before = parts@;
        match &contents[i] {
            Some(s) => {
                parts.push(owned(s.as_str()));
                assert(parts@.map_values(|x: String| x@) =~= before.map_values(|x: String| x@).push(s@));
            },
            None => {},
        }
        i = i + 1;
    }
    assert(contents@.take(contents@.len() as int) =~= contents@);
    let a = join(&parts, "\n");
    if is_blank(a.as_str()) {
        Err(owned("LLM returned no answer content"))
    } else {
        Ok(a)
    }
}

} // verus!
