//! The lexical search: symbols scored by how many query terms their text
//! holds, with a bonus for a name equal to the query.

use vstd::prelude::*;
use crate::model::{CodeGraph, Node, NodeKind, copy_node, same_node, views};
use crate::query::lookup::{lowercase_of, to_lowercase};
use crate::rag::{ScoredNode, node_text, node_text_spec};
use crate::sorting::{by_key_then_name, min_count, sorted_positions, top_desc_by_name};
use crate::text::{
    ascii_lowercase, chars_of, contains, is_ascii_alnum, owned, push_char, seq_ascii_lower,
    seq_contains, str_eq,
};

verus! {

// ---------------------------------------------------------------- terms

/// A character that belongs to a term: an ASCII letter or digit, or `_`.
pub open spec fn is_term_char(c: char) -> bool {
    is_ascii_alnum(c) || c == '_'
}

fn char_is_term(c: char) -> (r: bool)
    ensures
        r == is_term_char(c),
{
    ('a' <= c && c <= 'z') || ('A' <= c && c <= 'Z') || ('0' <= c && c <= '9') || c == '_'
}

/// The terms of a text: the maximal runs of term characters.
pub open spec fn terms_spec(s: Seq<char>) -> Seq<Seq<char>>
    decreases s.len(),
{
    if s.len() == 0 {
        Seq::empty()
    } else {
        let w = terms_spec(s.drop_last());
        let c = s.last();
        if !is_term_char(c) {
            w
        } else if s.len() > 1 && is_term_char(s[s.len() - 2]) && w.len() > 0 {
            w.update(w.len() - 1, w.last().push(c))
        } else {
            w.push(seq![c])
        }
    }
}

proof fn lemma_terms_len(s: Seq<char>)
    ensures
        s.len() > 0 && is_term_char(s.last()) ==> terms_spec(s).len() > 0,
        2 * terms_spec(s).len() <= s.len() + (if s.len() > 0 && is_term_char(s.last()) {
            1int
        } else {
            0int
        }),
    decreases s.len(),
{
    if s.len() > 0 {
        lemma_terms_len(s.drop_last());
    }
}

/// The terms of a text.
fn split_terms(s: &str) -> (r: Vec<String>)
    ensures
        views(r@) == terms_spec(s@),
        r@.len() + 2 <= usize::MAX,
{
    let c = chars_of(s);
    let mut r: Vec<String> = Vec::new();
    let mut cur = String::new();
    let mut i: usize = 0;
    while i < c.len()
        invariant
            i <= c@.len(),
            c@ == s@,
            terms_spec(s@.take(i as int)) == (if cur@.len() > 0 {
                views(r@).push(cur@)
            } else {
                views(r@)
            }),
            cur@.len() > 0 <==> (i > 0 && is_term_char(s@[i - 1])),
        decreases c@.len() - i,
    {
        let ch = c[i];
        let ghost pre = s@.take(i as int);
        let ghost nxt = s@.take(i + 1);
        assert(nxt.drop_last() =~= pre);
        assert(nxt.last() == ch);
        proof {
            lemma_terms_len(pre);
        }
        if !char_is_term(ch) {
            assert(terms_spec(nxt) == terms_spec(pre));
            if cur.unicode_len() > 0 {
                let ghost vr = views(r@);
                let done = cur;
                cur = String::new();
                r.push(done);
                assert(views(r@) =~= vr.push(done@));
            }
        } else {
            let ghost vr = views(r@);
            let ghost before = cur@;
            let was_open = cur.unicode_len() > 0;
            push_char(&mut cur, ch);
            if was_open {
                assert(nxt.len() > 1 && nxt[nxt.len() - 2] == s@[i - 1]);
                let ghost w = terms_spec(pre);
                assert(w == vr.push(before));
                assert(terms_spec(nxt) == w.update(w.len() - 1, w.last().push(ch)));
                assert(vr.push(before).update(vr.len() as int, before.push(ch)) =~= vr.push(cur@));
            } else {
                assert(!(nxt.len() > 1 && is_term_char(nxt[nxt.len() - 2])));
                assert(terms_spec(nxt) == terms_spec(pre).push(seq![ch]));
                assert(cur@ =~= seq![ch]);
            }
        }
        i = i + 1;
    }
    assert(s@.take(c@.len() as int) =~= s@);
    if cur.unicode_len() > 0 {
        let ghost vr = views(r@);
        r.push(cur);
        assert(views(r@) =~= vr.push(r@.last()@));
    }
    proof {
        lemma_terms_len(s@);
        assert(c@.len() <= usize::MAX);
        assert(2 * r@.len() <= usize::MAX + 1);
    }
    r
}

/// The terms of a query: those of its lower-case form.
pub open spec fn query_terms(query: Seq<char>) -> Seq<Seq<char>> {
    terms_spec(lowercase_of(query))
}

// ---------------------------------------------------------------- scoring

/// How many of the terms `ts` occur in `text` (a repeated term counts
/// each time).
pub open spec fn overlap(text: Seq<char>, ts: Seq<Seq<char>>) -> nat
    decreases ts.len(),
{
    if ts.len() == 0 {
        0
    } else {
        overlap(text, ts.drop_last()) + if seq_contains(text, ts.last()) {
            1nat
        } else {
            0nat
        }
    }
}

proof fn lemma_overlap_le(text: Seq<char>, ts: Seq<Seq<char>>)
    ensures
        overlap(text, ts) <= ts.len(),
    decreases ts.len(),
{
    if ts.len() > 0 {
        lemma_overlap_le(text, ts.drop_last());
    }
}

/// The query terms that a node's text holds.
pub open spec fn node_overlap(n: Node, query: Seq<char>) -> nat {
    overlap(lowercase_of(node_text_spec(n)), query_terms(query))
}

/// The bonus of a node whose name equals the query, ignoring ASCII case.
pub open spec fn name_bonus(n: Node, query: Seq<char>) -> nat {
    if seq_ascii_lower(n.name@) == seq_ascii_lower(query) {
        2
    } else {
        0
    }
}

/// A node's lexical score.
pub open spec fn lexical_score(n: Node, query: Seq<char>) -> nat {
    node_overlap(n, query) + name_bonus(n, query)
}

/// A node is searched unless it stands for the project or a file.
pub open spec fn is_searched(n: Node) -> bool {
    n.kind != NodeKind::Project && n.kind != NodeKind::File
}

/// The positions, among the first `k` nodes, of the searched nodes that
/// hold at least one query term.
pub open spec fn lexical_hits(nodes: Seq<Node>, query: Seq<char>, k: int) -> Seq<int>
    decreases k,
{
    if k <= 0 || k > nodes.len() {
        Seq::empty()
    } else {
        let prev = lexical_hits(nodes, query, k - 1);
        if is_searched(nodes[k - 1]) && node_overlap(nodes[k - 1], query) > 0 {
            prev.push(k - 1)
        } else {
            prev
        }
    }
}

proof fn lemma_hits_bounds(nodes: Seq<Node>, query: Seq<char>, k: int)
    requires
        0 <= k <= nodes.len(),
    ensures
        lexical_hits(nodes, query, k).len() <= k,
        forall|t: int|
            0 <= t < lexical_hits(nodes, query, k).len() ==> 0 <= #[trigger] lexical_hits(
                nodes,
                query,
                k,
            )[t] < k,
    decreases k,
{
    if k > 0 {
        lemma_hits_bounds(nodes, query, k - 1);
    }
}

fn count_overlap(text: &str, ts: &Vec<String>) -> (r: usize)
    ensures
        r == overlap(text@, views(ts@)),
{
    let mut n: usize = 0;
    let mut k: usize = 0;
    while k < ts.len()
        invariant
            k <= ts@.len(),
            n == overlap(text@, views(ts@).take(k as int)),
            n <= k,
        decreases ts@.len() - k,
    {
        assert(views(ts@).take(k + 1).drop_last() =~= views(ts@).take(k as int));
        if contains(text, ts[k].as_str()) {
            n = n + 1;
        }
        k = k + 1;
    }
    assert(views(ts@).take(ts@.len() as int) =~= views(ts@));
    n
}

/// The lexical search: the searched nodes that hold at least one query
/// term, scored by how many they hold (plus 2 when the name equals the
/// query, ignoring ASCII case), the best `limit`, higher score first, then
/// by qualified name, then in graph order.
pub fn lexical_search(graph: &CodeGraph, query: &str, limit: usize) -> (r: Vec<ScoredNode>)
    ensures
        ({
            let nodes = graph.nodes@;
            let hits = lexical_hits(nodes, query@, nodes.len() as int);
            let scores = Seq::new(hits.len(), |j: int| lexical_score(nodes[hits[j]], query@) as usize);
            let names = Seq::new(hits.len(), |j: int| nodes[hits[j]].qualified_name@);
            &&& r@.len() == min_count(hits.len(), limit as nat)
            &&& exists|order: Seq<usize>|
                {
                    &&& sorted_positions(order, hits.len() as int, by_key_then_name(scores, names))
                    &&& forall|k: int|
                        0 <= k < r@.len() ==> {
                            let n = nodes[hits[order[k] as int]];
                            &&& same_node((#[trigger] r@[k]).node, n)
                            &&& r@[k].score == lexical_score(n, query@)
                            &&& r@[k].source@ == "lexical"@
                        }
                }
        }),
{
    let ghost nodes = graph.nodes@;
    let lq = to_lowercase(query);
    let ts = split_terms(lq.as_str());
    let lname = ascii_lowercase(query);
    let mut pos: Vec<usize> = Vec::new();
    let mut scores: Vec<usize> = Vec::new();
    let mut names: Vec<String> = Vec::new();
    let mut i: usize = 0;
    while i < graph.nodes.len()
        invariant
            i <= nodes.len(),
            nodes == graph.nodes@,
            views(ts@) == query_terms(query@),
            ts@.len() + 2 <= usize::MAX,
            lname@ == seq_ascii_lower(query@),
            pos@.len() == lexical_hits(nodes, query@, i as int).len(),
            scores@.len() == pos@.len(),
            names@.len() == pos@.len(),
            forall|t: int| 0 <= t < pos@.len() ==> #[trigger] pos@[t] as int == lexical_hits(nodes, query@, i as int)[t],
            forall|t: int|
                0 <= t < pos@.len() ==> #[trigger] scores@[t] as int == lexical_score(nodes[pos@[t] as int], query@),
            forall|t: int| 0 <= t < pos@.len() ==> (#[trigger] names@[t])@ == nodes[pos@[t] as int].qualified_name@,
        decreases nodes.len() - i,
    {
        let n = &graph.nodes[i];
        if n.kind != NodeKind::Project && n.kind != NodeKind::File {
            let text = to_lowercase(node_text(n).as_str());
            let overlap_count = count_overlap(text.as_str(), &ts);
            proof {
                lemma_overlap_le(text@, views(ts@));
            }
            if overlap_count > 0 {
                let bonus: usize = if str_eq(ascii_lowercase(n.name.as_str()).as_str(), lname.as_str()) {
                    2
                } else {
                    0
                };
                pos.push(i);
                scores.push(overlap_count + bonus);
                names.push(owned(n.qualified_name.as_str()));
            }
        }
        i = i + 1;
    }
    let ghost hits = lexical_hits(nodes, query@, nodes.len() as int);
    proof {
        lemma_hits_bounds(nodes, query@, nodes.len() as int);
        let sv = Seq::new(hits.len(), |j: int| lexical_score(nodes[hits[j]], query@) as usize);
        let nv = Seq::new(hits.len(), |j: int| nodes[hits[j]].qualified_name@);
        assert(scores@ =~= sv);
        assert(views(names@) =~= nv);
    }
    let order = top_desc_by_name(&scores, &names, limit);
    let mut r: Vec<ScoredNode> = Vec::new();
    let mut k: usize = 0;
    while k < order.len()
        invariant
            k <= order@.len(),
            nodes == graph.nodes@,
            hits == lexical_hits(nodes, query@, nodes.len() as int),
            forall|t: int| 0 <= t < hits.len() ==> 0 <= #[trigger] hits[t] < nodes.len(),
            pos@.len() == hits.len(),
            scores@.len() == hits.len(),
            forall|t: int| 0 <= t < pos@.len() ==> #[trigger] pos@[t] as int == hits[t],
            forall|t: int| 0 <= t < pos@.len() ==> #[trigger] scores@[t] as int == lexical_score(nodes[hits[t]], query@),
            exists|o: Seq<usize>|
                sorted_positions(o, scores@.len() as int, by_key_then_name(scores@, views(names@)))
                    && order@ == o.take(min_count(scores@.len(), limit as nat) as int),
            r@.len() == k,
            forall|t: int|
                0 <= t < k ==> {
                    let n = nodes[hits[order@[t] as int]];
                    &&& same_node((#[trigger] r@[t]).node, n)
                    &&& r@[t].score == lexical_score(n, query@)
                    &&& r@[t].source@ == "lexical"@
                },
        decreases order@.len() - k,
    {
        proof {
            let o = choose|o: Seq<usize>|
                sorted_positions(o, scores@.len() as int, by_key_then_name(scores@, views(names@)))
                    && order@ == o.take(min_count(scores@.len(), limit as nat) as int);
            assert(order@[k as int] == o[k as int]);
        }
        let j = order[k];
        let p = pos[j];
        proof {
            reveal_strlit("lexical");
        }
        r.push(ScoredNode { node: copy_node(&graph.nodes[p]), score: scores[j], source: owned("lexical") });
        k = k + 1;
    }
    proof {
        let sv = Seq::new(hits.len(), |j: int| lexical_score(nodes[hits[j]], query@) as usize);
        let nv = Seq::new(hits.len(), |j: int| nodes[hits[j]].qualified_name@);
        assert(scores@ =~= sv);
        assert(views(names@) =~= nv);
        let o = choose|o: Seq<usize>|
            sorted_positions(o, scores@.len() as int, by_key_then_name(scores@, views(names@)))
                && order@ == o.take(min_count(scores@.len(), limit as nat) as int);
        assert(sorted_positions(o, hits.len() as int, by_key_then_name(sv, nv)));
        assert forall|k: int| 0 <= k < r@.len() implies {
            let n = nodes[hits[o[k] as int]];
            &&& same_node((#[trigger] r@[k]).node, n)
            &&& r@[k].score == lexical_score(n, query@)
            &&& r@[k].source@ == "lexical"@
        } by {
            assert(order@[k] == o[k]);
        }
    }
    r
}

} // verus!
