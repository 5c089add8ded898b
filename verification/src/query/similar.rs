//! Symbols similar to a given one: of the same kind, calling the same
//! functions, with the same signature words.

use vstd::prelude::*;
use crate::model::{CodeGraph, Edge, EdgeKind, Node, views};
use crate::query::find::found_positions;
use crate::query::lookup::{lookup_shape, search, Lookup};
use crate::query::index::total_weight;
use crate::sorting::{by_key_desc, min_count, sorted_positions, top_desc};
use crate::text::{char_is_white, chars_of, is_white, owned, push_char, str_eq};

verus! {

// ---------------------------------------------------------------- words

/// The words of a text, as `str::split_whitespace` gives them: the
/// maximal runs of characters that are not white space.
pub open spec fn words_spec(s: Seq<char>) -> Seq<Seq<char>>
    decreases s.len(),
{
    if s.len() == 0 {
        Seq::empty()
    } else {
        let w = words_spec(s.drop_last());
        let c = s.last();
        if is_white(c) {
            w
        } else if s.len() > 1 && !is_white(s[s.len() - 2]) && w.len() > 0 {
            w.update(w.len() - 1, w.last().push(c))
        } else {
            w.push(seq![c])
        }
    }
}

proof fn lemma_words_len(s: Seq<char>)
    ensures
        words_spec(s).len() <= s.len(),
        s.len() > 0 && !is_white(s.last()) ==> words_spec(s).len() > 0,
    decreases s.len(),
{
    if s.len() > 0 {
        lemma_words_len(s.drop_last());
    }
}

/// The words of a text.
pub fn split_whitespace(s: &str) -> (r: Vec<String>)
    ensures
        views(r@) == words_spec(s@),
{
    let c = chars_of(s);
    let mut r: Vec<String> = Vec::new();
    let mut cur = String::new();
    let mut i: usize = 0;
    while i < c.len()
        invariant
            i <= c@.len(),
            c@ == s@,
            words_spec(s@.take(i as int)) == (if cur@.len() > 0 {
                views(r@).push(cur@)
            } else {
                views(r@)
            }),
            cur@.len() > 0 <==> (i > 0 && !is_white(s@[i - 1])),
        decreases c@.len() - i,
    {
        let ch = c[i];
        let ghost pre = s@.take(i as int);
        let ghost nxt = s@.take(i + 1);
        assert(nxt.drop_last() =~= pre);
        assert(nxt.last() == ch);
        proof {
            lemma_words_len(pre);
        }
        if char_is_white(ch) {
            assert(words_spec(nxt) == words_spec(pre));
            if cur.unicode_len() > 0 {
                let ghost vr = views(r@);
                let done = cur;
                cur = String::new();
                r.push(done);
                assert(views(r@) =~= vr.push(done@));
            }
        } else {
            let ghost vr = views(r@);
            let ghost before = cur@;
            let was_open = cur.unicode_len() > 0;
            push_char(&mut cur, ch);
            if was_open {
                assert(nxt.len() > 1 && nxt[nxt.len() - 2] == s@[i - 1]);
                let ghost w = words_spec(pre);
                assert(w == vr.push(before));
                assert(words_spec(nxt) == w.update(w.len() - 1, w.last().push(ch)));
                assert(vr.push(before).update(vr.len() as int, before.push(ch)) =~= vr.push(cur@));
            } else {
                assert(!(nxt.len() > 1 && !is_white(nxt[nxt.len() - 2])));
                assert(words_spec(nxt) == words_spec(pre).push(seq![ch]));
                assert(cur@ =~= seq![ch]);
            }
        }
        i = i + 1;
    }
    assert(s@.take(c@.len() as int) =~= s@);
    if cur.unicode_len() > 0 {
        let ghost vr = views(r@);
        r.push(cur);
        assert(views(r@) =~= vr.push(r@.last()@));
    }
    r
}

// ---------------------------------------------------------------- scoring

/// The distinct targets of the calls from `id` among the first `k` edges,
/// in first-seen order.
pub open spec fn callees(edges: Seq<Edge>, id: Seq<char>, k: int) -> Seq<Seq<char>>
    decreases k,
{
    if k <= 0 || k > edges.len() {
        Seq::empty()
    } else {
        let prev = callees(edges, id, k - 1);
        let e = edges[k - 1];
        if e.kind == EdgeKind::Calls && e.from@ == id && !prev.contains(e.to@) {
            prev.push(e.to@)
        } else {
            prev
        }
    }
}

proof fn lemma_callees_len(edges: Seq<Edge>, id: Seq<char>, k: int)
    requires
        0 <= k <= edges.len(),
    ensures
        callees(edges, id, k).len() <= k,
    decreases k,
{
    if k > 0 {
        lemma_callees_len(edges, id, k - 1);
    }
}

/// The number of `xs` that `ys` holds, counted with repeats in `xs`.
pub open spec fn count_in(xs: Seq<Seq<char>>, ys: Seq<Seq<char>>) -> nat
    decreases xs.len(),
{
    if xs.len() == 0 {
        0
    } else {
        count_in(xs.drop_last(), ys) + if ys.contains(xs.last()) {
            1nat
        } else {
            0nat
        }
    }
}

/// What `count_in` counts: the items of `xs` that `ys` holds, and no
/// others; so nothing is counted against an empty list or a list sharing
/// no item, and every item is counted against a list holding them all.
pub proof fn lemma_count_in_laws(xs: Seq<Seq<char>>, ys: Seq<Seq<char>>)
    ensures
        count_in(xs, ys) == xs.filter(|x: Seq<char>| ys.contains(x)).len(),
        count_in(xs, Seq::empty()) == 0,
        (forall|i: int| 0 <= i < xs.len() ==> !ys.contains(#[trigger] xs[i])) ==> count_in(xs, ys) == 0,
        (forall|i: int| 0 <= i < xs.len() ==> ys.contains(#[trigger] xs[i])) ==> count_in(xs, ys) == xs.len(),
    decreases xs.len(),
{
    reveal(Seq::filter);
    if xs.len() > 0 {
        lemma_count_in_laws(xs.drop_last(), ys);
        assert(!Seq::<Seq<char>>::empty().contains(xs.last()));
        if forall|i: int| 0 <= i < xs.len() ==> !ys.contains(#[trigger] xs[i]) {
            assert forall|i: int| 0 <= i < xs.drop_last().len() implies !ys.contains(#[trigger] xs.drop_last()[i]) by {
                assert(xs.drop_last()[i] == xs[i]);
            }
            assert(!ys.contains(xs[xs.len() - 1]));
        }
        if forall|i: int| 0 <= i < xs.len() ==> ys.contains(#[trigger] xs[i]) {
            assert forall|i: int| 0 <= i < xs.drop_last().len() implies ys.contains(#[trigger] xs.drop_last()[i]) by {
                assert(xs.drop_last()[i] == xs[i]);
            }
            assert(ys.contains(xs[xs.len() - 1]));
        }
    }
}

/// A node that shares no callee and no signature word with `t` is not
/// similar to it at all.
pub proof fn lemma_similarity_unshared(edges: Seq<Edge>, t: Node, n: Node)
    requires
        forall|c: Seq<char>|
            #[trigger] callees(edges, t.id@, edges.len() as int).contains(c) ==> !callees(edges, n.id@, edges.len() as int).contains(c),
        forall|w: Seq<char>| #[trigger] sig_words(t).contains(w) ==> !sig_words(n).contains(w),
    ensures
        similarity(edges, t, n) == 0,
{
    let tc = callees(edges, t.id@, edges.len() as int);
    let nc = callees(edges, n.id@, edges.len() as int);
    assert forall|i: int| 0 <= i < tc.len() implies !nc.contains(#[trigger] tc[i]) by {
        assert(tc.contains(tc[i]));
    }
    lemma_count_in_laws(tc, nc);
    let tw = sig_words(t);
    let nw = sig_words(n);
    assert forall|i: int| 0 <= i < tw.len() implies !nw.contains(#[trigger] tw[i]) by {
        assert(tw.contains(tw[i]));
    }
    lemma_count_in_laws(tw, nw);
}

proof fn lemma_count_in_le(xs: Seq<Seq<char>>, ys: Seq<Seq<char>>)
    ensures
        count_in(xs, ys) <= xs.len(),
    decreases xs.len(),
{
    if xs.len() > 0 {
        lemma_count_in_le(xs.drop_last(), ys);
    }
}

/// The words of a node's signature; none without one.
pub open spec fn sig_words(n: Node) -> Seq<Seq<char>> {
    match n.signature {
        Some(s) => words_spec(s@),
        None => Seq::empty(),
    }
}

/// How similar node `n` is to `t`: three per shared callee of `t`, plus
/// one per word of `t`'s signature that `n`'s signature has.
pub open spec fn similarity(edges: Seq<Edge>, t: Node, n: Node) -> nat {
    3 * count_in(callees(edges, t.id@, edges.len() as int), callees(edges, n.id@, edges.len() as int))
        + count_in(sig_words(t), sig_words(n))
}

/// The positions, among the first `k` nodes, of the other nodes of `t`'s
/// kind with a positive similarity.
pub open spec fn similar_candidates(nodes: Seq<Node>, edges: Seq<Edge>, t: Node, k: int) -> Seq<int>
    decreases k,
{
    if k <= 0 || k > nodes.len() {
        Seq::empty()
    } else {
        let prev = similar_candidates(nodes, edges, t, k - 1);
        let n = nodes[k - 1];
        if n.id@ != t.id@ && n.kind == t.kind && similarity(edges, t, n) > 0 {
            prev.push(k - 1)
        } else {
            prev
        }
    }
}

fn callee_list(graph: &CodeGraph, id: &str) -> (r: Vec<String>)
    ensures
        views(r@) == callees(graph.edges@, id@, graph.edges@.len() as int),
{
    let mut r: Vec<String> = Vec::new();
    let mut i: usize = 0;
    while i < graph.edges.len()
        invariant
            i <= graph.edges@.len(),
            views(r@) == callees(graph.edges@, id@, i as int),
        decreases graph.edges@.len() - i,
    {
        let e = &graph.edges[i];
        if e.kind == EdgeKind::Calls && str_eq(e.from.as_str(), id) && !holds(&r, e.to.as_str()) {
            let ghost before = views(r@);
            r.push(owned(e.to.as_str()));
            assert(views(r@) =~= before.push(e.to@));
        }
        i = i + 1;
    }
    r
}

fn holds(v: &Vec<String>, s: &str) -> (r: bool)
    ensures
        r == views(v@).contains(s@),
{
    let mut i: usize = 0;
    while i < v.len()
        invariant
            i <= v@.len(),
            forall|k: int| 0 <= k < i ==> views(v@)[k] != s@,
        decreases v@.len() - i,
    {
        if str_eq(v[i].as_str(), s) {
            assert(views(v@)[i as int] == s@);
            return true;
        }
        i = i + 1;
    }
    false
}

fn count_held(xs: &Vec<String>, ys: &Vec<String>) -> (r: usize)
    ensures
        r == count_in(views(xs@), views(ys@)),
{
    let mut n: usize = 0;
    let mut i: usize = 0;
    while i < xs.len()
        invariant
            i <= xs@.len(),
            n == count_in(views(xs@).take(i as int), views(ys@)),
            n <= i,
        decreases xs@.len() - i,
    {
        assert(views(xs@).take(i + 1).drop_last() =~= views(xs@).take(i as int));
        if holds(ys, xs[i].as_str()) {
            n = n + 1;
        }
        i = i + 1;
    }
    assert(views(xs@).take(xs@.len() as int) =~= views(xs@));
    n
}

fn words_of(sig: &Option<String>) -> (r: Vec<String>)
    ensures
        views(r@) == match sig {
            Some(s) => words_spec(s@),
            None => Seq::empty(),
        },
{
    match sig {
        Some(s) => split_whitespace(s.as_str()),
        None => {
            let r: Vec<String> = Vec::new();
            assert(views(r@) =~= Seq::<Seq<char>>::empty());
            r
        },
    }
}

/// The symbol looked up and the symbols most similar to it, each with its
/// score.
pub struct SimilarView {
    pub target: usize,
    pub items: Vec<(usize, usize)>,
}

/// Symbols similar to the one `name` picks: the other symbols of its kind
/// that share callees or signature words with it, highest score first
/// (graph order on a tie), the first `limit` of them.
pub fn similar(graph: &CodeGraph, name: &str, limit: usize) -> (r: Lookup<SimilarView>)
    requires
        name@.len() < usize::MAX,
        forall|k: int|
            0 <= k < graph.nodes@.len() ==> (#[trigger] graph.nodes@[k]).name@.len() < usize::MAX,
        4 * graph.edges@.len() <= usize::MAX,
        forall|k: int|
            0 <= k < graph.nodes@.len() ==> match (#[trigger] graph.nodes@[k]).signature {
                Some(s) => 4 * s@.len() <= usize::MAX,
                None => true,
            },
    ensures
        lookup_shape(graph.nodes@, name, r),
        r matches Lookup::Found(v) ==> {
            let p = found_positions(graph.nodes@, name@)[0];
            let t = graph.nodes@[p];
            let cand = similar_candidates(graph.nodes@, graph.edges@, t, graph.nodes@.len() as int);
            let scores = Seq::new(
                cand.len(),
                |k: int| similarity(graph.edges@, t, graph.nodes@[cand[k]]) as usize,
            );
            &&& v.target as int == p
            &&& exists|order: Seq<usize>|
                {
                    &&& sorted_positions(order, cand.len() as int, by_key_desc(scores))
                    &&& v.items@.len() == min_count(cand.len(), limit as nat)
                    &&& forall|k: int|
                        0 <= k < v.items@.len() ==> v.items@[k].0 as int == cand[order[k] as int]
                            && v.items@[k].1 == scores[order[k] as int]
                }
        },
{
    let p = match crate::query::lookup::pick_node(graph, name) {
        Lookup::Found(p) => p,
        Lookup::NotFound(m) => {
            return Lookup::NotFound(m);
        },
        Lookup::Ambiguous(ps) => {
            return Lookup::Ambiguous(ps);
        },
    };
    let ghost nodes = graph.nodes@;
    let ghost edges = graph.edges@;
    let target = &graph.nodes[p];
    let ghost t = *target;
    let tc = callee_list(graph, target.id.as_str());
    let tw = words_of(&target.signature);
    proof {
        lemma_callees_len(edges, t.id@, edges.len() as int);
        lemma_words_len(match t.signature { Some(s) => s@, None => Seq::empty() });
    }
    let mut cand: Vec<usize> = Vec::new();
    let mut scores: Vec<usize> = Vec::new();
    let mut i: usize = 0;
    while i < graph.nodes.len()
        invariant
            i <= nodes.len(),
            nodes == graph.nodes@,
            edges == graph.edges@,
            p < nodes.len(),
            t == nodes[p as int],
            *target == t,
            views(tc@) == callees(edges, t.id@, edges.len() as int),
            views(tw@) == sig_words(t),
            tc@.len() <= edges.len(),
            tw@.len() <= match t.signature { Some(s) => s@.len(), None => 0 },
            4 * edges.len() <= usize::MAX,
            forall|k: int|
                0 <= k < nodes.len() ==> match (#[trigger] nodes[k]).signature {
                    Some(s) => 4 * s@.len() <= usize::MAX,
                    None => true,
                },
            cand@.len() == scores@.len(),
            cand@.len() == similar_candidates(nodes, edges, t, i as int).len(),
            forall|k: int|
                0 <= k < cand@.len() ==> #[trigger] cand@[k] as int == similar_candidates(
                    nodes,
                    edges,
                    t,
                    i as int,
                )[k],
            forall|k: int|
                0 <= k < scores@.len() ==> #[trigger] scores@[k] == similarity(
                    edges,
                    t,
                    nodes[cand@[k] as int],
                ),
        decreases nodes.len() - i,
    {
        let n = &graph.nodes[i];
        let ghost prevc = similar_candidates(nodes, edges, t, i as int);
        assert(*n == nodes[i as int]);
        let ghost nextc = similar_candidates(nodes, edges, t, i + 1);
        assert(nextc == (if n.id@ != t.id@ && n.kind == t.kind && similarity(edges, t, *n) > 0 {
            prevc.push(i as int)
        } else {
            prevc
        }));
        if !str_eq(n.id.as_str(), target.id.as_str()) && n.kind == target.kind {
            let nc = callee_list(graph, n.id.as_str());
            let nw = words_of(&n.signature);
            let shared = count_held(&tc, &nc);
            let kw = count_held(&tw, &nw);
            proof {
                lemma_count_in_le(views(tc@), views(nc@));
                lemma_count_in_le(views(tw@), views(nw@));
            }
            let score = 3 * shared + kw;
            assert(score as nat == similarity(edges, t, nodes[i as int]));
            if score > 0 {
                cand.push(i);
                scores.push(score);
            }
        }
        i = i + 1;
    }
    let ghost cv = similar_candidates(nodes, edges, t, nodes.len() as int);
    let order = top_desc(&scores, limit);
    let mut items: Vec<(usize, usize)> = Vec::new();
    let mut k: usize = 0;
    while k < order.len()
        invariant
            k <= order@.len(),
            order@.len() <= scores@.len(),
            cand@.len() == scores@.len(),
            exists|o: Seq<usize>|
                sorted_positions(o, scores@.len() as int, by_key_desc(scores@)) && order@ == o.take(
                    min_count(scores@.len(), limit as nat) as int,
                ),
            items@.len() == k,
            forall|q: int|
                0 <= q < k ==> items@[q].0 == cand@[order@[q] as int] && items@[q].1
                    == scores@[order@[q] as int],
            forall|q: int| 0 <= q < cand@.len() ==> #[trigger] cand@[q] as int == cv[q],
            cand@.len() == cv.len(),
        decreases order@.len() - k,
    {
        proof {
            let o = choose|o: Seq<usize>|
                sorted_positions(o, scores@.len() as int, by_key_desc(scores@)) && order@ == o.take(
                    min_count(scores@.len(), limit as nat) as int,
                );
            assert(order@[k as int] == o[k as int]);
        }
        items.push((cand[order[k]], scores[order[k]]));
        k = k + 1;
    }
    proof {
        let sc = Seq::new(cv.len(), |q: int| similarity(edges, t, nodes[cv[q]]) as usize);
        assert(scores@ =~= sc);
    }
    Lookup::Found(SimilarView { target: p, items })
}

// ---------------------------------------------------------------- find

/// How `find` matches: by text in names, or by similarity to a symbol.
#[derive(Clone, Copy, Debug, PartialEq, Eq, Structural)]
pub enum FindMode {
    Text,
    Similar,
}

/// What `find` answers: a text search's node positions, or a similarity
/// lookup.
pub enum FindResult {
    Text(Vec<usize>),
    Similar(Lookup<SimilarView>),
}

/// Find symbols by text (see `search`) or by similarity (see `similar`).
pub fn find(graph: &CodeGraph, pattern: &str, mode: FindMode, limit: usize) -> (r: FindResult)
    requires
        2 * total_weight(graph.edges@) <= usize::MAX,
        pattern@.len() < usize::MAX,
        forall|k: int|
            0 <= k < graph.nodes@.len() ==> (#[trigger] graph.nodes@[k]).name@.len() < usize::MAX,
        4 * graph.edges@.len() <= usize::MAX,
        forall|k: int|
            0 <= k < graph.nodes@.len() ==> match (#[trigger] graph.nodes@[k]).signature {
                Some(s) => 4 * s@.len() <= usize::MAX,
                None => true,
            },
    ensures
        match mode {
            FindMode::Text => r matches FindResult::Text(v) && {
                let cand = crate::query::lookup::search_candidates(
                    graph.nodes@,
                    pattern@,
                    graph.nodes@.len() as int,
                );
                crate::query::lookup::top_by_degree(
                    v@,
                    cand,
                    crate::query::lookup::degrees_at(graph.nodes@, graph.edges@, cand),
                    limit as nat,
                )
            },
            FindMode::Similar => r matches FindResult::Similar(l) && lookup_shape(
                graph.nodes@,
                pattern,
                l,
            ),
        },
{
    match mode {
        FindMode::Text => FindResult::Text(search(graph, pattern, limit)),
        FindMode::Similar => FindResult::Similar(similar(graph, pattern, limit)),
    }
}

} // verus!
