//! Entry points of a code base: function-like symbols that nothing calls
//! or whose name says they start something, and the call chains below
//! them.

use vstd::prelude::*;
use crate::model::{CodeGraph, Edge, EdgeKind, Node, NodeKind, views};
use crate::query::index::{
    QueryIndex, degree_at, last_with_id, lemma_positions_at, positions_at, total_weight,
};
use crate::sorting::{by_key_then_name, min_count, sorted_positions, top_desc_by_name};
use crate::text::{
    ascii_lowercase, concat2, contains, ends_with, owned, seq_ascii_lower, seq_contains,
    seq_ends_with, str_eq,
};

verus! {

/// The names (lower case) that mark an entry point; the guide leaves out
/// `handler` and `route`.
pub open spec fn entry_patterns(guide: bool) -> Seq<Seq<char>> {
    let common = seq![
        "main"@,
        "__main__"@,
        "cli"@,
        "app"@,
        "server"@,
        "create_app"@,
        "run"@,
        "start"@,
        "setup"@,
    ];
    if guide {
        common
    } else {
        common + seq!["handler"@, "route"@]
    }
}

fn entry_pattern_list(guide: bool) -> (r: Vec<&'static str>)
    ensures
        r@.map_values(|s: &str| s@) == entry_patterns(guide),
{
    proof {
        reveal_strlit("main");
        reveal_strlit("__main__");
        reveal_strlit("cli");
        reveal_strlit("app");
        reveal_strlit("server");
        reveal_strlit("create_app");
        reveal_strlit("run");
        reveal_strlit("start");
        reveal_strlit("setup");
        reveal_strlit("handler");
        reveal_strlit("route");
    }
    let mut r = vec!["main", "__main__", "cli", "app", "server", "create_app", "run", "start", "setup"];
    if !guide {
        r.push("handler");
        r.push("route");
    }
    assert(r@.map_values(|s: &str| s@) =~= entry_patterns(guide));
    r
}

/// Whether a lower-cased name matches a pattern: equal to it, ending with
/// `::pattern`, or holding `_pattern`.
pub open spec fn matches_pattern(lowered: Seq<char>, p: Seq<char>) -> bool {
    lowered == p || seq_ends_with(lowered, "::"@ + p) || seq_contains(lowered, "_"@ + p)
}

/// Whether a name, lower-cased, matches one of the patterns.
pub open spec fn looks_like_entry(name: Seq<char>, pats: Seq<Seq<char>>) -> bool {
    exists|k: int| 0 <= k < pats.len() && matches_pattern(seq_ascii_lower(name), #[trigger] pats[k])
}

fn looks_like_entry_name(name: &str, pats: &Vec<&'static str>) -> (r: bool)
    ensures
        r == looks_like_entry(name@, pats@.map_values(|s: &str| s@)),
{
    let lowered = ascii_lowercase(name);
    let ghost pv = pats@.map_values(|s: &str| s@);
    proof {
        reveal_strlit("::");
        reveal_strlit("_");
    }
    let mut k: usize = 0;
    while k < pats.len()
        invariant
            k <= pats@.len(),
            pv == pats@.map_values(|s: &str| s@),
            lowered@ == seq_ascii_lower(name@),
            forall|j: int| 0 <= j < k ==> !matches_pattern(lowered@, #[trigger] pv[j]),
        decreases pats@.len() - k,
    {
        let p = pats[k];
        let with_colons = concat2("::", p);
        let with_underscore = concat2("_", p);
        if str_eq(lowered.as_str(), p) || ends_with(lowered.as_str(), with_colons.as_str())
            || contains(lowered.as_str(), with_underscore.as_str()) {
            assert(matches_pattern(lowered@, pv[k as int]));
            return true;
        }
        k = k + 1;
    }
    false
}

/// The function-like kinds an entry point can be.
pub open spec fn is_entry_kind(k: NodeKind) -> bool {
    k == NodeKind::Function || k == NodeKind::AsyncFunction || k == NodeKind::Method || k
        == NodeKind::AsyncMethod || k == NodeKind::ClassMethod || k == NodeKind::StaticMethod
}

/// The edge kinds that make a symbol reached from elsewhere: calls, and
/// for the guide also imports.
pub open spec fn reaching_kind(k: EdgeKind, with_imports: bool) -> bool {
    k == EdgeKind::Calls || k == EdgeKind::AwaitCalls || (with_imports && k == EdgeKind::Imports)
}

/// Whether some reaching edge enters `id`.
pub open spec fn has_incoming(edges: Seq<Edge>, id: Seq<char>, with_imports: bool) -> bool {
    exists|j: int|
        0 <= j < edges.len() && (#[trigger] edges[j]).to@ == id && reaching_kind(
            edges[j].kind,
            with_imports,
        )
}

/// Whether node `n` is an entry point.
pub open spec fn is_entry(n: Node, edges: Seq<Edge>, guide: bool) -> bool {
    is_entry_kind(n.kind) && (!has_incoming(edges, n.id@, guide) || looks_like_entry(
        n.name@,
        entry_patterns(guide),
    ))
}

proof fn lemma_lower_fixed(s: Seq<char>)
    requires
        forall|i: int| 0 <= i < s.len() ==> !('A' <= #[trigger] s[i] && s[i] <= 'Z'),
    ensures
        seq_ascii_lower(s) == s,
{
    assert(seq_ascii_lower(s) =~= s);
}

proof fn lemma_entry_name(name: Seq<char>, pats: Seq<Seq<char>>, k: int)
    requires
        0 <= k < pats.len(),
        pats[k] == name,
        forall|i: int| 0 <= i < name.len() ==> !('A' <= #[trigger] name[i] && name[i] <= 'Z'),
    ensures
        looks_like_entry(name, pats),
{
    lemma_lower_fixed(name);
    assert(matches_pattern(seq_ascii_lower(name), pats[k]));
}

/// A function-like symbol named `main`, `__main__`, `cli`, `app`,
/// `server`, `create_app`, `run`, `start` or `setup` is an entry point
/// whatever calls it, and outside the guide so is one named `handler` or
/// `route`.
pub proof fn lemma_entry_names(n: Node, edges: Seq<Edge>, guide: bool)
    requires
        is_entry_kind(n.kind),
        n.name@ == "main"@ || n.name@ == "__main__"@ || n.name@ == "cli"@ || n.name@ == "app"@ || n.name@ == "server"@
            || n.name@ == "create_app"@ || n.name@ == "run"@ || n.name@ == "start"@ || n.name@ == "setup"@
            || (!guide && (n.name@ == "handler"@ || n.name@ == "route"@)),
    ensures
        is_entry(n, edges, guide),
{
    reveal_strlit("main");
    reveal_strlit("__main__");
    reveal_strlit("cli");
    reveal_strlit("app");
    reveal_strlit("server");
    reveal_strlit("create_app");
    reveal_strlit("run");
    reveal_strlit("start");
    reveal_strlit("setup");
    reveal_strlit("handler");
    reveal_strlit("route");
    let pats = entry_patterns(guide);
    let nm = n.name@;
    if nm == "main"@ {
        lemma_entry_name(nm, pats, 0);
    }
    if nm == "__main__"@ {
        lemma_entry_name(nm, pats, 1);
    }
    if nm == "cli"@ {
        lemma_entry_name(nm, pats, 2);
    }
    if nm == "app"@ {
        lemma_entry_name(nm, pats, 3);
    }
    if nm == "server"@ {
        lemma_entry_name(nm, pats, 4);
    }
    if nm == "create_app"@ {
        lemma_entry_name(nm, pats, 5);
    }
    if nm == "run"@ {
        lemma_entry_name(nm, pats, 6);
    }
    if nm == "start"@ {
        lemma_entry_name(nm, pats, 7);
    }
    if nm == "setup"@ {
        lemma_entry_name(nm, pats, 8);
    }
    if !guide && nm == "handler"@ {
        lemma_entry_name(nm, pats, 9);
    }
    if !guide && nm == "route"@ {
        lemma_entry_name(nm, pats, 10);
    }
}

/// Positions, in order, of the entry points among the first `k` nodes.
pub open spec fn entry_candidates(nodes: Seq<Node>, edges: Seq<Edge>, guide: bool, k: int) -> Seq<int>
    decreases k,
{
    if k <= 0 || k > nodes.len() {
        Seq::empty()
    } else {
        let prev = entry_candidates(nodes, edges, guide, k - 1);
        if is_entry(nodes[k - 1], edges, guide) {
            prev.push(k - 1)
        } else {
            prev
        }
    }
}

fn has_incoming_edges(index: &QueryIndex, id: &str, with_imports: bool) -> (r: bool)
    requires
        index.wf(),
    ensures
        r == has_incoming(index.edge_seq(), id@, with_imports),
{
    let graph = index.graph();
    let ne = graph.edges.len();
    let ps = index.edges(id, false);
    proof {
        lemma_positions_at(graph.edges@, id@, false);
    }
    let mut k: usize = 0;
    while k < ps.len()
        invariant
            k <= ps@.len(),
            graph.edges@ == index.edge_seq(),
            ps@ == positions_at(graph.edges@, id@, false),
            forall|t: int| 0 <= t < ps@.len() ==> {
                let p = #[trigger] ps@[t];
                &&& p < graph.edges@.len()
                &&& graph.edges@[p as int].to@ == id@
            },
            forall|p: int|
                0 <= p < graph.edges@.len() && (#[trigger] graph.edges@[p]).to@ == id@
                    ==> ps@.contains(p as usize),
            forall|t: int| 0 <= t < k ==> !reaching_kind(graph.edges@[#[trigger] ps@[t] as int].kind, with_imports),
        decreases ps@.len() - k,
    {
        let kind = graph.edges[ps[k]].kind;
        let hit = match kind {
            EdgeKind::Calls | EdgeKind::AwaitCalls => true,
            EdgeKind::Imports => with_imports,
            _ => false,
        };
        if hit {
            assert(graph.edges@[ps@[k as int] as int].to@ == id@);
            return true;
        }
        k = k + 1;
    }
    proof {
        assert forall|j: int| 0 <= j < graph.edges@.len() && (#[trigger] graph.edges@[j]).to@ == id@
            implies !reaching_kind(graph.edges@[j].kind, with_imports) by {
            assert(ps@.contains(j as usize));
            let t = choose|t: int| 0 <= t < ps@.len() && ps@[t] == j as usize;
            assert(!reaching_kind(graph.edges@[ps@[t] as int].kind, with_imports));
        }
    }
    false
}

/// The entry points of a graph in order, with their degrees and qualified
/// names, for ranking.
fn detect(index: &QueryIndex, guide: bool) -> (r: (Vec<usize>, Vec<usize>, Vec<String>))
    requires
        index.wf(),
    ensures
        ({
            let nodes = index.node_seq();
            let cand = entry_candidates(nodes, index.edge_seq(), guide, nodes.len() as int);
            &&& r.0@.len() == cand.len()
            &&& forall|k: int| 0 <= k < cand.len() ==> #[trigger] r.0@[k] as int == cand[k]
            &&& r.1@.len() == cand.len()
            &&& forall|k: int|
                0 <= k < cand.len() ==> #[trigger] r.1@[k] == degree_at(
                    index.edge_seq(),
                    nodes[cand[k]].id@,
                )
            &&& r.2@.len() == cand.len()
            &&& forall|k: int|
                0 <= k < cand.len() ==> (#[trigger] r.2@[k])@ == nodes[cand[k]].qualified_name@
        }),
{
    let graph = index.graph();
    let ghost nodes = graph.nodes@;
    let ghost edges = graph.edges@;
    let pats = entry_pattern_list(guide);
    let mut pos: Vec<usize> = Vec::new();
    let mut ds: Vec<usize> = Vec::new();
    let mut qs: Vec<String> = Vec::new();
    let mut i: usize = 0;
    while i < graph.nodes.len()
        invariant
            index.wf(),
            nodes == graph.nodes@,
            nodes == index.node_seq(),
            edges == index.edge_seq(),
            pats@.map_values(|s: &str| s@) == entry_patterns(guide),
            i <= nodes.len(),
            pos@.len() == entry_candidates(nodes, edges, guide, i as int).len(),
            forall|k: int|
                0 <= k < pos@.len() ==> #[trigger] pos@[k] as int == entry_candidates(
                    nodes,
                    edges,
                    guide,
                    i as int,
                )[k],
            ds@.len() == pos@.len(),
            qs@.len() == pos@.len(),
            forall|k: int|
                0 <= k < pos@.len() ==> #[trigger] ds@[k] == degree_at(edges, nodes[pos@[k] as int].id@),
            forall|k: int|
                0 <= k < pos@.len() ==> (#[trigger] qs@[k])@ == nodes[pos@[k] as int].qualified_name@,
        decreases nodes.len() - i,
    {
        let n = &graph.nodes[i];
        let kind_ok = match n.kind {
            NodeKind::Function | NodeKind::AsyncFunction | NodeKind::Method | NodeKind::AsyncMethod
            | NodeKind::ClassMethod | NodeKind::StaticMethod => true,
            _ => false,
        };
        if kind_ok && (!has_incoming_edges(index, n.id.as_str(), guide) || looks_like_entry_name(
            n.name.as_str(),
            &pats,
        )) {
            pos.push(i);
            ds.push(index.degree(n.id.as_str()));
            qs.push(owned(n.qualified_name.as_str()));
        }
        i = i + 1;
    }
    (pos, ds, qs)
}

/// The entry points listed, each with its degree, and how many there are.
pub struct EntriesReport {
    pub entries: Vec<(usize, usize)>,
    pub total: usize,
}

/// `items` lists the first `limit` entry points, most connected first, by
/// qualified name on a tie.
pub open spec fn ranked_entries(
    nodes: Seq<Node>,
    edges: Seq<Edge>,
    guide: bool,
    limit: nat,
    items: Seq<usize>,
) -> bool {
    let cand = entry_candidates(nodes, edges, guide, nodes.len() as int);
    let ds = Seq::new(cand.len(), |k: int| degree_at(edges, nodes[cand[k]].id@) as usize);
    let qs = Seq::new(cand.len(), |k: int| nodes[cand[k]].qualified_name@);
    exists|order: Seq<usize>|
        {
            &&& sorted_positions(order, cand.len() as int, by_key_then_name(ds, qs))
            &&& items.len() == min_count(cand.len(), limit)
            &&& forall|k: int| 0 <= k < items.len() ==> items[k] as int == cand[order[k] as int]
        }
}

fn rank(index: &QueryIndex, guide: bool, limit: usize) -> (r: (Vec<usize>, Vec<usize>, usize))
    requires
        index.wf(),
    ensures
        ranked_entries(index.node_seq(), index.edge_seq(), guide, limit as nat, r.0@),
        r.1@.len() == r.0@.len(),
        forall|k: int| 0 <= k < r.0@.len() ==> #[trigger] r.0@[k] < index.node_seq().len(),
        forall|k: int|
            0 <= k < r.0@.len() ==> #[trigger] r.1@[k] == degree_at(
                index.edge_seq(),
                index.node_seq()[r.0@[k] as int].id@,
            ),
        r.2 == entry_candidates(
            index.node_seq(),
            index.edge_seq(),
            guide,
            index.node_seq().len() as int,
        ).len(),
{
    let ghost nodes = index.node_seq();
    let ghost edges = index.edge_seq();
    let (pos, ds, qs) = detect(index, guide);
    let ghost cand = entry_candidates(nodes, edges, guide, nodes.len() as int);
    proof {
        lemma_entry_candidates_bound(nodes, edges, guide, nodes.len() as int);
    }
    let order = top_desc_by_name(&ds, &qs, limit);
    let ghost dsv = Seq::new(cand.len(), |k: int| degree_at(edges, nodes[cand[k]].id@) as usize);
    let ghost qsv = Seq::new(cand.len(), |k: int| nodes[cand[k]].qualified_name@);
    assert(ds@ =~= dsv);
    assert(views(qs@) =~= qsv);
    let mut items: Vec<usize> = Vec::new();
    let mut degrees: Vec<usize> = Vec::new();
    let mut k: usize = 0;
    let ghost o = choose|o: Seq<usize>|
        sorted_positions(o, ds@.len() as int, by_key_then_name(ds@, views(qs@))) && order@ == o.take(
            min_count(ds@.len(), limit as nat) as int,
        );
    while k < order.len()
        invariant
            k <= order@.len(),
            sorted_positions(o, ds@.len() as int, by_key_then_name(ds@, views(qs@))),
            order@ == o.take(min_count(ds@.len(), limit as nat) as int),
            pos@.len() == cand.len(),
            ds@.len() == cand.len(),
            forall|t: int| 0 <= t < cand.len() ==> #[trigger] pos@[t] as int == cand[t],
            forall|t: int| 0 <= t < cand.len() ==> 0 <= #[trigger] cand[t] < nodes.len(),
            forall|t: int| 0 <= t < cand.len() ==> #[trigger] ds@[t] == degree_at(edges, nodes[cand[t]].id@),
            items@.len() == k,
            degrees@.len() == k,
            forall|t: int| 0 <= t < k ==> items@[t] as int == cand[o[t] as int],
            forall|t: int|
                0 <= t < k ==> items@[t] < nodes.len() && #[trigger] degrees@[t] == degree_at(
                    edges,
                    nodes[items@[t] as int].id@,
                ),
        decreases order@.len() - k,
    {
        let p = order[k];
        assert(p == o[k as int]);
        items.push(pos[p]);
        degrees.push(ds[p]);
        k = k + 1;
    }
    assert(ranked_entries(nodes, edges, guide, limit as nat, items@)) by {
        assert(by_key_then_name(ds@, views(qs@)) == by_key_then_name(dsv, qsv));
    }
    (items, degrees, pos.len())
}

proof fn lemma_entry_candidates_bound(nodes: Seq<Node>, edges: Seq<Edge>, guide: bool, k: int)
    requires
        0 <= k <= nodes.len(),
    ensures
        entry_candidates(nodes, edges, guide, k).len() <= k,
        forall|t: int|
            0 <= t < entry_candidates(nodes, edges, guide, k).len() ==> 0
                <= #[trigger] entry_candidates(nodes, edges, guide, k)[t] < k,
    decreases k,
{
    if k > 0 {
        lemma_entry_candidates_bound(nodes, edges, guide, k - 1);
    }
}

/// The detected entry points: function-like symbols that no call enters
/// or whose name marks an entry point, most connected first (by qualified
/// name on a tie), the first `limit` of them, with their number.
pub fn entries(graph: &CodeGraph, limit: usize) -> (r: EntriesReport)
    requires
        2 * total_weight(graph.edges@) <= usize::MAX,
    ensures
        ranked_entries(
            graph.nodes@,
            graph.edges@,
            false,
            limit as nat,
            r.entries@.map_values(|e: (usize, usize)| e.0),
        ),
        forall|k: int|
            0 <= k < r.entries@.len() ==> #[trigger] r.entries@[k].1 == degree_at(
                graph.edges@,
                graph.nodes@[r.entries@[k].0 as int].id@,
            ),
        r.total == entry_candidates(graph.nodes@, graph.edges@, false, graph.nodes@.len() as int).len(),
{
    let index = QueryIndex::new(graph);
    let (items, degrees, total) = rank(&index, false, limit);
    let mut out: Vec<(usize, usize)> = Vec::new();
    let mut k: usize = 0;
    while k < items.len()
        invariant
            k <= items@.len(),
            degrees@.len() == items@.len(),
            out@.len() == k,
            forall|t: int| 0 <= t < k ==> #[trigger] out@[t] == (items@[t], degrees@[t]),
        decreases items@.len() - k,
    {
        out.push((items[k], degrees[k]));
        k = k + 1;
    }
    assert(out@.map_values(|e: (usize, usize)| e.0) =~= items@);
    EntriesReport { entries: out, total }
}

// ---------------------------------------------------------------- guide

/// Whether edge `e` is a call.
pub open spec fn is_call_kind(k: EdgeKind) -> bool {
    k == EdgeKind::Calls || k == EdgeKind::AwaitCalls
}

/// The call chain below `id` to depth `depth`, visiting each symbol once:
/// the ids seen afterwards and the qualified names reached, depth first.
pub open spec fn chain_from(nodes: Seq<Node>, edges: Seq<Edge>, id: Seq<char>, depth: nat, seen: Set<
    Seq<char>,
>) -> (Set<Seq<char>>, Seq<Seq<char>>)
    decreases depth, 1int, 0int,
{
    if depth == 0 {
        (seen, Seq::empty())
    } else {
        let ps = positions_at(edges, id, true);
        chain_edges(nodes, edges, ps, 0, depth, seen)
    }
}

/// The chain through the out-edges `ps[i..]` at depth `depth`.
pub open spec fn chain_edges(
    nodes: Seq<Node>,
    edges: Seq<Edge>,
    ps: Seq<usize>,
    i: int,
    depth: nat,
    seen: Set<Seq<char>>,
) -> (Set<Seq<char>>, Seq<Seq<char>>)
    decreases depth, 0int, ps.len() - i,
{
    if i < 0 || i >= ps.len() || depth == 0 {
        (seen, Seq::empty())
    } else {
        let e = edges[ps[i] as int];
        let t = last_with_id(nodes, e.to@);
        if !is_call_kind(e.kind) || t < 0 || t >= nodes.len() || seen.contains(nodes[t].id@) {
            chain_edges(nodes, edges, ps, i + 1, depth, seen)
        } else {
            let tid = nodes[t].id@;
            let below = chain_from(nodes, edges, tid, (depth - 1) as nat, seen.insert(tid));
            let rest = chain_edges(nodes, edges, ps, i + 1, depth, below.0);
            (rest.0, seq![nodes[t].qualified_name@] + below.1 + rest.1)
        }
    }
}

/// The set of a sequence with one more element is the set with that element.
pub proof fn lemma_push_to_set(s: Seq<Seq<char>>, x: Seq<char>)
    ensures
        s.push(x).to_set() == s.to_set().insert(x),
{
    assert forall|a: Seq<char>| s.push(x).to_set().contains(a) == s.to_set().insert(x).contains(a) by {
        if s.contains(a) {
            let k = choose|k: int| 0 <= k < s.len() && s[k] == a;
            assert(s.push(x)[k] == a);
        }
        if a == x {
            assert(s.push(x)[s.len() as int] == x);
        }
        if s.push(x).contains(a) {
            let k = choose|k: int| 0 <= k < s.push(x).len() && s.push(x)[k] == a;
            if k < s.len() {
                assert(s[k] == a);
            }
        }
    }
    assert(s.push(x).to_set() =~= s.to_set().insert(x));
}

fn holds(v: &Vec<String>, s: &str) -> (r: bool)
    ensures
        r == views(v@).contains(s@),
{
    let mut i: usize = 0;
    while i < v.len()
        invariant
            i <= v@.len(),
            forall|k: int| 0 <= k < i ==> views(v@)[k] != s@,
        decreases v@.len() - i,
    {
        if str_eq(v[i].as_str(), s) {
            assert(views(v@)[i as int] == s@);
            return true;
        }
        i = i + 1;
    }
    false
}

/// Add to `chain` the qualified names of the symbols called below
/// `node_id`, depth first to depth `depth`, skipping those already in
/// `seen` (which grows by each one visited).
fn collect_call_chain(
    index: &QueryIndex,
    node_id: &str,
    depth: usize,
    seen: &mut Vec<String>,
    chain: &mut Vec<String>,
)
    requires
        index.wf(),
    ensures
        ({
            let out = chain_from(
                index.node_seq(),
                index.edge_seq(),
                node_id@,
                depth as nat,
                views(old(seen)@).to_set(),
            );
            &&& views(final(seen)@).to_set() == out.0
            &&& views(final(chain)@) == views(old(chain)@) + out.1
        }),
    decreases depth, 1int, 0int,
{
    if depth == 0 {
        return;
    }
    let graph = index.graph();
    let ghost nodes = graph.nodes@;
    let ghost edges = graph.edges@;
    let ne = graph.edges.len();
    let ps = index.edges(node_id, true);
    proof {
        lemma_positions_at(edges, node_id@, true);
    }
    let ghost s0 = views(seen@).to_set();
    let ghost c0 = views(chain@);
    let ghost total = chain_edges(nodes, edges, ps@, 0, depth as nat, s0);
    let mut i: usize = 0;
    while i < ps.len()
        invariant
            index.wf(),
            nodes == index.node_seq(),
            edges == index.edge_seq(),
            graph.nodes@ == nodes,
            graph.edges@ == edges,
            depth > 0,
            i <= ps@.len(),
            forall|t: int| 0 <= t < ps@.len() ==> #[trigger] ps@[t] < edges.len(),
            total == chain_edges(nodes, edges, ps@, 0, depth as nat, s0),
            ({
                let rest = chain_edges(nodes, edges, ps@, i as int, depth as nat, views(seen@).to_set());
                &&& total.0 == rest.0
                &&& total.1 == views(chain@).skip(c0.len() as int) + rest.1
                &&& views(chain@).len() >= c0.len()
                &&& views(chain@).take(c0.len() as int) == c0
            }),
        decreases ps@.len() - i,
    {
        let e = &graph.edges[ps[i]];
        let ghost s_before = views(seen@).to_set();
        let ghost ch_before = views(chain@);
        let is_call = match e.kind {
            EdgeKind::Calls | EdgeKind::AwaitCalls => true,
            _ => false,
        };
        let target = if is_call {
            index.node_index(e.to.as_str())
        } else {
            None
        };
        match target {
            Some(t) => {
                let tid = graph.nodes[t].id.as_str();
                if holds(seen, tid) {
                    // already visited
                } else {
                    let ghost seen_before = seen@;
                    seen.push(owned(tid));
                    assert(views(seen@).to_set() == s_before.insert(tid@)) by {
                        assert(views(seen@) =~= views(seen_before).push(tid@));
                        lemma_push_to_set(views(seen_before), tid@);
                    }
                    let ghost c1 = views(chain@);
                    chain.push(owned(graph.nodes[t].qualified_name.as_str()));
                    assert(views(chain@) =~= c1.push(nodes[t as int].qualified_name@));
                    let ghost mid_chain = views(chain@);
                    collect_call_chain(index, tid, depth - 1, seen, chain);
                    proof {
                        let below = chain_from(nodes, edges, tid@, (depth - 1) as nat, s_before.insert(tid@));
                        assert(views(chain@) == mid_chain + below.1);
                        assert(views(chain@).take(c0.len() as int) =~= c0);
                        assert(views(chain@).skip(c0.len() as int) =~= ch_before.skip(c0.len() as int) + seq![
                            nodes[t as int].qualified_name@,
                        ] + below.1);
                    }
                }
            },
            None => {},
        }
        i = i + 1;
    }
    proof {
        assert(views(chain@).skip(c0.len() as int) + Seq::<Seq<char>>::empty() =~= views(chain@).skip(c0.len() as int));
        assert(views(chain@) =~= c0 + views(chain@).skip(c0.len() as int));
    }
}

/// An entry point and the call chain below it.
pub struct GuideEntry {
    pub node: usize,
    pub call_chain: Vec<String>,
}

/// The entry points a reader should start from (as for `entries`, with
/// imports also counting as reaching a symbol, and without `handler` and
/// `route` among the names), each with the qualified names of the symbols
/// it calls, depth first to depth 3, each symbol once.
pub fn guide(graph: &CodeGraph, limit: usize) -> (r: Vec<GuideEntry>)
    requires
        2 * total_weight(graph.edges@) <= usize::MAX,
    ensures
        ranked_entries(
            graph.nodes@,
            graph.edges@,
            true,
            limit as nat,
            r@.map_values(|g: GuideEntry| g.node),
        ),
        forall|k: int|
            0 <= k < r@.len() ==> {
                let id = graph.nodes@[(#[trigger] r@[k]).node as int].id@;
                views(r@[k].call_chain@) == chain_from(graph.nodes@, graph.edges@, id, 3, set![id]).1
            },
{
    let index = QueryIndex::new(graph);
    let (items, _degrees, _total) = rank(&index, true, limit);
    let mut out: Vec<GuideEntry> = Vec::new();
    let mut k: usize = 0;
    while k < items.len()
        invariant
            index.wf(),
            index.node_seq() == graph.nodes@,
            index.edge_seq() == graph.edges@,
            k <= items@.len(),
            forall|t: int| 0 <= t < items@.len() ==> #[trigger] items@[t] < graph.nodes@.len(),
            out@.len() == k,
            forall|t: int| 0 <= t < k ==> (#[trigger] out@[t]).node == items@[t],
            forall|t: int|
                0 <= t < k ==> {
                    let id = graph.nodes@[(#[trigger] out@[t]).node as int].id@;
                    views(out@[t].call_chain@) == chain_from(graph.nodes@, graph.edges@, id, 3, set![id]).1
                },
        decreases items@.len() - k,
    {
        let p = items[k];
        let id = graph.nodes[p].id.as_str();
        let mut seen: Vec<String> = Vec::new();
        seen.push(owned(id));
        assert(views(seen@).to_set() == set![id@]) by {
            assert(views(seen@) =~= Seq::<Seq<char>>::empty().push(id@));
            lemma_push_to_set(Seq::<Seq<char>>::empty(), id@);
            assert(Seq::<Seq<char>>::empty().to_set() =~= Set::<Seq<char>>::empty());
            assert(Set::<Seq<char>>::empty().insert(id@) =~= set![id@]);
        }
        let mut chain: Vec<String> = Vec::new();
        collect_call_chain(&index, id, 3, &mut seen, &mut chain);
        assert(views(chain@) =~= Seq::<Seq<char>>::empty() + chain_from(graph.nodes@, graph.edges@, id@, 3, set![id@]).1);
        out.push(GuideEntry { node: p, call_chain: chain });
        k = k + 1;
    }
    assert(out@.map_values(|g: GuideEntry| g.node) =~= items@);
    out
}

} // verus!
