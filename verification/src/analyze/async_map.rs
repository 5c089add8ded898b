//! Async functions and the synchronous (possibly blocking) functions they
//! call.

use vstd::prelude::*;
use crate::model::{CodeGraph, Edge, EdgeKind, Node, NodeKind, views};
use crate::query::index::{
    QueryIndex, degree_at, last_with_id, lemma_last_with_id, lemma_positions_at, positions_at,
    total_weight,
};
use crate::sorting::{by_key_then_name, min_count, sorted_positions, top_desc_by_name};
use crate::text::{
    ascii_lowercase, contains, ends_with, owned, seq_ascii_lower, seq_contains, seq_ends_with,
    str_eq,
};

verus! {

proof fn lemma_positions_len(edges: Seq<Edge>, id: Seq<char>, outbound: bool)
    ensures
        positions_at(edges, id, outbound).len() <= edges.len(),
    decreases edges.len(),
{
    if edges.len() > 0 {
        lemma_positions_len(edges.drop_last(), id, outbound);
    }
}

/// The async kinds.
pub open spec fn is_async_kind(k: NodeKind) -> bool {
    k == NodeKind::AsyncFunction || k == NodeKind::AsyncMethod
}

/// Whether a callee looks blocking by its names, compared in ASCII lower
/// case: a qualified name that mentions `time.sleep`, `requests.`,
/// `urllib`, `subprocess`, `os.system`, `socket` or `blocking`, or ends
/// with `.open` or `.input`; or a name that is `open` or `input`, or ends
/// with `.open`.
pub open spec fn is_blocking(n: Node) -> bool {
    let q = seq_ascii_lower(n.qualified_name@);
    let m = seq_ascii_lower(n.name@);
    seq_contains(q, "time.sleep"@) || seq_contains(q, "requests."@) || seq_contains(q, "urllib"@)
        || seq_contains(q, "subprocess"@) || seq_contains(q, "os.system"@) || seq_contains(
        q,
        "socket"@,
    ) || seq_contains(q, "blocking"@) || m == "open"@ || seq_ends_with(m, ".open"@) || m
        == "input"@ || seq_ends_with(q, ".open"@) || seq_ends_with(q, ".input"@)
}

fn is_blocking_name(n: &Node) -> (r: bool)
    ensures
        r == is_blocking(*n),
{
    let q = ascii_lowercase(n.qualified_name.as_str());
    let m = ascii_lowercase(n.name.as_str());
    proof {
        reveal_strlit("time.sleep");
        reveal_strlit("requests.");
        reveal_strlit("urllib");
        reveal_strlit("subprocess");
        reveal_strlit("os.system");
        reveal_strlit("socket");
        reveal_strlit("blocking");
        reveal_strlit("open");
        reveal_strlit(".open");
        reveal_strlit("input");
        reveal_strlit(".input");
    }
    let q = q.as_str();
    let m = m.as_str();
    contains(q, "time.sleep") || contains(q, "requests.") || contains(q, "urllib") || contains(
        q,
        "subprocess",
    ) || contains(q, "os.system") || contains(q, "socket") || contains(q, "blocking") || str_eq(
        m,
        "open",
    ) || ends_with(m, ".open") || str_eq(m, "input") || ends_with(q, ".open") || ends_with(
        q,
        ".input",
    )
}

/// Positions, in order, of the async nodes among the first `k`.
pub open spec fn async_positions(nodes: Seq<Node>, k: int) -> Seq<int>
    decreases k,
{
    if k <= 0 || k > nodes.len() {
        Seq::empty()
    } else {
        let prev = async_positions(nodes, k - 1);
        if is_async_kind(nodes[k - 1].kind) {
            prev.push(k - 1)
        } else {
            prev
        }
    }
}

proof fn lemma_async_positions_bound(nodes: Seq<Node>, k: int)
    requires
        0 <= k <= nodes.len(),
    ensures
        async_positions(nodes, k).len() <= k,
        forall|t: int| 0 <= t < async_positions(nodes, k).len() ==> 0 <= #[trigger] async_positions(nodes, k)[t] < k,
    decreases k,
{
    if k > 0 {
        lemma_async_positions_bound(nodes, k - 1);
    }
}

/// The positions of the synchronous callees of the calls through out-edges
/// `ps[..k]`: each call edge whose target is a node that is not async.
pub open spec fn sync_callees(nodes: Seq<Node>, edges: Seq<Edge>, ps: Seq<usize>, k: int) -> Seq<int>
    decreases k,
{
    if k <= 0 || k > ps.len() {
        Seq::empty()
    } else {
        let prev = sync_callees(nodes, edges, ps, k - 1);
        let e = edges[ps[k - 1] as int];
        let t = last_with_id(nodes, e.to@);
        if e.kind == EdgeKind::Calls && 0 <= t < nodes.len() && !is_async_kind(nodes[t].kind) {
            prev.push(t)
        } else {
            prev
        }
    }
}

/// The synchronous callees of node `p`.
pub open spec fn sync_calls_of(nodes: Seq<Node>, edges: Seq<Edge>, p: int) -> Seq<int> {
    let ps = positions_at(edges, nodes[p].id@, true);
    sync_callees(nodes, edges, ps, ps.len() as int)
}

/// The calls from the first `k` async nodes of `order` to synchronous
/// functions, in that order: (caller, callee) positions.
pub open spec fn all_sync_calls(nodes: Seq<Node>, edges: Seq<Edge>, order: Seq<int>, k: int) -> Seq<(int, int)>
    decreases k,
{
    if k <= 0 || k > order.len() {
        Seq::empty()
    } else {
        all_sync_calls(nodes, edges, order, k - 1) + sync_calls_of(nodes, edges, order[k - 1]).map_values(
            |c: int| (order[k - 1], c),
        )
    }
}

/// The calls among `calls` whose callee looks blocking.
pub open spec fn blocking_of(nodes: Seq<Node>, calls: Seq<(int, int)>) -> Seq<(int, int)>
    decreases calls.len(),
{
    if calls.len() == 0 {
        Seq::empty()
    } else {
        let prev = blocking_of(nodes, calls.drop_last());
        if is_blocking(nodes[calls.last().1]) {
            prev.push(calls.last())
        } else {
            prev
        }
    }
}

/// The async functions of a graph and their calls into synchronous code.
pub struct AsyncMap {
    /// The first `limit` async functions, each with whether it calls
    /// synchronous code.
    pub async_functions: Vec<(usize, bool)>,
    /// The first `limit` calls from async to synchronous functions.
    pub sync_calls: Vec<(usize, usize)>,
    /// The first `limit` of those calls whose callee looks blocking.
    pub blocking_calls: Vec<(usize, usize)>,
    pub total_async: usize,
    pub total_sync_calls: usize,
    pub potential_blocking: usize,
}

/// The order of the async functions: most connected first, then by
/// qualified name, then in graph order.
pub open spec fn async_order_ok(nodes: Seq<Node>, edges: Seq<Edge>, order: Seq<int>) -> bool {
    let a = async_positions(nodes, nodes.len() as int);
    let ds = Seq::new(a.len(), |k: int| degree_at(edges, nodes[a[k]].id@) as usize);
    let qs = Seq::new(a.len(), |k: int| nodes[a[k]].qualified_name@);
    exists|o: Seq<usize>|
        sorted_positions(o, a.len() as int, by_key_then_name(ds, qs)) && order.len() == a.len()
            && forall|k: int| 0 <= k < order.len() ==> order[k] == a[o[k] as int]
}

/// The async functions of a graph, most connected first, with the calls
/// they make to functions that are not async, and those of these calls
/// whose callee looks blocking; each list cut to `limit`, with the full
/// counts.
pub fn async_map(graph: &CodeGraph, limit: usize) -> (r: AsyncMap)
    requires
        2 * total_weight(graph.edges@) <= usize::MAX,
        graph.nodes@.len() * graph.edges@.len() <= usize::MAX,
    ensures
        exists|order: Seq<int>|
            #![trigger async_order_ok(graph.nodes@, graph.edges@, order)]
            {
                let nodes = graph.nodes@;
                let edges = graph.edges@;
                let calls = all_sync_calls(nodes, edges, order, order.len() as int);
                let blocking = blocking_of(nodes, calls);
                &&& async_order_ok(nodes, edges, order)
                &&& r.total_async == order.len()
                &&& r.total_sync_calls == calls.len()
                &&& r.potential_blocking == blocking.len()
                &&& r.async_functions@.len() == min_count(order.len(), limit as nat)
                &&& forall|k: int|
                    0 <= k < r.async_functions@.len() ==> r.async_functions@[k].0 as int == order[k]
                        && r.async_functions@[k].1 == (sync_calls_of(nodes, edges, order[k]).len() > 0)
                &&& r.sync_calls@.len() == min_count(calls.len(), limit as nat)
                &&& forall|k: int|
                    0 <= k < r.sync_calls@.len() ==> r.sync_calls@[k].0 as int == calls[k].0
                        && r.sync_calls@[k].1 as int == calls[k].1
                &&& r.blocking_calls@.len() == min_count(blocking.len(), limit as nat)
                &&& forall|k: int|
                    0 <= k < r.blocking_calls@.len() ==> r.blocking_calls@[k].0 as int
                        == blocking[k].0 && r.blocking_calls@[k].1 as int == blocking[k].1
            },
{
    let index = QueryIndex::new(graph);
    let ghost nodes = graph.nodes@;
    let ghost edges = graph.edges@;
    let ne = graph.edges.len();
    // the async nodes, their degrees and qualified names
    let mut pos: Vec<usize> = Vec::new();
    let mut ds: Vec<usize> = Vec::new();
    let mut qs: Vec<String> = Vec::new();
    let mut i: usize = 0;
    while i < graph.nodes.len()
        invariant
            index.wf(),
            index.node_seq() == nodes,
            index.edge_seq() == edges,
            nodes == graph.nodes@,
            i <= nodes.len(),
            pos@.len() == async_positions(nodes, i as int).len(),
            forall|k: int| 0 <= k < pos@.len() ==> #[trigger] pos@[k] as int == async_positions(nodes, i as int)[k],
            ds@.len() == pos@.len(),
            qs@.len() == pos@.len(),
            forall|k: int| 0 <= k < pos@.len() ==> #[trigger] ds@[k] == degree_at(edges, nodes[pos@[k] as int].id@),
            forall|k: int| 0 <= k < pos@.len() ==> (#[trigger] qs@[k])@ == nodes[pos@[k] as int].qualified_name@,
        decreases nodes.len() - i,
    {
        let n = &graph.nodes[i];
        let is_async = match n.kind {
            NodeKind::AsyncFunction | NodeKind::AsyncMethod => true,
            _ => false,
        };
        if is_async {
            pos.push(i);
            ds.push(index.degree(n.id.as_str()));
            qs.push(owned(n.qualified_name.as_str()));
        }
        i = i + 1;
    }
    let ghost a = async_positions(nodes, nodes.len() as int);
    proof {
        lemma_async_positions_bound(nodes, nodes.len() as int);
    }
    let sorted = top_desc_by_name(&ds, &qs, ds.len());
    let ghost o = choose|o: Seq<usize>|
        sorted_positions(o, ds@.len() as int, by_key_then_name(ds@, views(qs@))) && sorted@ == o.take(
            min_count(ds@.len(), ds@.len() as nat) as int,
        );
    assert(sorted@ =~= o);
    let ghost order = Seq::new(a.len(), |k: int| a[o[k] as int]);
    // walk the async functions in order
    let mut async_functions: Vec<(usize, bool)> = Vec::new();
    let mut sync_calls: Vec<(usize, usize)> = Vec::new();
    let mut blocking_calls: Vec<(usize, usize)> = Vec::new();
    let mut total_sync: usize = 0;
    let mut total_blocking: usize = 0;
    let mut k: usize = 0;
    while k < sorted.len()
        invariant
            index.wf(),
            index.node_seq() == nodes,
            index.edge_seq() == edges,
            nodes == graph.nodes@,
            edges == graph.edges@,
            ne == edges.len(),
            k <= sorted@.len(),
            sorted@ == o,
            sorted_positions(o, a.len() as int, by_key_then_name(ds@, views(qs@))),
            pos@.len() == a.len(),
            forall|t: int| 0 <= t < a.len() ==> #[trigger] pos@[t] as int == a[t],
            forall|t: int| 0 <= t < a.len() ==> 0 <= #[trigger] a[t] < nodes.len(),
            order == Seq::new(a.len(), |t: int| a[o[t] as int]),
            ({
                let calls = all_sync_calls(nodes, edges, order, k as int);
                let blocking = blocking_of(nodes, calls);
                &&& total_sync == calls.len()
                &&& total_blocking == blocking.len()
                &&& sync_calls@.len() == min_count(calls.len(), limit as nat)
                &&& forall|t: int|
                    0 <= t < sync_calls@.len() ==> sync_calls@[t].0 as int == calls[t].0
                        && sync_calls@[t].1 as int == calls[t].1
                &&& blocking_calls@.len() == min_count(blocking.len(), limit as nat)
                &&& forall|t: int|
                    0 <= t < blocking_calls@.len() ==> blocking_calls@[t].0 as int == blocking[t].0
                        && blocking_calls@[t].1 as int == blocking[t].1
            }),
            async_functions@.len() == min_count(k as nat, limit as nat),
            forall|t: int|
                0 <= t < async_functions@.len() ==> async_functions@[t].0 as int == order[t]
                    && async_functions@[t].1 == (sync_calls_of(nodes, edges, order[t]).len() > 0),
            total_sync <= ne * k,
            total_blocking <= total_sync,
            a.len() <= nodes.len(),
            nodes.len() * ne <= usize::MAX,
        decreases sorted@.len() - k,
    {
        let p = pos[sorted[k]];
        assert(p as int == order[k as int]);
        let id = graph.nodes[p].id.as_str();
        let ps = index.edges(id, true);
        proof {
            lemma_positions_at(edges, id@, true);
            lemma_positions_len(edges, id@, true);
        }
        let ghost before_calls = all_sync_calls(nodes, edges, order, k as int);
        let ghost before_sc = sync_calls@;
        let ghost before_bc = blocking_calls@;
        let mut calls_sync = false;
        let mut j: usize = 0;
        while j < ps.len()
            invariant
                index.wf(),
                index.node_seq() == nodes,
                index.edge_seq() == edges,
                nodes == graph.nodes@,
                edges == graph.edges@,
                ne == edges.len(),
                p < nodes.len(),
                ps@ == positions_at(edges, nodes[p as int].id@, true),
                forall|t: int| 0 <= t < ps@.len() ==> #[trigger] ps@[t] < edges.len(),
                j <= ps@.len(),
                ps@.len() <= ne,
                calls_sync == (sync_callees(nodes, edges, ps@, j as int).len() > 0),
                ({
                    let calls = before_calls + sync_callees(nodes, edges, ps@, j as int).map_values(|c: int| (p as int, c));
                    let blocking = blocking_of(nodes, calls);
                    &&& total_sync == calls.len()
                    &&& total_blocking == blocking.len()
                    &&& sync_calls@.len() == min_count(calls.len(), limit as nat)
                    &&& forall|t: int|
                        0 <= t < sync_calls@.len() ==> sync_calls@[t].0 as int == calls[t].0
                            && sync_calls@[t].1 as int == calls[t].1
                    &&& blocking_calls@.len() == min_count(blocking.len(), limit as nat)
                    &&& forall|t: int|
                        0 <= t < blocking_calls@.len() ==> blocking_calls@[t].0 as int == blocking[t].0
                            && blocking_calls@[t].1 as int == blocking[t].1
                }),
                total_sync <= before_calls.len() + j,
                before_calls.len() <= ne * k,
                total_blocking <= total_sync,
                k < a.len(),
                a.len() <= nodes.len(),
                nodes.len() * ne <= usize::MAX,
            decreases ps@.len() - j,
        {
            let e = &graph.edges[ps[j]];
            let ghost cur = sync_callees(nodes, edges, ps@, j as int);
            let ghost calls0 = before_calls + cur.map_values(|c: int| (p as int, c));
            proof {
                lemma_last_with_id(nodes, e.to@);
            }
            if e.kind == EdgeKind::Calls {
                match index.node_index(e.to.as_str()) {
                    Some(t) => {
                        let callee = &graph.nodes[t];
                        let callee_async = match callee.kind {
                            NodeKind::AsyncFunction | NodeKind::AsyncMethod => true,
                            _ => false,
                        };
                        if !callee_async {
                            calls_sync = true;
                            let ghost calls1 = before_calls + sync_callees(nodes, edges, ps@, j + 1).map_values(|c: int| (p as int, c));
                            assert(calls1 =~= calls0.push((p as int, t as int)));
                            assert(calls1.drop_last() =~= calls0);
                            if sync_calls.len() < limit {
                                sync_calls.push((p, t));
                            }
                            assert(total_sync + 1 <= usize::MAX) by (nonlinear_arith)
                                requires
                                    total_sync <= before_calls.len() + j,
                                    j < ps@.len(),
                                    ps@.len() <= ne,
                                    before_calls.len() <= ne * k,
                                    k < a.len(),
                                    a.len() <= nodes.len(),
                                    nodes.len() * ne <= usize::MAX,
                            ;
                            total_sync = total_sync + 1;
                            if is_blocking_name(callee) {
                                if blocking_calls.len() < limit {
                                    blocking_calls.push((p, t));
                                }
                                total_blocking = total_blocking + 1;
                            }
                        }
                    },
                    None => {},
                }
            }
            j = j + 1;
        }
        proof {
            assert(all_sync_calls(nodes, edges, order, k + 1) == before_calls + sync_calls_of(nodes, edges, order[k as int]).map_values(
                |c: int| (order[k as int], c),
            ));
            assert(sync_callees(nodes, edges, ps@, j as int).map_values(|c: int| (p as int, c)) =~= sync_calls_of(nodes, edges, order[k as int]).map_values(
                |c: int| (order[k as int], c),
            ));
            assert(before_calls.len() + ps@.len() <= ne * (k + 1)) by (nonlinear_arith)
                requires
                    before_calls.len() <= ne * k,
                    ps@.len() <= ne,
            ;
        }
        if async_functions.len() < limit {
            async_functions.push((p, calls_sync));
        }
        k = k + 1;
    }
    proof {
        assert(async_order_ok(nodes, edges, order)) by {
            let dsv = Seq::new(a.len(), |t: int| degree_at(edges, nodes[a[t]].id@) as usize);
            let qsv = Seq::new(a.len(), |t: int| nodes[a[t]].qualified_name@);
            assert(ds@ =~= dsv);
            assert(views(qs@) =~= qsv);
        }
    }
    AsyncMap {
        async_functions,
        sync_calls,
        blocking_calls,
        total_async: pos.len(),
        total_sync_calls: total_sync,
        potential_blocking: total_blocking,
    }
}

} // verus!
