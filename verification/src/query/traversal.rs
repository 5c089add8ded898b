//! Walking the graph: the neighbours of a node, breadth-first walks, and
//! call paths between symbols.

use vstd::prelude::*;
use crate::model::{CodeGraph, Edge, EdgeKind, Node, copy_node, edge_kind_str, same_node};
use crate::query::index::degree_at;
use crate::query::index::{
    QueryIndex, endpoint, last_with_id, lemma_last_with_id, lemma_positions_at, positions_at,
    total_weight,
};
use crate::sorting::{count_set, lemma_count_set, lemma_count_set_le, lemma_count_set_zero};
use crate::text::{owned, str_eq};
use crate::query::find::{find_nodes, found_positions, refs_at};
use vstd::hash_map::StringHashMap;

verus! {

/// A node as a query shows it: the node and its weighted degree.
pub struct NodeValue {
    pub node: Node,
    pub degree: usize,
}

/// A node with its weighted degree in the indexed graph.
pub fn node_value(index: &QueryIndex, node: &Node) -> (r: NodeValue)
    requires
        index.wf(),
    ensures
        same_node(r.node, *node),
        r.degree == degree_at(index.edge_seq(), node.id@),
{
    NodeValue { node: copy_node(node), degree: index.degree(node.id.as_str()) }
}

/// An edge of the wanted kind: any edge when no kind is given.
pub open spec fn kind_ok(e: Edge, kind: Option<Seq<char>>) -> bool {
    kind is None || edge_kind_str(e.kind) == kind->0
}

/// The far end of an edge seen from the endpoint a lookup keys on.
pub open spec fn far_end(e: Edge, outbound: bool) -> Seq<char> {
    endpoint(e, !outbound)
}

/// The view of an optional text slice.
pub open spec fn opt_view(o: Option<&str>) -> Option<Seq<char>> {
    match o {
        Some(s) => Some(s@),
        None => None,
    }
}

/// Of the edge positions `ps`, those of the wanted kind whose far end is a
/// node, each with that node's position.
pub open spec fn neighbours(nodes: Seq<Node>, edges: Seq<Edge>, ps: Seq<usize>, outbound: bool, kind: Option<Seq<char>>) -> Seq<(usize, usize)>
    decreases ps.len(),
{
    if ps.len() == 0 {
        Seq::empty()
    } else {
        let prev = neighbours(nodes, edges, ps.drop_last(), outbound, kind);
        let e = edges[ps.last() as int];
        let i = last_with_id(nodes, far_end(e, outbound));
        if kind_ok(e, kind) && i >= 0 {
            prev.push((ps.last(), i as usize))
        } else {
            prev
        }
    }
}

/// Whether `e` is of the wanted kind.
fn edge_kind_matches(e: &Edge, kind: Option<&str>) -> (r: bool)
    ensures
        r == kind_ok(*e, opt_view(kind)),
{
    match kind {
        Some(k) => str_eq(e.kind.as_str(), k),
        None => true,
    }
}

/// The first `limit` edges at `id` (leaving it when `outbound`, else
/// entering it) of the wanted kind whose far end is a node: each as the
/// edge's position and the node's position.
pub fn adjacent(index: &QueryIndex, id: &str, outbound: bool, kind: Option<&str>, limit: usize) -> (r: Vec<(usize, usize)>)
    requires
        index.wf(),
    ensures
        ({
            let all = neighbours(
                index.node_seq(),
                index.edge_seq(),
                positions_at(index.edge_seq(), id@, outbound),
                outbound,
                opt_view(kind),
            );
            r@ == all.take(if all.len() <= limit { all.len() as int } else { limit as int })
        }),
{
    let graph = index.graph();
    let ghost nodes = graph.nodes@;
    let ghost edges = graph.edges@;
    let ps = index.edges(id, outbound);
    let n_edges = graph.edges.len();
    proof {
        lemma_positions_at(edges, id@, outbound);
    }
    let ghost all = neighbours(nodes, edges, ps@, outbound, opt_view(kind));
    let mut r: Vec<(usize, usize)> = Vec::new();
    let mut k: usize = 0;
    while k < ps.len() && r.len() < limit
        invariant
            index.wf(),
            nodes == index.node_seq(),
            edges == index.edge_seq(),
            graph.nodes@ == nodes,
            graph.edges@ == edges,
            ps@ == positions_at(edges, id@, outbound),
            forall|q: int| 0 <= q < ps@.len() ==> #[trigger] ps@[q] < edges.len(),
            0 <= k <= ps@.len(),
            r@ == neighbours(nodes, edges, ps@.take(k as int), outbound, opt_view(kind)),
            r@.len() <= limit,
        decreases ps@.len() - k,
    {
        let e = &graph.edges[ps[k]];
        assert(ps@.take(k + 1).drop_last() =~= ps@.take(k as int));
        let far = if outbound {
            e.to.as_str()
        } else {
            e.from.as_str()
        };
        if edge_kind_matches(e, kind) {
            match index.node_index(far) {
                Some(i) => {
                    r.push((ps[k], i));
                },
                None => {},
            }
        }
        k = k + 1;
    }
    proof {
        lemma_neighbours_prefix(nodes, edges, ps@, outbound, opt_view(kind), k as int);
        if r@.len() < limit {
            assert(ps@.take(ps@.len() as int) =~= ps@);
        }
    }
    r
}

/// The neighbours of a prefix are a prefix of the neighbours.
proof fn lemma_neighbours_prefix(nodes: Seq<Node>, edges: Seq<Edge>, ps: Seq<usize>, outbound: bool, kind: Option<Seq<char>>, k: int)
    requires
        0 <= k <= ps.len(),
    ensures
        neighbours(nodes, edges, ps.take(k), outbound, kind).len() <= neighbours(nodes, edges, ps, outbound, kind).len(),
        neighbours(nodes, edges, ps.take(k), outbound, kind) == neighbours(nodes, edges, ps, outbound, kind).take(
            neighbours(nodes, edges, ps.take(k), outbound, kind).len() as int,
        ),
    decreases ps.len() - k,
{
    if k < ps.len() {
        lemma_neighbours_prefix(nodes, edges, ps, outbound, kind, k + 1);
        let a = neighbours(nodes, edges, ps.take(k), outbound, kind);
        let b = neighbours(nodes, edges, ps.take(k + 1), outbound, kind);
        assert(ps.take(k + 1).drop_last() =~= ps.take(k));
        let all = neighbours(nodes, edges, ps, outbound, kind);
        assert(b.take(a.len() as int) =~= a);
        assert(all.take(b.len() as int).take(a.len() as int) =~= all.take(a.len() as int));
    } else {
        assert(ps.take(k) =~= ps);
        let all = neighbours(nodes, edges, ps, outbound, kind);
        assert(all.take(all.len() as int) =~= all);
    }
}

// ---------------------------------------------------------------- walks

/// A node reached by a walk: how far from the start, by which edge, and
/// the node's position.
pub struct WalkStep {
    pub depth: usize,
    pub edge: usize,
    pub node: usize,
}

/// Step `k` of a walk from `start` is sound: within the depth, by an edge
/// of the wanted kind from the start (depth 1) or from a node reached one
/// level earlier, to the node at its far end.
pub open spec fn step_ok(
    nodes: Seq<Node>,
    edges: Seq<Edge>,
    steps: Seq<WalkStep>,
    k: int,
    start: Seq<char>,
    outbound: bool,
    kind: Option<Seq<char>>,
    depth: usize,
) -> bool {
    let s = steps[k];
    &&& 1 <= s.depth <= depth
    &&& s.edge < edges.len()
    &&& s.node < nodes.len()
    &&& kind_ok(edges[s.edge as int], kind)
    &&& last_with_id(nodes, far_end(edges[s.edge as int], outbound)) == s.node
    &&& s.depth == 1 ==> endpoint(edges[s.edge as int], outbound) == start
    &&& s.depth > 1 ==> exists|j: int|
        0 <= j < k && #[trigger] steps[j].depth == s.depth - 1 && endpoint(edges[s.edge as int], outbound)
            == nodes[steps[j].node as int].id@
}

/// An edge of the wanted kind leads from id `a` to node `x` (the last node
/// with the edge's far id).
pub open spec fn step_to(
    nodes: Seq<Node>,
    edges: Seq<Edge>,
    a: Seq<char>,
    x: int,
    outbound: bool,
    kind: Option<Seq<char>>,
) -> bool {
    exists|j: int|
        0 <= j < edges.len() && endpoint(#[trigger] edges[j], outbound) == a && kind_ok(edges[j], kind)
            && last_with_id(nodes, far_end(edges[j], outbound)) == x
}

/// `p` is a path of nodes from `start`: each node is reached by an edge of
/// the wanted kind from the one before it (the first from `start`).
pub open spec fn reach_path(
    nodes: Seq<Node>,
    edges: Seq<Edge>,
    start: Seq<char>,
    outbound: bool,
    kind: Option<Seq<char>>,
    p: Seq<int>,
) -> bool {
    &&& p.len() >= 1
    &&& forall|i: int| 0 <= i < p.len() ==> 0 <= #[trigger] p[i] < nodes.len()
    &&& step_to(nodes, edges, start, p[0], outbound, kind)
    &&& forall|i: int| 0 < i < p.len() ==> #[trigger] step_to(nodes, edges, nodes[p[i - 1]].id@, p[i], outbound, kind)
}

/// Node `x` can be reached from `start` in at most `d` steps of the wanted
/// kind, each through a node.
pub open spec fn reachable_within(
    nodes: Seq<Node>,
    edges: Seq<Edge>,
    start: Seq<char>,
    outbound: bool,
    kind: Option<Seq<char>>,
    x: int,
    d: nat,
) -> bool {
    exists|p: Seq<int>| #[trigger] reach_path(nodes, edges, start, outbound, kind, p) && p.len() <= d && p.last() == x
}

/// The far node of edge `j` (if it is a node) was reached at a depth of at
/// most `level + 1`.
pub open spec fn edge_covered(nodes: Seq<Node>, edges: Seq<Edge>, steps: Seq<WalkStep>, j: int, level: int, outbound: bool) -> bool {
    let x = last_with_id(nodes, far_end(edges[j], outbound));
    x < 0 || exists|k: int| 0 <= k < steps.len() && steps[k].node == x && #[trigger] steps[k].depth <= level + 1
}

/// Every edge of the wanted kind at queue entry `q` (with a level below
/// `depth`) has its far node reached.
pub open spec fn entry_expanded(
    nodes: Seq<Node>,
    edges: Seq<Edge>,
    steps: Seq<WalkStep>,
    queue: Seq<(String, usize)>,
    q: int,
    outbound: bool,
    kind: Option<Seq<char>>,
    depth: usize,
) -> bool {
    queue[q].1 < depth ==> forall|j: int|
        0 <= j < edges.len() && endpoint(#[trigger] edges[j], outbound) == queue[q].0@ && kind_ok(edges[j], kind)
            ==> edge_covered(nodes, edges, steps, j, queue[q].1 as int, outbound)
}

proof fn lemma_expanded_grow(
    nodes: Seq<Node>,
    edges: Seq<Edge>,
    old_steps: Seq<WalkStep>,
    new_steps: Seq<WalkStep>,
    old_queue: Seq<(String, usize)>,
    new_queue: Seq<(String, usize)>,
    upto: int,
    outbound: bool,
    kind: Option<Seq<char>>,
    depth: usize,
)
    requires
        old_steps.len() <= new_steps.len(),
        forall|k: int| 0 <= k < old_steps.len() ==> new_steps[k] == old_steps[k],
        0 <= upto <= old_queue.len() <= new_queue.len(),
        forall|q: int| 0 <= q < old_queue.len() ==> new_queue[q] == old_queue[q],
        forall|q: int| 0 <= q < upto ==> #[trigger] entry_expanded(nodes, edges, old_steps, old_queue, q, outbound, kind, depth),
    ensures
        forall|q: int| 0 <= q < upto ==> #[trigger] entry_expanded(nodes, edges, new_steps, new_queue, q, outbound, kind, depth),
{
    assert forall|q: int| 0 <= q < upto implies #[trigger] entry_expanded(nodes, edges, new_steps, new_queue, q, outbound, kind, depth) by {
        assert(new_queue[q] == old_queue[q]);
        assert(entry_expanded(nodes, edges, old_steps, old_queue, q, outbound, kind, depth));
        if new_queue[q].1 < depth {
            assert forall|j: int|
                0 <= j < edges.len() && endpoint(#[trigger] edges[j], outbound) == new_queue[q].0@ && kind_ok(edges[j], kind)
                    implies edge_covered(nodes, edges, new_steps, j, new_queue[q].1 as int, outbound) by {
                assert(edge_covered(nodes, edges, old_steps, j, old_queue[q].1 as int, outbound));
                let x = last_with_id(nodes, far_end(edges[j], outbound));
                if x >= 0 {
                    let k = choose|k: int| 0 <= k < old_steps.len() && old_steps[k].node == x && #[trigger] old_steps[k].depth <= old_queue[q].1 + 1;
                    assert(new_steps[k] == old_steps[k]);
                }
            }
        }
    }
}

proof fn lemma_covered_grow(
    nodes: Seq<Node>,
    edges: Seq<Edge>,
    old_steps: Seq<WalkStep>,
    new_steps: Seq<WalkStep>,
    j: int,
    level: int,
    outbound: bool,
)
    requires
        old_steps.len() <= new_steps.len(),
        forall|k: int| 0 <= k < old_steps.len() ==> new_steps[k] == old_steps[k],
        edge_covered(nodes, edges, old_steps, j, level, outbound),
    ensures
        edge_covered(nodes, edges, new_steps, j, level, outbound),
{
    let x = last_with_id(nodes, far_end(edges[j], outbound));
    if x >= 0 {
        let k = choose|k: int| 0 <= k < old_steps.len() && old_steps[k].node == x && #[trigger] old_steps[k].depth <= level + 1;
        assert(new_steps[k] == old_steps[k]);
    }
}

proof fn lemma_path_reached(
    nodes: Seq<Node>,
    edges: Seq<Edge>,
    steps: Seq<WalkStep>,
    queue: Seq<(String, usize)>,
    start: Seq<char>,
    outbound: bool,
    kind: Option<Seq<char>>,
    depth: usize,
    p: Seq<int>,
    i: int,
)
    requires
        reach_path(nodes, edges, start, outbound, kind, p),
        p.len() <= depth,
        0 <= i < p.len(),
        queue.len() == steps.len() + 1,
        queue[0].0@ == start,
        queue[0].1 == 0,
        forall|q: int| 0 <= q < steps.len() ==> (#[trigger] queue[q + 1]).0@ == nodes[steps[q].node as int].id@
            && queue[q + 1].1 == steps[q].depth,
        forall|q: int| 0 <= q < queue.len() ==> #[trigger] entry_expanded(nodes, edges, steps, queue, q, outbound, kind, depth),
    ensures
        exists|k: int| 0 <= k < steps.len() && steps[k].node == p[i] && steps[k].depth <= i + 1,
    decreases i,
{
    let x = p[i];
    assert(0 <= x < nodes.len());
    if i == 0 {
        let j = choose|j: int|
            0 <= j < edges.len() && endpoint(#[trigger] edges[j], outbound) == start && kind_ok(edges[j], kind)
                && last_with_id(nodes, far_end(edges[j], outbound)) == x;
        assert(entry_expanded(nodes, edges, steps, queue, 0, outbound, kind, depth));
        assert(edge_covered(nodes, edges, steps, j, 0, outbound));
    } else {
        lemma_path_reached(nodes, edges, steps, queue, start, outbound, kind, depth, p, i - 1);
        let y = p[i - 1];
        assert(step_to(nodes, edges, nodes[y].id@, x, outbound, kind));
        let k1 = choose|k: int| 0 <= k < steps.len() && steps[k].node == y && steps[k].depth <= i;
        assert(queue[k1 + 1].0@ == nodes[steps[k1].node as int].id@);
        let j = choose|j: int|
            0 <= j < edges.len() && endpoint(#[trigger] edges[j], outbound) == nodes[y].id@ && kind_ok(edges[j], kind)
                && last_with_id(nodes, far_end(edges[j], outbound)) == x;
        assert(queue[k1 + 1].0@ == nodes[y].id@);
        assert(entry_expanded(nodes, edges, steps, queue, k1 + 1, outbound, kind, depth));
        assert(edge_covered(nodes, edges, steps, j, queue[k1 + 1].1 as int, outbound));
    }
}

/// What a walk from `start` owes: at most `limit` steps, no node twice,
/// and, when it stopped short of the limit, every node reachable within
/// `depth` steps of the wanted kind.
pub open spec fn walk_complete(
    nodes: Seq<Node>,
    edges: Seq<Edge>,
    steps: Seq<WalkStep>,
    start: Seq<char>,
    outbound: bool,
    kind: Option<Seq<char>>,
    depth: usize,
    limit: usize,
) -> bool {
    &&& steps.len() <= limit
    &&& forall|i: int, j: int| 0 <= i < j < steps.len() ==> (#[trigger] steps[i]).node != (#[trigger] steps[j]).node
    &&& steps.len() < limit ==> forall|x: int|
        #[trigger] reachable_within(nodes, edges, start, outbound, kind, x, depth as nat)
            ==> exists|k: int| 0 <= k < steps.len() && steps[k].node == x
}

/// Breadth-first walk from `start` along edges of the wanted kind (leaving
/// each node when `outbound`, else entering it), at most `depth` levels
/// deep; no node is reached twice. Expansion stops once `limit` nodes are
/// reached, checked before each node is expanded, and at most `limit` of
/// them are returned.
pub fn walk(index: &QueryIndex, start: &str, outbound: bool, kind: Option<&str>, depth: usize, limit: usize) -> (r: Vec<WalkStep>)
    requires
        index.wf(),
    ensures
        forall|k: int| 0 <= k < r@.len() ==> step_ok(index.node_seq(), index.edge_seq(), r@, k, start@, outbound, opt_view(kind), depth),
        forall|i: int, j: int| 0 <= i < j < r@.len() ==> (#[trigger] r@[i]).node != (#[trigger] r@[j]).node,
        r@.len() <= limit,
        r@.len() < limit ==> forall|x: int|
            #[trigger] reachable_within(index.node_seq(), index.edge_seq(), start@, outbound, opt_view(kind), x, depth as nat)
                ==> exists|k: int| 0 <= k < r@.len() && r@[k].node == x,
{
    let graph = index.graph();
    let ghost nodes = graph.nodes@;
    let ghost edges = graph.edges@;
    let n = graph.nodes.len();
    let n_edges = graph.edges.len();
    let mut flags: Vec<bool> = Vec::new();
    let mut i: usize = 0;
    while i < n
        invariant
            0 <= i <= n,
            flags@.len() == i,
            forall|x: int| 0 <= x < i ==> !#[trigger] flags@[x],
        decreases n - i,
    {
        flags.push(false);
        i = i + 1;
    }
    proof {
        lemma_count_set_zero(flags@);
    }
    let mut queue: Vec<(String, usize)> = Vec::new();
    queue.push((owned(start), 0));
    let mut result: Vec<WalkStep> = Vec::new();
    let mut head: usize = 0;
    while head < queue.len()
        invariant
            index.wf(),
            nodes == index.node_seq(),
            edges == index.edge_seq(),
            graph.nodes@ == nodes,
            graph.edges@ == edges,
            n == nodes.len(),
            n_edges == edges.len(),
            flags@.len() == n,
            count_set(flags@) == result@.len(),
            result@.len() <= n,
            queue@.len() == result@.len() + 1,
            0 <= head <= queue@.len(),
            queue@[0].0@ == start@,
            queue@[0].1 == 0,
            forall|q: int| 0 <= q < result@.len() ==> (#[trigger] queue@[q + 1]).0@ == nodes[result@[q].node as int].id@
                && queue@[q + 1].1 == result@[q].depth,
            forall|q: int| 0 <= q < queue@.len() ==> (#[trigger] queue@[q]).1 <= depth,
            forall|k: int| 0 <= k < result@.len() ==> step_ok(nodes, edges, result@, k, start@, outbound, opt_view(kind), depth),
            forall|a: int, b: int| 0 <= a < b < result@.len() ==> (#[trigger] result@[a]).node != (#[trigger] result@[b]).node,
            forall|x: int| 0 <= x < n ==> (#[trigger] flags@[x] <==> exists|k: int| 0 <= k < result@.len() && result@[k].node == x),
            forall|q1: int, q2: int| 0 <= q1 <= q2 < queue@.len() ==> (#[trigger] queue@[q1]).1 <= (#[trigger] queue@[q2]).1,
            head == 0 ==> queue@.len() == 1,
            head > 0 ==> forall|q: int| 0 <= q < queue@.len() ==> (#[trigger] queue@[q]).1 <= queue@[head - 1].1 + 1,
            result@.len() < limit ==> forall|q: int| 0 <= q < head ==> #[trigger] entry_expanded(nodes, edges, result@, queue@, q, outbound, opt_view(kind), depth),
        decreases n + 1 - head,
    {
        let id = owned(queue[head].0.as_str());
        let level = queue[head].1;
        let ghost qh = head as int;
        proof {
            if qh > 0 {
                assert(queue@[(qh - 1) + 1].0@ == nodes[result@[qh - 1].node as int].id@);
            }
        }
        head = head + 1;
        if level >= depth || result.len() >= limit {
            proof {
                assert forall|q: int| 0 <= q < queue@.len() implies (#[trigger] queue@[q]).1 <= queue@[head - 1].1 + 1 by {
                    if qh > 0 {
                        assert(queue@[qh - 1].1 <= queue@[qh].1);
                    }
                }
            }
            continue;
        }
        let ps = index.edges(id.as_str(), outbound);
        proof {
            lemma_positions_at(edges, id@, outbound);
            assert forall|q: int| 0 <= q < queue@.len() implies (#[trigger] queue@[q]).1 <= level + 1 by {
                if qh > 0 {
                    assert(queue@[qh - 1].1 <= queue@[qh].1);
                }
            }
        }
        let mut k: usize = 0;
        while k < ps.len()
            invariant
                index.wf(),
                nodes == index.node_seq(),
                edges == index.edge_seq(),
                graph.nodes@ == nodes,
                graph.edges@ == edges,
                n == nodes.len(),
                n_edges == edges.len(),
                ps@ == positions_at(edges, id@, outbound),
                forall|q: int| 0 <= q < ps@.len() ==> #[trigger] ps@[q] < edges.len() && endpoint(edges[ps@[q] as int], outbound) == id@,
                level < depth,
                0 <= qh < head,
                qh == 0 ==> id@ == start@ && level == 0,
                qh > 0 ==> id@ == nodes[result@[qh - 1].node as int].id@ && level == result@[qh - 1].depth,
                qh > 0 ==> qh - 1 < result@.len(),
                flags@.len() == n,
                count_set(flags@) == result@.len(),
                result@.len() <= n,
                queue@.len() == result@.len() + 1,
                head <= queue@.len(),
                queue@[0].0@ == start@,
                queue@[0].1 == 0,
                forall|q: int| 0 <= q < result@.len() ==> (#[trigger] queue@[q + 1]).0@ == nodes[result@[q].node as int].id@
                    && queue@[q + 1].1 == result@[q].depth,
                forall|q: int| 0 <= q < queue@.len() ==> (#[trigger] queue@[q]).1 <= depth,
                forall|kk: int| 0 <= kk < result@.len() ==> step_ok(nodes, edges, result@, kk, start@, outbound, opt_view(kind), depth),
                forall|a: int, b: int| 0 <= a < b < result@.len() ==> (#[trigger] result@[a]).node != (#[trigger] result@[b]).node,
                forall|x: int| 0 <= x < n ==> (#[trigger] flags@[x] <==> exists|kk: int| 0 <= kk < result@.len() && result@[kk].node == x),
                0 <= k <= ps@.len(),
                head == qh + 1,
                queue@[qh].0@ == id@,
                queue@[qh].1 == level,
                forall|q1: int, q2: int| 0 <= q1 <= q2 < queue@.len() ==> (#[trigger] queue@[q1]).1 <= (#[trigger] queue@[q2]).1,
                forall|q: int| 0 <= q < queue@.len() ==> (#[trigger] queue@[q]).1 <= level + 1,
                result@.len() < limit ==> forall|q: int| 0 <= q < qh ==> #[trigger] entry_expanded(nodes, edges, result@, queue@, q, outbound, opt_view(kind), depth),
                result@.len() < limit ==> forall|t: int| 0 <= t < k && kind_ok(edges[ps@[t] as int], opt_view(kind)) ==> edge_covered(nodes, edges, result@, #[trigger] ps@[t] as int, level as int, outbound),
            decreases ps@.len() - k,
        {
            let p = ps[k];
            let e = &graph.edges[p];
            if edge_kind_matches(e, kind) {
                let far = if outbound {
                    e.to.as_str()
                } else {
                    e.from.as_str()
                };
                match index.node_index(far) {
                    Some(ni) => {
                        if !flags[ni] {
                            proof {
                                lemma_count_set(flags@, ni as int);
                                lemma_last_with_id(nodes, far@);
                            }
                            let ghost old_r = result@;
                            let ghost old_f = flags@;
                            let ghost old_q = queue@;
                            flags.set(ni, true);
                            result.push(WalkStep { depth: level + 1, edge: p, node: ni });
                            queue.push((owned(far), level + 1));
                            proof {
                                let rr = result@;
                                assert forall|kk: int| 0 <= kk < rr.len() implies step_ok(nodes, edges, rr, kk, start@, outbound, opt_view(kind), depth) by {
                                    if kk < old_r.len() {
                                        assert(rr[kk] == old_r[kk]);
                                        assert(step_ok(nodes, edges, old_r, kk, start@, outbound, opt_view(kind), depth));
                                        if rr[kk].depth > 1 {
                                            let j = choose|j: int| 0 <= j < kk && #[trigger] old_r[j].depth == old_r[kk].depth - 1
                                                && endpoint(edges[old_r[kk].edge as int], outbound) == nodes[old_r[j].node as int].id@;
                                            assert(rr[j] == old_r[j]);
                                        }
                                    } else {
                                        assert(rr[kk] == WalkStep { depth: (level + 1) as usize, edge: p, node: ni });
                                        assert(endpoint(edges[p as int], outbound) == id@);
                                        assert(far_end(edges[p as int], outbound) == far@);
                                        if qh == 0 {
                                            assert(id@ == start@ && level == 0);
                                        } else {
                                            let j = qh - 1;
                                            assert(step_ok(nodes, edges, old_r, j, start@, outbound, opt_view(kind), depth));
                                            assert(rr[j] == old_r[j]);
                                            assert(rr[j].depth == rr[kk].depth - 1);
                                        }
                                    }
                                }
                                assert forall|a: int, b: int| 0 <= a < b < rr.len() implies (#[trigger] rr[a]).node != (#[trigger] rr[b]).node by {
                                    if b == old_r.len() {
                                        assert(rr[a] == old_r[a]);
                                        if old_r[a].node == ni {
                                            assert(old_f[ni as int]);
                                        }
                                    } else {
                                        assert(rr[a] == old_r[a] && rr[b] == old_r[b]);
                                    }
                                }
                                assert forall|x: int| 0 <= x < n implies (#[trigger] flags@[x] <==> exists|kk: int| 0 <= kk < rr.len() && rr[kk].node == x) by {
                                    if x == ni {
                                        assert(rr[old_r.len() as int].node == x);
                                    } else {
                                        if old_f[x] {
                                            let kk = choose|kk: int| 0 <= kk < old_r.len() && old_r[kk].node == x;
                                            assert(rr[kk] == old_r[kk]);
                                        }
                                        if exists|kk: int| 0 <= kk < rr.len() && rr[kk].node == x {
                                            let kk = choose|kk: int| 0 <= kk < rr.len() && rr[kk].node == x;
                                            assert(kk < old_r.len());
                                            assert(old_r[kk] == rr[kk]);
                                        }
                                    }
                                }
                                assert forall|q: int| 0 <= q < rr.len() implies (#[trigger] queue@[q + 1]).0@ == nodes[rr[q].node as int].id@
                                    && queue@[q + 1].1 == rr[q].depth by {
                                    if q < old_r.len() {
                                        assert(queue@[q + 1] == old_q[q + 1]);
                                        assert(rr[q] == old_r[q]);
                                    }
                                }
                                assert forall|q: int| 0 <= q < queue@.len() implies (#[trigger] queue@[q]).1 <= depth by {
                                    if q < old_q.len() {
                                        assert(queue@[q] == old_q[q]);
                                    }
                                }
                                if qh > 0 {
                                    assert(rr[qh - 1] == old_r[qh - 1]);
                                }
                                assert forall|q1: int, q2: int| 0 <= q1 <= q2 < queue@.len() implies (#[trigger] queue@[q1]).1 <= (#[trigger] queue@[q2]).1 by {
                                    if q2 < old_q.len() {
                                        assert(queue@[q1] == old_q[q1] && queue@[q2] == old_q[q2]);
                                    } else if q1 < old_q.len() {
                                        assert(queue@[q1] == old_q[q1]);
                                    }
                                }
                                assert forall|q: int| 0 <= q < queue@.len() implies (#[trigger] queue@[q]).1 <= level + 1 by {
                                    if q < old_q.len() {
                                        assert(queue@[q] == old_q[q]);
                                    }
                                }
                                if rr.len() < limit {
                                    lemma_expanded_grow(nodes, edges, old_r, rr, old_q, queue@, qh as int, outbound, opt_view(kind), depth);
                                    assert forall|t: int| 0 <= t < k + 1 && kind_ok(edges[ps@[t] as int], opt_view(kind)) implies edge_covered(nodes, edges, rr, #[trigger] ps@[t] as int, level as int, outbound) by {
                                        if t < k {
                                            assert(old_r.len() < limit);
                                            assert(edge_covered(nodes, edges, old_r, ps@[t] as int, level as int, outbound));
                                            lemma_covered_grow(nodes, edges, old_r, rr, ps@[t] as int, level as int, outbound);
                                        } else {
                                            assert(ps@[t] == p);
                                            assert(rr[old_r.len() as int].node == ni);
                                            assert(rr[old_r.len() as int].depth <= level + 1);
                                            assert(far_end(edges[p as int], outbound) == far@);
                                            assert(last_with_id(nodes, far@) == ni as int);
                                        }
                                    }
                                }
                            }
                        } else {
                            proof {
                                let kk = choose|kk: int| 0 <= kk < result@.len() && result@[kk].node == ni as int;
                                assert(queue@[kk + 1].1 == result@[kk].depth);
                                assert(far_end(edges[p as int], outbound) == far@);
                                assert(edge_covered(nodes, edges, result@, p as int, level as int, outbound));
                            }
                        }
                    },
                    None => {
                        proof {
                            assert(far_end(edges[p as int], outbound) == far@);
                        }
                    },
                }
            }
            k = k + 1;
        }
        proof {
            if result@.len() < limit {
                assert(entry_expanded(nodes, edges, result@, queue@, qh, outbound, opt_view(kind), depth)) by {
                    assert forall|j: int|
                        0 <= j < edges.len() && endpoint(#[trigger] edges[j], outbound) == queue@[qh].0@ && kind_ok(edges[j], opt_view(kind))
                            implies edge_covered(nodes, edges, result@, j, queue@[qh].1 as int, outbound) by {
                        assert(ps@.contains(j as usize));
                        let t = choose|t: int| 0 <= t < ps@.len() && ps@[t] == j as usize;
                        assert(ps@[t] as int == j);
                    }
                }
            }
        }
    }
    proof {
        if result@.len() < limit {
            assert forall|x: int| #[trigger] reachable_within(nodes, edges, start@, outbound, opt_view(kind), x, depth as nat)
                implies exists|k: int| 0 <= k < result@.len() && result@[k].node == x by {
                let pth = choose|pth: Seq<int>| #[trigger] reach_path(nodes, edges, start@, outbound, opt_view(kind), pth)
                    && pth.len() <= depth && pth.last() == x;
                lemma_path_reached(nodes, edges, result@, queue@, start@, outbound, opt_view(kind), depth, pth, pth.len() - 1);
            }
        }
    }
    let ghost full = result@;
    result.truncate(limit);
    proof {
        if limit <= full.len() {
            assert forall|k: int| 0 <= k < result@.len() implies step_ok(nodes, edges, result@, k, start@, outbound, opt_view(kind), depth) by {
                assert(step_ok(nodes, edges, full, k, start@, outbound, opt_view(kind), depth));
                assert(result@[k] == full[k]);
                if result@[k].depth > 1 {
                    let j = choose|j: int| 0 <= j < k && #[trigger] full[j].depth == full[k].depth - 1
                        && endpoint(edges[full[k].edge as int], outbound) == nodes[full[j].node as int].id@;
                    assert(result@[j] == full[j]);
                }
            }
            assert forall|a: int, b: int| 0 <= a < b < result@.len() implies (#[trigger] result@[a]).node != (#[trigger] result@[b]).node by {
                assert(result@[a] == full[a] && result@[b] == full[b]);
            }
        }
    }
    result
}

// ---------------------------------------------------------------- paths

/// Some call edge leads from `a` to `b`.
pub open spec fn calls_link(edges: Seq<Edge>, a: Seq<char>, b: Seq<char>) -> bool {
    exists|j: int| 0 <= j < edges.len() && (#[trigger] edges[j]).kind == EdgeKind::Calls && edges[j].from@ == a && edges[j].to@ == b
}

/// `p` is a call path from `a`: consecutive ids joined by call edges.
pub open spec fn is_call_path(edges: Seq<Edge>, p: Seq<Seq<char>>, a: Seq<char>) -> bool {
    &&& p.len() >= 1
    &&& p[0] == a
    &&& forall|i: int| 0 <= i < p.len() - 1 ==> calls_link(edges, #[trigger] p[i], p[i + 1])
}

/// A call path found between two symbols.
pub struct PathResult {
    pub found: bool,
    /// The ids along the path, from the first symbol to the second.
    pub ids: Vec<String>,
    /// The positions of the path's ids that are nodes, in path order.
    pub nodes: Vec<usize>,
    /// The number of calls along the path.
    pub length: usize,
}

/// The ids of the nodes `refs`.
pub open spec fn ids_of(refs: Seq<&Node>) -> Seq<Seq<char>> {
    refs.map_values(|n: &Node| n.id@)
}

/// Some node named `to` has id `id`.
pub open spec fn names_target(nodes: Seq<Node>, to: Seq<char>, id: Seq<char>) -> bool {
    exists|k: int| 0 <= k < found_positions(nodes, to).len() && nodes[#[trigger] found_positions(nodes, to)[k]].id@ == id
}

/// Id `x` has a queue entry whose path has at most `bound` ids.
spec fn id_reached(queue: Seq<(String, Vec<String>)>, x: Seq<char>, bound: nat) -> bool {
    exists|q: int| 0 <= q < queue.len() && (#[trigger] queue[q]).0@ == x && queue[q].1@.len() <= bound
}

/// Queue entry `q`, if its path may still grow, had every call out of its
/// id queued one step further.
spec fn id_done(edges: Seq<Edge>, queue: Seq<(String, Vec<String>)>, q: int, max_depth: usize) -> bool {
    queue[q].1@.len() <= max_depth ==> forall|j: int|
        0 <= j < edges.len() && (#[trigger] edges[j]).kind == EdgeKind::Calls && edges[j].from@ == queue[q].0@
            ==> id_reached(queue, edges[j].to@, queue[q].1@.len() + 1)
}

proof fn lemma_id_reached_grow(old_q: Seq<(String, Vec<String>)>, new_q: Seq<(String, Vec<String>)>, x: Seq<char>, bound: nat)
    requires
        old_q.len() <= new_q.len(),
        forall|q: int| 0 <= q < old_q.len() ==> new_q[q] == old_q[q],
        id_reached(old_q, x, bound),
    ensures
        id_reached(new_q, x, bound),
{
    let q = choose|q: int| 0 <= q < old_q.len() && (#[trigger] old_q[q]).0@ == x && old_q[q].1@.len() <= bound;
    assert(new_q[q] == old_q[q]);
}

proof fn lemma_id_done_grow(
    edges: Seq<Edge>,
    old_q: Seq<(String, Vec<String>)>,
    new_q: Seq<(String, Vec<String>)>,
    upto: int,
    max_depth: usize,
)
    requires
        0 <= upto <= old_q.len() <= new_q.len(),
        forall|q: int| 0 <= q < old_q.len() ==> new_q[q] == old_q[q],
        forall|q: int| 0 <= q < upto ==> #[trigger] id_done(edges, old_q, q, max_depth),
    ensures
        forall|q: int| 0 <= q < upto ==> #[trigger] id_done(edges, new_q, q, max_depth),
{
    assert forall|q: int| 0 <= q < upto implies #[trigger] id_done(edges, new_q, q, max_depth) by {
        assert(new_q[q] == old_q[q]);
        assert(id_done(edges, old_q, q, max_depth));
        if new_q[q].1@.len() <= max_depth {
            assert forall|j: int|
                0 <= j < edges.len() && (#[trigger] edges[j]).kind == EdgeKind::Calls && edges[j].from@ == new_q[q].0@
                    implies id_reached(new_q, edges[j].to@, new_q[q].1@.len() + 1) by {
                lemma_id_reached_grow(old_q, new_q, edges[j].to@, old_q[q].1@.len() + 1);
            }
        }
    }
}

proof fn lemma_call_path_reached(
    edges: Seq<Edge>,
    queue: Seq<(String, Vec<String>)>,
    start: Seq<char>,
    max_depth: usize,
    lim: nat,
    p: Seq<Seq<char>>,
    i: int,
)
    requires
        is_call_path(edges, p, start),
        p.len() <= lim,
        lim <= max_depth + 1,
        0 <= i < p.len(),
        queue.len() >= 1,
        queue[0].0@ == start,
        queue[0].1@.len() == 1,
        forall|q: int| 0 <= q < queue.len() && queue[q].1@.len() < lim ==> #[trigger] id_done(edges, queue, q, max_depth),
    ensures
        id_reached(queue, p[i], (i + 1) as nat),
    decreases i,
{
    if i == 0 {
        assert(queue[0].0@ == p[0]);
    } else {
        lemma_call_path_reached(edges, queue, start, max_depth, lim, p, i - 1);
        let q = choose|q: int| 0 <= q < queue.len() && (#[trigger] queue[q]).0@ == p[i - 1] && queue[q].1@.len() <= i;
        assert(id_done(edges, queue, q, max_depth));
        assert(calls_link(edges, p[i - 1], p[i]));
        let j = choose|j: int| 0 <= j < edges.len() && (#[trigger] edges[j]).kind == EdgeKind::Calls && edges[j].from@ == p[i - 1] && edges[j].to@ == p[i];
        assert(id_reached(queue, edges[j].to@, queue[q].1@.len() + 1));
        let q2 = choose|q2: int| 0 <= q2 < queue.len() && (#[trigger] queue[q2]).0@ == p[i] && queue[q2].1@.len() <= queue[q].1@.len() + 1;
        assert(queue[q2].1@.len() <= i + 1);
    }
}

/// Breadth-first search along call edges from the first node named `from`
/// to any node named `to`, over paths of at most `max_depth` ids.
pub fn shortest_path(graph: &CodeGraph, from: &str, to: &str, max_depth: usize) -> (r: PathResult)
    requires
        2 * total_weight(graph.edges@) <= usize::MAX,
    ensures
        (found_positions(graph.nodes@, from@).len() == 0 || found_positions(graph.nodes@, to@).len() == 0) ==> !r.found,
        r.found ==> {
            let p = r.ids@.map_values(|s: String| s@);
            let start = graph.nodes@[found_positions(graph.nodes@, from@)[0]].id@;
            &&& found_positions(graph.nodes@, from@).len() > 0
            &&& is_call_path(graph.edges@, p, start)
            &&& p.len() <= max_depth
            &&& exists|k: int| 0 <= k < found_positions(graph.nodes@, to@).len() && graph.nodes@[found_positions(graph.nodes@, to@)[k]].id@ == p.last()
            &&& r.length == p.len() - 1
            &&& r.nodes@.len() <= p.len()
        },
        !r.found ==> r.ids@.len() == 0 && r.nodes@.len() == 0,
        r.found ==> forall|p: Seq<Seq<char>>|
            #[trigger] is_call_path(graph.edges@, p, graph.nodes@[found_positions(graph.nodes@, from@)[0]].id@)
                && names_target(graph.nodes@, to@, p.last()) ==> r.ids@.len() <= p.len(),
        !r.found && found_positions(graph.nodes@, from@).len() > 0 ==> forall|p: Seq<Seq<char>>|
            #[trigger] is_call_path(graph.edges@, p, graph.nodes@[found_positions(graph.nodes@, from@)[0]].id@)
                && p.len() <= max_depth ==> !names_target(graph.nodes@, to@, p.last()),
{
    let index = QueryIndex::new(graph);
    let from_nodes = find_nodes(graph, from);
    let to_nodes = find_nodes(graph, to);
    if from_nodes.len() == 0 || to_nodes.len() == 0 {
        return PathResult { found: false, ids: Vec::new(), nodes: Vec::new(), length: 0 };
    }
    let ghost edges = graph.edges@;
    let ghost fpos = found_positions(graph.nodes@, from@);
    let ghost tpos = found_positions(graph.nodes@, to@);
    assert(fpos.len() > 0 && tpos.len() > 0);
    let start = owned(from_nodes[0].id.as_str());
    assert(start@ == graph.nodes@[fpos[0]].id@);
    let ghost universe = edges.map_values(|e: Edge| e.to@).to_set().insert(start@);
    proof {
        vstd::seq_lib::seq_to_set_is_finite(edges.map_values(|e: Edge| e.to@));
    }
    let mut seen: StringHashMap<bool> = StringHashMap::new();
    seen.insert(owned(start.as_str()), true);
    let mut first: Vec<String> = Vec::new();
    first.push(owned(start.as_str()));
    let mut queue: Vec<(String, Vec<String>)> = Vec::new();
    queue.push((owned(start.as_str()), first));
    proof {
        assert(queue@[0].1@.map_values(|s: String| s@) =~= seq![start@]);
        assert(seen@.dom() =~= Set::empty().insert(start@));
        vstd::set_lib::lemma_len_subset(seen@.dom(), universe);
    }
    let mut head: usize = 0;
    let n_edges = graph.edges.len();
    while head < queue.len()
        invariant
            index.wf(),
            edges.len() <= usize::MAX,
            index.edge_seq() == edges,
            index.node_seq() == graph.nodes@,
            graph.edges@ == edges,
            universe.finite(),
            universe == edges.map_values(|e: Edge| e.to@).to_set().insert(start@),
            seen@.dom().subset_of(universe),
            seen@.dom().finite(),
            0 <= head <= queue@.len(),
            queue@.len() - head <= seen@.dom().len(),
            forall|q: int| 0 <= q < queue@.len() ==> {
                let e = #[trigger] queue@[q];
                &&& seen@.contains_key(e.0@)
                &&& is_call_path(edges, e.1@.map_values(|s: String| s@), start@)
                &&& e.1@.map_values(|s: String| s@).last() == e.0@
            },
            to_nodes@.len() == tpos.len(),
            refs_at(to_nodes@, graph.nodes@, tpos),
            fpos == found_positions(graph.nodes@, from@),
            tpos == found_positions(graph.nodes@, to@),
            fpos.len() > 0,
            tpos.len() > 0,
            start@ == graph.nodes@[fpos[0]].id@,
            queue@[0].0@ == start@,
            queue@[0].1@.len() == 1,
            forall|q1: int, q2: int|
                0 <= q1 <= q2 < queue@.len() ==> (#[trigger] queue@[q1]).1@.len() <= (#[trigger] queue@[q2]).1@.len(),
            head == 0 ==> queue@.len() == 1,
            head > 0 ==> forall|q: int| 0 <= q < queue@.len() ==> (#[trigger] queue@[q]).1@.len() <= queue@[head - 1].1@.len() + 1,
            forall|x: Seq<char>| #[trigger] seen@.contains_key(x) ==> exists|q: int| 0 <= q < queue@.len() && (#[trigger] queue@[q]).0@ == x,
            forall|q: int| 0 <= q < head ==> #[trigger] id_done(edges, queue@, q, max_depth),
            forall|q: int| 0 <= q < head && (#[trigger] queue@[q]).1@.len() <= max_depth ==> !names_target(graph.nodes@, to@, queue@[q].0@),
        decreases 2 * (universe.len() - seen@.dom().len()) + (queue@.len() - head),
    {
        proof {
            vstd::set_lib::lemma_len_subset(seen@.dom(), universe);
        }
        let id = owned(queue[head].0.as_str());
        let path = clone_texts(&queue[head].1);
        let ghost entry = queue@[head as int];
        let ghost qh = head as int;
        let ghost m0 = 2 * (universe.len() - seen@.dom().len()) + (queue@.len() - head);
        proof {
            assert(path@.len() == path@.map_values(|s: String| s@).len());
            assert(entry.1@.len() == entry.1@.map_values(|s: String| s@).len());
            assert(path@.len() == entry.1@.len());
            assert forall|q: int| 0 <= q < queue@.len() implies (#[trigger] queue@[q]).1@.len() <= path@.len() + 1 by {
                if qh > 0 {
                    assert(queue@[qh - 1].1@.len() <= queue@[qh].1@.len());
                }
            }
        }
        head = head + 1;
        if path.len() > max_depth {
            continue;
        }
        // arrived?
        assert(path@.map_values(|s: String| s@).len() == path@.len());
        if let Some(t) = position_of_id(&to_nodes, id.as_str()) {
            let mut nodes: Vec<usize> = Vec::new();
            let mut q: usize = 0;
            while q < path.len()
                invariant
                    index.wf(),
                    0 <= q <= path@.len(),
                    nodes@.len() <= q,
                decreases path@.len() - q,
            {
                match index.node_index(path[q].as_str()) {
                    Some(i) => nodes.push(i),
                    None => {},
                }
                q = q + 1;
            }
            let length = path.len() - 1;
            proof {
                assert(graph.nodes@[tpos[t as int]].id@ == id@);
                assert(path@.map_values(|s: String| s@).last() == id@);
                let lq = queue@;
                assert forall|p: Seq<Seq<char>>|
                    #[trigger] is_call_path(edges, p, start@) && names_target(graph.nodes@, to@, p.last())
                        implies path@.len() <= p.len() by {
                    if p.len() < path@.len() {
                        assert forall|q: int| 0 <= q < lq.len() && lq[q].1@.len() < path@.len() implies #[trigger] id_done(edges, lq, q, max_depth) by {
                            if q >= qh {
                                assert(lq[qh].1@.len() <= lq[q].1@.len());
                            }
                        }
                        lemma_call_path_reached(edges, lq, start@, max_depth, path@.len() as nat, p, p.len() - 1);
                        let q2 = choose|q2: int| 0 <= q2 < lq.len() && (#[trigger] lq[q2]).0@ == p[p.len() - 1] && lq[q2].1@.len() <= p.len();
                        if q2 >= qh {
                            assert(lq[qh].1@.len() <= lq[q2].1@.len());
                        }
                        assert(p.last() == p[p.len() - 1]);
                        assert(!names_target(graph.nodes@, to@, lq[q2].0@));
                    }
                }
            }
            return PathResult { found: true, ids: path, nodes, length };
        }
        proof {
            assert forall|k: int| 0 <= k < tpos.len() implies graph.nodes@[#[trigger] tpos[k]].id@ != id@ by {
                assert(*to_nodes@[k] == graph.nodes@[tpos[k]]);
            }
        }
        let ps = index.edges(id.as_str(), true);
        proof {
            lemma_positions_at(edges, id@, true);
        }
        let mut k: usize = 0;
        while k < ps.len()
            invariant
                index.wf(),
                index.edge_seq() == edges,
                graph.edges@ == edges,
                ps@ == positions_at(edges, id@, true),
                forall|q: int| 0 <= q < ps@.len() ==> #[trigger] ps@[q] < edges.len() && endpoint(edges[ps@[q] as int], true) == id@,
                universe.finite(),
                universe == edges.map_values(|e: Edge| e.to@).to_set().insert(start@),
                seen@.dom().subset_of(universe),
                seen@.dom().finite(),
                0 < head <= queue@.len(),
                queue@.len() - head < seen@.dom().len() + 1,
                is_call_path(edges, path@.map_values(|s: String| s@), start@),
                path@.map_values(|s: String| s@).last() == id@,
                forall|q: int| 0 <= q < queue@.len() ==> {
                    let e = #[trigger] queue@[q];
                    &&& seen@.contains_key(e.0@)
                    &&& is_call_path(edges, e.1@.map_values(|s: String| s@), start@)
                    &&& e.1@.map_values(|s: String| s@).last() == e.0@
                },
                0 <= k <= ps@.len(),
                seen@.dom().len() <= universe.len(),
                2 * (universe.len() - seen@.dom().len()) + (queue@.len() - head) < m0,
                head == qh + 1,
                0 <= qh,
                queue@[qh].0@ == id@,
                queue@[qh].1@.len() == path@.len(),
                path@.len() <= max_depth,
                queue@[0].0@ == start@,
                queue@[0].1@.len() == 1,
                forall|q1: int, q2: int|
                    0 <= q1 <= q2 < queue@.len() ==> (#[trigger] queue@[q1]).1@.len() <= (#[trigger] queue@[q2]).1@.len(),
                forall|q: int| 0 <= q < queue@.len() ==> (#[trigger] queue@[q]).1@.len() <= path@.len() + 1,
                forall|x: Seq<char>| #[trigger] seen@.contains_key(x) ==> exists|q: int| 0 <= q < queue@.len() && (#[trigger] queue@[q]).0@ == x,
                forall|q: int| 0 <= q < qh ==> #[trigger] id_done(edges, queue@, q, max_depth),
                forall|q: int| 0 <= q < qh && (#[trigger] queue@[q]).1@.len() <= max_depth ==> !names_target(graph.nodes@, to@, queue@[q].0@),
                !names_target(graph.nodes@, to@, id@),
                forall|t: int| 0 <= t < k && edges[#[trigger] ps@[t] as int].kind == EdgeKind::Calls
                    ==> id_reached(queue@, edges[ps@[t] as int].to@, path@.len() + 1),
            decreases ps@.len() - k,
        {
            let e = &graph.edges[ps[k]];
            if e.kind == EdgeKind::Calls {
                let other = e.to.as_str();
                if !seen.contains_key(other) {
                    proof {
                        assert(edges.map_values(|e: Edge| e.to@)[ps@[k as int] as int] == other@);
                        assert(universe.contains(other@));
                        vstd::set_lib::lemma_len_subset(seen@.dom(), universe);
                    }
                    let ghost old_dom = seen@.dom();
                    seen.insert(owned(other), true);
                    proof {
                        assert(seen@.dom() =~= old_dom.insert(other@));
                        assert(seen@.dom().len() == old_dom.len() + 1);
                        vstd::set_lib::lemma_len_subset(seen@.dom(), universe);
                    }
                    let mut next = clone_texts(&path);
                    next.push(owned(other));
                    proof {
                        let pv = path@.map_values(|s: String| s@);
                        let nv = next@.map_values(|s: String| s@);
                        assert(nv =~= pv.push(other@));
                        assert(calls_link(edges, id@, other@)) by {
                            assert(edges[ps@[k as int] as int].kind == EdgeKind::Calls);
                        }
                        assert forall|i: int| 0 <= i < nv.len() - 1 implies calls_link(edges, #[trigger] nv[i], nv[i + 1]) by {
                            if i < pv.len() - 1 {
                                assert(nv[i] == pv[i] && nv[i + 1] == pv[i + 1]);
                            }
                        }
                    }
                    let ghost oq = queue@;
                    let ghost ok = seen@;
                    assert(next@.len() == path@.len() + 1) by {
                        assert(next@.len() == next@.map_values(|s: String| s@).len());
                    }
                    queue.push((owned(other), next));
                    proof {
                        assert(queue@[oq.len() as int].0@ == other@);
                        assert forall|q: int| 0 <= q < queue@.len() implies {
                            let e = #[trigger] queue@[q];
                            &&& seen@.contains_key(e.0@)
                            &&& is_call_path(edges, e.1@.map_values(|s: String| s@), start@)
                            &&& e.1@.map_values(|s: String| s@).last() == e.0@
                        } by {
                            if q < oq.len() {
                                assert(queue@[q] == oq[q]);
                            }
                        }
                        assert(qh < oq.len());
                        assert(queue@[qh].0@ == oq[qh].0@ && queue@[qh].1@ == oq[qh].1@);
                        assert(queue@[0].0@ == oq[0].0@ && queue@[0].1@ == oq[0].1@);
                        assert forall|q1: int, q2: int|
                            0 <= q1 <= q2 < queue@.len() implies (#[trigger] queue@[q1]).1@.len() <= (#[trigger] queue@[q2]).1@.len() by {
                            if q2 < oq.len() {
                                assert(queue@[q1] == oq[q1] && queue@[q2] == oq[q2]);
                            } else if q1 < oq.len() {
                                assert(queue@[q1] == oq[q1]);
                            }
                        }
                        assert forall|q: int| 0 <= q < queue@.len() implies (#[trigger] queue@[q]).1@.len() <= path@.len() + 1 by {
                            if q < oq.len() {
                                assert(queue@[q] == oq[q]);
                            }
                        }
                        assert forall|x: Seq<char>| #[trigger] seen@.contains_key(x) implies exists|q: int|
                            0 <= q < queue@.len() && (#[trigger] queue@[q]).0@ == x by {
                            if x != other@ {
                                assert(ok.contains_key(x));
                                let q = choose|q: int| 0 <= q < oq.len() && (#[trigger] oq[q]).0@ == x;
                                assert(queue@[q] == oq[q]);
                            }
                        }
                        lemma_id_done_grow(edges, oq, queue@, qh, max_depth);
                        assert forall|q: int| 0 <= q < qh && (#[trigger] queue@[q]).1@.len() <= max_depth implies !names_target(
                            graph.nodes@,
                            to@,
                            queue@[q].0@,
                        ) by {
                            assert(queue@[q] == oq[q]);
                        }
                        assert forall|t: int| 0 <= t < k + 1 && edges[#[trigger] ps@[t] as int].kind == EdgeKind::Calls
                            implies id_reached(queue@, edges[ps@[t] as int].to@, path@.len() + 1) by {
                            if t < k {
                                lemma_id_reached_grow(oq, queue@, edges[ps@[t] as int].to@, path@.len() + 1);
                            } else {
                                assert(queue@[oq.len() as int].1@.len() == path@.len() + 1);
                            }
                        }
                    }
                } else {
                    proof {
                        let q = choose|q: int| 0 <= q < queue@.len() && (#[trigger] queue@[q]).0@ == other@;
                        assert(queue@[q].1@.len() <= path@.len() + 1);
                        assert(id_reached(queue@, other@, path@.len() + 1));
                    }
                }
            }
            k = k + 1;
        }
        proof {
            assert(id_done(edges, queue@, qh, max_depth)) by {
                assert forall|j: int|
                    0 <= j < edges.len() && (#[trigger] edges[j]).kind == EdgeKind::Calls && edges[j].from@ == queue@[qh].0@
                        implies id_reached(queue@, edges[j].to@, queue@[qh].1@.len() + 1) by {
                    assert(endpoint(edges[j], true) == id@);
                    assert(ps@.contains(j as usize));
                    let t = choose|t: int| 0 <= t < ps@.len() && ps@[t] == j as usize;
                    assert(ps@[t] as int == j);
                }
            }
        }
    }
    proof {
        assert forall|p: Seq<Seq<char>>|
            #[trigger] is_call_path(edges, p, start@) && p.len() <= max_depth implies !names_target(graph.nodes@, to@, p.last()) by {
            lemma_call_path_reached(edges, queue@, start@, max_depth, (max_depth + 1) as nat, p, p.len() - 1);
            let q2 = choose|q2: int| 0 <= q2 < queue@.len() && (#[trigger] queue@[q2]).0@ == p[p.len() - 1] && queue@[q2].1@.len() <= p.len();
            assert(p.last() == p[p.len() - 1]);
        }
    }
    PathResult { found: false, ids: Vec::new(), nodes: Vec::new(), length: 0 }
}

/// The position among `refs` of a node with id `id`.
fn position_of_id(refs: &Vec<&Node>, id: &str) -> (r: Option<usize>)
    ensures
        match r {
            Some(t) => t < refs@.len() && refs@[t as int].id@ == id@,
            None => forall|q: int| 0 <= q < refs@.len() ==> (#[trigger] refs@[q]).id@ != id@,
        },
{
    let mut t: usize = 0;
    while t < refs.len()
        invariant
            0 <= t <= refs@.len(),
            forall|q: int| 0 <= q < t ==> (#[trigger] refs@[q]).id@ != id@,
        decreases refs@.len() - t,
    {
        if str_eq(refs[t].id.as_str(), id) {
            return Some(t);
        }
        t = t + 1;
    }
    None
}

/// A copy of a list of texts.
pub fn clone_texts(v: &Vec<String>) -> (r: Vec<String>)
    ensures
        r@.map_values(|s: String| s@) == v@.map_values(|s: String| s@),
{
    let mut r: Vec<String> = Vec::new();
    let mut i: usize = 0;
    while i < v.len()
        invariant
            0 <= i <= v@.len(),
            r@.len() == i,
            forall|k: int| 0 <= k < i ==> (#[trigger] r@[k])@ == v@[k]@,
        decreases v@.len() - i,
    {
        r.push(owned(v[i].as_str()));
        i = i + 1;
    }
    assert(r@.map_values(|s: String| s@) =~= v@.map_values(|s: String| s@));
    r
}

} // verus!
