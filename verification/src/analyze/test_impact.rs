//! Which tests exercise a symbol: a reverse walk of the call graph from the
//! symbol to test functions, or, without a symbol, every test function.

use vstd::prelude::*;
use vstd::hash_map::StringHashMap;
use crate::model::{CodeGraph, Edge, EdgeKind, Node, NodeKind};
use crate::query::find::{find_positions, found_positions};
use crate::query::index::{QueryIndex, last_with_id, lemma_positions_at, positions_at, total_weight};
use crate::query::traversal::calls_link;
use crate::sorting::{sort_positions, sorted_positions};
use crate::analyze::deps::larger_first;
use crate::text::{concat3, contains, ends_with, owned, seq_contains, seq_ends_with, seq_starts_with, starts_with, str_eq};

verus! {

/// A test function: named `test_…` or `…_test`, or in a file whose path
/// holds `test`.
pub open spec fn is_test_spec(name: Seq<char>, file: Option<Seq<char>>) -> bool {
    seq_starts_with(name, "test_"@) || seq_ends_with(name, "_test"@) || (file is Some && (seq_contains(
        file->0,
        "test"@,
    ) || seq_contains(file->0, "tests"@)))
}

/// Whether a function looks like a test.
pub fn is_test_function(name: &str, file: &Option<String>) -> (r: bool)
    ensures
        r == is_test_spec(name@, match file { Some(f) => Some(f@), None => None }),
{
    starts_with(name, "test_") || ends_with(name, "_test") || match file {
        Some(f) => contains(f.as_str(), "test") || contains(f.as_str(), "tests"),
        None => false,
    }
}

/// Functions and methods, sync or async.
pub open spec fn is_function_kind(k: NodeKind) -> bool {
    k == NodeKind::Function || k == NodeKind::Method || k == NodeKind::AsyncFunction || k == NodeKind::AsyncMethod
}

/// The view of an optional file.
pub open spec fn file_view(n: Node) -> Option<Seq<char>> {
    match n.file {
        Some(f) => Some(f@),
        None => None,
    }
}

/// Positions of the test functions among the first `k` nodes.
pub open spec fn test_functions(nodes: Seq<Node>, k: int) -> Seq<int>
    decreases k,
{
    if k <= 0 {
        Seq::empty()
    } else {
        let prev = test_functions(nodes, k - 1);
        let n = nodes[k - 1];
        if is_function_kind(n.kind) && is_test_spec(n.name@, file_view(n)) {
            prev.push(k - 1)
        } else {
            prev
        }
    }
}

/// A test reached from the symbol.
pub struct TestHit {
    /// Position of the test function.
    pub node: usize,
    /// How many calls lie between the test and the symbol (1 to 4); the
    /// score of the hit is its reciprocal.
    pub level: usize,
    /// The ids from the symbol to the test, each calling the one before.
    pub path_ids: Vec<String>,
    /// The positions of the path's ids that are nodes, in path order.
    pub path: Vec<usize>,
}

/// `p` runs from `a` against the calls: each id calls the one before it.
pub open spec fn is_caller_chain(edges: Seq<Edge>, p: Seq<Seq<char>>, a: Seq<char>) -> bool {
    &&& p.len() >= 1
    &&& p[0] == a
    &&& forall|i: int| 0 <= i < p.len() - 1 ==> calls_link(edges, p[i + 1], #[trigger] p[i])
}

/// What the test impact analysis finds.
pub struct TestImpact {
    /// Position of the symbol, when one was asked for and found.
    pub target: Option<usize>,
    pub hits: Vec<TestHit>,
    /// Without a symbol: the test functions found by name.
    pub static_tests: Vec<usize>,
    pub note: String,
    /// The packages that a test run could target.
    pub targets: Vec<PackageTarget>,
}

/// A package a test run could target: its name, root and file count.
pub struct PackageTarget {
    pub name: String,
    pub root: String,
    pub file_count: usize,
}

/// `t` lists the packages `ps`, in order.
pub open spec fn targets_of(t: Seq<PackageTarget>, ps: Seq<crate::model::Package>) -> bool {
    &&& t.len() == ps.len()
    &&& forall|k: int|
        0 <= k < t.len() ==> {
            &&& (#[trigger] t[k]).name@ == ps[k].name@
            &&& t[k].root@ == ps[k].root@
            &&& t[k].file_count == ps[k].files@.len()
        }
}

/// The packages of the project as test targets.
pub fn package_targets(graph: &CodeGraph) -> (r: Vec<PackageTarget>)
    ensures
        targets_of(r@, graph.project.packages@),
{
    let ps = &graph.project.packages;
    let mut r: Vec<PackageTarget> = Vec::new();
    let mut k: usize = 0;
    while k < ps.len()
        invariant
            k <= ps@.len(),
            ps@ == graph.project.packages@,
            targets_of(r@, ps@.take(k as int)),
        decreases ps@.len() - k,
    {
        let p = &ps[k];
        let ghost before = r@;
        r.push(PackageTarget { name: owned(p.name.as_str()), root: owned(p.root.as_str()), file_count: p.files.len() });
        proof {
            assert forall|t: int| 0 <= t < r@.len() implies {
                &&& (#[trigger] r@[t]).name@ == ps@.take(k + 1)[t].name@
                &&& r@[t].root@ == ps@.take(k + 1)[t].root@
                &&& r@[t].file_count == ps@.take(k + 1)[t].files@.len()
            } by {
                if t < k {
                    assert(r@[t] == before[t]);
                    assert(ps@.take(k + 1)[t] == ps@.take(k as int)[t]);
                }
            }
        }
        k = k + 1;
    }
    assert(ps@.take(ps@.len() as int) =~= ps@);
    r
}

/// The test functions among the first `limit` nodes, in graph order.
fn static_tests(graph: &CodeGraph, limit: usize) -> (r: Vec<usize>)
    ensures
        ({
            let all = test_functions(graph.nodes@, graph.nodes@.len() as int);
            r@.map_values(|p: usize| p as int) == all.take(if all.len() <= limit { all.len() as int } else { limit as int })
        }),
{
    let ghost nodes = graph.nodes@;
    let mut r: Vec<usize> = Vec::new();
    let mut i: usize = 0;
    while i < graph.nodes.len() && r.len() < limit
        invariant
            graph.nodes@ == nodes,
            0 <= i <= nodes.len(),
            r@.map_values(|p: usize| p as int) == test_functions(nodes, i as int),
            r@.len() <= limit,
        decreases nodes.len() - i,
    {
        let n = &graph.nodes[i];
        let f = match n.kind {
            NodeKind::Function | NodeKind::Method | NodeKind::AsyncFunction | NodeKind::AsyncMethod => true,
            _ => false,
        };
        let ghost old_r = r@.map_values(|p: usize| p as int);
        if f && is_test_function(n.name.as_str(), &n.file) {
            r.push(i);
            assert(r@.map_values(|p: usize| p as int) =~= old_r.push(i as int));
        }
        i = i + 1;
    }
    proof {
        lemma_tests_prefix(nodes, i as int, nodes.len() as int);
    }
    r
}

proof fn lemma_tests_prefix(nodes: Seq<Node>, i: int, n: int)
    requires
        0 <= i <= n,
    ensures
        test_functions(nodes, i).len() <= test_functions(nodes, n).len(),
        test_functions(nodes, i) == test_functions(nodes, n).take(test_functions(nodes, i).len() as int),
    decreases n - i,
{
    if i < n {
        lemma_tests_prefix(nodes, i + 1, n);
        let a = test_functions(nodes, i);
        let b = test_functions(nodes, i + 1);
        let all = test_functions(nodes, n);
        assert(b.take(a.len() as int) =~= a);
        assert(all.take(b.len() as int).take(a.len() as int) =~= all.take(a.len() as int));
    } else {
        let all = test_functions(nodes, n);
        assert(all.take(all.len() as int) =~= all);
    }
}

/// A hit is a test function reached from `target` against the calls.
pub open spec fn hit_ok(nodes: Seq<Node>, edges: Seq<Edge>, h: TestHit, target: Seq<char>) -> bool {
    let p = h.path_ids@.map_values(|s: String| s@);
    &&& h.node < nodes.len()
    &&& is_test_spec(nodes[h.node as int].name@, file_view(nodes[h.node as int]))
    &&& 1 <= h.level <= 4
    &&& is_caller_chain(edges, p, target)
    &&& p.len() == h.level + 1
    &&& last_with_id(nodes, p.last()) == h.node
    &&& h.path@.len() <= p.len()
}

/// Position `x` holds a node that looks like a test.
pub open spec fn test_at(nodes: Seq<Node>, x: int) -> bool {
    0 <= x < nodes.len() && is_test_spec(nodes[x].name@, file_view(nodes[x]))
}

/// Hit `h` is reached by a shortest caller chain: no caller chain from
/// `target` to the hit's id is shorter than its level.
pub open spec fn hit_shortest(edges: Seq<Edge>, h: TestHit, target: Seq<char>) -> bool {
    forall|p: Seq<Seq<char>>|
        #[trigger] is_caller_chain(edges, p, target) && p.last() == h.path_ids@.map_values(|s: String| s@).last()
            ==> p.len() >= h.level + 1
}

/// Id `x` has a queue entry at most `bound` calls from the target.
spec fn caller_reached(queue: Seq<(String, usize, Vec<String>)>, x: Seq<char>, bound: int) -> bool {
    exists|q: int| 0 <= q < queue.len() && (#[trigger] queue[q]).0@ == x && queue[q].1 <= bound
}

/// Queue entry `q`, if under four calls away, had every caller of its id
/// queued one call further.
spec fn caller_done(edges: Seq<Edge>, queue: Seq<(String, usize, Vec<String>)>, q: int) -> bool {
    queue[q].1 < 4 ==> forall|j: int|
        0 <= j < edges.len() && (#[trigger] edges[j]).kind == EdgeKind::Calls && edges[j].to@ == queue[q].0@
            ==> caller_reached(queue, edges[j].from@, queue[q].1 + 1)
}

proof fn lemma_caller_reached_grow(
    old_q: Seq<(String, usize, Vec<String>)>,
    new_q: Seq<(String, usize, Vec<String>)>,
    x: Seq<char>,
    bound: int,
)
    requires
        old_q.len() <= new_q.len(),
        forall|q: int| 0 <= q < old_q.len() ==> new_q[q] == old_q[q],
        caller_reached(old_q, x, bound),
    ensures
        caller_reached(new_q, x, bound),
{
    let q = choose|q: int| 0 <= q < old_q.len() && (#[trigger] old_q[q]).0@ == x && old_q[q].1 <= bound;
    assert(new_q[q] == old_q[q]);
}

proof fn lemma_caller_done_grow(
    edges: Seq<Edge>,
    old_q: Seq<(String, usize, Vec<String>)>,
    new_q: Seq<(String, usize, Vec<String>)>,
    upto: int,
)
    requires
        0 <= upto <= old_q.len() <= new_q.len(),
        forall|q: int| 0 <= q < old_q.len() ==> new_q[q] == old_q[q],
        forall|q: int| 0 <= q < upto ==> #[trigger] caller_done(edges, old_q, q),
    ensures
        forall|q: int| 0 <= q < upto ==> #[trigger] caller_done(edges, new_q, q),
{
    assert forall|q: int| 0 <= q < upto implies #[trigger] caller_done(edges, new_q, q) by {
        assert(new_q[q] == old_q[q]);
        assert(caller_done(edges, old_q, q));
        if new_q[q].1 < 4 {
            assert forall|j: int|
                0 <= j < edges.len() && (#[trigger] edges[j]).kind == EdgeKind::Calls && edges[j].to@ == new_q[q].0@
                    implies caller_reached(new_q, edges[j].from@, new_q[q].1 + 1) by {
                lemma_caller_reached_grow(old_q, new_q, edges[j].from@, old_q[q].1 + 1);
            }
        }
    }
}

proof fn lemma_chain_reached(
    edges: Seq<Edge>,
    queue: Seq<(String, usize, Vec<String>)>,
    target: Seq<char>,
    lim: int,
    p: Seq<Seq<char>>,
    i: int,
)
    requires
        is_caller_chain(edges, p, target),
        lim <= 4,
        p.len() <= lim + 1,
        0 <= i < p.len(),
        queue.len() >= 1,
        queue[0].0@ == target,
        queue[0].1 == 0,
        forall|q: int| 0 <= q < queue.len() && queue[q].1 < lim ==> #[trigger] caller_done(edges, queue, q),
    ensures
        caller_reached(queue, p[i], i),
    decreases i,
{
    if i == 0 {
        assert(queue[0].0@ == p[0]);
    } else {
        lemma_chain_reached(edges, queue, target, lim, p, i - 1);
        let q = choose|q: int| 0 <= q < queue.len() && (#[trigger] queue[q]).0@ == p[i - 1] && queue[q].1 <= i - 1;
        assert(caller_done(edges, queue, q));
        assert(calls_link(edges, p[(i - 1) + 1], p[i - 1]));
        let j = choose|j: int|
            0 <= j < edges.len() && (#[trigger] edges[j]).kind == EdgeKind::Calls && edges[j].from@ == p[i] && edges[j].to@
                == p[i - 1];
        assert(caller_reached(queue, edges[j].from@, queue[q].1 + 1));
        let q2 = choose|q2: int| 0 <= q2 < queue.len() && (#[trigger] queue[q2]).0@ == p[i] && queue[q2].1 <= queue[q].1 + 1;
    }
}

/// The callers of `target`, up to four calls away, that are tests, nearest
/// first; at most `limit` of them.
fn reverse_hits(index: &QueryIndex, target: &str, limit: usize) -> (r: Vec<TestHit>)
    requires
        index.wf(),
    ensures
        r@.len() <= limit,
        forall|k: int| 0 <= k < r@.len() ==> hit_ok(index.node_seq(), index.edge_seq(), #[trigger] r@[k], target@),
        forall|i: int, j: int| 0 <= i < j < r@.len() ==> (#[trigger] r@[i]).level <= (#[trigger] r@[j]).level,
        r@.len() < limit ==> forall|p: Seq<Seq<char>>|
            #[trigger] is_caller_chain(index.edge_seq(), p, target@) && 2 <= p.len() <= 5 && p.last() != target@
                && test_at(index.node_seq(), last_with_id(index.node_seq(), p.last())) ==> exists|k: int|
                0 <= k < r@.len() && r@[k].node == last_with_id(index.node_seq(), p.last()),
        forall|k: int| 0 <= k < r@.len() ==> hit_shortest(index.edge_seq(), #[trigger] r@[k], target@),
{
    let graph = index.graph();
    let ghost nodes = graph.nodes@;
    let ghost edges = graph.edges@;
    let n_edges = graph.edges.len();
    let ghost universe = edges.map_values(|e: Edge| e.from@).to_set().insert(target@);
    proof {
        vstd::seq_lib::seq_to_set_is_finite(edges.map_values(|e: Edge| e.from@));
    }
    let mut visited: StringHashMap<bool> = StringHashMap::new();
    visited.insert(owned(target), true);
    let mut first: Vec<String> = Vec::new();
    first.push(owned(target));
    let mut queue: Vec<(String, usize, Vec<String>)> = Vec::new();
    queue.push((owned(target), 0, first));
    proof {
        assert(queue@[0].2@.map_values(|s: String| s@) =~= seq![target@]);
        assert(visited@.dom() =~= Set::empty().insert(target@));
        vstd::set_lib::lemma_len_subset(visited@.dom(), universe);
    }
    let mut found: Vec<TestHit> = Vec::new();
    let mut head: usize = 0;
    while head < queue.len()
        invariant
            index.wf(),
            index.node_seq() == nodes,
            index.edge_seq() == edges,
            graph.nodes@ == nodes,
            graph.edges@ == edges,
            edges.len() <= usize::MAX,
            universe.finite(),
            universe == edges.map_values(|e: Edge| e.from@).to_set().insert(target@),
            visited@.dom().subset_of(universe),
            visited@.dom().finite(),
            0 <= head <= queue@.len(),
            queue@.len() - head <= visited@.dom().len(),
            forall|q: int| 0 <= q < queue@.len() ==> {
                let e = #[trigger] queue@[q];
                let p = e.2@.map_values(|s: String| s@);
                &&& is_caller_chain(edges, p, target@)
                &&& p.last() == e.0@
                &&& p.len() == e.1 + 1
                &&& e.1 <= 4
            },
            forall|k: int| 0 <= k < found@.len() ==> hit_ok(nodes, edges, #[trigger] found@[k], target@),
            queue@[0].0@ == target@,
            queue@[0].1 == 0,
            forall|q1: int, q2: int| 0 <= q1 <= q2 < queue@.len() ==> (#[trigger] queue@[q1]).1 <= (#[trigger] queue@[q2]).1,
            head == 0 ==> queue@.len() == 1,
            head > 0 ==> forall|q: int| 0 <= q < queue@.len() ==> (#[trigger] queue@[q]).1 <= queue@[head - 1].1 + 1,
            forall|x: Seq<char>| #[trigger] visited@.contains_key(x) ==> exists|q: int| 0 <= q < queue@.len() && (#[trigger] queue@[q]).0@ == x,
            forall|q: int| 0 <= q < head ==> #[trigger] caller_done(edges, queue@, q),
            forall|q: int| 1 <= q < queue@.len() && test_at(nodes, last_with_id(nodes, (#[trigger] queue@[q]).0@)) ==> exists|f: int|
                0 <= f < found@.len() && found@[f].node == last_with_id(nodes, queue@[q].0@),
            forall|q: int| 0 <= q < queue@.len() ==> visited@.contains_key((#[trigger] queue@[q]).0@),
            forall|f: int| 0 <= f < found@.len() ==> hit_shortest(edges, #[trigger] found@[f], target@),
        decreases 2 * (universe.len() - visited@.dom().len()) + (queue@.len() - head),
    {
        proof {
            vstd::set_lib::lemma_len_subset(visited@.dom(), universe);
        }
        let ghost m0 = 2 * (universe.len() - visited@.dom().len()) + (queue@.len() - head);
        let current = owned(queue[head].0.as_str());
        let depth = queue[head].1;
        let path = crate::query::traversal::clone_texts(&queue[head].2);
        let ghost qh = head as int;
        proof {
            assert forall|q: int| 0 <= q < queue@.len() implies (#[trigger] queue@[q]).1 <= depth + 1 by {
                if qh > 0 {
                    assert(queue@[qh - 1].1 <= queue@[qh].1);
                }
            }
        }
        head = head + 1;
        if depth >= 4 {
            continue;
        }
        let ps = index.edges(current.as_str(), false);
        proof {
            lemma_positions_at(edges, current@, false);
        }
        let mut k: usize = 0;
        while k < ps.len()
            invariant
                index.wf(),
                index.node_seq() == nodes,
                index.edge_seq() == edges,
                graph.nodes@ == nodes,
                graph.edges@ == edges,
                ps@ == positions_at(edges, current@, false),
                forall|q: int| 0 <= q < ps@.len() ==> #[trigger] ps@[q] < edges.len() && edges[ps@[q] as int].to@ == current@,
                universe.finite(),
                universe == edges.map_values(|e: Edge| e.from@).to_set().insert(target@),
                visited@.dom().subset_of(universe),
                visited@.dom().finite(),
                visited@.dom().len() <= universe.len(),
                0 < head <= queue@.len(),
                queue@.len() - head < visited@.dom().len() + 1,
                2 * (universe.len() - visited@.dom().len()) + (queue@.len() - head) < m0,
                depth < 4,
                is_caller_chain(edges, path@.map_values(|s: String| s@), target@),
                path@.map_values(|s: String| s@).last() == current@,
                path@.len() == depth + 1,
                forall|q: int| 0 <= q < queue@.len() ==> {
                    let e = #[trigger] queue@[q];
                    let p = e.2@.map_values(|s: String| s@);
                    &&& is_caller_chain(edges, p, target@)
                    &&& p.last() == e.0@
                    &&& p.len() == e.1 + 1
                    &&& e.1 <= 4
                },
                forall|kk: int| 0 <= kk < found@.len() ==> hit_ok(nodes, edges, #[trigger] found@[kk], target@),
                0 <= k <= ps@.len(),
                head == qh + 1,
                0 <= qh,
                queue@[qh].0@ == current@,
                queue@[qh].1 == depth,
                queue@[0].0@ == target@,
                queue@[0].1 == 0,
                forall|q1: int, q2: int| 0 <= q1 <= q2 < queue@.len() ==> (#[trigger] queue@[q1]).1 <= (#[trigger] queue@[q2]).1,
                forall|q: int| 0 <= q < queue@.len() ==> (#[trigger] queue@[q]).1 <= depth + 1,
                forall|x: Seq<char>| #[trigger] visited@.contains_key(x) ==> exists|q: int| 0 <= q < queue@.len() && (#[trigger] queue@[q]).0@ == x,
                forall|q: int| 0 <= q < qh ==> #[trigger] caller_done(edges, queue@, q),
                forall|q: int| 1 <= q < queue@.len() && test_at(nodes, last_with_id(nodes, (#[trigger] queue@[q]).0@)) ==> exists|f: int|
                    0 <= f < found@.len() && found@[f].node == last_with_id(nodes, queue@[q].0@),
                forall|t: int| 0 <= t < k && edges[#[trigger] ps@[t] as int].kind == EdgeKind::Calls
                    ==> caller_reached(queue@, edges[ps@[t] as int].from@, depth + 1),
                forall|q: int| 0 <= q < queue@.len() ==> visited@.contains_key((#[trigger] queue@[q]).0@),
                forall|f: int| 0 <= f < found@.len() ==> hit_shortest(edges, #[trigger] found@[f], target@),
            decreases ps@.len() - k,
        {
            let e = &graph.edges[ps[k]];
            if e.kind == EdgeKind::Calls {
                let caller = e.from.as_str();
                if !visited.contains_key(caller) {
                    proof {
                        assert(edges.map_values(|e: Edge| e.from@)[ps@[k as int] as int] == caller@);
                        assert(universe.contains(caller@));
                    }
                    proof {
                        let lq = queue@;
                        assert forall|p: Seq<Seq<char>>|
                            #[trigger] is_caller_chain(edges, p, target@) && p.last() == caller@ implies p.len() >= depth + 2 by {
                            if p.len() < depth + 2 {
                                assert forall|q: int| 0 <= q < lq.len() && lq[q].1 < p.len() - 1 implies #[trigger] caller_done(edges, lq, q) by {
                                    if q >= qh {
                                        assert(lq[qh].1 <= lq[q].1);
                                    }
                                }
                                lemma_chain_reached(edges, lq, target@, p.len() - 1, p, p.len() - 1);
                                assert(p.last() == p[p.len() - 1]);
                                let q = choose|q: int| 0 <= q < lq.len() && (#[trigger] lq[q]).0@ == p[p.len() - 1] && lq[q].1 <= p.len() - 1;
                                assert(visited@.contains_key(lq[q].0@));
                            }
                        }
                    }
                    let ghost old_dom = visited@.dom();
                    visited.insert(owned(caller), true);
                    proof {
                        assert(visited@.dom() =~= old_dom.insert(caller@));
                        vstd::set_lib::lemma_len_subset(visited@.dom(), universe);
                    }
                    let mut next = crate::query::traversal::clone_texts(&path);
                    next.push(owned(caller));
                    proof {
                        let pv = path@.map_values(|s: String| s@);
                        let nv = next@.map_values(|s: String| s@);
                        assert(nv =~= pv.push(caller@));
                        assert(calls_link(edges, caller@, current@)) by {
                            assert(edges[ps@[k as int] as int].kind == EdgeKind::Calls);
                        }
                        assert forall|i: int| 0 <= i < nv.len() - 1 implies calls_link(edges, nv[i + 1], #[trigger] nv[i]) by {
                            if i < pv.len() - 1 {
                                assert(nv[i] == pv[i] && nv[i + 1] == pv[i + 1]);
                            }
                        }
                    }
                    let ghost of0 = found@;
                    let ghost ov = visited@;
                    match index.node_index(caller) {
                        Some(ni) => {
                            let cn = &graph.nodes[ni];
                            if is_test_function(cn.name.as_str(), &cn.file) {
                                let mut pnodes: Vec<usize> = Vec::new();
                                let mut q: usize = 0;
                                while q < next.len()
                                    invariant
                                        index.wf(),
                                        0 <= q <= next@.len(),
                                        pnodes@.len() <= q,
                                    decreases next@.len() - q,
                                {
                                    match index.node_index(next[q].as_str()) {
                                        Some(x) => pnodes.push(x),
                                        None => {},
                                    }
                                    q = q + 1;
                                }
                                let hit = TestHit {
                                    node: ni,
                                    level: depth + 1,
                                    path_ids: crate::query::traversal::clone_texts(&next),
                                    path: pnodes,
                                };
                                let ghost of = found@;
                                found.push(hit);
                                proof {
                                    assert forall|kk: int| 0 <= kk < found@.len() implies hit_ok(nodes, edges, #[trigger] found@[kk], target@) by {
                                        if kk < of.len() {
                                            assert(found@[kk] == of[kk]);
                                        }
                                    }
                                    assert(found@[of.len() as int].node == last_with_id(nodes, caller@));
                                    assert forall|f: int| 0 <= f < found@.len() implies hit_shortest(edges, #[trigger] found@[f], target@) by {
                                        if f < of.len() {
                                            assert(found@[f] == of[f]);
                                        } else {
                                            assert(found@[f].path_ids@.map_values(|s: String| s@) == next@.map_values(|s: String| s@));
                                            assert(next@.map_values(|s: String| s@).last() == caller@);
                                        }
                                    }
                                }
                            } else {
                                proof {
                                    assert(!test_at(nodes, last_with_id(nodes, caller@)));
                                }
                            }
                        },
                        None => {},
                    }
                    proof {
                        assert(found@.len() >= of0.len());
                        assert(forall|f: int| 0 <= f < of0.len() ==> found@[f] == of0[f]);
                        assert(test_at(nodes, last_with_id(nodes, caller@)) ==> exists|f: int|
                            0 <= f < found@.len() && found@[f].node == last_with_id(nodes, caller@));
                    }
                    let ghost oq = queue@;
                    queue.push((owned(caller), depth + 1, next));
                    proof {
                        assert(queue@[oq.len() as int].0@ == caller@);
                        assert(qh < oq.len());
                        assert(queue@[qh].0@ == oq[qh].0@ && queue@[qh].1 == oq[qh].1);
                        assert(queue@[0].0@ == oq[0].0@ && queue@[0].1 == oq[0].1);
                        assert forall|q1: int, q2: int|
                            0 <= q1 <= q2 < queue@.len() implies (#[trigger] queue@[q1]).1 <= (#[trigger] queue@[q2]).1 by {
                            if q2 < oq.len() {
                                assert(queue@[q1] == oq[q1] && queue@[q2] == oq[q2]);
                            } else if q1 < oq.len() {
                                assert(queue@[q1] == oq[q1]);
                            }
                        }
                        assert forall|q: int| 0 <= q < queue@.len() implies (#[trigger] queue@[q]).1 <= depth + 1 by {
                            if q < oq.len() {
                                assert(queue@[q] == oq[q]);
                            }
                        }
                        assert forall|x: Seq<char>| #[trigger] visited@.contains_key(x) implies exists|q: int|
                            0 <= q < queue@.len() && (#[trigger] queue@[q]).0@ == x by {
                            if x != caller@ {
                                assert(ov.contains_key(x));
                                let q = choose|q: int| 0 <= q < oq.len() && (#[trigger] oq[q]).0@ == x;
                                assert(queue@[q] == oq[q]);
                            }
                        }
                        assert forall|q: int| 0 <= q < queue@.len() implies visited@.contains_key((#[trigger] queue@[q]).0@) by {
                            if q < oq.len() {
                                assert(queue@[q] == oq[q]);
                            }
                        }
                        lemma_caller_done_grow(edges, oq, queue@, qh);
                        assert forall|q: int| 1 <= q < queue@.len() && test_at(nodes, last_with_id(nodes, (#[trigger] queue@[q]).0@)) implies exists|f: int|
                            0 <= f < found@.len() && found@[f].node == last_with_id(nodes, queue@[q].0@) by {
                            if q < oq.len() {
                                assert(queue@[q] == oq[q]);
                                let f = choose|f: int| 0 <= f < of0.len() && of0[f].node == last_with_id(nodes, oq[q].0@);
                                assert(found@[f] == of0[f]);
                            }
                        }
                        assert forall|t: int| 0 <= t < k + 1 && edges[#[trigger] ps@[t] as int].kind == EdgeKind::Calls
                            implies caller_reached(queue@, edges[ps@[t] as int].from@, depth + 1) by {
                            if t < k {
                                lemma_caller_reached_grow(oq, queue@, edges[ps@[t] as int].from@, depth + 1);
                            } else {
                                assert(queue@[oq.len() as int].1 == depth + 1);
                            }
                        }
                        assert forall|q: int| 0 <= q < queue@.len() implies {
                            let e = #[trigger] queue@[q];
                            let p = e.2@.map_values(|s: String| s@);
                            &&& is_caller_chain(edges, p, target@)
                            &&& p.last() == e.0@
                            &&& p.len() == e.1 + 1
                            &&& e.1 <= 4
                        } by {
                            if q < oq.len() {
                                assert(queue@[q] == oq[q]);
                            }
                        }
                    }
                } else {
                    proof {
                        let q = choose|q: int| 0 <= q < queue@.len() && (#[trigger] queue@[q]).0@ == caller@;
                        assert(queue@[q].1 <= depth + 1);
                        assert(caller_reached(queue@, caller@, depth + 1));
                    }
                }
            }
            k = k + 1;
        }
        proof {
            assert(caller_done(edges, queue@, qh)) by {
                assert forall|j: int|
                    0 <= j < edges.len() && (#[trigger] edges[j]).kind == EdgeKind::Calls && edges[j].to@ == queue@[qh].0@
                        implies caller_reached(queue@, edges[j].from@, queue@[qh].1 + 1) by {
                    assert(ps@.contains(j as usize));
                    let t = choose|t: int| 0 <= t < ps@.len() && ps@[t] == j as usize;
                    assert(ps@[t] as int == j);
                }
            }
        }
    }
    // nearest first, then the first `limit`
    let n = found.len();
    let mut levels: Vec<usize> = Vec::new();
    let mut i: usize = 0;
    while i < n
        invariant
            n == found@.len(),
            0 <= i <= n,
            levels@.len() == i,
            forall|q: int| 0 <= q < i ==> #[trigger] levels@[q] == found@[q].level,
        decreases n - i,
    {
        levels.push(found[i].level);
        i = i + 1;
    }
    let ghost lt = |x: int, y: int| levels@[x] < levels@[y] || (levels@[x] == levels@[y] && x < y);
    let before = |x: usize, y: usize| -> (b: bool)
        requires
            x < levels@.len(),
            y < levels@.len(),
        ensures
            b == (levels@[x as int] < levels@[y as int] || (levels@[x as int] == levels@[y as int] && x < y)),
        { levels[x] < levels[y] || (levels[x] == levels[y] && x < y) };
    let order = sort_positions(n, &before, Ghost(lt));
    let take = if limit < n { limit } else { n };
    let mut r: Vec<TestHit> = Vec::new();
    let mut k: usize = 0;
    while k < take
        invariant
            0 <= k <= take,
            take <= n,
            take <= limit,
            n == found@.len(),
            n == levels@.len(),
            forall|q: int| 0 <= q < n ==> #[trigger] levels@[q] == found@[q].level,
            sorted_positions(order@, n as int, lt),
            forall|q: int| 0 <= q < found@.len() ==> hit_ok(nodes, edges, #[trigger] found@[q], target@),
            r@.len() == k,
            forall|q: int| 0 <= q < k ==> hit_ok(nodes, edges, #[trigger] r@[q], target@),
            forall|q: int| 0 <= q < k ==> (#[trigger] r@[q]).level == found@[order@[q] as int].level,
            forall|q: int| 0 <= q < k ==> (#[trigger] r@[q]).node == found@[order@[q] as int].node,
            forall|f: int| 0 <= f < found@.len() ==> hit_shortest(edges, #[trigger] found@[f], target@),
            forall|q: int| 0 <= q < k ==> hit_shortest(edges, #[trigger] r@[q], target@),
        decreases take - k,
    {
        let h = &found[order[k]];
        let ids = crate::query::traversal::clone_texts(&h.path_ids);
        let mut pn: Vec<usize> = Vec::new();
        let mut q: usize = 0;
        while q < h.path.len()
            invariant
                0 <= q <= h.path@.len(),
                pn@.len() == q,
            decreases h.path@.len() - q,
        {
            pn.push(h.path[q]);
            q = q + 1;
        }
        assert(ids@.map_values(|s: String| s@) == h.path_ids@.map_values(|s: String| s@));
        let ghost or = r@;
        r.push(TestHit { node: h.node, level: h.level, path_ids: ids, path: pn });
        proof {
            assert(hit_shortest(edges, found@[order@[k as int] as int], target@));
            assert forall|q: int| 0 <= q < k + 1 implies hit_shortest(edges, #[trigger] r@[q], target@) by {
                if q < k {
                    assert(r@[q] == or[q]);
                } else {
                    assert(r@[q].path_ids@.map_values(|s: String| s@) == h.path_ids@.map_values(|s: String| s@));
                }
            }
        }
        k = k + 1;
    }
    proof {
        assert forall|a: int, b: int| 0 <= a < b < r@.len() implies (#[trigger] r@[a]).level <= (#[trigger] r@[b]).level by {
            assert(lt(order@[a] as int, order@[b] as int));
        }
        if r@.len() < limit {
            assert forall|p: Seq<Seq<char>>|
                #[trigger] is_caller_chain(edges, p, target@) && 2 <= p.len() <= 5 && p.last() != target@ && test_at(
                    nodes,
                    last_with_id(nodes, p.last()),
                ) implies exists|k: int| 0 <= k < r@.len() && r@[k].node == last_with_id(nodes, p.last()) by {
                lemma_chain_reached(edges, queue@, target@, 4, p, p.len() - 1);
                assert(p.last() == p[p.len() - 1]);
                let q = choose|q: int| 0 <= q < queue@.len() && (#[trigger] queue@[q]).0@ == p[p.len() - 1] && queue@[q].1 <= p.len() - 1;
                assert(q != 0);
                let f = choose|f: int| 0 <= f < found@.len() && found@[f].node == last_with_id(nodes, queue@[q].0@);
                assert(order@.contains(f as usize));
                let k = choose|k: int| 0 <= k < order@.len() && order@[k] == f as usize;
                assert(r@[k].node == found@[f].node);
            }
        }
    }
    r
}

/// The tests that exercise the symbol named `symbol` (up to four calls
/// away, nearest first, at most `limit`), or, without a symbol, the first
/// `limit` test functions of the graph.
pub fn test_impact(graph: &CodeGraph, symbol: Option<&str>, limit: usize) -> (r: TestImpact)
    requires
        2 * total_weight(graph.edges@) <= usize::MAX,
    ensures
        targets_of(r.targets@, graph.project.packages@),
        match symbol {
            None => {
                let all = test_functions(graph.nodes@, graph.nodes@.len() as int);
                &&& r.target is None
                &&& r.hits@.len() == 0
                &&& r.static_tests@.map_values(|p: usize| p as int) == all.take(if all.len() <= limit { all.len() as int } else { limit as int })
                &&& r.note@ == "static test discovery (no symbol specified)"@
            },
            Some(s) => {
                let found = found_positions(graph.nodes@, s@);
                &&& r.static_tests@.len() == 0
                &&& (found.len() == 0 ==> r.target is None && r.hits@.len() == 0 && r.note@ == "symbol `"@ + s@ + "` not found"@)
                &&& (found.len() > 0 ==> {
                    &&& r.target == Some(found[0] as usize)
                    &&& r.note@ == "call-graph-based test impact analysis"@
                    &&& r.hits@.len() <= limit
                    &&& forall|k: int| 0 <= k < r.hits@.len() ==> hit_ok(graph.nodes@, graph.edges@, #[trigger] r.hits@[k], graph.nodes@[found[0]].id@)
                    &&& forall|i: int, j: int| 0 <= i < j < r.hits@.len() ==> (#[trigger] r.hits@[i]).level <= (#[trigger] r.hits@[j]).level
                    &&& forall|k: int| 0 <= k < r.hits@.len() ==> hit_shortest(graph.edges@, #[trigger] r.hits@[k], graph.nodes@[found[0]].id@)
                    &&& (r.hits@.len() < limit ==> forall|p: Seq<Seq<char>>|
                        #[trigger] is_caller_chain(graph.edges@, p, graph.nodes@[found[0]].id@) && 2 <= p.len() <= 5
                            && p.last() != graph.nodes@[found[0]].id@ && test_at(graph.nodes@, last_with_id(graph.nodes@, p.last()))
                            ==> exists|k: int| 0 <= k < r.hits@.len() && r.hits@[k].node == last_with_id(graph.nodes@, p.last()))
                })
            },
        },
{
    let index = QueryIndex::new(graph);
    proof {
        reveal_strlit("static test discovery (no symbol specified)");
        reveal_strlit("symbol `");
        reveal_strlit("` not found");
        reveal_strlit("call-graph-based test impact analysis");
    }
    match symbol {
        None => TestImpact {
            target: None,
            hits: Vec::new(),
            static_tests: static_tests(graph, limit),
            note: owned("static test discovery (no symbol specified)"),
            targets: package_targets(graph),
        },
        Some(s) => {
            let pos = find_positions(graph, s);
            if pos.len() == 0 {
                return TestImpact {
                    target: None,
                    hits: Vec::new(),
                    static_tests: Vec::new(),
                    note: concat3("symbol `", s, "` not found"),
                    targets: package_targets(graph),
                };
            }
            let t = pos[0];
            assert(pos@.map_values(|p: usize| p as int)[0] == t as int);
            let hits = reverse_hits(&index, graph.nodes[t].id.as_str(), limit);
            TestImpact {
                target: Some(t),
                hits,
                static_tests: Vec::new(),
                note: owned("call-graph-based test impact analysis"),
                targets: package_targets(graph),
            }
        },
    }
}

} // verus!
