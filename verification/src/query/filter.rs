//! Symbol filters: visibility, documentation, callers and degree.

use vstd::prelude::*;
use vstd::hash_map::StringHashMap;
use crate::model::{Edge, EdgeKind, Node, NodeKind};
use crate::text::{
    concat2, contains, decimal, decimal_string, is_blank, owned, seq_contains, str_eq, trim_spec,
};
use crate::query::index::{QueryIndex, positions_at, degree_at, last_with_id, lemma_positions_at};

verus! {

/// Criteria that a symbol must meet; each one is active when set.
pub struct SymbolFilter {
    pub visibility: Option<String>,
    pub no_docs: bool,
    pub dead: bool,
    pub test_only: bool,
    pub min_callers: Option<usize>,
    pub max_callers: Option<usize>,
    pub min_degree: Option<usize>,
    pub max_degree: Option<usize>,
}

/// Functions, methods (sync or async) and classes.
pub open spec fn is_symbol_kind(k: NodeKind) -> bool {
    k == NodeKind::Function || k == NodeKind::Method || k == NodeKind::AsyncFunction || k
        == NodeKind::AsyncMethod || k == NodeKind::Class
}

/// The node has documentation that is not blank.
pub open spec fn has_docs(n: Node) -> bool {
    n.docs is Some && trim_spec(n.docs->0@).len() > 0
}

/// The positions among `ps` whose edge is a call, in order.
pub open spec fn calls_among(edges: Seq<Edge>, ps: Seq<usize>) -> Seq<usize>
    decreases ps.len(),
{
    if ps.len() == 0 {
        Seq::empty()
    } else {
        let prev = calls_among(edges, ps.drop_last());
        if edges[ps.last() as int].kind == EdgeKind::Calls {
            prev.push(ps.last())
        } else {
            prev
        }
    }
}

/// Positions of the call edges that enter `id`.
pub open spec fn incoming_calls(edges: Seq<Edge>, id: Seq<char>) -> Seq<usize> {
    calls_among(edges, positions_at(edges, id, false))
}

/// The caller ids of the call edges at `ps`.
pub open spec fn callers_of(edges: Seq<Edge>, ps: Seq<usize>) -> Seq<Seq<char>> {
    ps.map_values(|p: usize| edges[p as int].from@)
}

/// How many distinct values `s` holds.
pub open spec fn distinct_count(s: Seq<Seq<char>>) -> nat
    decreases s.len(),
{
    if s.len() == 0 {
        0
    } else {
        distinct_count(s.drop_last()) + (if s.drop_last().contains(s.last()) {
            0nat
        } else {
            1nat
        })
    }
}

/// The node with id `from` lies in a file whose path holds `test`.
pub open spec fn from_test_file(nodes: Seq<Node>, from: Seq<char>) -> bool {
    let i = last_with_id(nodes, from);
    &&& 0 <= i < nodes.len()
    &&& nodes[i].file is Some
    &&& seq_contains(nodes[i].file->0@, "test"@)
}

/// The number of distinct callers of `id`.
pub open spec fn caller_count(edges: Seq<Edge>, id: Seq<char>) -> nat {
    distinct_count(callers_of(edges, incoming_calls(edges, id)))
}

/// The visibility a node is filtered by: its recorded visibility, or
/// `public` where none is recorded (public names carry none).
pub open spec fn visibility_label(n: Node) -> Seq<char> {
    match n.visibility {
        Some(v) => v@,
        None => "public"@,
    }
}

/// Whether `n` passes every active criterion of `f` in a graph with these
/// nodes and edges.
pub open spec fn filter_matches(f: SymbolFilter, n: Node, nodes: Seq<Node>, edges: Seq<Edge>) -> bool {
    let calls = incoming_calls(edges, n.id@);
    let callers = caller_count(edges, n.id@);
    let degree = degree_at(edges, n.id@);
    &&& (f.visibility is Some ==> visibility_label(n) == f.visibility->0@)
    &&& (f.no_docs ==> !has_docs(n))
    &&& (f.dead ==> is_symbol_kind(n.kind) && calls.len() == 0)
    &&& (f.test_only ==> calls.len() > 0 && forall|k: int|
        0 <= k < calls.len() ==> from_test_file(nodes, #[trigger] edges[calls[k] as int].from@))
    &&& (f.min_callers is Some ==> callers >= f.min_callers->0)
    &&& (f.max_callers is Some ==> callers <= f.max_callers->0)
    &&& (f.min_degree is Some ==> degree >= f.min_degree->0)
    &&& (f.max_degree is Some ==> degree <= f.max_degree->0)
}

/// `key=value` with a decimal value.
pub open spec fn setting(key: Seq<char>, v: usize) -> Seq<char> {
    key + "="@ + decimal(v as nat)
}

/// One entry for a set option, none for an unset one.
pub open spec fn opt_entry(o: Option<usize>, key: Seq<char>) -> Seq<Seq<char>> {
    if o is Some {
        seq![setting(key, o->0)]
    } else {
        Seq::empty()
    }
}

/// One entry for a set flag.
pub open spec fn flag_entry(b: bool, name: Seq<char>) -> Seq<Seq<char>> {
    if b {
        seq![name]
    } else {
        Seq::empty()
    }
}

/// The descriptions of the active criteria, in declaration order.
pub open spec fn description_spec(f: SymbolFilter) -> Seq<Seq<char>> {
    (if f.visibility is Some {
        seq!["visibility="@ + f.visibility->0@]
    } else {
        Seq::empty()
    }) + flag_entry(f.no_docs, "no_docs"@) + flag_entry(f.dead, "dead"@) + flag_entry(
        f.test_only,
        "test_only"@,
    ) + opt_entry(f.min_callers, "min_callers"@) + opt_entry(f.max_callers, "max_callers"@)
        + opt_entry(f.min_degree, "min_degree"@) + opt_entry(f.max_degree, "max_degree"@)
}

/// Whether any of the edges at `ps` is a call.
fn any_call(edges: &Vec<Edge>, ps: &[usize]) -> (r: bool)
    requires
        forall|k: int| 0 <= k < ps@.len() ==> #[trigger] ps@[k] < edges@.len(),
    ensures
        r == (calls_among(edges@, ps@).len() > 0),
{
    let mut k: usize = 0;
    while k < ps.len()
        invariant
            0 <= k <= ps@.len(),
            forall|j: int| 0 <= j < ps@.len() ==> #[trigger] ps@[j] < edges@.len(),
            calls_among(edges@, ps@.take(k as int)).len() == 0,
        decreases ps@.len() - k,
    {
        assert(ps@.take(k + 1).drop_last() =~= ps@.take(k as int));
        if edges[ps[k]].kind == EdgeKind::Calls {
            proof {
                lemma_calls_among_take_nonempty(edges@, ps@, k as int);
            }
            return true;
        }
        k = k + 1;
    }
    assert(ps@.take(ps@.len() as int) =~= ps@);
    false
}

/// Once a prefix of `ps` holds a call, every longer prefix does.
proof fn lemma_calls_among_take_nonempty(edges: Seq<Edge>, ps: Seq<usize>, k: int)
    requires
        0 <= k < ps.len(),
        edges[ps[k] as int].kind == EdgeKind::Calls,
    ensures
        calls_among(edges, ps).len() > 0,
    decreases ps.len(),
{
    if k < ps.len() - 1 {
        lemma_calls_among_take_nonempty(edges, ps.drop_last(), k);
    }
}

/// The calls among the edges at `ps`, as positions.
pub fn collect_calls(edges: &Vec<Edge>, ps: &[usize]) -> (r: Vec<usize>)
    requires
        forall|k: int| 0 <= k < ps@.len() ==> #[trigger] ps@[k] < edges@.len(),
    ensures
        r@ == calls_among(edges@, ps@),
        forall|k: int| 0 <= k < r@.len() ==> #[trigger] r@[k] < edges@.len(),
{
    let mut r: Vec<usize> = Vec::new();
    let mut k: usize = 0;
    while k < ps.len()
        invariant
            0 <= k <= ps@.len(),
            forall|j: int| 0 <= j < ps@.len() ==> #[trigger] ps@[j] < edges@.len(),
            forall|j: int| 0 <= j < r@.len() ==> #[trigger] r@[j] < edges@.len(),
            r@ == calls_among(edges@, ps@.take(k as int)),
        decreases ps@.len() - k,
    {
        assert(ps@.take(k + 1).drop_last() =~= ps@.take(k as int));
        if edges[ps[k]].kind == EdgeKind::Calls {
            r.push(ps[k]);
        }
        k = k + 1;
    }
    assert(ps@.take(ps@.len() as int) =~= ps@);
    r
}

impl SymbolFilter {
    /// Check whether a node passes all active filter criteria.
    pub fn matches(&self, node: &Node, index: &QueryIndex) -> (r: bool)
        requires
            index.wf(),
        ensures
            r == filter_matches(*self, *node, index.node_seq(), index.edge_seq()),
    {
        let graph = index.graph();
        let ghost edges = graph.edges@;
        let ghost nodes = graph.nodes@;
        let ghost calls = incoming_calls(edges, node.id@);
        let ghost callers = caller_count(edges, node.id@);
        let ghost degree = degree_at(edges, node.id@);
        // visibility: the recorded one, or `public` where none is recorded
        if let Some(vis) = &self.visibility {
            let same = match &node.visibility {
                Some(v) => str_eq(v.as_str(), vis.as_str()),
                None => str_eq("public", vis.as_str()),
            };
            if !same {
                return false;
            }
        }
        // no_docs: docs is None or blank
        if self.no_docs {
            let has = match &node.docs {
                Some(d) => !is_blank(d.as_str()),
                None => false,
            };
            if has {
                return false;
            }
        }
        let incoming = index.edges(node.id.as_str(), false);
        let n_edges = graph.edges.len();
        proof {
            lemma_positions_at(edges, node.id@, false);
        }
        // dead: no incoming call, and a symbol-like kind
        if self.dead {
            let is_symbol = match node.kind {
                NodeKind::Function | NodeKind::Method | NodeKind::AsyncFunction
                | NodeKind::AsyncMethod | NodeKind::Class => true,
                _ => false,
            };
            if is_symbol {
                if any_call(&graph.edges, incoming) {
                    return false;
                }
            } else {
                return false;
            }
        }
        // test_only: at least one incoming call, all from test files
        if self.test_only {
            let in_calls = collect_calls(&graph.edges, incoming);
            if in_calls.len() == 0 {
                return false;
            }
            let mut k: usize = 0;
            while k < in_calls.len()
                invariant
                    index.wf(),
                    self.test_only,
                    graph.nodes@ == index.node_seq(),
                    graph.edges@ == index.edge_seq(),
                    in_calls@ == calls,
                    calls == incoming_calls(graph.edges@, node.id@),
                    forall|j: int| 0 <= j < calls.len() ==> #[trigger] calls[j] < graph.edges@.len(),
                    0 <= k <= calls.len(),
                    forall|j: int|
                        0 <= j < k ==> from_test_file(
                            graph.nodes@,
                            #[trigger] graph.edges@[calls[j] as int].from@,
                        ),
                decreases calls.len() - k,
            {
                let from = graph.edges[in_calls[k]].from.as_str();
                let ok = match index.node(from) {
                    Some(n) => match &n.file {
                        Some(f) => contains(f.as_str(), "test"),
                        None => false,
                    },
                    None => false,
                };
                if !ok {
                    proof {
                        reveal_strlit("test");
                        assert(!from_test_file(graph.nodes@, graph.edges@[calls[k as int] as int].from@));
                    }
                    return false;
                }
                proof {
                    reveal_strlit("test");
                }
                k = k + 1;
            }
        }
        // min_callers / max_callers: distinct callers over incoming calls
        if self.min_callers.is_some() || self.max_callers.is_some() {
            let in_calls = collect_calls(&graph.edges, incoming);
            let count = count_distinct_callers(&graph.edges, &in_calls);
            if let Some(min) = self.min_callers {
                if count < min {
                    return false;
                }
            }
            if let Some(max) = self.max_callers {
                if count > max {
                    return false;
                }
            }
        }
        // min_degree / max_degree
        let d = index.degree(node.id.as_str());
        if let Some(min) = self.min_degree {
            if d < min {
                return false;
            }
        }
        if let Some(max) = self.max_degree {
            if d > max {
                return false;
            }
        }
        true
    }

    /// Return human-readable descriptions of all active filters.
    pub fn description(&self) -> (r: Vec<String>)
        ensures
            r@.map_values(|s: String| s@) == description_spec(*self),
    {
        let mut desc: Vec<String> = Vec::new();
        let ghost mut acc: Seq<Seq<char>> = Seq::empty();
        proof {
            reveal_strlit("visibility=");
            reveal_strlit("no_docs");
            reveal_strlit("dead");
            reveal_strlit("test_only");
        }
        if let Some(vis) = &self.visibility {
            desc.push(concat2("visibility=", vis.as_str()));
        }
        assert(desc@.map_values(|s: String| s@) =~= (if self.visibility is Some {
            seq!["visibility="@ + self.visibility->0@]
        } else {
            Seq::<Seq<char>>::empty()
        }));
        proof {
            acc = desc@.map_values(|s: String| s@);
        }
        if self.no_docs {
            desc.push(owned("no_docs"));
        }
        assert(desc@.map_values(|s: String| s@) =~= acc + flag_entry(self.no_docs, "no_docs"@));
        proof {
            acc = desc@.map_values(|s: String| s@);
        }
        if self.dead {
            desc.push(owned("dead"));
        }
        assert(desc@.map_values(|s: String| s@) =~= acc + flag_entry(self.dead, "dead"@));
        proof {
            acc = desc@.map_values(|s: String| s@);
        }
        if self.test_only {
            desc.push(owned("test_only"));
        }
        assert(desc@.map_values(|s: String| s@) =~= acc + flag_entry(self.test_only, "test_only"@));
        push_setting(&mut desc, self.min_callers, "min_callers");
        push_setting(&mut desc, self.max_callers, "max_callers");
        push_setting(&mut desc, self.min_degree, "min_degree");
        push_setting(&mut desc, self.max_degree, "max_degree");
        desc
    }
}

/// Append `key=value` when `o` is set.
fn push_setting(desc: &mut Vec<String>, o: Option<usize>, key: &str)
    ensures
        final(desc)@.map_values(|s: String| s@) == old(desc)@.map_values(|s: String| s@) + opt_entry(
            o,
            key@,
        ),
{
    if let Some(v) = o {
        let mut s = concat2(key, "=");
        let digits = decimal_string(v);
        crate::text::push_str(&mut s, digits.as_str());
        desc.push(s);
    }
    assert(final(desc)@.map_values(|s: String| s@) =~= old(desc)@.map_values(|s: String| s@)
        + opt_entry(o, key@));
}

/// The number of distinct callers of the call edges at `calls`.
fn count_distinct_callers(edges: &Vec<Edge>, calls: &Vec<usize>) -> (r: usize)
    requires
        forall|k: int| 0 <= k < calls@.len() ==> #[trigger] calls@[k] < edges@.len(),
    ensures
        r == distinct_count(callers_of(edges@, calls@)),
{
    let mut seen: StringHashMap<bool> = StringHashMap::new();
    let mut count: usize = 0;
    let mut k: usize = 0;
    while k < calls.len()
        invariant
            0 <= k <= calls@.len(),
            forall|j: int| 0 <= j < calls@.len() ==> #[trigger] calls@[j] < edges@.len(),
            count <= k,
            count == distinct_count(callers_of(edges@, calls@.take(k as int))),
            forall|s: Seq<char>|
                #[trigger] seen@.contains_key(s) == callers_of(edges@, calls@.take(k as int)).contains(
                    s,
                ),
        decreases calls@.len() - k,
    {
        let from = edges[calls[k]].from.as_str();
        let ghost pre = callers_of(edges@, calls@.take(k as int));
        let ghost cur = callers_of(edges@, calls@.take(k + 1));
        assert(cur =~= pre.push(from@));
        assert(cur.drop_last() =~= pre);
        if !seen.contains_key(from) {
            seen.insert(owned(from), true);
            count = count + 1;
        }
        proof {
            assert forall|s: Seq<char>| #[trigger] seen@.contains_key(s) == cur.contains(s) by {
                if cur.contains(s) && s != from@ {
                    let i = choose|i: int| 0 <= i < cur.len() && cur[i] == s;
                    assert(i < pre.len());
                    assert(pre[i] == s);
                }
                if pre.contains(s) {
                    let i = choose|i: int| 0 <= i < pre.len() && pre[i] == s;
                    assert(cur[i] == s);
                }
                assert(cur[pre.len() as int] == from@);
            }
        }
        k = k + 1;
    }
    assert(calls@.take(calls@.len() as int) =~= calls@);
    count
}

} // verus!
