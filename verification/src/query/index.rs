//! Lookup tables over a graph: nodes by id, edges by endpoint, and the
//! weighted degree of each id.
//!
//! Edges are handed out by their position in `graph.edges`.

use vstd::prelude::*;
use vstd::hash_map::StringHashMap;
use crate::model::{CodeGraph, Edge, Node};
use crate::text::owned;

verus! {

/// The endpoint of `e` that an outbound (`from`) or inbound (`to`) lookup
/// keys on.
pub open spec fn endpoint(e: Edge, outbound: bool) -> Seq<char> {
    if outbound {
        e.from@
    } else {
        e.to@
    }
}

/// Positions, in graph order, of the edges whose endpoint is `id`.
pub open spec fn positions_at(edges: Seq<Edge>, id: Seq<char>, outbound: bool) -> Seq<usize>
    decreases edges.len(),
{
    if edges.len() == 0 {
        Seq::empty()
    } else {
        let prev = positions_at(edges.drop_last(), id, outbound);
        if endpoint(edges.last(), outbound) == id {
            prev.push((edges.len() - 1) as usize)
        } else {
            prev
        }
    }
}

/// Weighted degree of `id`: the weight of each edge counted once for each of
/// its endpoints that is `id`.
pub open spec fn degree_at(edges: Seq<Edge>, id: Seq<char>) -> nat
    decreases edges.len(),
{
    if edges.len() == 0 {
        0
    } else {
        let e = edges.last();
        degree_at(edges.drop_last(), id) + (if e.from@ == id {
            e.weight as nat
        } else {
            0nat
        }) + (if e.to@ == id {
            e.weight as nat
        } else {
            0nat
        })
    }
}

/// Sum of the edge weights.
pub open spec fn total_weight(edges: Seq<Edge>) -> nat
    decreases edges.len(),
{
    if edges.len() == 0 {
        0
    } else {
        total_weight(edges.drop_last()) + edges.last().weight as nat
    }
}

/// Index of the last node whose id is `id`, or -1.
pub open spec fn last_with_id(nodes: Seq<Node>, id: Seq<char>) -> int
    decreases nodes.len(),
{
    if nodes.len() == 0 {
        -1
    } else if nodes.last().id@ == id {
        nodes.len() - 1
    } else {
        last_with_id(nodes.drop_last(), id)
    }
}

/// What `positions_at` holds: each position of an edge at `id`, once, in
/// increasing order.
pub proof fn lemma_positions_at(edges: Seq<Edge>, id: Seq<char>, outbound: bool)
    requires
        edges.len() <= usize::MAX,
    ensures
        forall|k: int|
            0 <= k < positions_at(edges, id, outbound).len() ==> {
                let p = #[trigger] positions_at(edges, id, outbound)[k];
                &&& p < edges.len()
                &&& endpoint(edges[p as int], outbound) == id
            },
        forall|k1: int, k2: int|
            0 <= k1 < k2 < positions_at(edges, id, outbound).len() ==> #[trigger] positions_at(
                edges,
                id,
                outbound,
            )[k1] < #[trigger] positions_at(edges, id, outbound)[k2],
        forall|p: int|
            0 <= p < edges.len() && endpoint(#[trigger] edges[p], outbound) == id
                ==> positions_at(edges, id, outbound).contains(p as usize),
    decreases edges.len(),
{
    if edges.len() > 0 {
        let prev = edges.drop_last();
        lemma_positions_at(prev, id, outbound);
        let ps = positions_at(edges, id, outbound);
        let pp = positions_at(prev, id, outbound);
        assert(edges.last() == edges[edges.len() - 1]);
        if endpoint(edges.last(), outbound) == id {
            assert(ps == pp.push((edges.len() - 1) as usize));
        } else {
            assert(ps == pp);
        }
        assert forall|k: int| 0 <= k < ps.len() implies {
            let p = #[trigger] ps[k];
            &&& p < edges.len()
            &&& endpoint(edges[p as int], outbound) == id
        } by {
            if k < pp.len() {
                assert(ps[k] == pp[k]);
                let q = pp[k];
                assert(q < prev.len());
                assert(endpoint(prev[q as int], outbound) == id);
                assert(prev[q as int] == edges[q as int]);
            } else {
                assert(k == pp.len());
                assert(endpoint(edges.last(), outbound) == id);
                assert(ps[k] == edges.len() - 1);
            }
        }
        assert forall|k1: int, k2: int| 0 <= k1 < k2 < ps.len() implies #[trigger] ps[k1] < #[trigger] ps[k2] by {
            assert(ps[k1] == pp[k1]);
            if k2 < pp.len() {
                assert(ps[k2] == pp[k2]);
            } else {
                assert(pp[k1] < prev.len());
            }
        }
        assert forall|p: int|
            0 <= p < edges.len() && endpoint(#[trigger] edges[p], outbound) == id implies ps.contains(
            p as usize) by {
            if p < edges.len() - 1 {
                assert(prev[p] == edges[p]);
                assert(pp.contains(p as usize));
                let k = choose|k: int| 0 <= k < pp.len() && pp[k] == p as usize;
                assert(ps[k] == p as usize);
            } else {
                assert(ps[ps.len() - 1] == p as usize);
            }
        }
    }
}

/// The degree of an id is at most twice the total weight.
pub proof fn lemma_degree_le(edges: Seq<Edge>, id: Seq<char>)
    ensures
        degree_at(edges, id) <= 2 * total_weight(edges),
    decreases edges.len(),
{
    if edges.len() > 0 {
        lemma_degree_le(edges.drop_last(), id);
    }
}

/// The total weight of a prefix is at most that of the whole.
pub proof fn lemma_total_weight_prefix(edges: Seq<Edge>, i: int)
    requires
        0 <= i <= edges.len(),
    ensures
        total_weight(edges.take(i)) <= total_weight(edges),
    decreases edges.len() - i,
{
    if i < edges.len() {
        lemma_total_weight_prefix(edges, i + 1);
        assert(edges.take(i + 1).drop_last() =~= edges.take(i));
    } else {
        assert(edges.take(i) =~= edges);
    }
}

/// The stored value for `k`, or -1.
pub open spec fn stored_index(m: Map<Seq<char>, usize>, k: Seq<char>) -> int {
    if m.contains_key(k) {
        m[k] as int
    } else {
        -1
    }
}

/// The stored positions for `k`, or none.
pub open spec fn stored_positions(m: Map<Seq<char>, Vec<usize>>, k: Seq<char>) -> Seq<usize> {
    if m.contains_key(k) {
        m[k]@
    } else {
        Seq::empty()
    }
}

/// The stored count for `k`, or 0.
pub open spec fn stored_count(m: Map<Seq<char>, usize>, k: Seq<char>) -> nat {
    if m.contains_key(k) {
        m[k] as nat
    } else {
        0
    }
}

/// Lookup tables built once over a graph.
pub struct QueryIndex<'a> {
    pub graph: &'a CodeGraph,
    nodes_by_id: StringHashMap<usize>,
    outbound: StringHashMap<Vec<usize>>,
    inbound: StringHashMap<Vec<usize>>,
    degree: StringHashMap<usize>,
    no_edges: Vec<usize>,
}

impl<'a> QueryIndex<'a> {
    /// The graph the tables were built over.
    pub closed spec fn graph_ref(&self) -> &'a CodeGraph {
        self.graph
    }

    /// The graph's nodes.
    pub closed spec fn node_seq(&self) -> Seq<Node> {
        self.graph.nodes@
    }

    /// The graph's edges.
    pub closed spec fn edge_seq(&self) -> Seq<Edge> {
        self.graph.edges@
    }

    /// The tables agree with `graph`.
    pub closed spec fn wf(&self) -> bool {
        let nodes = self.graph.nodes@;
        let edges = self.graph.edges@;
        &&& forall|k: Seq<char>|
            stored_index(self.nodes_by_id@, k) == #[trigger] last_with_id(nodes, k)
        &&& forall|k: Seq<char>|
            stored_positions(self.outbound@, k) == #[trigger] positions_at(edges, k, true)
        &&& forall|k: Seq<char>|
            stored_positions(self.inbound@, k) == #[trigger] positions_at(edges, k, false)
        &&& forall|k: Seq<char>| stored_count(self.degree@, k) == #[trigger] degree_at(edges, k)
        &&& self.no_edges@.len() == 0
    }

    /// Build the tables. Degrees are sums of edge weights, so the doubled
    /// total weight must fit in a `usize`.
    pub fn new(graph: &'a CodeGraph) -> (r: Self)
        requires
            2 * total_weight(graph.edges@) <= usize::MAX,
        ensures
            r.wf(),
            r.graph_ref() == graph,
            r.node_seq() == graph.nodes@,
            r.edge_seq() == graph.edges@,
    {
        let mut nodes_by_id: StringHashMap<usize> = StringHashMap::new();
        let mut outbound: StringHashMap<Vec<usize>> = StringHashMap::new();
        let mut inbound: StringHashMap<Vec<usize>> = StringHashMap::new();
        let mut degree: StringHashMap<usize> = StringHashMap::new();
        let nodes = &graph.nodes;
        let edges = &graph.edges;
        let mut i: usize = 0;
        while i < nodes.len()
            invariant
                0 <= i <= nodes.len(),
                forall|k: Seq<char>|
                    stored_index(nodes_by_id@, k) == #[trigger] last_with_id(
                        nodes@.take(i as int),
                        k,
                    ),
            decreases nodes.len() - i,
        {
            let ghost before = nodes_by_id@;
            nodes_by_id.insert(owned(nodes[i].id.as_str()), i);
            proof {
                let t = nodes@.take(i + 1);
                assert(t.drop_last() =~= nodes@.take(i as int));
                assert(t.last() == nodes@[i as int]);
                assert forall|k: Seq<char>|
                    stored_index(nodes_by_id@, k) == #[trigger] last_with_id(t, k) by {
                    if k != nodes@[i as int].id@ {
                        assert(stored_index(nodes_by_id@, k) == stored_index(before, k));
                        assert(last_with_id(t, k) == last_with_id(t.drop_last(), k));
                        assert(last_with_id(t.drop_last(), k) == last_with_id(nodes@.take(i as int), k));
                    } else {
                        assert(stored_index(nodes_by_id@, k) == i);
                        assert(last_with_id(t, k) == i);
                    }
                }
            }
            i = i + 1;
        }
        assert(nodes@.take(nodes.len() as int) =~= nodes@);
        let mut j: usize = 0;
        while j < edges.len()
            invariant
                0 <= j <= edges.len(),
                2 * total_weight(edges@) <= usize::MAX,
                forall|k: Seq<char>|
                    stored_positions(outbound@, k) == #[trigger] positions_at(
                        edges@.take(j as int),
                        k,
                        true,
                    ),
                forall|k: Seq<char>|
                    stored_positions(inbound@, k) == #[trigger] positions_at(
                        edges@.take(j as int),
                        k,
                        false,
                    ),
                forall|k: Seq<char>|
                    stored_count(degree@, k) == #[trigger] degree_at(edges@.take(j as int), k),
            decreases edges.len() - j,
        {
            let e = &edges[j];
            let ghost t = edges@.take(j + 1);
            let ghost prev = edges@.take(j as int);
            proof {
                assert(t.drop_last() =~= prev);
                assert(t.last() == edges@[j as int]);
            }
            // outbound
            let ghost out_before = outbound@;
            let mut ps: Vec<usize> = match outbound.get(e.from.as_str()) {
                Some(v) => v.clone(),
                None => Vec::new(),
            };
            assert(ps@ =~= stored_positions(out_before, e.from@));
            ps.push(j);
            outbound.insert(owned(e.from.as_str()), ps);
            proof {
                assert forall|k: Seq<char>|
                    stored_positions(outbound@, k) == #[trigger] positions_at(t, k, true) by {
                    assert(endpoint(t.last(), true) == e.from@);
                    if k != e.from@ {
                        assert(stored_positions(outbound@, k) == stored_positions(out_before, k));
                        assert(positions_at(t, k, true) == positions_at(prev, k, true));
                    } else {
                        assert(positions_at(t, k, true) == positions_at(prev, k, true).push(j));
                    }
                }
            }
            // inbound
            let ghost in_before = inbound@;
            let mut qs: Vec<usize> = match inbound.get(e.to.as_str()) {
                Some(v) => v.clone(),
                None => Vec::new(),
            };
            assert(qs@ =~= stored_positions(in_before, e.to@));
            qs.push(j);
            inbound.insert(owned(e.to.as_str()), qs);
            proof {
                assert forall|k: Seq<char>|
                    stored_positions(inbound@, k) == #[trigger] positions_at(t, k, false) by {
                    assert(endpoint(t.last(), false) == e.to@);
                    if k != e.to@ {
                        assert(stored_positions(inbound@, k) == stored_positions(in_before, k));
                        assert(positions_at(t, k, false) == positions_at(prev, k, false));
                    } else {
                        assert(positions_at(t, k, false) == positions_at(prev, k, false).push(j));
                    }
                }
            }
            // degree
            proof {
                lemma_degree_le(t, e.from@);
                lemma_degree_le(t, e.to@);
                lemma_total_weight_prefix(edges@, j + 1);
            }
            let ghost deg_before = degree@;
            let d_from: usize = match degree.get(e.from.as_str()) {
                Some(d) => *d,
                None => 0,
            };
            assert(d_from == degree_at(prev, e.from@));
            assert(degree_at(t, e.from@) == degree_at(prev, e.from@) + (if e.from@ == e.from@ {
                e.weight as nat
            } else {
                0nat
            }) + (if e.to@ == e.from@ {
                e.weight as nat
            } else {
                0nat
            }));
            assert(d_from + e.weight <= degree_at(t, e.from@));
            degree.insert(owned(e.from.as_str()), d_from + e.weight);
            let ghost deg_mid = degree@;
            let d_to: usize = match degree.get(e.to.as_str()) {
                Some(d) => *d,
                None => 0,
            };
            assert(degree_at(t, e.to@) == degree_at(prev, e.to@) + (if e.from@ == e.to@ {
                e.weight as nat
            } else {
                0nat
            }) + (if e.to@ == e.to@ {
                e.weight as nat
            } else {
                0nat
            }));
            proof {
                if e.to@ == e.from@ {
                    assert(d_to == d_from + e.weight);
                } else {
                    assert(d_to == degree_at(prev, e.to@));
                }
            }
            assert(d_to + e.weight <= degree_at(t, e.to@));
            degree.insert(owned(e.to.as_str()), d_to + e.weight);
            proof {
                assert forall|k: Seq<char>|
                    stored_count(degree@, k) == #[trigger] degree_at(t, k) by {
            assert(degree_at(t, k) == degree_at(prev, k) + (if e.from@ == k {
                        e.weight as nat
                    } else {
                        0nat
                    }) + (if e.to@ == k {
                        e.weight as nat
                    } else {
                        0nat
                    }));
                    if k != e.from@ && k != e.to@ {
                        assert(stored_count(degree@, k) == stored_count(deg_before, k));
                    } else if k == e.to@ {
                        assert(stored_count(degree@, k) == d_to + e.weight);
                    } else {
                        assert(stored_count(degree@, k) == d_from + e.weight);
                    }
                }
            }
            j = j + 1;
        }
        assert(edges@.take(edges.len() as int) =~= edges@);
        QueryIndex { graph, nodes_by_id, outbound, inbound, degree, no_edges: Vec::new() }
    }

    /// The graph the tables were built over.
    pub fn graph(&self) -> (g: &'a CodeGraph)
        ensures
            g == self.graph_ref(),
            g.nodes@ == self.node_seq(),
            g.edges@ == self.edge_seq(),
    {
        self.graph
    }

    /// Positions of the edges leaving (`outbound`) or entering `id`, in
    /// graph order.
    pub fn edges(&self, id: &str, outbound: bool) -> (r: &[usize])
        requires
            self.wf(),
        ensures
            r@ == positions_at(self.edge_seq(), id@, outbound),
    {
        let found = if outbound {
            self.outbound.get(id)
        } else {
            self.inbound.get(id)
        };
        match found {
            Some(v) => v.as_slice(),
            None => self.no_edges.as_slice(),
        }
    }

    /// The last node whose id is `id`.
    pub fn node(&self, id: &str) -> (r: Option<&'a Node>)
        requires
            self.wf(),
        ensures
            match r {
                Some(n) => {
                    let i = last_with_id(self.node_seq(), id@);
                    &&& 0 <= i < self.node_seq().len()
                    &&& *n == self.node_seq()[i]
                },
                None => last_with_id(self.node_seq(), id@) < 0,
            },
    {
        proof {
            lemma_last_with_id(self.graph.nodes@, id@);
        }
        match self.nodes_by_id.get(id) {
            Some(i) => Some(&self.graph.nodes[*i]),
            None => None,
        }
    }

    /// The position of the last node whose id is `id`.
    pub fn node_index(&self, id: &str) -> (r: Option<usize>)
        requires
            self.wf(),
        ensures
            match r {
                Some(i) => i as int == last_with_id(self.node_seq(), id@) && i < self.node_seq().len(),
                None => last_with_id(self.node_seq(), id@) < 0,
            },
    {
        proof {
            lemma_last_with_id(self.graph.nodes@, id@);
        }
        match self.nodes_by_id.get(id) {
            Some(i) => Some(*i),
            None => None,
        }
    }

    /// The weighted degree of `id`.
    pub fn degree(&self, id: &str) -> (r: usize)
        requires
            self.wf(),
        ensures
            r == degree_at(self.edge_seq(), id@),
    {
        match self.degree.get(id) {
            Some(d) => *d,
            None => 0,
        }
    }
}

/// `last_with_id` is -1 or the index of a node with that id, after which no
/// node has it.
pub proof fn lemma_last_with_id(nodes: Seq<Node>, id: Seq<char>)
    ensures
        -1 <= last_with_id(nodes, id) < nodes.len(),
        last_with_id(nodes, id) >= 0 ==> nodes[last_with_id(nodes, id)].id@ == id,
        forall|j: int|
            last_with_id(nodes, id) < j < nodes.len() ==> (#[trigger] nodes[j]).id@ != id,
    decreases nodes.len(),
{
    if nodes.len() > 0 {
        lemma_last_with_id(nodes.drop_last(), id);
        if nodes.last().id@ != id {
            assert forall|j: int|
                last_with_id(nodes, id) < j < nodes.len() implies (#[trigger] nodes[j]).id@ != id by {
                if j < nodes.len() - 1 {
                    assert(nodes.drop_last()[j] == nodes[j]);
                }
            }
        }
    }
}

} // verus!
