//! File fan-in and fan-out: how many edges enter and leave each file from
//! other files.

use vstd::prelude::*;
use vstd::hash_map::StringHashMap;
use crate::model::{CodeGraph, Edge, Node, NodeKind};
use crate::sorting::{by_key_desc, min_count, sorted_positions, top_desc};
use crate::text::{owned, str_eq};

verus! {

/// The id of the first file node named `file`, among nodes `i..`.
pub open spec fn file_node_from(nodes: Seq<Node>, file: Seq<char>, i: int) -> Option<Seq<char>>
    decreases nodes.len() - i,
{
    if i < 0 || i >= nodes.len() {
        None
    } else if nodes[i].kind == NodeKind::File && nodes[i].name@ == file {
        Some(nodes[i].id@)
    } else {
        file_node_from(nodes, file, i + 1)
    }
}

/// The file node that owns node `n`: the first file node named as its
/// file.
pub open spec fn owner(nodes: Seq<Node>, n: Node) -> Option<Seq<char>> {
    match n.file {
        Some(f) => file_node_from(nodes, f@, 0),
        None => None,
    }
}

/// Node ids to the ids of their owning file nodes, over the first `k`
/// nodes; a later node with the same id wins.
pub open spec fn owner_map(nodes: Seq<Node>, k: int) -> Map<Seq<char>, Seq<char>>
    decreases k,
{
    if k <= 0 || k > nodes.len() {
        Map::empty()
    } else {
        let prev = owner_map(nodes, k - 1);
        match owner(nodes, nodes[k - 1]) {
            Some(f) => prev.insert(nodes[k - 1].id@, f),
            None => prev,
        }
    }
}

proof fn lemma_step(
    before: Map<Seq<char>, String>,
    after: Map<Seq<char>, String>,
    prev: Map<Seq<char>, Seq<char>>,
    next: Map<Seq<char>, Seq<char>>,
    k: Seq<char>,
    v: Seq<char>,
    id: Seq<char>,
)
    requires
        after.contains_key(k),
        after == before.insert(k, after[k]),
        after[k]@ == v,
        next == prev.insert(k, v),
        before.contains_key(id) == prev.contains_key(id),
        before.contains_key(id) ==> before[id]@ == prev[id],
    ensures
        after.contains_key(id) == next.contains_key(id),
        after.contains_key(id) ==> after[id]@ == next[id],
{
}

/// The owning file of an id, if the map has one.
pub open spec fn file_of(m: Map<Seq<char>, Seq<char>>, id: Seq<char>) -> Option<Seq<char>> {
    if m.contains_key(id) {
        Some(m[id])
    } else {
        None
    }
}

/// How many of the first `k` edges enter file `f` from elsewhere (or from
/// no file), and how many leave it.
pub open spec fn file_flows(edges: Seq<Edge>, m: Map<Seq<char>, Seq<char>>, f: Seq<char>, k: int) -> (nat, nat)
    decreases k,
{
    if k <= 0 || k > edges.len() {
        (0, 0)
    } else {
        let (fi, fo) = file_flows(edges, m, f, k - 1);
        let from = file_of(m, edges[k - 1].from@);
        let to = file_of(m, edges[k - 1].to@);
        (
            fi + if to == Some(f) && from != Some(f) {
                1nat
            } else {
                0nat
            },
            fo + if from == Some(f) && to != Some(f) {
                1nat
            } else {
                0nat
            },
        )
    }
}

proof fn lemma_flows_le(edges: Seq<Edge>, m: Map<Seq<char>, Seq<char>>, f: Seq<char>, k: int)
    requires
        0 <= k <= edges.len(),
    ensures
        file_flows(edges, m, f, k).0 <= k,
        file_flows(edges, m, f, k).1 <= k,
    decreases k,
{
    if k > 0 {
        lemma_flows_le(edges, m, f, k - 1);
    }
}

/// Positions, in order, of the file nodes among the first `k`.
pub open spec fn file_positions(nodes: Seq<Node>, k: int) -> Seq<int>
    decreases k,
{
    if k <= 0 || k > nodes.len() {
        Seq::empty()
    } else {
        let prev = file_positions(nodes, k - 1);
        if nodes[k - 1].kind == NodeKind::File {
            prev.push(k - 1)
        } else {
            prev
        }
    }
}

proof fn lemma_file_positions_bound(nodes: Seq<Node>, k: int)
    requires
        0 <= k <= nodes.len(),
    ensures
        file_positions(nodes, k).len() <= k,
        forall|t: int| 0 <= t < file_positions(nodes, k).len() ==> 0 <= #[trigger] file_positions(nodes, k)[t] < k,
    decreases k,
{
    if k > 0 {
        lemma_file_positions_bound(nodes, k - 1);
    }
}

/// A file's flows: its node's position, fan-in, fan-out and their sum.
pub struct FanoutItem {
    pub file: usize,
    pub fanin: usize,
    pub fanout: usize,
    pub total: usize,
}

fn owner_of(graph: &CodeGraph, n: &Node) -> (r: Option<String>)
    ensures
        match owner(graph.nodes@, *n) {
            Some(f) => r matches Some(s) && s@ == f,
            None => r is None,
        },
{
    match &n.file {
        None => None,
        Some(f) => {
            let mut i: usize = 0;
            while i < graph.nodes.len()
                invariant
                    i <= graph.nodes@.len(),
                    owner(graph.nodes@, *n) == file_node_from(graph.nodes@, f@, 0),
                    file_node_from(graph.nodes@, f@, 0) == file_node_from(graph.nodes@, f@, i as int),
                decreases graph.nodes@.len() - i,
            {
                let c = &graph.nodes[i];
                if c.kind == NodeKind::File && str_eq(c.name.as_str(), f.as_str()) {
                    return Some(owned(c.id.as_str()));
                }
                i = i + 1;
            }
            None
        },
    }
}

/// The files of a graph by how many edges cross their boundary: for each
/// file node its fan-in (edges into it from other files or from nodes in
/// no file) and fan-out, the largest sums first (graph order on a tie),
/// the first `limit` of them.
pub fn fanout(graph: &CodeGraph, limit: usize) -> (r: Vec<FanoutItem>)
    requires
        2 * graph.edges@.len() <= usize::MAX,
    ensures
        ({
            let nodes = graph.nodes@;
            let edges = graph.edges@;
            let m = owner_map(nodes, nodes.len() as int);
            let fs = file_positions(nodes, nodes.len() as int);
            let totals = Seq::new(
                fs.len(),
                |k: int| {
                    let fl = file_flows(edges, m, nodes[fs[k]].id@, edges.len() as int);
                    (fl.0 + fl.1) as usize
                },
            );
            exists|order: Seq<usize>|
                {
                    &&& sorted_positions(order, fs.len() as int, by_key_desc(totals))
                    &&& r@.len() == min_count(fs.len(), limit as nat)
                    &&& forall|k: int|
                        0 <= k < r@.len() ==> {
                            let p = fs[order[k] as int];
                            let fl = file_flows(edges, m, nodes[p].id@, edges.len() as int);
                            &&& (#[trigger] r@[k]).file as int == p
                            &&& r@[k].fanin == fl.0
                            &&& r@[k].fanout == fl.1
                            &&& r@[k].total == fl.0 + fl.1
                        }
                }
        }),
{
    let ghost nodes = graph.nodes@;
    let ghost edges = graph.edges@;
    // node id -> owning file node id
    let mut owners: StringHashMap<String> = StringHashMap::new();
    let mut i: usize = 0;
    while i < graph.nodes.len()
        invariant
            i <= nodes.len(),
            nodes == graph.nodes@,
            forall|id: Seq<char>|
                #![trigger owner_map(nodes, i as int).contains_key(id)]
                owners@.contains_key(id) == owner_map(nodes, i as int).contains_key(id) && (owners@.contains_key(id) ==> owners@[id]@ == owner_map(nodes, i as int)[id]),
        decreases nodes.len() - i,
    {
        let n = &graph.nodes[i];
        let ghost before = owners@;
        let ghost prev = owner_map(nodes, i as int);
        let ghost next = owner_map(nodes, i + 1);
        assert(*n == nodes[i as int]);
        match owner_of(graph, n) {
            Some(f) => {
                let ghost fv = f@;
                owners.insert(owned(n.id.as_str()), f);
                proof {
                    assert(next == prev.insert(n.id@, fv));
                    assert(owners@ == before.insert(n.id@, owners@[n.id@]));
                    assert(owners@[n.id@]@ == fv);
                    assert forall|id: Seq<char>| #![trigger owner_map(nodes, i + 1).contains_key(id)]
                        owners@.contains_key(id) == owner_map(nodes, i + 1).contains_key(id) && (owners@.contains_key(id) ==> owners@[id]@ == owner_map(nodes, i + 1)[id]) by {
                        lemma_step(before, owners@, prev, next, n.id@, fv, id);
                    }
                }
            },
            None => {
                proof {
                    assert(next == prev);
                    assert forall|id: Seq<char>| #![trigger owner_map(nodes, i + 1).contains_key(id)]
                        owners@.contains_key(id) == owner_map(nodes, i + 1).contains_key(id) && (owners@.contains_key(id) ==> owners@[id]@ == owner_map(nodes, i + 1)[id]) by {
                        assert(owner_map(nodes, i as int).contains_key(id) == prev.contains_key(id));
                    }
                }
            },
        }
        i = i + 1;
    }
    let ghost m = owner_map(nodes, nodes.len() as int);
    // flows per file id
    let mut fanin: StringHashMap<usize> = StringHashMap::new();
    let mut fanout_m: StringHashMap<usize> = StringHashMap::new();
    let mut e: usize = 0;
    while e < graph.edges.len()
        invariant
            e <= edges.len(),
            edges == graph.edges@,
            2 * edges.len() <= usize::MAX,
            forall|id: Seq<char>|
                #![trigger m.contains_key(id)]
                owners@.contains_key(id) == m.contains_key(id) && (owners@.contains_key(id) ==> owners@[id]@ == m[id]),
            forall|f: Seq<char>|
                #![trigger file_flows(edges, m, f, e as int)]
                (if fanin@.contains_key(f) { fanin@[f] as nat } else { 0nat }) == file_flows(edges, m, f, e as int).0
                && (if fanout_m@.contains_key(f) { fanout_m@[f] as nat } else { 0nat }) == file_flows(edges, m, f, e as int).1,
        decreases edges.len() - e,
    {
        let edge = &graph.edges[e];
        assert(m.contains_key(edge.from@) == m.contains_key(edge.from@));
        assert(m.contains_key(edge.to@) == m.contains_key(edge.to@));
        let from: Option<String> = match owners.get(edge.from.as_str()) {
            Some(f) => Some(owned(f.as_str())),
            None => None,
        };
        let to: Option<String> = match owners.get(edge.to.as_str()) {
            Some(t) => Some(owned(t.as_str())),
            None => None,
        };
        let ghost fv = crate::analyzer::builder::opt_view(from);
        let ghost tv = crate::analyzer::builder::opt_view(to);
        assert(fv == file_of(m, edge.from@));
        assert(tv == file_of(m, edge.to@));
        let same = match (&from, &to) {
            (Some(a), Some(b)) => str_eq(a.as_str(), b.as_str()),
            _ => false,
        };
        let ghost fin0 = fanin@;
        let ghost fout0 = fanout_m@;
        proof {
            lemma_flows_le(edges, m, fv.unwrap_or(Seq::empty()), e as int);
            lemma_flows_le(edges, m, tv.unwrap_or(Seq::empty()), e as int);
        }
        if !same {
            match &from {
                Some(a) => {
                    let c: usize = match fanout_m.get(a.as_str()) {
                        Some(c) => *c,
                        None => 0,
                    };
                    assert(c as nat == file_flows(edges, m, a@, e as int).1);
                    fanout_m.insert(owned(a.as_str()), c + 1);
                },
                None => {},
            }
            match &to {
                Some(b) => {
                    let c: usize = match fanin.get(b.as_str()) {
                        Some(c) => *c,
                        None => 0,
                    };
                    assert(c as nat == file_flows(edges, m, b@, e as int).0);
                    fanin.insert(owned(b.as_str()), c + 1);
                },
                None => {},
            }
        }
        proof {
            assert forall|f: Seq<char>| #![trigger file_flows(edges, m, f, e + 1)]
                (if fanin@.contains_key(f) { fanin@[f] as nat } else { 0nat }) == file_flows(edges, m, f, e + 1).0
                && (if fanout_m@.contains_key(f) { fanout_m@[f] as nat } else { 0nat }) == file_flows(edges, m, f, e + 1).1 by {
                assert(file_flows(edges, m, f, e as int) == file_flows(edges, m, f, e as int));
            }
        }
        e = e + 1;
    }
    // the file nodes with their flows
    let mut pos: Vec<usize> = Vec::new();
    let mut ins: Vec<usize> = Vec::new();
    let mut outs: Vec<usize> = Vec::new();
    let mut totals: Vec<usize> = Vec::new();
    let mut j: usize = 0;
    while j < graph.nodes.len()
        invariant
            j <= nodes.len(),
            nodes == graph.nodes@,
            edges == graph.edges@,
            2 * edges.len() <= usize::MAX,
            forall|f: Seq<char>|
                #![trigger file_flows(edges, m, f, edges.len() as int)]
                (if fanin@.contains_key(f) { fanin@[f] as nat } else { 0nat }) == file_flows(edges, m, f, edges.len() as int).0
                && (if fanout_m@.contains_key(f) { fanout_m@[f] as nat } else { 0nat }) == file_flows(edges, m, f, edges.len() as int).1,
            pos@.len() == file_positions(nodes, j as int).len(),
            forall|k: int| 0 <= k < pos@.len() ==> #[trigger] pos@[k] as int == file_positions(nodes, j as int)[k],
            ins@.len() == pos@.len(),
            outs@.len() == pos@.len(),
            totals@.len() == pos@.len(),
            forall|k: int| 0 <= k < pos@.len() ==> #[trigger] ins@[k] == file_flows(edges, m, nodes[pos@[k] as int].id@, edges.len() as int).0,
            forall|k: int| 0 <= k < pos@.len() ==> #[trigger] outs@[k] == file_flows(edges, m, nodes[pos@[k] as int].id@, edges.len() as int).1,
            forall|k: int| 0 <= k < pos@.len() ==> #[trigger] totals@[k] == file_flows(edges, m, nodes[pos@[k] as int].id@, edges.len() as int).0
                + file_flows(edges, m, nodes[pos@[k] as int].id@, edges.len() as int).1,
        decreases nodes.len() - j,
    {
        let n = &graph.nodes[j];
        if n.kind == NodeKind::File {
            let ghost fl = file_flows(edges, m, n.id@, edges.len() as int);
            proof {
                lemma_flows_le(edges, m, n.id@, edges.len() as int);
            }
            let fi: usize = match fanin.get(n.id.as_str()) {
                Some(c) => *c,
                None => 0,
            };
            let fo: usize = match fanout_m.get(n.id.as_str()) {
                Some(c) => *c,
                None => 0,
            };
            assert(fi == fl.0 && fo == fl.1);
            pos.push(j);
            ins.push(fi);
            outs.push(fo);
            totals.push(fi + fo);
        }
        j = j + 1;
    }
    let ghost fs = file_positions(nodes, nodes.len() as int);
    proof {
        lemma_file_positions_bound(nodes, nodes.len() as int);
    }
    let order = top_desc(&totals, limit);
    let ghost o = choose|o: Seq<usize>|
        sorted_positions(o, totals@.len() as int, by_key_desc(totals@)) && order@ == o.take(
            min_count(totals@.len(), limit as nat) as int,
        );
    let mut r: Vec<FanoutItem> = Vec::new();
    let mut k: usize = 0;
    while k < order.len()
        invariant
            k <= order@.len(),
            order@ == o.take(min_count(totals@.len(), limit as nat) as int),
            sorted_positions(o, totals@.len() as int, by_key_desc(totals@)),
            pos@.len() == fs.len(),
            ins@.len() == fs.len(),
            outs@.len() == fs.len(),
            totals@.len() == fs.len(),
            forall|t: int| 0 <= t < fs.len() ==> #[trigger] pos@[t] as int == fs[t],
            forall|k: int| 0 <= k < fs.len() ==> #[trigger] ins@[k] == file_flows(edges, m, nodes[pos@[k] as int].id@, edges.len() as int).0,
            forall|k: int| 0 <= k < fs.len() ==> #[trigger] outs@[k] == file_flows(edges, m, nodes[pos@[k] as int].id@, edges.len() as int).1,
            forall|k: int| 0 <= k < fs.len() ==> #[trigger] totals@[k] == file_flows(edges, m, nodes[pos@[k] as int].id@, edges.len() as int).0
                + file_flows(edges, m, nodes[pos@[k] as int].id@, edges.len() as int).1,
            r@.len() == k,
            forall|t: int|
                0 <= t < k ==> {
                    let p = fs[o[t] as int];
                    let fl = file_flows(edges, m, nodes[p].id@, edges.len() as int);
                    &&& (#[trigger] r@[t]).file as int == p
                    &&& r@[t].fanin == fl.0
                    &&& r@[t].fanout == fl.1
                    &&& r@[t].total == fl.0 + fl.1
                },
        decreases order@.len() - k,
    {
        let q = order[k];
        assert(q == o[k as int]);
        assert(ins@[q as int] == ins@[q as int]);
        r.push(FanoutItem { file: pos[q], fanin: ins[q], fanout: outs[q], total: totals[q] });
        k = k + 1;
    }
    proof {
        let tv = Seq::new(
            fs.len(),
            |t: int| {
                let fl = file_flows(edges, m, nodes[fs[t]].id@, edges.len() as int);
                (fl.0 + fl.1) as usize
            },
        );
        assert forall|t: int| 0 <= t < fs.len() implies totals@[t] == tv[t] by {
            assert(totals@[t] == totals@[t]);
            assert(pos@[t] as int == fs[t]);
        }
        assert(totals@ =~= tv);
    }
    r
}

} // verus!
