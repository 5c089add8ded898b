//! Index quality: how much of a graph is definite, documented and typed,
//! counted; the ratios and the score are computed from these counts.

use vstd::prelude::*;
use crate::model::{CodeGraph, Edge, EdgeCertainty, Node, NodeKind, views};
use crate::query::filter::distinct_count;
use crate::text::{is_blank, owned, str_eq, trim_spec};

verus! {

/// Whether a node is a symbol: neither a file nor the project.
pub open spec fn is_symbol_node(n: Node) -> bool {
    n.kind != NodeKind::File && n.kind != NodeKind::Project
}

/// Whether an optional text holds something other than white space.
pub open spec fn filled(t: Option<String>) -> bool {
    t matches Some(s) && trim_spec(s@).len() > 0
}

/// Counts over the first `k` nodes: files, symbols, documented symbols,
/// symbols with a signature.
pub open spec fn node_counts(nodes: Seq<Node>, k: int) -> (nat, nat, nat, nat)
    decreases k,
{
    if k <= 0 || k > nodes.len() {
        (0, 0, 0, 0)
    } else {
        let (f, s, d, g) = node_counts(nodes, k - 1);
        let n = nodes[k - 1];
        let sym = is_symbol_node(n);
        (
            f + if n.kind == NodeKind::File {
                1nat
            } else {
                0nat
            },
            s + if sym {
                1nat
            } else {
                0nat
            },
            d + if sym && filled(n.docs) {
                1nat
            } else {
                0nat
            },
            g + if sym && filled(n.signature) {
                1nat
            } else {
                0nat
            },
        )
    }
}

/// The files of the first `k` symbols that have one, with repeats.
pub open spec fn symbol_file_list(nodes: Seq<Node>, k: int) -> Seq<Seq<char>>
    decreases k,
{
    if k <= 0 || k > nodes.len() {
        Seq::empty()
    } else {
        let prev = symbol_file_list(nodes, k - 1);
        let n = nodes[k - 1];
        if is_symbol_node(n) && n.file is Some {
            prev.push(n.file->0@)
        } else {
            prev
        }
    }
}

/// The number of the first `k` edges that are definite.
pub open spec fn definite_count(edges: Seq<Edge>, k: int) -> nat
    decreases k,
{
    if k <= 0 || k > edges.len() {
        0
    } else {
        definite_count(edges, k - 1) + if edges[k - 1].certainty == EdgeCertainty::Definite {
            1nat
        } else {
            0nat
        }
    }
}

proof fn lemma_node_counts_le(nodes: Seq<Node>, k: int)
    requires
        0 <= k <= nodes.len(),
    ensures
        node_counts(nodes, k).0 <= k,
        node_counts(nodes, k).1 <= k,
        node_counts(nodes, k).2 <= k,
        node_counts(nodes, k).3 <= k,
    decreases k,
{
    if k > 0 {
        lemma_node_counts_le(nodes, k - 1);
    }
}

proof fn lemma_definite_le(edges: Seq<Edge>, k: int)
    requires
        0 <= k <= edges.len(),
    ensures
        definite_count(edges, k) <= k,
    decreases k,
{
    if k > 0 {
        lemma_definite_le(edges, k - 1);
    }
}

proof fn lemma_distinct_count_le(s: Seq<Seq<char>>)
    ensures
        distinct_count(s) <= s.len(),
    decreases s.len(),
{
    if s.len() > 0 {
        lemma_distinct_count_le(s.drop_last());
    }
}

/// The counts behind the quality score.
pub struct QualityCounts {
    pub total_nodes: usize,
    pub total_edges: usize,
    pub definite_edges: usize,
    pub files_indexed: usize,
    pub files_with_symbols: usize,
    pub symbol_nodes: usize,
    pub nodes_with_docs: usize,
    pub nodes_with_signature: usize,
}

fn holds(v: &Vec<String>, s: &str) -> (r: bool)
    ensures
        r == views(v@).contains(s@),
{
    let mut i: usize = 0;
    while i < v.len()
        invariant
            i <= v@.len(),
            forall|k: int| 0 <= k < i ==> views(v@)[k] != s@,
        decreases v@.len() - i,
    {
        if str_eq(v[i].as_str(), s) {
            assert(views(v@)[i as int] == s@);
            return true;
        }
        i = i + 1;
    }
    false
}

/// Count a graph's edges, definite edges, file nodes, symbols, the
/// distinct files that hold symbols, and the symbols with documentation
/// and with a signature (not blank).
pub fn quality(graph: &CodeGraph) -> (r: QualityCounts)
    ensures
        ({
            let nodes = graph.nodes@;
            let c = node_counts(nodes, nodes.len() as int);
            &&& r.total_nodes == nodes.len()
            &&& r.total_edges == graph.edges@.len()
            &&& r.definite_edges == definite_count(graph.edges@, graph.edges@.len() as int)
            &&& r.files_indexed == c.0
            &&& r.symbol_nodes == c.1
            &&& r.nodes_with_docs == c.2
            &&& r.nodes_with_signature == c.3
            &&& r.files_with_symbols == distinct_count(symbol_file_list(nodes, nodes.len() as int))
        }),
{
    let ghost nodes = graph.nodes@;
    let ghost edges = graph.edges@;
    let mut definite: usize = 0;
    let mut e: usize = 0;
    while e < graph.edges.len()
        invariant
            e <= edges.len(),
            edges == graph.edges@,
            definite == definite_count(edges, e as int),
        decreases edges.len() - e,
    {
        proof {
            lemma_definite_le(edges, e as int);
        }
        if graph.edges[e].certainty == EdgeCertainty::Definite {
            definite = definite + 1;
        }
        e = e + 1;
    }
    let mut files_indexed: usize = 0;
    let mut symbols: usize = 0;
    let mut docs: usize = 0;
    let mut sigs: usize = 0;
    let mut seen: Vec<String> = Vec::new();
    let mut i: usize = 0;
    while i < graph.nodes.len()
        invariant
            i <= nodes.len(),
            nodes == graph.nodes@,
            node_counts(nodes, i as int) == (files_indexed as nat, symbols as nat, docs as nat, sigs as nat),
            seen@.len() == distinct_count(symbol_file_list(nodes, i as int)),
            forall|x: Seq<char>| #[trigger] views(seen@).contains(x) == symbol_file_list(nodes, i as int).contains(x),
        decreases nodes.len() - i,
    {
        proof {
            lemma_node_counts_le(nodes, i as int);
            lemma_distinct_count_le(symbol_file_list(nodes, i as int));
        }
        let n = &graph.nodes[i];
        let ghost prev_list = symbol_file_list(nodes, i as int);
        if n.kind == NodeKind::File {
            files_indexed = files_indexed + 1;
        }
        let sym = match n.kind {
            NodeKind::File | NodeKind::Project => false,
            _ => true,
        };
        if sym {
            symbols = symbols + 1;
            let has_docs = match &n.docs {
                Some(d) => !is_blank(d.as_str()),
                None => false,
            };
            if has_docs {
                docs = docs + 1;
            }
            let has_sig = match &n.signature {
                Some(g) => !is_blank(g.as_str()),
                None => false,
            };
            if has_sig {
                sigs = sigs + 1;
            }
            match &n.file {
                Some(f) => {
                    let ghost next_list = symbol_file_list(nodes, i + 1);
                    assert(next_list.drop_last() =~= prev_list);
                    if !holds(&seen, f.as_str()) {
                        let ghost sv = views(seen@);
                        seen.push(owned(f.as_str()));
                        assert(views(seen@) =~= sv.push(f@));
                        assert forall|x: Seq<char>| #[trigger] views(seen@).contains(x) == next_list.contains(x) by {
                            if x == f@ {
                                assert(views(seen@)[sv.len() as int] == x);
                                assert(next_list[prev_list.len() as int] == x);
                            }
                            if views(seen@).contains(x) {
                                let t = choose|t: int| 0 <= t < views(seen@).len() && views(seen@)[t] == x;
                                if t < sv.len() {
                                    assert(sv[t] == x);
                                    assert(sv.contains(x));
                                    assert(prev_list.contains(x));
                                    let w = choose|w: int| 0 <= w < prev_list.len() && prev_list[w] == x;
                                    assert(next_list[w] == x);
                                }
                            }
                            if next_list.contains(x) {
                                let w = choose|w: int| 0 <= w < next_list.len() && next_list[w] == x;
                                if w < prev_list.len() {
                                    assert(prev_list[w] == x);
                                    assert(sv.contains(x));
                                    let t = choose|t: int| 0 <= t < sv.len() && sv[t] == x;
                                    assert(views(seen@)[t] == x);
                                }
                            }
                        }
                    } else {
                        assert forall|x: Seq<char>| #[trigger] views(seen@).contains(x) == next_list.contains(x) by {
                            if next_list.contains(x) {
                                let w = choose|w: int| 0 <= w < next_list.len() && next_list[w] == x;
                                if w < prev_list.len() {
                                    assert(prev_list[w] == x);
                                }
                            }
                            if prev_list.contains(x) {
                                let w = choose|w: int| 0 <= w < prev_list.len() && prev_list[w] == x;
                                assert(next_list[w] == x);
                            }
                        }
                    }
                },
                None => {},
            }
        }
        i = i + 1;
    }
    QualityCounts {
        total_nodes: graph.nodes.len(),
        total_edges: graph.edges.len(),
        definite_edges: definite,
        files_indexed,
        files_with_symbols: seen.len(),
        symbol_nodes: symbols,
        nodes_with_docs: docs,
        nodes_with_signature: sigs,
    }
}

} // verus!
