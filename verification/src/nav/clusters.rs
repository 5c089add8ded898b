//! Directory clusters: the symbols of each directory, how connected they
//! are, and their most connected symbols.

use vstd::prelude::*;
use crate::analyzer::index::{file_name, file_name_of, last_index};
use crate::model::{CodeGraph, Edge, Node, NodeKind, views};
use crate::query::index::{QueryIndex, degree_at, total_weight};
use crate::sorting::{
    by_key_then_name, by_two_keys_then_name, min_count, seq_lt, sort_texts, sorted_positions,
    top_by_two_keys, top_desc_by_name,
};
use crate::text::{chars_of, owned, str_eq, string_from_range};

verus! {

// ---------------------------------------------------------------- keys

/// The directory of a file path: the text before its last `/`; `/` for a
/// file at the root, `.` for a bare file name.
pub open spec fn parent_dir(file: Seq<char>) -> Seq<char> {
    let i = last_index(file, '/');
    if i < 0 {
        "."@
    } else if i == 0 {
        "/"@
    } else {
        file.take(i)
    }
}

fn cluster_key(file: &str) -> (r: String)
    ensures
        r@ == parent_dir(file@),
{
    let c = chars_of(file);
    let mut i: usize = c.len();
    assert(c@.take(c@.len() as int) =~= c@);
    while i > 0 && c[i - 1] != '/'
        invariant
            i <= c@.len(),
            c@ == file@,
            last_index(file@, '/') == last_index(c@.take(i as int), '/'),
        decreases i,
    {
        assert(c@.take(i as int).drop_last() =~= c@.take(i - 1));
        i = i - 1;
    }
    proof {
        reveal_strlit(".");
        reveal_strlit("/");
    }
    if i == 0 {
        assert(c@.take(0) =~= Seq::<char>::empty());
        owned(".")
    } else if i == 1 {
        owned("/")
    } else {
        let r = string_from_range(c.as_slice(), 0, i - 1);
        assert(r@ =~= file@.take(i - 1));
        r
    }
}

/// The name of a cluster: the last component of its directory, or the
/// directory itself when that is empty, `.` or `..`.
pub open spec fn cluster_name_spec(key: Seq<char>) -> Seq<char> {
    let n = file_name_of(key);
    if n.len() == 0 || n == "."@ || n == ".."@ {
        key
    } else {
        n
    }
}

fn cluster_name(key: &str) -> (r: String)
    ensures
        r@ == cluster_name_spec(key@),
{
    let n = file_name(key);
    proof {
        reveal_strlit(".");
        reveal_strlit("..");
    }
    if n.as_str().unicode_len() == 0 || str_eq(n.as_str(), ".") || str_eq(n.as_str(), "..") {
        owned(key)
    } else {
        n
    }
}

// ---------------------------------------------------------------- grouping

/// Whether a node belongs to a cluster: a symbol (not a file or the
/// project) with a file.
pub open spec fn in_cluster(n: Node) -> bool {
    n.kind != NodeKind::File && n.kind != NodeKind::Project && n.file is Some
}

/// The cluster of a node.
pub open spec fn key_of(n: Node) -> Seq<char> {
    parent_dir(n.file->0@)
}

/// The distinct clusters of the first `k` nodes, first seen first.
pub open spec fn cluster_keys(nodes: Seq<Node>, k: int) -> Seq<Seq<char>>
    decreases k,
{
    if k <= 0 || k > nodes.len() {
        Seq::empty()
    } else {
        let prev = cluster_keys(nodes, k - 1);
        let n = nodes[k - 1];
        if in_cluster(n) && !prev.contains(key_of(n)) {
            prev.push(key_of(n))
        } else {
            prev
        }
    }
}

/// The positions of the first `k` nodes in cluster `key`.
pub open spec fn members(nodes: Seq<Node>, key: Seq<char>, k: int) -> Seq<int>
    decreases k,
{
    if k <= 0 || k > nodes.len() {
        Seq::empty()
    } else {
        let prev = members(nodes, key, k - 1);
        let n = nodes[k - 1];
        if in_cluster(n) && key_of(n) == key {
            prev.push(k - 1)
        } else {
            prev
        }
    }
}

/// The distinct files of the first `k` nodes in cluster `key`, first seen
/// first.
pub open spec fn member_files(nodes: Seq<Node>, key: Seq<char>, k: int) -> Seq<Seq<char>>
    decreases k,
{
    if k <= 0 || k > nodes.len() {
        Seq::empty()
    } else {
        let prev = member_files(nodes, key, k - 1);
        let n = nodes[k - 1];
        if in_cluster(n) && key_of(n) == key && !prev.contains(n.file->0@) {
            prev.push(n.file->0@)
        } else {
            prev
        }
    }
}

/// The summed degrees of the first `k` nodes in cluster `key`.
pub open spec fn member_degree(nodes: Seq<Node>, edges: Seq<Edge>, key: Seq<char>, k: int) -> nat
    decreases k,
{
    if k <= 0 || k > nodes.len() {
        0
    } else {
        let n = nodes[k - 1];
        member_degree(nodes, edges, key, k - 1) + if in_cluster(n) && key_of(n) == key {
            degree_at(edges, n.id@)
        } else {
            0
        }
    }
}

/// The summed degrees of the first `k` nodes that belong to a cluster.
pub open spec fn cluster_degree_sum(nodes: Seq<Node>, edges: Seq<Edge>, k: int) -> nat
    decreases k,
{
    if k <= 0 || k > nodes.len() {
        0
    } else {
        let n = nodes[k - 1];
        cluster_degree_sum(nodes, edges, k - 1) + if in_cluster(n) {
            degree_at(edges, n.id@)
        } else {
            0
        }
    }
}

proof fn lemma_cluster_facts(nodes: Seq<Node>, edges: Seq<Edge>, key: Seq<char>, k: int)
    requires
        0 <= k <= nodes.len(),
    ensures
        member_degree(nodes, edges, key, k) <= cluster_degree_sum(nodes, edges, k),
        cluster_keys(nodes, k).no_duplicates(),
        member_files(nodes, key, k).no_duplicates(),
        !cluster_keys(nodes, k).contains(key) ==> members(nodes, key, k).len() == 0 && member_files(
            nodes,
            key,
            k,
        ).len() == 0 && member_degree(nodes, edges, key, k) == 0,
        forall|t: int|
            0 <= t < members(nodes, key, k).len() ==> 0 <= #[trigger] members(nodes, key, k)[t]
                < k,
    decreases k,
{
    if k > 0 {
        lemma_cluster_facts(nodes, edges, key, k - 1);
        let n = nodes[k - 1];
        if in_cluster(n) && !cluster_keys(nodes, k - 1).contains(key_of(n)) {
            assert(cluster_keys(nodes, k).last() == key_of(n));
        }
        if !cluster_keys(nodes, k).contains(key) {
            if in_cluster(n) && key_of(n) == key {
                if cluster_keys(nodes, k - 1).contains(key) {
                    let w = choose|w: int| 0 <= w < cluster_keys(nodes, k - 1).len() && #[trigger] cluster_keys(nodes, k - 1)[w] == key;
                    assert(cluster_keys(nodes, k)[w] == key);
                } else {
                    assert(cluster_keys(nodes, k).last() == key);
                }
            } else {
                if cluster_keys(nodes, k - 1).contains(key) {
                    let w = choose|w: int| 0 <= w < cluster_keys(nodes, k - 1).len() && #[trigger] cluster_keys(nodes, k - 1)[w] == key;
                    assert(cluster_keys(nodes, k)[w] == key);
                }
            }
        }
    }
}

/// A cluster as listed: its name, its files in order, how many symbols it
/// has, their summed degree, and its (up to 5) most connected symbols with
/// their degrees.
pub struct ClusterView {
    pub name: String,
    pub files: Vec<String>,
    pub symbol_count: usize,
    pub total_degree: usize,
    pub top_symbols: Vec<(usize, usize)>,
}

/// What a listed cluster shows of cluster `key`.
pub open spec fn cluster_ok(c: ClusterView, nodes: Seq<Node>, edges: Seq<Edge>, key: Seq<char>) -> bool {
    let m = members(nodes, key, nodes.len() as int);
    let ds = Seq::new(m.len(), |t: int| degree_at(edges, nodes[m[t]].id@) as usize);
    let qs = Seq::new(m.len(), |t: int| nodes[m[t]].qualified_name@);
    &&& c.name@ == cluster_name_spec(key)
    &&& views(c.files@).to_set() == member_files(nodes, key, nodes.len() as int).to_set()
    &&& views(c.files@).len() == member_files(nodes, key, nodes.len() as int).len()
    &&& forall|i: int, j: int|
        0 <= i < j < c.files@.len() ==> seq_lt((#[trigger] c.files@[i])@, (#[trigger] c.files@[j])@)
    &&& c.symbol_count == m.len()
    &&& c.total_degree == member_degree(nodes, edges, key, nodes.len() as int)
    &&& exists|order: Seq<usize>|
        {
            &&& sorted_positions(order, m.len() as int, by_key_then_name(ds, qs))
            &&& c.top_symbols@.len() == min_count(m.len(), 5)
            &&& forall|t: int|
                0 <= t < c.top_symbols@.len() ==> c.top_symbols@[t].0 as int == m[order[t] as int]
                    && c.top_symbols@[t].1 == ds[order[t] as int]
        }
}

/// The first `limit` clusters of a graph: its symbols grouped by directory,
/// the clusters with the highest summed degree first, then those with more
/// symbols, then by directory.
pub fn clusters(graph: &CodeGraph, limit: usize) -> (r: Vec<ClusterView>)
    requires
        2 * total_weight(graph.edges@) <= usize::MAX,
        cluster_degree_sum(graph.nodes@, graph.edges@, graph.nodes@.len() as int) <= usize::MAX,
    ensures
        ({
            let nodes = graph.nodes@;
            let edges = graph.edges@;
            let keys = cluster_keys(nodes, nodes.len() as int);
            let ts = Seq::new(
                keys.len(),
                |j: int| member_degree(nodes, edges, keys[j], nodes.len() as int) as usize,
            );
            let cs = Seq::new(keys.len(), |j: int| members(nodes, keys[j], nodes.len() as int).len() as usize);
            exists|order: Seq<usize>|
                {
                    &&& sorted_positions(order, keys.len() as int, by_two_keys_then_name(ts, cs, keys))
                    &&& r@.len() == min_count(keys.len(), limit as nat)
                    &&& forall|k: int|
                        0 <= k < r@.len() ==> cluster_ok(#[trigger] r@[k], nodes, edges, keys[order[k] as int])
                }
        }),
{
    let index = QueryIndex::new(graph);
    let ghost nodes = graph.nodes@;
    let ghost edges = graph.edges@;
    let mut keys: Vec<String> = Vec::new();
    let mut mems: Vec<Vec<usize>> = Vec::new();
    let mut totals: Vec<usize> = Vec::new();
    let mut files: Vec<Vec<String>> = Vec::new();
    let mut i: usize = 0;
    while i < graph.nodes.len()
        invariant
            index.wf(),
            index.node_seq() == nodes,
            index.edge_seq() == edges,
            nodes == graph.nodes@,
            edges == graph.edges@,
            i <= nodes.len(),
            cluster_degree_sum(nodes, edges, nodes.len() as int) <= usize::MAX,
            views(keys@) == cluster_keys(nodes, i as int),
            mems@.len() == keys@.len(),
            totals@.len() == keys@.len(),
            files@.len() == keys@.len(),
            forall|j: int|
                0 <= j < keys@.len() ==> (#[trigger] mems@[j])@.map_values(|p: usize| p as int)
                    == members(nodes, keys@[j]@, i as int),
            forall|j: int|
                0 <= j < keys@.len() ==> #[trigger] totals@[j] == member_degree(
                    nodes,
                    edges,
                    keys@[j]@,
                    i as int,
                ),
            forall|j: int|
                0 <= j < keys@.len() ==> views((#[trigger] files@[j])@) == member_files(
                    nodes,
                    keys@[j]@,
                    i as int,
                ),
        decreases nodes.len() - i,
    {
        let n = &graph.nodes[i];
        proof {
            lemma_cluster_degree_sum_mono(nodes, edges, i + 1, nodes.len() as int);
        }
        let eligible = match n.kind {
            NodeKind::File | NodeKind::Project => false,
            _ => n.file.is_some(),
        };
        if eligible {
            let file = match &n.file {
                Some(f) => f.as_str(),
                None => "",
            };
            let key = cluster_key(file);
            let d = index.degree(n.id.as_str());
            let mut found: Option<usize> = None;
            let mut j: usize = 0;
            while j < keys.len() && found.is_none()
                invariant
                    j <= keys@.len(),
                    match found {
                        None => forall|t: int| 0 <= t < j ==> keys@[t]@ != key@,
                        Some(f) => f < keys@.len() && keys@[f as int]@ == key@,
                    },
                decreases keys@.len() - j,
            {
                if str_eq(keys[j].as_str(), key.as_str()) {
                    found = Some(j);
                }
                j = j + 1;
            }
            let ghost i1 = (i + 1) as int;
            proof {
                lemma_cluster_facts(nodes, edges, key@, i as int);
                lemma_cluster_facts(nodes, edges, key@, i1);
            }
            match found {
                None => {
                    assert(!views(keys@).contains(key@)) by {
                        if views(keys@).contains(key@) {
                            let t = choose|t: int| 0 <= t < views(keys@).len() && views(keys@)[t] == key@;
                            assert(keys@[t]@ == key@);
                        }
                    }
                    let ghost old_keys = keys@;
                    let ghost old_mems = mems@;
                    let ghost old_totals = totals@;
                    let ghost old_files = files@;
                    keys.push(owned(key.as_str()));
                    let mut m: Vec<usize> = Vec::new();
                    m.push(i);
                    mems.push(m);
                    totals.push(d);
                    let mut fs: Vec<String> = Vec::new();
                    fs.push(owned(file));
                    files.push(fs);
                    proof {
                        assert(views(keys@) =~= views(old_keys).push(key@));
                        assert forall|j: int| 0 <= j < keys@.len() implies (#[trigger] mems@[j])@.map_values(|p: usize| p as int)
                            == members(nodes, keys@[j]@, i1) by {
                            if j < old_keys.len() {
                                assert(keys@[j] == old_keys[j]);
                                assert(mems@[j] == old_mems[j]);
                                assert(keys@[j]@ != key@);
                            } else {
                                assert(mems@[j]@.map_values(|p: usize| p as int) =~= seq![i as int]);
                                assert(members(nodes, key@, i as int) =~= Seq::<int>::empty());
                            }
                        }
                        assert forall|j: int| 0 <= j < keys@.len() implies #[trigger] totals@[j] == member_degree(nodes, edges, keys@[j]@, i1) by {
                            if j < old_keys.len() {
                                assert(keys@[j] == old_keys[j]);
                                assert(totals@[j] == old_totals[j]);
                                assert(keys@[j]@ != key@);
                            }
                        }
                        assert forall|j: int| 0 <= j < keys@.len() implies views((#[trigger] files@[j])@) == member_files(nodes, keys@[j]@, i1) by {
                            if j < old_keys.len() {
                                assert(keys@[j] == old_keys[j]);
                                assert(files@[j] == old_files[j]);
                                assert(keys@[j]@ != key@);
                            } else {
                                assert(views(files@[j]@) =~= seq![file@]);
                                assert(member_files(nodes, key@, i as int) =~= Seq::<Seq<char>>::empty());
                            }
                        }
                    }
                },
                Some(f) => {
                    assert(views(keys@)[f as int] == key@);
                    let ghost old_mems = mems@;
                    let ghost old_totals = totals@;
                    let ghost old_files = files@;
                    proof {
                        lemma_cluster_facts(nodes, edges, key@, i1);
                    }
                    let mut m: Vec<usize> = Vec::new();
                    std::mem::swap(&mut m, &mut mems[f]);
                    let ghost mv = m@.map_values(|p: usize| p as int);
                    m.push(i);
                    assert(m@.map_values(|p: usize| p as int) =~= mv.push(i as int));
                    mems.set(f, m);
                    let t = totals[f] + d;
                    totals.set(f, t);
                    let mut fs: Vec<String> = Vec::new();
                    std::mem::swap(&mut fs, &mut files[f]);
                    let ghost fv = views(fs@);
                    if !holds(&fs, file) {
                        fs.push(owned(file));
                        assert(views(fs@) =~= fv.push(file@));
                    }
                    files.set(f, fs);
                    proof {
                        assert forall|j: int| 0 <= j < keys@.len() implies (#[trigger] mems@[j])@.map_values(|p: usize| p as int)
                            == members(nodes, keys@[j]@, i1) by {
                            if j != f {
                                assert(mems@[j] == old_mems[j]);
                                assert(keys@[j]@ != key@) by {
                                    assert(views(keys@).no_duplicates());
                                    assert(views(keys@)[j] == keys@[j]@);
                                    assert(views(keys@)[f as int] == keys@[f as int]@);
                                }
                            }
                        }
                        assert forall|j: int| 0 <= j < keys@.len() implies #[trigger] totals@[j] == member_degree(nodes, edges, keys@[j]@, i1) by {
                            if j != f {
                                assert(totals@[j] == old_totals[j]);
                                assert(keys@[j]@ != key@) by {
                                    assert(views(keys@).no_duplicates());
                                    assert(views(keys@)[j] == keys@[j]@);
                                    assert(views(keys@)[f as int] == keys@[f as int]@);
                                }
                            }
                        }
                        assert forall|j: int| 0 <= j < keys@.len() implies views((#[trigger] files@[j])@) == member_files(nodes, keys@[j]@, i1) by {
                            if j != f {
                                assert(files@[j] == old_files[j]);
                                assert(keys@[j]@ != key@) by {
                                    assert(views(keys@).no_duplicates());
                                    assert(views(keys@)[j] == keys@[j]@);
                                    assert(views(keys@)[f as int] == keys@[f as int]@);
                                }
                            }
                        }
                    }
                },
            }
        } else {
            proof {
                assert forall|j: int| 0 <= j < keys@.len() implies members(nodes, keys@[j]@, i + 1) == members(nodes, keys@[j]@, i as int)
                    && member_degree(nodes, edges, keys@[j]@, i + 1) == member_degree(nodes, edges, keys@[j]@, i as int)
                    && member_files(nodes, keys@[j]@, i + 1) == member_files(nodes, keys@[j]@, i as int) by {
                }
            }
        }
        i = i + 1;
    }
    let ghost ks = views(keys@);
    proof {
        lemma_cluster_facts(nodes, edges, Seq::empty(), nodes.len() as int);
    }
    let mut counts: Vec<usize> = Vec::new();
    let mut c: usize = 0;
    while c < mems.len()
        invariant
            c <= mems@.len(),
            counts@.len() == c,
            forall|t: int| 0 <= t < c ==> #[trigger] counts@[t] == mems@[t]@.len(),
        decreases mems@.len() - c,
    {
        counts.push(mems[c].len());
        c = c + 1;
    }
    let order = top_by_two_keys(&totals, &counts, &keys, limit);
    let ghost o = choose|o: Seq<usize>|
        sorted_positions(o, totals@.len() as int, by_two_keys_then_name(totals@, counts@, views(keys@)))
            && order@ == o.take(min_count(totals@.len(), limit as nat) as int);
    let mut out: Vec<ClusterView> = Vec::new();
    let mut k: usize = 0;
    while k < order.len()
        invariant
            index.wf(),
            index.node_seq() == nodes,
            index.edge_seq() == edges,
            nodes == graph.nodes@,
            edges == graph.edges@,
            k <= order@.len(),
            sorted_positions(o, totals@.len() as int, by_two_keys_then_name(totals@, counts@, views(keys@))),
            order@ == o.take(min_count(totals@.len(), limit as nat) as int),
            views(keys@) == cluster_keys(nodes, nodes.len() as int),
            mems@.len() == keys@.len(),
            totals@.len() == keys@.len(),
            files@.len() == keys@.len(),
            counts@.len() == keys@.len(),
            forall|j: int|
                0 <= j < keys@.len() ==> (#[trigger] mems@[j])@.map_values(|p: usize| p as int)
                    == members(nodes, keys@[j]@, nodes.len() as int),
            forall|j: int|
                0 <= j < keys@.len() ==> #[trigger] totals@[j] == member_degree(
                    nodes,
                    edges,
                    keys@[j]@,
                    nodes.len() as int,
                ),
            forall|j: int|
                0 <= j < keys@.len() ==> views((#[trigger] files@[j])@) == member_files(
                    nodes,
                    keys@[j]@,
                    nodes.len() as int,
                ),
            forall|t: int| 0 <= t < keys@.len() ==> #[trigger] counts@[t] == mems@[t]@.len(),
            out@.len() == k,
            forall|t: int|
                0 <= t < k ==> cluster_ok(#[trigger] out@[t], nodes, edges, keys@[o[t] as int]@),
        decreases order@.len() - k,
    {
        let j = order[k];
        assert(j == o[k as int]);
        let key = keys[j].as_str();
        proof {
            lemma_cluster_facts(nodes, edges, key@, nodes.len() as int);
        }
        let name = cluster_name(key);
        let sorted_files = sort_texts(&files[j]);
        let m = &mems[j];
        let ghost mv = members(nodes, key@, nodes.len() as int);
        let mut ds: Vec<usize> = Vec::new();
        let mut qs: Vec<String> = Vec::new();
        let mut t: usize = 0;
        while t < m.len()
            invariant
                index.wf(),
                index.node_seq() == nodes,
                index.edge_seq() == edges,
                nodes == graph.nodes@,
                t <= m@.len(),
                m@.map_values(|p: usize| p as int) == mv,
                forall|q: int| 0 <= q < mv.len() ==> 0 <= #[trigger] mv[q] < nodes.len(),
                ds@.len() == t,
                qs@.len() == t,
                forall|q: int| 0 <= q < t ==> #[trigger] ds@[q] == degree_at(edges, nodes[mv[q]].id@),
                forall|q: int| 0 <= q < t ==> (#[trigger] qs@[q])@ == nodes[mv[q]].qualified_name@,
            decreases m@.len() - t,
        {
            assert(m@[t as int] as int == mv[t as int]);
            let node = &graph.nodes[m[t]];
            ds.push(index.degree(node.id.as_str()));
            qs.push(owned(node.qualified_name.as_str()));
            t = t + 1;
        }
        let top = top_desc_by_name(&ds, &qs, 5);
        let mut tops: Vec<(usize, usize)> = Vec::new();
        let ghost o2 = choose|o2: Seq<usize>|
            sorted_positions(o2, ds@.len() as int, by_key_then_name(ds@, views(qs@))) && top@ == o2.take(
                min_count(ds@.len(), 5) as int,
            );
        let mut q: usize = 0;
        while q < top.len()
            invariant
                q <= top@.len(),
                sorted_positions(o2, ds@.len() as int, by_key_then_name(ds@, views(qs@))),
                top@ == o2.take(min_count(ds@.len(), 5) as int),
                ds@.len() == m@.len(),
                tops@.len() == q,
                forall|w: int|
                    0 <= w < q ==> tops@[w].0 == m@[o2[w] as int] && tops@[w].1 == ds@[o2[w] as int],
            decreases top@.len() - q,
        {
            let p = top[q];
            assert(p == o2[q as int]);
            tops.push((m[p], ds[p]));
            q = q + 1;
        }
        let view = ClusterView {
            name,
            files: sorted_files,
            symbol_count: m.len(),
            total_degree: totals[j],
            top_symbols: tops,
        };
        proof {
            let dsv = Seq::new(mv.len(), |w: int| degree_at(edges, nodes[mv[w]].id@) as usize);
            let qsv = Seq::new(mv.len(), |w: int| nodes[mv[w]].qualified_name@);
            assert(ds@ =~= dsv);
            assert(views(qs@) =~= qsv);
            assert(m@.len() == mv.len());
            assert forall|w: int| 0 <= w < view.top_symbols@.len() implies view.top_symbols@[w].0 as int
                == mv[o2[w] as int] && view.top_symbols@[w].1 == dsv[o2[w] as int] by {
                assert(m@[o2[w] as int] as int == mv[o2[w] as int]);
            }
            assert(cluster_ok(view, nodes, edges, key@));
        }
        out.push(view);
        k = k + 1;
    }
    proof {
        let nodes_len = nodes.len() as int;
        let ts = Seq::new(ks.len(), |j: int| member_degree(nodes, edges, ks[j], nodes_len) as usize);
        let cs = Seq::new(ks.len(), |j: int| members(nodes, ks[j], nodes_len).len() as usize);
        assert(totals@ =~= ts);
        assert(counts@ =~= cs) by {
            assert forall|j: int| 0 <= j < ks.len() implies counts@[j] == cs[j] by {
                assert(mems@[j]@.map_values(|p: usize| p as int).len() == mems@[j]@.len());
            }
        }
        assert forall|t: int| 0 <= t < out@.len() implies cluster_ok(#[trigger] out@[t], nodes, edges, ks[o[t] as int]) by {
            assert(keys@[o[t] as int]@ == ks[o[t] as int]);
        }
    }
    out
}

proof fn lemma_cluster_degree_sum_mono(nodes: Seq<Node>, edges: Seq<Edge>, i: int, j: int)
    requires
        0 <= i <= j <= nodes.len(),
    ensures
        cluster_degree_sum(nodes, edges, i) <= cluster_degree_sum(nodes, edges, j),
    decreases j - i,
{
    if i < j {
        lemma_cluster_degree_sum_mono(nodes, edges, i, j - 1);
    }
}

fn holds(v: &Vec<String>, s: &str) -> (r: bool)
    ensures
        r == views(v@).contains(s@),
{
    let mut i: usize = 0;
    while i < v.len()
        invariant
            i <= v@.len(),
            forall|k: int| 0 <= k < i ==> views(v@)[k] != s@,
        decreases v@.len() - i,
    {
        if str_eq(v[i].as_str(), s) {
            assert(views(v@)[i as int] == s@);
            return true;
        }
        i = i + 1;
    }
    false
}

} // verus!
