//! A Markdown overview of the graph for AI agents, cut to a byte budget.

use vstd::prelude::*;
use vstd::hash_map::StringHashMap;
use crate::analyze::deps::larger_first;
use crate::analyze::refactor_order::{module_table, position_of, sorted_distinct};
use crate::model::{CodeGraph, Node, NodeKind, node_kind_str, views};
use crate::nav::health::{first_line, top_module, top_module_spec, truncate, truncate_spec};
use crate::query::index::{QueryIndex, degree_at, total_weight};
use crate::sorting::{sort_positions, sorted_positions};
use crate::text::{
    concat2, concat3, decimal, decimal_string, lines, lines_spec, owned, push_str, split_char,
    split_spec,
};

verus! {

// ---------------------------------------------------------------- lines

/// A node's lines as `start:end`, or `start` when they are equal, or `?`.
pub open spec fn range_text(n: Node) -> Seq<char> {
    match n.range {
        Some(r) => if r.start_line != r.end_line {
            decimal(r.start_line as nat) + ":"@ + decimal(r.end_line as nat)
        } else {
            decimal(r.start_line as nat)
        },
        None => "?"@,
    }
}

/// Format a node's range.
fn format_range(n: &Node) -> (r: String)
    ensures
        r@ == range_text(*n),
{
    proof {
        reveal_strlit(":");
        reveal_strlit("?");
    }
    match &n.range {
        Some(r) => if r.start_line != r.end_line {
            let a = decimal_string(r.start_line);
            let b = decimal_string(r.end_line);
            concat3(a.as_str(), ":", b.as_str())
        } else {
            decimal_string(r.start_line)
        },
        None => owned("?"),
    }
}

/// The signature line of a node, if it has a signature.
pub open spec fn sig_text(n: Node) -> Seq<char> {
    match n.signature {
        Some(s) => "\n  sig: "@ + truncate_spec(s@, 120),
        None => Seq::empty(),
    }
}

/// The docs line of a node: the first line of its docs (or the docs when
/// they have no line), if it has docs.
pub open spec fn docs_text(n: Node) -> Seq<char> {
    match n.docs {
        Some(d) => "\n  docs: "@ + truncate_spec(
            match first_line(d@) {
                Some(l) => l,
                None => d@,
            },
            120,
        ),
        None => Seq::empty(),
    }
}

/// The head of a node's line: kind, qualified name, place and degree.
pub open spec fn node_head(n: Node, deg: nat) -> Seq<char> {
    "- "@ + node_kind_str(n.kind) + " `"@ + n.qualified_name@ + "` in "@ + (match n.file {
        Some(f) => f@,
        None => "?"@,
    }) + ":"@ + range_text(n) + " degree="@ + decimal(deg)
}

/// The head of a node's line.
fn format_head(n: &Node, deg: usize) -> (r: String)
    ensures
        r@ == node_head(*n, deg as nat),
{
    proof {
        reveal_strlit("- ");
        reveal_strlit(" `");
        reveal_strlit("` in ");
        reveal_strlit("?");
        reveal_strlit(":");
        reveal_strlit(" degree=");
    }
    let mut s = concat3("- ", n.kind.as_str(), " `");
    push_str(&mut s, n.qualified_name.as_str());
    push_str(&mut s, "` in ");
    match &n.file {
        Some(f) => push_str(&mut s, f.as_str()),
        None => push_str(&mut s, "?"),
    }
    push_str(&mut s, ":");
    let range = format_range(n);
    push_str(&mut s, range.as_str());
    push_str(&mut s, " degree=");
    let d = decimal_string(deg);
    push_str(&mut s, d.as_str());
    s
}

/// The signature line.
fn format_sig(n: &Node) -> (r: String)
    ensures
        r@ == sig_text(*n),
{
    proof {
        reveal_strlit("\n  sig: ");
    }
    match &n.signature {
        Some(s) => {
            let t = truncate(s.as_str(), 120);
            concat2("\n  sig: ", t.as_str())
        },
        None => String::new(),
    }
}

/// The docs line.
fn format_docs(n: &Node) -> (r: String)
    ensures
        r@ == docs_text(*n),
{
    proof {
        reveal_strlit("\n  docs: ");
    }
    match &n.docs {
        Some(d) => {
            let ls = lines(d.as_str());
            let t = if ls.len() > 0 {
                assert(ls@[0]@ == lines_spec(d@)[0]);
                truncate(ls[0].as_str(), 120)
            } else {
                truncate(d.as_str(), 120)
            };
            concat2("\n  docs: ", t.as_str())
        },
        None => String::new(),
    }
}

// ---------------------------------------------------------------- map

/// The project's name: the last component of its root.
pub open spec fn project_name(root: Seq<char>) -> Seq<char> {
    split_spec(root, '/').last()
}

/// The number of file nodes among the first `k`.
pub open spec fn file_count(nodes: Seq<Node>, k: int) -> nat
    decreases k,
{
    if k <= 0 {
        0
    } else {
        file_count(nodes, k - 1) + (if nodes[k - 1].kind == NodeKind::File {
            1nat
        } else {
            0nat
        })
    }
}

/// The lines of the hot symbols: the nodes at `order[..k]`.
pub open spec fn hot_lines(nodes: Seq<Node>, ds: Seq<usize>, order: Seq<usize>, k: int, with_docs: bool) -> Seq<char>
    decreases k,
{
    if k <= 0 {
        Seq::empty()
    } else {
        let i = order[k - 1] as int;
        hot_lines(nodes, ds, order, k - 1, with_docs) + node_head(nodes[i], ds[i] as nat) + sig_text(nodes[i])
            + (if with_docs {
            docs_text(nodes[i])
        } else {
            Seq::empty()
        }) + "\n"@
    }
}

/// The files of the symbol nodes (not files or the project) that have a
/// file, one entry per node.
pub open spec fn cluster_files(nodes: Seq<Node>) -> Seq<Seq<char>>
    decreases nodes.len(),
{
    if nodes.len() == 0 {
        Seq::empty()
    } else {
        let n = nodes.last();
        let prev = cluster_files(nodes.drop_last());
        if n.kind != NodeKind::File && n.kind != NodeKind::Project && n.file is Some {
            prev.push(n.file->0@)
        } else {
            prev
        }
    }
}

/// The nodes of a file, with their total degree.
pub open spec fn cluster_count(nodes: Seq<Node>, f: Seq<char>) -> nat
    decreases nodes.len(),
{
    if nodes.len() == 0 {
        0
    } else {
        let n = nodes.last();
        cluster_count(nodes.drop_last(), f) + (if n.kind != NodeKind::File && n.kind != NodeKind::Project
            && n.file is Some && n.file->0@ == f {
            1nat
        } else {
            0nat
        })
    }
}

/// The total degree of the symbols of a file.
pub open spec fn cluster_degree(nodes: Seq<Node>, edges: Seq<crate::model::Edge>, f: Seq<char>) -> nat
    decreases nodes.len(),
{
    if nodes.len() == 0 {
        0
    } else {
        let n = nodes.last();
        cluster_degree(nodes.drop_last(), edges, f) + (if n.kind != NodeKind::File && n.kind != NodeKind::Project
            && n.file is Some && n.file->0@ == f {
            degree_at(edges, n.id@)
        } else {
            0nat
        })
    }
}

/// The line of a file cluster.
pub open spec fn cluster_line(f: Seq<char>, count: nat, deg: nat) -> Seq<char> {
    "- `"@ + top_module_spec(f) + "` files=1 symbols="@ + decimal(count) + " degree="@ + decimal(deg) + "\n"@
}

/// The cluster lines of the files `files[order[..k]]`.
pub open spec fn cluster_lines(nodes: Seq<Node>, edges: Seq<crate::model::Edge>, files: Seq<Seq<char>>, order: Seq<usize>, k: int) -> Seq<char>
    decreases k,
{
    if k <= 0 {
        Seq::empty()
    } else {
        let f = files[order[k - 1] as int];
        cluster_lines(nodes, edges, files, order, k - 1) + cluster_line(f, cluster_count(nodes, f), cluster_degree(nodes, edges, f))
    }
}

/// The whole overview, before the budget cut.
pub open spec fn map_text(
    graph: CodeGraph,
    full: bool,
    ds: Seq<usize>,
    o1: Seq<usize>,
    files: Seq<Seq<char>>,
    o2: Seq<usize>,
) -> Seq<char> {
    let nodes = graph.nodes@;
    let edges = graph.edges@;
    let top = if nodes.len() <= 10 { nodes.len() as int } else { 10 };
    let nc = if files.len() <= 20 { files.len() as int } else { 20 };
    "# Codegraph Map\n\n"@ + "Project: `"@ + project_name(graph.project.root@) + "`\nNodes: "@ + decimal(nodes.len())
        + " Edges: "@ + decimal(edges.len()) + " Files: "@ + decimal(file_count(nodes, nodes.len() as int)) + "\n"@
        + "\n## Hot Symbols\n"@ + hot_lines(nodes, ds, o1, top, true) + (if full {
        "\n## Entry Points\n"@ + hot_lines(nodes, ds, o1, top, false) + "\n## Feature Clusters\n"@ + cluster_lines(
            nodes,
            edges,
            files,
            o2,
            nc,
        )
    } else {
        Seq::empty()
    })
}

/// The overview, cut to the budget.
pub struct NavMap {
    pub content: String,
    pub budget: usize,
}

/// A prefix's cluster degree is at most the whole one's.
proof fn lemma_cluster_degree_prefix(nodes: Seq<Node>, edges: Seq<crate::model::Edge>, f: Seq<char>, i: int)
    requires
        0 <= i <= nodes.len(),
    ensures
        cluster_degree(nodes.take(i), edges, f) <= cluster_degree(nodes, edges, f),
    decreases nodes.len() - i,
{
    if i < nodes.len() {
        lemma_cluster_degree_prefix(nodes, edges, f, i + 1);
        assert(nodes.take(i + 1).drop_last() =~= nodes.take(i));
    } else {
        assert(nodes.take(i) =~= nodes);
    }
}

/// The symbol count and total degree of each file of `cl`.
fn cluster_totals(graph: &CodeGraph, index: &QueryIndex, cl: &Vec<String>) -> (r: (Vec<usize>, Vec<usize>))
    requires
        index.wf(),
        index.node_seq() == graph.nodes@,
        index.edge_seq() == graph.edges@,
        views(cl@).no_duplicates(),
        forall|f: Seq<char>| #[trigger] cluster_files(graph.nodes@).contains(f) ==> views(cl@).contains(f),
        forall|f: Seq<char>| #[trigger] cluster_degree(graph.nodes@, graph.edges@, f) <= usize::MAX,
    ensures
        r.0@.len() == cl@.len(),
        r.1@.len() == cl@.len(),
        forall|k: int| 0 <= k < cl@.len() ==> #[trigger] r.0@[k] == cluster_count(graph.nodes@, cl@[k]@),
        forall|k: int| 0 <= k < cl@.len() ==> #[trigger] r.1@[k] == cluster_degree(graph.nodes@, graph.edges@, cl@[k]@),
{
    let ghost nodes = graph.nodes@;
    let ghost edges = graph.edges@;
    let n = cl.len();
    let mut idx: StringHashMap<usize> = StringHashMap::new();
    let mut counts: Vec<usize> = Vec::new();
    let mut degs: Vec<usize> = Vec::new();
    let mut k: usize = 0;
    while k < n
        invariant
            0 <= k <= n,
            n == cl@.len(),
            views(cl@).no_duplicates(),
            counts@.len() == k,
            degs@.len() == k,
            forall|q: int| 0 <= q < k ==> #[trigger] counts@[q] == 0,
            forall|q: int| 0 <= q < k ==> #[trigger] degs@[q] == 0,
            forall|f: Seq<char>| #[trigger] idx@.contains_key(f) ==> idx@[f] < k && cl@[idx@[f] as int]@ == f,
            forall|q: int| 0 <= q < k ==> #[trigger] idx@.contains_key(cl@[q]@),
        decreases n - k,
    {
        let ghost old_idx = idx@;
        idx.insert(owned(cl[k].as_str()), k);
        counts.push(0);
        degs.push(0);
        proof {
            assert forall|f: Seq<char>| #[trigger] idx@.contains_key(f) implies idx@[f] < k + 1 && cl@[idx@[f] as int]@ == f by {
                if f != cl@[k as int]@ {
                    assert(old_idx.contains_key(f));
                }
            }
            assert forall|q: int| 0 <= q < k + 1 implies #[trigger] idx@.contains_key(cl@[q]@) by {
                if q < k {
                    assert(old_idx.contains_key(cl@[q]@));
                }
            }
        }
        k = k + 1;
    }
    let mut i: usize = 0;
    assert(nodes.take(0).len() == 0);
    assert forall|q: int| 0 <= q < n implies #[trigger] degs@[q] == cluster_degree(nodes.take(0), edges, cl@[q]@) by {
        assert(degs@[q] == 0);
    }
    while i < graph.nodes.len()
        invariant
            index.wf(),
            index.node_seq() == nodes,
            index.edge_seq() == edges,
            graph.nodes@ == nodes,
            graph.edges@ == edges,
            0 <= i <= nodes.len(),
            n == cl@.len(),
            views(cl@).no_duplicates(),
            forall|f: Seq<char>| #[trigger] cluster_files(nodes).contains(f) ==> views(cl@).contains(f),
            forall|f: Seq<char>| #[trigger] cluster_degree(nodes, edges, f) <= usize::MAX,
            forall|f: Seq<char>| #[trigger] idx@.contains_key(f) ==> idx@[f] < n && cl@[idx@[f] as int]@ == f,
            forall|q: int| 0 <= q < n ==> #[trigger] idx@.contains_key(cl@[q]@),
            counts@.len() == n,
            degs@.len() == n,
            forall|q: int| 0 <= q < n ==> #[trigger] counts@[q] == cluster_count(nodes.take(i as int), cl@[q]@),
            forall|q: int| 0 <= q < n ==> #[trigger] degs@[q] == cluster_degree(nodes.take(i as int), edges, cl@[q]@),
            forall|q: int| 0 <= q < n ==> #[trigger] counts@[q] <= i,
        decreases nodes.len() - i,
    {
        let node = &graph.nodes[i];
        let ghost pre = nodes.take(i as int);
        let ghost cur = nodes.take(i + 1);
        assert(cur.drop_last() =~= pre);
        assert(cur.last() == nodes[i as int]);
        if node.kind != NodeKind::File && node.kind != NodeKind::Project {
            if let Some(f) = &node.file {
                proof {
                    lemma_cluster_file_listed(nodes, i as int);
                    let w = choose|w: int| 0 <= w < views(cl@).len() && views(cl@)[w] == f@;
                    assert(idx@.contains_key(cl@[w]@));
                }
                let t = match idx.get(f.as_str()) {
                    Some(t) => *t,
                    None => 0,
                };
                let d = index.degree(node.id.as_str());
                proof {
                    lemma_cluster_degree_prefix(nodes, edges, f@, i + 1);
                    assert(cluster_degree(cur, edges, f@) == cluster_degree(pre, edges, f@) + degree_at(edges, node.id@));
                }
                let c = counts[t] + 1;
                let dd = degs[t] + d;
                let ghost oc = counts@;
                let ghost od = degs@;
                counts.set(t, c);
                degs.set(t, dd);
                proof {
                    assert forall|q: int| 0 <= q < n implies #[trigger] counts@[q] == cluster_count(cur, cl@[q]@) by {
                        if q != t {
                            assert(views(cl@)[q] != views(cl@)[t as int]);
                        }
                    }
                    assert forall|q: int| 0 <= q < n implies #[trigger] degs@[q] == cluster_degree(cur, edges, cl@[q]@) by {
                        if q != t {
                            assert(views(cl@)[q] != views(cl@)[t as int]);
                        }
                    }
                }
            }
        }
        i = i + 1;
    }
    assert(nodes.take(nodes.len() as int) =~= nodes);
    (counts, degs)
}

/// The file of a symbol node with a file is among the cluster files.
proof fn lemma_cluster_file_listed(nodes: Seq<Node>, i: int)
    requires
        0 <= i < nodes.len(),
        nodes[i].kind != NodeKind::File,
        nodes[i].kind != NodeKind::Project,
        nodes[i].file is Some,
    ensures
        cluster_files(nodes).contains(nodes[i].file->0@),
    decreases nodes.len(),
{
    let cf = cluster_files(nodes);
    if i == nodes.len() - 1 {
        assert(cf[cf.len() - 1] == nodes[i].file->0@);
    } else {
        lemma_cluster_file_listed(nodes.drop_last(), i);
        let prev = cluster_files(nodes.drop_last());
        let w = choose|w: int| 0 <= w < prev.len() && prev[w] == nodes[i].file->0@;
        assert(cf[w] == prev[w]);
    }
}

/// The degrees of the nodes, in graph order.
pub open spec fn node_degrees(graph: CodeGraph) -> Seq<usize> {
    Seq::new(graph.nodes@.len(), |i: int| degree_at(graph.edges@, graph.nodes@[i].id@) as usize)
}

/// The total degrees of the files `cl`.
pub open spec fn file_degrees(graph: CodeGraph, cl: Seq<Seq<char>>) -> Seq<usize> {
    cl.map_values(|f: Seq<char>| cluster_degree(graph.nodes@, graph.edges@, f) as usize)
}

/// What `nav_map` answers, for the node order `o1`, the sorted distinct
/// files `cl` and their order `o2`.
pub open spec fn map_ok(graph: CodeGraph, full: bool, budget: usize, r: NavMap, o1: Seq<usize>, cl: Seq<Seq<char>>, o2: Seq<usize>) -> bool {
    let ds = node_degrees(graph);
    &&& sorted_positions(o1, graph.nodes@.len() as int, larger_first(ds))
    &&& module_table(cl, cluster_files(graph.nodes@))
    &&& sorted_positions(o2, cl.len() as int, larger_first(file_degrees(graph, cl)))
    &&& r.content@ == truncate_spec(map_text(graph, full, ds, o1, cl, o2), budget)
    &&& r.budget == budget
}

/// Append the lines of the nodes at `order[..min(10, n)]`.
fn push_hot_lines(out: &mut String, graph: &CodeGraph, ds: &Vec<usize>, order: &Vec<usize>, with_docs: bool)
    requires
        ds@.len() == graph.nodes@.len(),
        order@.len() == graph.nodes@.len(),
        forall|q: int| 0 <= q < order@.len() ==> #[trigger] order@[q] < graph.nodes@.len(),
    ensures
        final(out)@ == old(out)@ + hot_lines(
            graph.nodes@,
            ds@,
            order@,
            if graph.nodes@.len() <= 10 { graph.nodes@.len() as int } else { 10 },
            with_docs,
        ),
{
    let top = if graph.nodes.len() <= 10 { graph.nodes.len() } else { 10 };
    let ghost base = out@;
    let mut k: usize = 0;
    proof {
        reveal_strlit("
");
    }
    while k < top
        invariant
            0 <= k <= top,
            top <= graph.nodes@.len(),
            ds@.len() == graph.nodes@.len(),
            order@.len() == graph.nodes@.len(),
            forall|q: int| 0 <= q < order@.len() ==> #[trigger] order@[q] < graph.nodes@.len(),
            out@ == base + hot_lines(graph.nodes@, ds@, order@, k as int, with_docs),
        decreases top - k,
    {
        let i = order[k];
        let node = &graph.nodes[i];
        let head = format_head(node, ds[i]);
        push_str(out, head.as_str());
        let sig = format_sig(node);
        push_str(out, sig.as_str());
        if with_docs {
            let docs = format_docs(node);
            push_str(out, docs.as_str());
        }
        push_str(out, "\n");
        k = k + 1;
    }
}

/// Generates a token-budgeted Markdown overview for AI agents.
#[verifier::rlimit(40)]
pub fn nav_map(graph: &CodeGraph, full: bool, budget: usize) -> (r: NavMap)
    requires
        2 * total_weight(graph.edges@) <= usize::MAX,
        forall|f: Seq<char>| #[trigger] cluster_degree(graph.nodes@, graph.edges@, f) <= usize::MAX,
    ensures
        exists|o1: Seq<usize>, cl: Seq<Seq<char>>, o2: Seq<usize>| #[trigger] map_ok(*graph, full, budget, r, o1, cl, o2),
{
    let index = QueryIndex::new(graph);
    let ghost nodes = graph.nodes@;
    let ghost edges = graph.edges@;
    let n = graph.nodes.len();
    // header
    let parts = split_char(graph.project.root.as_str(), '/');
    proof {
        crate::text::lemma_split_from_nonempty(graph.project.root@, '/', 0);
    }
    let name = owned(parts[parts.len() - 1].as_str());
    let mut files: usize = 0;
    let mut i: usize = 0;
    while i < n
        invariant
            0 <= i <= n,
            n == nodes.len(),
            graph.nodes@ == nodes,
            files == file_count(nodes, i as int),
            files <= i,
        decreases n - i,
    {
        if graph.nodes[i].kind == NodeKind::File {
            files = files + 1;
        }
        i = i + 1;
    }
    proof {
        reveal_strlit("# Codegraph Map\n\n");
        reveal_strlit("Project: `");
        reveal_strlit("`\nNodes: ");
        reveal_strlit(" Edges: ");
        reveal_strlit(" Files: ");
        reveal_strlit("\n");
        reveal_strlit("\n## Hot Symbols\n");
        reveal_strlit("\n## Entry Points\n");
        reveal_strlit("\n## Feature Clusters\n");
    }
    let mut out = owned("# Codegraph Map\n\n");
    push_str(&mut out, "Project: `");
    push_str(&mut out, name.as_str());
    push_str(&mut out, "`\nNodes: ");
    let d1 = decimal_string(n);
    push_str(&mut out, d1.as_str());
    push_str(&mut out, " Edges: ");
    let d2 = decimal_string(graph.edges.len());
    push_str(&mut out, d2.as_str());
    push_str(&mut out, " Files: ");
    let d3 = decimal_string(files);
    push_str(&mut out, d3.as_str());
    push_str(&mut out, "\n");
    // hot symbols
    let mut ds: Vec<usize> = Vec::new();
    let mut i: usize = 0;
    while i < n
        invariant
            index.wf(),
            index.node_seq() == nodes,
            index.edge_seq() == edges,
            graph.nodes@ == nodes,
            n == nodes.len(),
            0 <= i <= n,
            ds@.len() == i,
            forall|q: int| 0 <= q < i ==> #[trigger] ds@[q] == degree_at(edges, nodes[q].id@),
        decreases n - i,
    {
        ds.push(index.degree(graph.nodes[i].id.as_str()));
        i = i + 1;
    }
    assert(ds@ =~= node_degrees(*graph));
    let ghost lt = larger_first(ds@);
    let before = |x: usize, y: usize| -> (b: bool)
        requires
            x < ds@.len(),
            y < ds@.len(),
        ensures
            b == (ds@[x as int] > ds@[y as int] || (ds@[x as int] == ds@[y as int] && x < y)),
        { ds[x] > ds[y] || (ds[x] == ds[y] && x < y) };
    let o1 = sort_positions(n, &before, Ghost(lt));
    push_str(&mut out, "\n## Hot Symbols\n");
    push_hot_lines(&mut out, graph, &ds, &o1, true);
    // the rest, for the full map
    let mut fl: Vec<String> = Vec::new();
    let mut i: usize = 0;
    while i < n
        invariant
            graph.nodes@ == nodes,
            n == nodes.len(),
            0 <= i <= n,
            views(fl@) == cluster_files(nodes.take(i as int)),
        decreases n - i,
    {
        let node = &graph.nodes[i];
        let ghost old_f = views(fl@);
        assert(nodes.take(i + 1).drop_last() =~= nodes.take(i as int));
        assert(nodes.take(i + 1).last() == nodes[i as int]);
        if node.kind != NodeKind::File && node.kind != NodeKind::Project {
            if let Some(f) = &node.file {
                fl.push(owned(f.as_str()));
                assert(views(fl@) =~= old_f.push(f@));
            }
        }
        i = i + 1;
    }
    assert(nodes.take(n as int) =~= nodes);
    let cl = sorted_distinct(&fl);
    let ghost clv = views(cl@);
    assert(clv == cl@.map_values(|s: String| s@));
    assert(views(fl@) == fl@.map_values(|s: String| s@));
    proof {
        crate::analyze::refactor_order::lemma_names_distinct(clv);
        assert forall|f: Seq<char>| #[trigger] cluster_files(nodes).contains(f) implies clv.contains(f) by {}
    }
    let (counts, degs) = cluster_totals(graph, &index, &cl);
    assert(degs@ =~= file_degrees(*graph, clv));
    let m = cl.len();
    let ghost lt2 = larger_first(degs@);
    let before2 = |x: usize, y: usize| -> (b: bool)
        requires
            x < degs@.len(),
            y < degs@.len(),
        ensures
            b == (degs@[x as int] > degs@[y as int] || (degs@[x as int] == degs@[y as int] && x < y)),
        { degs[x] > degs[y] || (degs[x] == degs[y] && x < y) };
    let o2 = sort_positions(m, &before2, Ghost(lt2));
    let ghost base = out@;
    if full {
        push_str(&mut out, "\n## Entry Points\n");
        push_hot_lines(&mut out, graph, &ds, &o1, false);
        push_str(&mut out, "\n## Feature Clusters\n");
        let top = if m <= 20 { m } else { 20 };
        let ghost mid = out@;
        let mut k: usize = 0;
        proof {
            reveal_strlit("- `");
            reveal_strlit("` files=1 symbols=");
            reveal_strlit(" degree=");
        }
        while k < top
            invariant
                0 <= k <= top,
                top <= m,
                m == cl@.len(),
                clv == views(cl@),
                counts@.len() == m,
                degs@.len() == m,
                forall|q: int| 0 <= q < m ==> #[trigger] counts@[q] == cluster_count(nodes, cl@[q]@),
                forall|q: int| 0 <= q < m ==> #[trigger] degs@[q] == cluster_degree(nodes, edges, cl@[q]@),
                sorted_positions(o2@, m as int, lt2),
                out@ == mid + cluster_lines(nodes, edges, clv, o2@, k as int),
            decreases top - k,
        {
            let t = o2[k];
            let module = top_module(cl[t].as_str());
            push_str(&mut out, "- `");
            push_str(&mut out, module.as_str());
            push_str(&mut out, "` files=1 symbols=");
            let c = decimal_string(counts[t]);
            push_str(&mut out, c.as_str());
            push_str(&mut out, " degree=");
            let d = decimal_string(degs[t]);
            push_str(&mut out, d.as_str());
            push_str(&mut out, "\n");
            k = k + 1;
        }
    }
    let content = truncate(out.as_str(), budget);
    let r = NavMap { content, budget };
    proof {
        assert(parts@.map_values(|x: String| x@).last() == name@);
        assert(sorted_positions(o1@, nodes.len() as int, larger_first(node_degrees(*graph))));
        assert(module_table(clv, cluster_files(nodes)));
        assert(sorted_positions(o2@, clv.len() as int, larger_first(file_degrees(*graph, clv))));
        let top = if nodes.len() <= 10 { nodes.len() as int } else { 10 };
        assert(base == "# Codegraph Map\n\n"@ + "Project: `"@ + project_name(graph.project.root@) + "`\nNodes: "@ + decimal(nodes.len())
            + " Edges: "@ + decimal(edges.len()) + " Files: "@ + decimal(file_count(nodes, nodes.len() as int)) + "\n"@
            + "\n## Hot Symbols\n"@ + hot_lines(nodes, ds@, o1@, top, true));
        assert(out@ == map_text(*graph, full, ds@, o1@, clv, o2@));
        assert(map_ok(*graph, full, budget, r, o1@, clv, o2@));
    }
    r
}

} // verus!
