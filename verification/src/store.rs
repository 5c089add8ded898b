//! Saved graphs: where they are kept, their gzip framing, and how several
//! graphs merge into one.

use vstd::prelude::*;
use crate::analyzer::index::{file_name, file_name_of};
use crate::model::{CodeGraph, Edge, Node, NodeKind, Package, Project, views};
use crate::text::{
    chars_of, concat2, concat3, decimal, decimal_string, ends_with, is_ascii_alnum, owned,
    push_char, seq_ends_with, split_spec, string_from_range,
};

verus! {

// ---------------------------------------------------------------- paths

/// `base` joined with a relative path `rel`: a `/` goes between them unless
/// `base` already ends with one.
pub open spec fn join_path(base: Seq<char>, rel: Seq<char>) -> Seq<char> {
    if base.len() == 0 || seq_ends_with(base, "/"@) {
        base + rel
    } else {
        base + "/"@ + rel
    }
}

pub fn join_path_exec(base: &str, rel: &str) -> (r: String)
    ensures
        r@ == join_path(base@, rel@),
{
    proof {
        reveal_strlit("/");
    }
    if base.unicode_len() == 0 || ends_with(base, "/") {
        concat2(base, rel)
    } else {
        concat3(base, "/", rel)
    }
}

/// Where a project's graph is kept under its root.
pub open spec fn graph_file() -> Seq<char> {
    ".pyscope/pyscope.json.gz"@
}

/// The graph file of a project: `output` when given, else
/// `.pyscope/pyscope.json.gz` under the (resolved) project root.
pub fn default_project_path(project: &str, output: Option<&str>) -> (r: String)
    ensures
        r@ == (match output {
            Some(o) => o@,
            None => join_path(project@, graph_file()),
        }),
{
    match output {
        Some(o) => owned(o),
        None => {
            proof {
                reveal_strlit(".pyscope/pyscope.json.gz");
            }
            join_path_exec(project, ".pyscope/pyscope.json.gz")
        },
    }
}

/// The graph file used when none is named: `path` when given, else
/// `.pyscope/pyscope.json.gz` under the working directory `cwd`.
pub fn default_path(cwd: &str, path: Option<&str>) -> (r: String)
    ensures
        r@ == (match path {
            Some(p) => p@,
            None => join_path(cwd@, graph_file()),
        }),
{
    default_project_path(cwd, path)
}

/// Whether a directory entry named `name` is a saved graph.
pub fn is_graph_file_name(name: &str) -> (r: bool)
    ensures
        r == seq_ends_with(name@, ".json.gz"@),
{
    ends_with(name, ".json.gz")
}

// ---------------------------------------------------------------- gzip

/// The gzip encoding (default level, default header) that `flate2` gives
/// for some bytes.
pub uninterp spec fn gzip_of(data: Seq<u8>) -> Seq<u8>;

/// The bytes that `flate2` decodes from a gzip stream, if it is one.
pub uninterp spec fn gunzip_of(data: Seq<u8>) -> Option<Seq<u8>>;

/// Compress bytes with `flate2`'s gzip encoder at the default level. The
/// result is named by `gzip_of`; nothing more is stated of it.
#[verifier::external_body]
fn gzip_bytes(data: &[u8]) -> (r: Vec<u8>)
    ensures
        r@ == gzip_of(data@),
{
    let mut encoder = flate2::write::GzEncoder::new(Vec::new(), flate2::Compression::default());
    match std::io::Write::write_all(&mut encoder, data) {
        Ok(()) => encoder.finish().unwrap_or_default(),
        Err(_) => Vec::new(),
    }
}

/// Decompress a gzip stream with `flate2`'s reader: the bytes it holds, or
/// nothing when it is not a valid gzip stream. The result is named by
/// `gunzip_of`; decoding the compressed form of some bytes gives those
/// bytes back.
#[verifier::external_body]
fn gunzip_bytes(data: &[u8]) -> (r: Option<Vec<u8>>)
    ensures
        match r {
            Some(v) => gunzip_of(data@) == Some(v@),
            None => gunzip_of(data@) is None,
        },
        forall|d: Seq<u8>| #[trigger] gzip_of(d) == data@ ==> r is Some && r->0@ == d,
{
    let mut out = Vec::new();
    match std::io::Read::read_to_end(&mut flate2::read::GzDecoder::new(data), &mut out) {
        Ok(_) => Some(out),
        Err(_) => None,
    }
}

/// Why a saved graph cannot be read.
#[derive(Clone, Copy, Debug, PartialEq, Eq, Structural)]
pub enum StoreError {
    /// The file is not a gzip stream.
    NotGzip,
}

/// The bytes to write for a graph's JSON text: its gzip encoding.
pub fn encode_graph(json: &[u8]) -> (r: Vec<u8>)
    ensures
        r@ == gzip_of(json@),
{
    gzip_bytes(json)
}

/// The JSON text of a saved graph file's bytes.
pub fn load(file: &[u8]) -> (r: Result<Vec<u8>, StoreError>)
    ensures
        match gunzip_of(file@) {
            Some(d) => r matches Ok(v) && v@ == d,
            None => r == Err::<Vec<u8>, StoreError>(StoreError::NotGzip),
        },
        forall|d: Seq<u8>| #[trigger] gzip_of(d) == file@ ==> (r matches Ok(v) && v@ == d),
{
    match gunzip_bytes(file) {
        Some(v) => Ok(v),
        None => Err(StoreError::NotGzip),
    }
}

// ---------------------------------------------------------------- merging

/// A prefix character: ASCII letters, digits, `_` and `-` are kept; any
/// other character becomes `_`.
pub open spec fn prefix_char(c: char) -> char {
    if is_ascii_alnum(c) || c == '_' || c == '-' {
        c
    } else {
        '_'
    }
}

/// The name a graph's ids are prefixed with when merged: its first
/// package's name, or else the last `/`-separated piece of its root, with
/// every other character than letters, digits, `_` and `-` made `_`.
pub open spec fn graph_prefix_spec(g: CodeGraph) -> Seq<char> {
    let base = if g.project.packages@.len() > 0 {
        g.project.packages@[0].name@
    } else {
        file_name_of(g.project.root@)
    };
    base.map_values(|c: char| prefix_char(c))
}

fn sanitize_prefix(s: &str) -> (r: String)
    ensures
        r@ == s@.map_values(|c: char| prefix_char(c)),
{
    let v = chars_of(s);
    let mut r = String::new();
    let mut i: usize = 0;
    while i < v.len()
        invariant
            i <= v@.len(),
            v@ == s@,
            r@ == s@.take(i as int).map_values(|c: char| prefix_char(c)),
        decreases v@.len() - i,
    {
        let c = v[i];
        let keep = ('a' <= c && c <= 'z') || ('A' <= c && c <= 'Z') || ('0' <= c && c <= '9')
            || c == '_' || c == '-';
        push_char(&mut r, if keep {
            c
        } else {
            '_'
        });
        assert(s@.take(i + 1).map_values(|c: char| prefix_char(c)) =~= s@.take(i as int).map_values(
            |c: char| prefix_char(c),
        ).push(prefix_char(c)));
        i = i + 1;
    }
    assert(s@.take(s@.len() as int) =~= s@);
    r
}

/// The prefix of a graph's ids in a merge.
pub fn graph_prefix(graph: &CodeGraph) -> (r: String)
    ensures
        r@ == graph_prefix_spec(*graph),
{
    if graph.project.packages.len() > 0 {
        sanitize_prefix(graph.project.packages[0].name.as_str())
    } else {
        let last = file_name(graph.project.root.as_str());
        sanitize_prefix(last.as_str())
    }
}

/// The prefix of graph `i` when `graphs` are merged: its own prefix, with
/// its 1-based position appended when there are several graphs.
pub open spec fn merge_prefix(graphs: Seq<CodeGraph>, i: int) -> Seq<char> {
    if graphs.len() > 1 {
        graph_prefix_spec(graphs[i]) + decimal((i + 1) as nat)
    } else {
        graph_prefix_spec(graphs[i])
    }
}

/// `s` under prefix `p`: `p:s`.
pub open spec fn prefixed(p: Seq<char>, s: Seq<char>) -> Seq<char> {
    p + ":"@ + s
}

/// Node `m` is node `n` under prefix `p`: its id is prefixed, and so are
/// the name and qualified name of a project node.
pub open spec fn is_merged_node(m: Node, n: Node, p: Seq<char>) -> bool {
    &&& m == (Node { id: m.id, name: m.name, qualified_name: m.qualified_name, ..n })
    &&& m.id@ == prefixed(p, n.id@)
    &&& m.name@ == (if n.kind == NodeKind::Project {
        prefixed(p, n.name@)
    } else {
        n.name@
    })
    &&& m.qualified_name@ == (if n.kind == NodeKind::Project {
        prefixed(p, n.qualified_name@)
    } else {
        n.qualified_name@
    })
}

/// Edge `m` is edge `e` with both ends under prefix `p`.
pub open spec fn is_merged_edge(m: Edge, e: Edge, p: Seq<char>) -> bool {
    &&& m == (Edge { from: m.from, to: m.to, ..e })
    &&& m.from@ == prefixed(p, e.from@)
    &&& m.to@ == prefixed(p, e.to@)
}

/// The number of nodes of the first `i` graphs.
pub open spec fn nodes_before(graphs: Seq<CodeGraph>, i: int) -> nat
    decreases i,
{
    if i <= 0 || i > graphs.len() {
        0
    } else {
        nodes_before(graphs, i - 1) + graphs[i - 1].nodes@.len()
    }
}

/// The number of edges of the first `i` graphs.
pub open spec fn edges_before(graphs: Seq<CodeGraph>, i: int) -> nat
    decreases i,
{
    if i <= 0 || i > graphs.len() {
        0
    } else {
        edges_before(graphs, i - 1) + graphs[i - 1].edges@.len()
    }
}

/// The packages of the first `i` graphs, in order.
pub open spec fn packages_of(graphs: Seq<CodeGraph>, i: int) -> Seq<Package>
    decreases i,
{
    if i <= 0 || i > graphs.len() {
        Seq::empty()
    } else {
        packages_of(graphs, i - 1) + graphs[i - 1].project.packages@
    }
}

/// The warnings of the first `i` graphs, in order.
pub open spec fn warnings_of(graphs: Seq<CodeGraph>, i: int) -> Seq<String>
    decreases i,
{
    if i <= 0 || i > graphs.len() {
        Seq::empty()
    } else {
        warnings_of(graphs, i - 1) + graphs[i - 1].warnings@
    }
}

/// The highest schema version of the first `i` graphs, or 1 when there is
/// none.
pub open spec fn max_schema(graphs: Seq<CodeGraph>, i: int) -> u32
    decreases i,
{
    if i <= 0 || i > graphs.len() {
        1
    } else if i == 1 {
        graphs[0].schema_version
    } else {
        let m = max_schema(graphs, i - 1);
        if graphs[i - 1].schema_version > m {
            graphs[i - 1].schema_version
        } else {
            m
        }
    }
}

/// The latest generation time of the first `i` graphs, or 0.
pub open spec fn max_time(graphs: Seq<CodeGraph>, i: int) -> u128
    decreases i,
{
    if i <= 0 || i > graphs.len() {
        0
    } else {
        let m = max_time(graphs, i - 1);
        if graphs[i - 1].generated_at_ms > m {
            graphs[i - 1].generated_at_ms
        } else {
            m
        }
    }
}

/// Node `j` of graph `k` in the merged node list.
pub open spec fn node_at(ns: Seq<Node>, graphs: Seq<CodeGraph>, k: int, j: int) -> Node {
    ns[nodes_before(graphs, k) + j]
}

/// Edge `j` of graph `k` in the merged edge list.
pub open spec fn edge_at(es: Seq<Edge>, graphs: Seq<CodeGraph>, k: int, j: int) -> Edge {
    es[edges_before(graphs, k) + j]
}

proof fn lemma_before_mono(graphs: Seq<CodeGraph>, i: int, j: int)
    requires
        0 <= i <= j <= graphs.len(),
    ensures
        nodes_before(graphs, i) <= nodes_before(graphs, j),
        edges_before(graphs, i) <= edges_before(graphs, j),
    decreases j - i,
{
    if i < j {
        lemma_before_mono(graphs, i, j - 1);
    }
}

fn blank_node() -> (n: Node)
    ensures
        n.id@.len() == 0,
        n.kind == NodeKind::Project,
        n.name@.len() == 0,
        n.qualified_name@.len() == 0,
        n.file is None,
        n.range is None,
        n.visibility is None,
        n.signature is None,
        n.docs is None,
        n.metrics@.len() == 0,
{
    Node {
        id: String::new(),
        kind: NodeKind::Project,
        name: String::new(),
        qualified_name: String::new(),
        file: None,
        range: None,
        visibility: None,
        signature: None,
        docs: None,
        metrics: Vec::new(),
    }
}

fn blank_edge() -> (e: Edge)
    ensures
        e.from@.len() == 0,
        e.to@.len() == 0,
        e.kind == crate::model::EdgeKind::Calls,
        e.label is None,
        e.evidence is None,
        e.weight == 0,
        e.source == crate::model::EdgeSource::Ast,
        e.certainty == crate::model::EdgeCertainty::Definite,
        e.call_style is None,
{
    Edge {
        from: String::new(),
        to: String::new(),
        kind: crate::model::EdgeKind::Calls,
        label: None,
        evidence: None,
        weight: 0,
        source: crate::model::EdgeSource::Ast,
        certainty: crate::model::EdgeCertainty::Definite,
        call_style: None,
    }
}

fn blank_graph() -> (g: CodeGraph)
    ensures
        g.schema_version == 0,
        g.project.root@.len() == 0,
        g.project.packages@.len() == 0,
        g.nodes@.len() == 0,
        g.edges@.len() == 0,
        g.semantic is None,
        g.warnings@.len() == 0,
        g.generated_at_ms == 0,
{
    CodeGraph {
        schema_version: 0,
        project: Project { root: String::new(), packages: Vec::new() },
        nodes: Vec::new(),
        edges: Vec::new(),
        semantic: None,
        warnings: Vec::new(),
        generated_at_ms: 0,
    }
}

/// `m` is the merge of `graphs` under `root`.
pub open spec fn is_merge_of(m: CodeGraph, graphs: Seq<CodeGraph>, root: String) -> bool {
    &&& m.schema_version == max_schema(graphs, graphs.len() as int)
    &&& m.project.root == root
    &&& m.project.packages@ == packages_of(graphs, graphs.len() as int)
    &&& m.warnings@ == warnings_of(graphs, graphs.len() as int)
    &&& m.semantic is None
    &&& m.generated_at_ms == max_time(graphs, graphs.len() as int)
    &&& m.nodes@.len() == nodes_before(graphs, graphs.len() as int)
    &&& m.edges@.len() == edges_before(graphs, graphs.len() as int)
    &&& forall|k: int, j: int|
            0 <= k < graphs.len() && 0 <= j < graphs[k].nodes@.len() ==> is_merged_node(
                #[trigger] node_at(m.nodes@, graphs, k, j),
                graphs[k].nodes@[j],
                merge_prefix(graphs, k),
            )
    &&& forall|k: int, j: int|
            0 <= k < graphs.len() && 0 <= j < graphs[k].edges@.len() ==> is_merged_edge(
                #[trigger] edge_at(m.edges@, graphs, k, j),
                graphs[k].edges@[j],
                merge_prefix(graphs, k),
            )
}

/// Merge graphs into one rooted at `root`: each graph's node ids and edge
/// ends are prefixed (`prefix:id`, the prefix numbered by position when
/// there are several graphs), project nodes' names too; packages and
/// warnings are concatenated; the schema version and generation time are
/// the highest.
pub fn merge(graphs: Vec<CodeGraph>, root: String) -> (m: CodeGraph)
    ensures
        is_merge_of(m, graphs@, root),
{
    let ghost orig = graphs@;
    let total = graphs.len();
    let mut gs = graphs;
    let mut schema_version: u32 = 1;
    let mut generated_at_ms: u128 = 0;
    let mut packages: Vec<Package> = Vec::new();
    let mut warnings: Vec<String> = Vec::new();
    let mut nodes: Vec<Node> = Vec::new();
    let mut edges: Vec<Edge> = Vec::new();
    proof {
        reveal_strlit(":");
    }
    let mut i: usize = 0;
    while i < total
        invariant
            total == orig.len(),
            gs@.len() == total,
            i <= total,
            forall|k: int| i <= k < total ==> gs@[k] == orig[k],
            schema_version == max_schema(orig, i as int),
            generated_at_ms == max_time(orig, i as int),
            packages@ == packages_of(orig, i as int),
            warnings@ == warnings_of(orig, i as int),
            nodes@.len() == nodes_before(orig, i as int),
            edges@.len() == edges_before(orig, i as int),
            forall|k: int, j: int|
                0 <= k < i && 0 <= j < orig[k].nodes@.len() ==> is_merged_node(
                    #[trigger] node_at(nodes@, orig, k, j),
                    orig[k].nodes@[j],
                    merge_prefix(orig, k),
                ),
            forall|k: int, j: int|
                0 <= k < i && 0 <= j < orig[k].edges@.len() ==> is_merged_edge(
                    #[trigger] edge_at(edges@, orig, k, j),
                    orig[k].edges@[j],
                    merge_prefix(orig, k),
                ),
        decreases total - i,
    {
        let mut g = blank_graph();
        std::mem::swap(&mut g, &mut gs[i]);
        let ghost g0 = orig[i as int];
        assert(g == g0);
        let base = graph_prefix(&g);
        let prefix = if total > 1 {
            let d = decimal_string(i + 1);
            concat2(base.as_str(), d.as_str())
        } else {
            base
        };
        assert(prefix@ == merge_prefix(orig, i as int));
        if i == 0 || g.schema_version > schema_version {
            schema_version = g.schema_version;
        }
        if g.generated_at_ms > generated_at_ms {
            generated_at_ms = g.generated_at_ms;
        }
        let ghost p0 = packages@;
        packages.append(&mut g.project.packages);
        assert(packages@ =~= p0 + g0.project.packages@);
        let ghost w0 = warnings@;
        warnings.append(&mut g.warnings);
        // Nodes
        let ghost nb = nodes@.len();
        let ghost nodes_prev = nodes@;
        let mut j: usize = 0;
        while j < g.nodes.len()
            invariant
                g0 == orig[i as int],
                g.nodes@.len() == g0.nodes@.len(),
                g.edges == g0.edges,
                forall|t: int| j <= t < g.nodes@.len() ==> g.nodes@[t] == g0.nodes@[t],
                i < total,
                total == orig.len(),
                prefix@ == merge_prefix(orig, i as int),
                nb == nodes_before(orig, i as int),
                j <= g.nodes@.len(),
                nodes@.len() == nb + j,
                forall|t: int| 0 <= t < nb ==> nodes@[t] == nodes_prev[t],
                forall|t: int|
                    0 <= t < j ==> is_merged_node(
                        #[trigger] nodes@[nb + t],
                        g0.nodes@[t],
                        prefix@,
                    ),
            decreases g.nodes@.len() - j,
        {
            let mut node = blank_node();
            std::mem::swap(&mut node, &mut g.nodes[j]);
            let ghost n0 = g0.nodes@[j as int];
            let id = concat3(prefix.as_str(), ":", node.id.as_str());
            let is_project = node.kind == NodeKind::Project;
            let name = if is_project {
                concat3(prefix.as_str(), ":", node.name.as_str())
            } else {
                node.name
            };
            let qualified_name = if is_project {
                concat3(prefix.as_str(), ":", node.qualified_name.as_str())
            } else {
                node.qualified_name
            };
            let merged = Node {
                id,
                kind: node.kind,
                name,
                qualified_name,
                file: node.file,
                range: node.range,
                visibility: node.visibility,
                signature: node.signature,
                docs: node.docs,
                metrics: node.metrics,
            };
            nodes.push(merged);
            j = j + 1;
        }
        // Edges
        let ghost eb = edges@.len();
        let ghost edges_prev = edges@;
        let mut j: usize = 0;
        while j < g.edges.len()
            invariant
                g0 == orig[i as int],
                g.edges@.len() == g0.edges@.len(),
                forall|t: int| j <= t < g.edges@.len() ==> g.edges@[t] == g0.edges@[t],
                prefix@ == merge_prefix(orig, i as int),
                eb == edges_before(orig, i as int),
                j <= g.edges@.len(),
                edges@.len() == eb + j,
                forall|t: int| 0 <= t < eb ==> edges@[t] == edges_prev[t],
                forall|t: int|
                    0 <= t < j ==> is_merged_edge(
                        #[trigger] edges@[eb + t],
                        g0.edges@[t],
                        prefix@,
                    ),
            decreases g.edges@.len() - j,
        {
            let mut edge = blank_edge();
            std::mem::swap(&mut edge, &mut g.edges[j]);
            let from = concat3(prefix.as_str(), ":", edge.from.as_str());
            let to = concat3(prefix.as_str(), ":", edge.to.as_str());
            let merged = Edge {
                from,
                to,
                kind: edge.kind,
                label: edge.label,
                evidence: edge.evidence,
                weight: edge.weight,
                source: edge.source,
                certainty: edge.certainty,
                call_style: edge.call_style,
            };
            edges.push(merged);
            j = j + 1;
        }
        proof {
            assert forall|k: int, jj: int|
                0 <= k < i + 1 && 0 <= jj < orig[k].nodes@.len() implies is_merged_node(
                #[trigger] node_at(nodes@, orig, k, jj),
                orig[k].nodes@[jj],
                merge_prefix(orig, k),
            ) by {
                if k < i {
                    lemma_before_mono(orig, k + 1, i as int);
                    assert(node_at(nodes@, orig, k, jj) == nodes_prev[nodes_before(orig, k) + jj]);
                    assert(node_at(nodes_prev, orig, k, jj) == nodes_prev[nodes_before(orig, k) + jj]);
                } else {
                    assert(node_at(nodes@, orig, k, jj) == nodes@[nb + jj]);
                }
            }
            assert forall|k: int, jj: int|
                0 <= k < i + 1 && 0 <= jj < orig[k].edges@.len() implies is_merged_edge(
                #[trigger] edge_at(edges@, orig, k, jj),
                orig[k].edges@[jj],
                merge_prefix(orig, k),
            ) by {
                if k < i {
                    lemma_before_mono(orig, k + 1, i as int);
                    assert(edge_at(edges@, orig, k, jj) == edges_prev[edges_before(orig, k) + jj]);
                    assert(edge_at(edges_prev, orig, k, jj) == edges_prev[edges_before(orig, k) + jj]);
                } else {
                    assert(edge_at(edges@, orig, k, jj) == edges@[eb + jj]);
                }
            }
        }
        i = i + 1;
    }
    CodeGraph {
        schema_version,
        project: Project { root, packages },
        nodes,
        edges,
        semantic: None,
        warnings,
        generated_at_ms,
    }
}

/// One graph out of several loaded ones: a single graph as it is, several
/// merged under `root`, none when there are none.
pub fn load_many(graphs: Vec<CodeGraph>, root: String) -> (r: Option<CodeGraph>)
    ensures
        graphs@.len() == 0 ==> r is None,
        graphs@.len() == 1 ==> r == Some(graphs@[0]),
        graphs@.len() > 1 ==> (r matches Some(m) && is_merge_of(m, graphs@, root)),
{
    let mut graphs = graphs;
    if graphs.len() == 0 {
        None
    } else if graphs.len() == 1 {
        graphs.pop()
    } else {
        Some(merge(graphs, root))
    }
}

} // verus!
