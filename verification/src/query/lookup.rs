//! Looking symbols up: text search, a node and its neighbours, its source
//! lines, and the scope of a file or module.

use vstd::prelude::*;
use crate::model::{CodeGraph, Edge, EdgeKind, Node, NodeKind};
use crate::query::find::{
    find_positions, found_positions, is_suggestion, lookup_error_ok, require_unique_node, suggest,
    NodeLookupError,
};
use crate::query::index::{degree_at, positions_at, total_weight, QueryIndex};
use crate::query::traversal::{adjacent, neighbours, opt_view};
use crate::sorting::{by_key_desc, min_count, sorted_positions, top_desc};
use crate::text::{
    concat2, concat3, contains, decimal, decimal_string, ends_with, lines, lines_spec, owned,
    push_str, seq_contains, seq_ends_with, str_eq,
};

verus! {

// ---------------------------------------------------------------- search

/// The lower-case form that `str::to_lowercase` gives of a text.
pub uninterp spec fn lowercase_of(s: Seq<char>) -> Seq<char>;

/// Lower-case a text with `str::to_lowercase` (full Unicode case mapping).
/// The result is named by `lowercase_of`; nothing more is stated of it.
#[verifier::external_body]
pub(crate) fn to_lowercase(s: &str) -> (r: String)
    ensures
        r@ == lowercase_of(s@),
{
    s.to_lowercase()
}

/// Positions, in order, of the first `k` nodes whose lower-cased name
/// holds the lower-cased query.
pub open spec fn search_candidates(nodes: Seq<Node>, q: Seq<char>, k: int) -> Seq<int>
    decreases k,
{
    if k <= 0 || k > nodes.len() {
        Seq::empty()
    } else {
        let prev = search_candidates(nodes, q, k - 1);
        if seq_contains(lowercase_of(nodes[k - 1].name@), lowercase_of(q)) {
            prev.push(k - 1)
        } else {
            prev
        }
    }
}

proof fn lemma_search_candidates_bound(nodes: Seq<Node>, q: Seq<char>, k: int)
    requires
        0 <= k <= nodes.len(),
    ensures
        search_candidates(nodes, q, k).len() <= k,
        forall|t: int|
            0 <= t < search_candidates(nodes, q, k).len() ==> 0 <= #[trigger] search_candidates(
                nodes,
                q,
                k,
            )[t] < k,
    decreases k,
{
    if k > 0 {
        lemma_search_candidates_bound(nodes, q, k - 1);
    }
}

/// The degrees of the nodes at `cand`.
pub open spec fn degrees_at(nodes: Seq<Node>, edges: Seq<Edge>, cand: Seq<int>) -> Seq<usize> {
    Seq::new(cand.len(), |k: int| degree_at(edges, nodes[cand[k]].id@) as usize)
}

/// `r` lists the first `limit` of the candidates `cand`, most connected
/// first, in graph order on a tie.
pub open spec fn top_by_degree(r: Seq<usize>, cand: Seq<int>, ds: Seq<usize>, limit: nat) -> bool {
    exists|order: Seq<usize>|
        {
            &&& sorted_positions(order, cand.len() as int, by_key_desc(ds))
            &&& r.len() == min_count(cand.len(), limit)
            &&& forall|k: int| 0 <= k < r.len() ==> r[k] as int == cand[order[k] as int]
        }
}

/// Nodes whose name holds `query`, ignoring case, most connected first:
/// the positions of the first `limit`.
pub fn search(graph: &CodeGraph, query: &str, limit: usize) -> (r: Vec<usize>)
    requires
        2 * total_weight(graph.edges@) <= usize::MAX,
    ensures
        ({
            let cand = search_candidates(graph.nodes@, query@, graph.nodes@.len() as int);
            top_by_degree(r@, cand, degrees_at(graph.nodes@, graph.edges@, cand), limit as nat)
        }),
{
    let index = QueryIndex::new(graph);
    let q = to_lowercase(query);
    let ghost nodes = graph.nodes@;
    let mut cand: Vec<usize> = Vec::new();
    let mut ds: Vec<usize> = Vec::new();
    let mut i: usize = 0;
    while i < graph.nodes.len()
        invariant
            index.wf(),
            index.node_seq() == graph.nodes@,
            index.edge_seq() == graph.edges@,
            nodes == graph.nodes@,
            q@ == lowercase_of(query@),
            i <= nodes.len(),
            cand@.len() == ds@.len(),
            cand@.map_values(|p: usize| p as int) == search_candidates(nodes, query@, i as int),
            forall|k: int|
                0 <= k < ds@.len() ==> #[trigger] ds@[k] == degree_at(
                    graph.edges@,
                    nodes[cand@[k] as int].id@,
                ),
        decreases nodes.len() - i,
    {
        let name = to_lowercase(graph.nodes[i].name.as_str());
        if contains(name.as_str(), q.as_str()) {
            let ghost before = cand@.map_values(|p: usize| p as int);
            cand.push(i);
            ds.push(index.degree(graph.nodes[i].id.as_str()));
            assert(cand@.map_values(|p: usize| p as int) =~= before.push(i as int));
        }
        i = i + 1;
    }
    let ghost cv = cand@.map_values(|p: usize| p as int);
    assert(ds@ =~= degrees_at(nodes, graph.edges@, cv)) by {
        assert forall|k: int| 0 <= k < ds@.len() implies ds@[k] == degrees_at(nodes, graph.edges@, cv)[k] by {
            assert(cv[k] == cand@[k] as int);
        }
    }
    let order = top_desc(&ds, limit);
    let mut r: Vec<usize> = Vec::new();
    let mut k: usize = 0;
    proof {
        let o = choose|o: Seq<usize>|
            sorted_positions(o, ds@.len() as int, by_key_desc(ds@)) && order@ == o.take(
                min_count(ds@.len(), limit as nat) as int,
            );
    }
    while k < order.len()
        invariant
            k <= order@.len(),
            order@.len() <= ds@.len(),
            forall|t: int| 0 <= t < order@.len() ==> #[trigger] order@[t] < ds@.len(),
            cand@.len() == ds@.len(),
            r@.len() == k,
            forall|t: int| 0 <= t < k ==> r@[t] == cand@[order@[t] as int],
        decreases order@.len() - k,
    {
        r.push(cand[order[k]]);
        k = k + 1;
    }
    r
}

// ---------------------------------------------------------------- lookup

/// The answer to a lookup by name: the one node found (with what was
/// computed for it), a "not found" message with suggestions, or the
/// positions of the several nodes that match.
pub enum Lookup<T> {
    Found(T),
    NotFound(String),
    Ambiguous(Vec<usize>),
}

/// Whether `m` is the "not found" message for `name`: the label, the name,
/// and suggestions among the node names.
pub open spec fn not_found_message(nodes: Seq<Node>, name: &str, m: Seq<char>) -> bool {
    exists|s: Seq<char>|
        is_suggestion(name, nodes.map_values(|n: Node| n.name@), 3, s) && m == "symbol `"@ + name@
            + "` not found"@ + s
}

/// The lookup outcome that does not depend on what is computed for a found
/// node.
pub open spec fn lookup_shape<T>(nodes: Seq<Node>, name: &str, r: Lookup<T>) -> bool {
    let found = found_positions(nodes, name@);
    match r {
        Lookup::Found(_) => found.len() == 1,
        Lookup::NotFound(m) => found.len() == 0 && not_found_message(nodes, name, m@),
        Lookup::Ambiguous(ps) => found.len() > 1 && ps@.map_values(|p: usize| p as int) == found,
    }
}

/// Which node `name` picks: its position when exactly one matches.
pub fn pick_node(graph: &CodeGraph, name: &str) -> (r: Lookup<usize>)
    requires
        name@.len() < usize::MAX,
        forall|k: int|
            0 <= k < graph.nodes@.len() ==> (#[trigger] graph.nodes@[k]).name@.len() < usize::MAX,
    ensures
        lookup_shape(graph.nodes@, name, r),
        r matches Lookup::Found(p) ==> p as int == found_positions(graph.nodes@, name@)[0]
            && p < graph.nodes@.len(),
{
    let found = find_positions(graph, name);
    if found.len() == 1 {
        return Lookup::Found(found[0]);
    }
    if found.len() > 1 {
        return Lookup::Ambiguous(found);
    }
    match require_unique_node(graph, name, "symbol") {
        Err(NodeLookupError::NotFound(m)) => {
            proof {
                reveal_strlit("symbol");
                reveal_strlit("symbol `");
                reveal_strlit(" `");
                reveal_strlit("`");
                reveal_strlit(" not found");
                reveal_strlit("` not found");
                assert("symbol"@ + " `"@ =~= "symbol `"@);
                assert("`"@ + " not found"@ =~= "` not found"@);
                let head = "symbol"@ + " `"@ + name@ + "`"@;
                let sg = choose|sg: Seq<char>|
                    is_suggestion(name, graph.nodes@.map_values(|n: Node| n.name@), 3, sg) && m@
                        == head + " not found"@ + sg;
                assert(m@ =~= "symbol `"@ + name@ + "` not found"@ + sg);
            }
            Lookup::NotFound(m)
        },
        _ => {
            assert(false);
            Lookup::NotFound(String::new())
        },
    }
}

/// The neighbours `adjacent` lists: the first `limit` edges at `id` of the
/// wanted kind whose far end is a node.
pub open spec fn adjacent_spec(
    nodes: Seq<Node>,
    edges: Seq<Edge>,
    id: Seq<char>,
    outbound: bool,
    kind: Option<Seq<char>>,
    limit: nat,
) -> Seq<(usize, usize)> {
    let all = neighbours(nodes, edges, positions_at(edges, id, outbound), outbound, kind);
    all.take(if all.len() <= limit {
        all.len() as int
    } else {
        limit as int
    })
}

/// A node and its neighbours: up to 100 incoming and 100 outgoing edges,
/// each as the edge's position and the other node's position.
pub struct InspectView {
    pub node: usize,
    pub incoming: Vec<(usize, usize)>,
    pub outgoing: Vec<(usize, usize)>,
}

/// Inspect the node named `name`: the node with its incoming and outgoing
/// neighbours.
pub fn inspect(graph: &CodeGraph, name: &str) -> (r: Lookup<InspectView>)
    requires
        2 * total_weight(graph.edges@) <= usize::MAX,
        name@.len() < usize::MAX,
        forall|k: int|
            0 <= k < graph.nodes@.len() ==> (#[trigger] graph.nodes@[k]).name@.len() < usize::MAX,
    ensures
        lookup_shape(graph.nodes@, name, r),
        r matches Lookup::Found(v) ==> {
            let p = found_positions(graph.nodes@, name@)[0];
            let id = graph.nodes@[p].id@;
            &&& v.node as int == p
            &&& v.incoming@ == adjacent_spec(graph.nodes@, graph.edges@, id, false, None, 100)
            &&& v.outgoing@ == adjacent_spec(graph.nodes@, graph.edges@, id, true, None, 100)
        },
{
    let index = QueryIndex::new(graph);
    match pick_node(graph, name) {
        Lookup::Found(p) => {
            let id = graph.nodes[p].id.as_str();
            let incoming = adjacent(&index, id, false, None, 100);
            let outgoing = adjacent(&index, id, true, None, 100);
            Lookup::Found(InspectView { node: p, incoming, outgoing })
        },
        Lookup::NotFound(m) => Lookup::NotFound(m),
        Lookup::Ambiguous(ps) => Lookup::Ambiguous(ps),
    }
}

// ---------------------------------------------------------------- source

/// `symbol `name`` followed by `tail`.
pub open spec fn symbol_message(name: Seq<char>, tail: Seq<char>) -> Seq<char> {
    "symbol `"@ + name + "`"@ + tail
}

fn symbol_text(name: &str, tail: &str) -> (r: String)
    ensures
        r@ == symbol_message(name@, tail@),
{
    proof {
        reveal_strlit("symbol `");
        reveal_strlit("`");
    }
    let mut m = concat3("symbol `", name, "`");
    push_str(&mut m, tail);
    m
}

/// The node whose source is shown, or the several nodes that match.
pub enum SourcePick {
    Node(usize),
    Ambiguous(Vec<usize>),
}

/// Pick the node whose source lines `name` asks for: it must be the only
/// match and have a file and a line range; otherwise the error says why.
pub fn source(graph: &CodeGraph, name: &str) -> (r: Result<SourcePick, String>)
    requires
        name@.len() < usize::MAX,
        forall|k: int|
            0 <= k < graph.nodes@.len() ==> (#[trigger] graph.nodes@[k]).name@.len() < usize::MAX,
    ensures
        ({
            let found = found_positions(graph.nodes@, name@);
            match r {
                Ok(SourcePick::Node(p)) => {
                    &&& found.len() == 1
                    &&& p as int == found[0]
                    &&& graph.nodes@[p as int].file is Some
                    &&& graph.nodes@[p as int].range is Some
                },
                Ok(SourcePick::Ambiguous(ps)) => found.len() > 1 && ps@.map_values(
                    |p: usize| p as int,
                ) == found,
                Err(m) => if found.len() == 0 {
                    not_found_message(graph.nodes@, name, m@)
                } else {
                    &&& found.len() == 1
                    &&& if graph.nodes@[found[0]].file is None {
                        m@ == symbol_message(name@, " has no associated file"@)
                    } else {
                        &&& graph.nodes@[found[0]].range is None
                        &&& m@ == symbol_message(name@, " has no source range"@)
                    }
                },
            }
        }),
{
    match pick_node(graph, name) {
        Lookup::Found(p) => {
            if graph.nodes[p].file.is_none() {
                proof {
                    reveal_strlit(" has no associated file");
                }
                return Err(symbol_text(name, " has no associated file"));
            }
            if graph.nodes[p].range.is_none() {
                proof {
                    reveal_strlit(" has no source range");
                }
                return Err(symbol_text(name, " has no source range"));
            }
            Ok(SourcePick::Node(p))
        },
        Lookup::NotFound(m) => Err(m),
        Lookup::Ambiguous(ps) => Ok(SourcePick::Ambiguous(ps)),
    }
}

/// The message for a range that selects no line of a file with `n` lines.
pub open spec fn bad_range_message(name: Seq<char>, start: nat, end: nat, n: nat) -> Seq<char> {
    "invalid range for `"@ + name + "`: start_line="@ + decimal(start) + " end_line="@ + decimal(end)
        + " (file has "@ + decimal(n) + " lines)"@
}

/// The lines `start_line..=end_line` (1-based) of a file's content, or an
/// error when they select no line.
pub fn source_snippet(name: &str, content: &str, start_line: usize, end_line: usize) -> (r: Result<
    Vec<String>,
    String,
>)
    ensures
        match crate::query::commands::snippet_spec(content@, start_line, end_line) {
            Some(ls) => r matches Ok(v) && crate::model::views(v@) == ls,
            None => r matches Err(m) && m@ == bad_range_message(
                name@,
                start_line as nat,
                end_line as nat,
                lines_spec(content@).len(),
            ),
        },
{
    match crate::query::commands::source_lines(content, start_line, end_line) {
        Some(v) => Ok(v),
        None => {
            let n = lines(content).len();
            proof {
                reveal_strlit("invalid range for `");
                reveal_strlit("`: start_line=");
                reveal_strlit(" end_line=");
                reveal_strlit(" (file has ");
                reveal_strlit(" lines)");
            }
            let mut m = concat3("invalid range for `", name, "`: start_line=");
            push_str(&mut m, decimal_string(start_line).as_str());
            push_str(&mut m, " end_line=");
            push_str(&mut m, decimal_string(end_line).as_str());
            push_str(&mut m, " (file has ");
            push_str(&mut m, decimal_string(n).as_str());
            push_str(&mut m, " lines)");
            Err(m)
        },
    }
}

// ---------------------------------------------------------------- scope

/// What a scope is asked of: a file or a module.
#[derive(Clone, Copy, Debug, PartialEq, Eq, Structural)]
pub enum ScopeKind {
    File,
    Module,
}

/// The scope of a file or module: the node, what it declares, and its
/// neighbours. A file's scope lists its outgoing edges; a module's, its
/// imports.
pub struct ScopeView {
    pub node: usize,
    pub declares: Vec<(usize, usize)>,
    pub imports: Option<Vec<(usize, usize)>>,
    pub incoming: Vec<(usize, usize)>,
    pub outgoing: Option<Vec<(usize, usize)>>,
}

/// Whether node `n` is the file `target` names: a file node whose name is
/// `target` or ends with it, or whose qualified name ends with it.
pub open spec fn is_scope_file(n: Node, target: Seq<char>) -> bool {
    n.kind == NodeKind::File && (n.name@ == target || seq_ends_with(n.name@, target)
        || seq_ends_with(n.qualified_name@, target))
}

/// The position of the first of nodes `i..` that is the file `target`.
pub open spec fn first_scope_file(nodes: Seq<Node>, target: Seq<char>, i: int) -> Option<int>
    decreases nodes.len() - i,
{
    if i < 0 || i >= nodes.len() {
        None
    } else if is_scope_file(nodes[i], target) {
        Some(i)
    } else {
        first_scope_file(nodes, target, i + 1)
    }
}

/// The first of positions `ps[i..]` whose edge is a module-file edge.
pub open spec fn first_module_file(edges: Seq<Edge>, ps: Seq<usize>, i: int) -> Option<int>
    decreases ps.len() - i,
{
    if i < 0 || i >= ps.len() {
        None
    } else if edges[ps[i] as int].kind == EdgeKind::ModuleFile {
        Some(ps[i] as int)
    } else {
        first_module_file(edges, ps, i + 1)
    }
}

/// The first of the found positions `found[i..]` that is a module.
pub open spec fn first_module(nodes: Seq<Node>, found: Seq<int>, i: int) -> Option<int>
    decreases found.len() - i,
{
    if i < 0 || i >= found.len() {
        None
    } else if nodes[found[i]].kind == NodeKind::Module {
        Some(found[i])
    } else {
        first_module(nodes, found, i + 1)
    }
}

/// The names of the nodes of a kind, in order.
pub open spec fn names_of_kind(nodes: Seq<Node>, kind: NodeKind, k: int) -> Seq<Seq<char>>
    decreases k,
{
    if k <= 0 || k > nodes.len() {
        Seq::empty()
    } else {
        let prev = names_of_kind(nodes, kind, k - 1);
        if nodes[k - 1].kind == kind {
            prev.push(nodes[k - 1].name@)
        } else {
            prev
        }
    }
}

fn names_of(graph: &CodeGraph, kind: NodeKind) -> (r: Vec<&str>)
    ensures
        r@.map_values(|c: &str| c@) == names_of_kind(graph.nodes@, kind, graph.nodes@.len() as int),
        forall|k: int|
            0 <= k < r@.len() ==> exists|j: int|
                0 <= j < graph.nodes@.len() && (#[trigger] r@[k])@ == graph.nodes@[j].name@,
{
    let mut r: Vec<&str> = Vec::new();
    let mut i: usize = 0;
    while i < graph.nodes.len()
        invariant
            i <= graph.nodes@.len(),
            r@.map_values(|c: &str| c@) == names_of_kind(graph.nodes@, kind, i as int),
            forall|k: int|
                0 <= k < r@.len() ==> exists|j: int|
                    0 <= j < graph.nodes@.len() && (#[trigger] r@[k])@ == graph.nodes@[j].name@,
        decreases graph.nodes@.len() - i,
    {
        if graph.nodes[i].kind == kind {
            let ghost before = r@.map_values(|c: &str| c@);
            r.push(graph.nodes[i].name.as_str());
            assert(r@.map_values(|c: &str| c@) =~= before.push(graph.nodes@[i as int].name@));
            assert(r@[r@.len() - 1]@ == graph.nodes@[i as int].name@);
        }
        i = i + 1;
    }
    r
}

/// `kind `target`` not found, followed by suggestions among `cands`.
pub open spec fn scope_not_found(label: Seq<char>, target: &str, cands: Seq<Seq<char>>, m: Seq<char>) -> bool {
    exists|s: Seq<char>| is_suggestion(target, cands, 3, s) && m == label + " `"@ + target@ + "` not found"@ + s
}

/// The scope of the file or module `target` names.
pub fn scope(graph: &CodeGraph, target: &str, kind: ScopeKind) -> (r: Result<ScopeView, String>)
    requires
        2 * total_weight(graph.edges@) <= usize::MAX,
        target@.len() < usize::MAX,
        forall|k: int|
            0 <= k < graph.nodes@.len() ==> (#[trigger] graph.nodes@[k]).name@.len() < usize::MAX,
    ensures
        ({
            let nodes = graph.nodes@;
            let edges = graph.edges@;
            match kind {
                ScopeKind::File => match first_scope_file(nodes, target@, 0) {
                    None => r matches Err(m) && scope_not_found(
                        "file"@,
                        target,
                        names_of_kind(nodes, NodeKind::File, nodes.len() as int),
                        m@,
                    ),
                    Some(p) => r matches Ok(v) && {
                        let id = nodes[p].id@;
                        &&& v.node as int == p
                        &&& v.declares@ == match first_module_file(
                            edges,
                            positions_at(edges, id, true),
                            0,
                        ) {
                            Some(e) => adjacent_spec(nodes, edges, edges[e].to@, true, Some("declares"@), 500),
                            None => Seq::empty(),
                        }
                        &&& v.imports is None
                        &&& v.incoming@ == adjacent_spec(nodes, edges, id, false, None, 100)
                        &&& v.outgoing matches Some(o) && o@ == adjacent_spec(nodes, edges, id, true, None, 100)
                    },
                },
                ScopeKind::Module => match first_module(nodes, found_positions(nodes, target@), 0) {
                    None => r matches Err(m) && scope_not_found(
                        "module"@,
                        target,
                        names_of_kind(nodes, NodeKind::Module, nodes.len() as int),
                        m@,
                    ),
                    Some(p) => r matches Ok(v) && {
                        let id = nodes[p].id@;
                        &&& v.node as int == p
                        &&& v.declares@ == adjacent_spec(nodes, edges, id, true, Some("declares"@), 500)
                        &&& v.imports matches Some(im) && im@ == adjacent_spec(nodes, edges, id, true, Some("imports"@), 200)
                        &&& v.incoming@ == adjacent_spec(nodes, edges, id, false, None, 100)
                        &&& v.outgoing is None
                    },
                },
            }
        }),
{
    let index = QueryIndex::new(graph);
    let ghost nodes = graph.nodes@;
    let ghost edges = graph.edges@;
    proof {
        reveal_strlit("declares");
        reveal_strlit("imports");
        reveal_strlit(" `");
        reveal_strlit("` not found");
    }
    match kind {
        ScopeKind::File => {
            let mut i: usize = 0;
            let mut found: Option<usize> = None;
            while i < graph.nodes.len() && found.is_none()
                invariant
                    i <= nodes.len(),
                    nodes == graph.nodes@,
                    match found {
                        None => first_scope_file(nodes, target@, 0) == first_scope_file(
                            nodes,
                            target@,
                            i as int,
                        ),
                        Some(p) => first_scope_file(nodes, target@, 0) == Some(p as int) && p
                            < nodes.len(),
                    },
                decreases nodes.len() - i,
            {
                let n = &graph.nodes[i];
                if n.kind == NodeKind::File && (str_eq(n.name.as_str(), target) || ends_with(
                    n.name.as_str(),
                    target,
                ) || ends_with(n.qualified_name.as_str(), target)) {
                    found = Some(i);
                }
                i = i + 1;
            }
            match found {
                None => {
                    let files = names_of(graph, NodeKind::File);
                    let s = suggest(target, files.as_slice(), 3);
                    proof {
                        reveal_strlit("file `");
                        reveal_strlit("file");
                    }
                    let mut m = concat3("file `", target, "` not found");
                    push_str(&mut m, s.as_str());
                    assert(m@ =~= "file"@ + " `"@ + target@ + "` not found"@ + s@);
                    Err(m)
                },
                Some(p) => {
                    let id = graph.nodes[p].id.as_str();
                    let ps = index.edges(id, true);
                    let mut j: usize = 0;
                    let mut mf: Option<usize> = None;
                    let ne = graph.edges.len();
                    proof {
                        crate::query::index::lemma_positions_at(edges, id@, true);
                    }
                    while j < ps.len() && mf.is_none()
                        invariant
                            j <= ps@.len(),
                            index.wf(),
                            index.edge_seq() == edges,
                            edges == graph.edges@,
                            ps@ == positions_at(edges, id@, true),
                            forall|t: int| 0 <= t < ps@.len() ==> #[trigger] ps@[t] < edges.len(),
                            match mf {
                                None => first_module_file(edges, ps@, 0) == first_module_file(
                                    edges,
                                    ps@,
                                    j as int,
                                ),
                                Some(e) => first_module_file(edges, ps@, 0) == Some(e as int) && e
                                    < edges.len(),
                            },
                        decreases ps@.len() - j,
                    {
                        if graph.edges[ps[j]].kind == EdgeKind::ModuleFile {
                            mf = Some(ps[j]);
                        }
                        j = j + 1;
                    }
                    let declares = match mf {
                        Some(e) => adjacent(&index, graph.edges[e].to.as_str(), true, Some("declares"), 500),
                        None => Vec::new(),
                    };
                    let incoming = adjacent(&index, id, false, None, 100);
                    let outgoing = adjacent(&index, id, true, None, 100);
                    Ok(ScopeView { node: p, declares, imports: None, incoming, outgoing: Some(outgoing) })
                },
            }
        },
        ScopeKind::Module => {
            let found = find_positions(graph, target);
            let ghost fv = found@.map_values(|p: usize| p as int);
            let mut i: usize = 0;
            let mut hit: Option<usize> = None;
            while i < found.len() && hit.is_none()
                invariant
                    i <= found@.len(),
                    nodes == graph.nodes@,
                    fv == found@.map_values(|p: usize| p as int),
                    fv == found_positions(nodes, target@),
                    forall|k: int| 0 <= k < found@.len() ==> #[trigger] found@[k] < nodes.len(),
                    match hit {
                        None => first_module(nodes, fv, 0) == first_module(nodes, fv, i as int),
                        Some(p) => first_module(nodes, fv, 0) == Some(p as int) && p < nodes.len(),
                    },
                decreases found@.len() - i,
            {
                if graph.nodes[found[i]].kind == NodeKind::Module {
                    hit = Some(found[i]);
                }
                i = i + 1;
            }
            match hit {
                None => {
                    let mods = names_of(graph, NodeKind::Module);
                    let s = suggest(target, mods.as_slice(), 3);
                    proof {
                        reveal_strlit("module `");
                        reveal_strlit("module");
                    }
                    let mut m = concat3("module `", target, "` not found");
                    push_str(&mut m, s.as_str());
                    assert(m@ =~= "module"@ + " `"@ + target@ + "` not found"@ + s@);
                    Err(m)
                },
                Some(p) => {
                    let id = graph.nodes[p].id.as_str();
                    let declares = adjacent(&index, id, true, Some("declares"), 500);
                    let imports = adjacent(&index, id, true, Some("imports"), 200);
                    let incoming = adjacent(&index, id, false, None, 100);
                    Ok(ScopeView { node: p, declares, imports: Some(imports), incoming, outgoing: None })
                },
            }
        },
    }
}

} // verus!
