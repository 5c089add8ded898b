//! Decisions of the language-server enrichment pass: which symbols are
//! asked about, what a hover answer adds to a signature, which references
//! become call edges, and the framing of protocol messages.
//!
//! The session itself (starting the server, sending requests, reading
//! replies) is driven by the caller, which hands each reply to these
//! functions as plain values.

use vstd::prelude::*;
use crate::analyze::refactor_order::strip_trail;
use crate::analyzer::builder::opt_view;
use crate::model::{
    CodeGraph, Edge, EdgeCertainty, EdgeKind, EdgeSource, Location, Node, NodeKind, SemanticInfo,
    views,
};
use crate::text::{
    join, join_spec,
    ascii_lowercase, chars_of, concat2, concat3, contains, decimal, decimal_string, is_ascii_digit,
    is_blank, lines, lines_spec, owned, seq_ascii_lower, seq_contains, seq_starts_with,
    starts_with, str_eq, string_from_range, trim, trim_spec,
};

verus! {

// ---------------------------------------------------------------- targets

/// The kinds of symbol the pass asks the language server about.
pub open spec fn is_semantic_target(k: NodeKind) -> bool {
    k == NodeKind::Function || k == NodeKind::Method || k == NodeKind::AsyncFunction || k
        == NodeKind::AsyncMethod || k == NodeKind::ClassMethod || k == NodeKind::StaticMethod || k
        == NodeKind::Property
}

fn is_target_kind(k: NodeKind) -> (r: bool)
    ensures
        r == is_semantic_target(k),
{
    match k {
        NodeKind::Function | NodeKind::Method | NodeKind::AsyncFunction | NodeKind::AsyncMethod
        | NodeKind::ClassMethod | NodeKind::StaticMethod | NodeKind::Property => true,
        _ => false,
    }
}

/// Positions, in order, of the target symbols among the first `k` nodes.
pub open spec fn target_positions(nodes: Seq<Node>, k: int) -> Seq<int>
    decreases k,
{
    if k <= 0 {
        Seq::empty()
    } else {
        let prev = target_positions(nodes, k - 1);
        if is_semantic_target(nodes[k - 1].kind) {
            prev.push(k - 1)
        } else {
            prev
        }
    }
}

proof fn lemma_target_prefix(nodes: Seq<Node>, i: int, j: int)
    requires
        0 <= i <= j,
    ensures
        target_positions(nodes, i).len() <= target_positions(nodes, j).len(),
        forall|t: int|
            0 <= t < target_positions(nodes, i).len() ==> target_positions(nodes, i)[t]
                == target_positions(nodes, j)[t],
    decreases j - i,
{
    if i < j {
        lemma_target_prefix(nodes, i, j - 1);
    }
}

/// The positions of the first `limit` target symbols, in node order.
pub fn semantic_targets(graph: &CodeGraph, limit: usize) -> (r: Vec<usize>)
    ensures
        ({
            let all = target_positions(graph.nodes@, graph.nodes@.len() as int);
            &&& r@.len() == (if limit < all.len() {
                limit as int
            } else {
                all.len() as int
            })
            &&& forall|t: int| 0 <= t < r@.len() ==> r@[t] as int == all[t]
        }),
{
    let ghost nodes = graph.nodes@;
    let mut r: Vec<usize> = Vec::new();
    let mut i: usize = 0;
    while i < graph.nodes.len() && r.len() < limit
        invariant
            nodes == graph.nodes@,
            i <= nodes.len(),
            r@.len() <= limit,
            r@.len() == target_positions(nodes, i as int).len(),
            forall|t: int| 0 <= t < r@.len() ==> r@[t] as int == target_positions(nodes, i as int)[t],
        decreases nodes.len() - i,
    {
        if is_target_kind(graph.nodes[i].kind) {
            r.push(i);
        }
        i = i + 1;
    }
    proof {
        lemma_target_prefix(nodes, i as int, nodes.len() as int);
    }
    r
}

// ---------------------------------------------------------------- hover

/// The text of a hover answer: a plain or language-tagged string, a list of
/// them, or a markup block.
pub enum HoverContent {
    Text(String),
    Items(Vec<String>),
    Markup(String),
}

/// A text, trimmed, if anything is left.
pub open spec fn nonblank_trim(s: Seq<char>) -> Option<Seq<char>> {
    if trim_spec(s).len() > 0 {
        Some(trim_spec(s))
    } else {
        None
    }
}

/// The first item that is not blank, trimmed.
pub open spec fn first_nonblank(items: Seq<Seq<char>>) -> Option<Seq<char>>
    decreases items.len(),
{
    if items.len() == 0 {
        None
    } else {
        match nonblank_trim(items[0]) {
            Some(t) => Some(t),
            None => first_nonblank(items.drop_first()),
        }
    }
}

/// The type text a hover answer gives, if any.
pub open spec fn hover_type_spec(h: HoverContent) -> Option<Seq<char>> {
    match h {
        HoverContent::Text(t) => nonblank_trim(t@),
        HoverContent::Items(v) => first_nonblank(views(v@)),
        HoverContent::Markup(t) => nonblank_trim(t@),
    }
}

fn nonblank_trimmed(s: &str) -> (r: Option<String>)
    ensures
        opt_view(r) == nonblank_trim(s@),
{
    let t = trim(s);
    if t.as_str().unicode_len() > 0 {
        Some(t)
    } else {
        None
    }
}

/// The type text of a hover answer: its text trimmed, or for a list the
/// first item that is not blank; nothing when all is blank.
pub fn hover_type(h: &HoverContent) -> (r: Option<String>)
    ensures
        opt_view(r) == hover_type_spec(*h),
{
    match h {
        HoverContent::Text(t) => nonblank_trimmed(t.as_str()),
        HoverContent::Markup(t) => nonblank_trimmed(t.as_str()),
        HoverContent::Items(v) => {
            let ghost all = views(v@);
            let mut i: usize = 0;
            assert(all.skip(0) =~= all);
            while i < v.len()
                invariant
                    all == views(v@),
                    hover_type_spec(*h) == first_nonblank(all),
                    i <= v@.len(),
                    first_nonblank(all) == first_nonblank(all.skip(i as int)),
                decreases v@.len() - i,
            {
                assert(all.skip(i as int)[0] == v@[i as int]@);
                let t = nonblank_trimmed(v[i].as_str());
                if t.is_some() {
                    assert(first_nonblank(all.skip(i as int)) == nonblank_trim(all.skip(i as int)[0]));
                    return t;
                }
                assert(all.skip(i as int).drop_first() =~= all.skip(i + 1));
                i = i + 1;
            }
            assert(all.skip(i as int) =~= Seq::<Seq<char>>::empty());
            None
        },
    }
}

/// The signature after a hover answer `ty`: kept when it already holds
/// `ty`; otherwise `existing -> ty`, or `ty` alone when there is no
/// signature or it is blank.
pub open spec fn hover_signature(existing: Option<Seq<char>>, ty: Seq<char>) -> Option<Seq<char>> {
    match existing {
        Some(s) => if seq_contains(s, ty) {
            Some(s)
        } else if trim_spec(s).len() > 0 {
            Some(trim_spec(s) + " -> "@ + trim_spec(ty))
        } else {
            Some(trim_spec(ty))
        },
        None => Some(trim_spec(ty)),
    }
}

/// Whether a hover answer `ty` changes the signature.
pub open spec fn hover_enriches(existing: Option<Seq<char>>, ty: Seq<char>) -> bool {
    !(existing matches Some(s) && seq_contains(s, ty))
}

/// A node with no content, held briefly while a node is updated in place.
fn placeholder_node() -> (n: Node)
    ensures
        n.id@.len() == 0,
        n.kind == NodeKind::Project,
        n.name@.len() == 0,
        n.qualified_name@.len() == 0,
        n.file is None,
        n.range is None,
        n.visibility is None,
        n.signature is None,
        n.docs is None,
        n.metrics@.len() == 0,
{
    Node {
        id: String::new(),
        kind: NodeKind::Project,
        name: String::new(),
        qualified_name: String::new(),
        file: None,
        range: None,
        visibility: None,
        signature: None,
        docs: None,
        metrics: Vec::new(),
    }
}

/// Record a hover answer `ty` for node `node_index`: the symbol counts as
/// confirmed, and its signature gains the type unless it already holds it.
pub fn apply_hover(graph: &mut CodeGraph, node_index: usize, ty: &str, info: &mut SemanticInfo)
    requires
        node_index < old(graph).nodes@.len(),
        old(info).confirmed_symbols < usize::MAX,
        old(info).enriched_symbols < usize::MAX,
    ensures
        ({
            let o = old(graph).nodes@[node_index as int];
            let existing = opt_view(o.signature);
            let n = final(graph).nodes@[node_index as int];
            let enriched = hover_enriches(existing, ty@);
            &&& final(graph).nodes@.len() == old(graph).nodes@.len()
            &&& forall|j: int|
                0 <= j < old(graph).nodes@.len() && j != node_index ==> final(graph).nodes@[j]
                    == old(graph).nodes@[j]
            &&& n == (Node { signature: n.signature, ..o })
            &&& opt_view(n.signature) == hover_signature(existing, ty@)
            &&& *final(graph) == (CodeGraph { nodes: final(graph).nodes, ..*old(graph) })
            &&& *final(info) == (SemanticInfo {
                confirmed_symbols: (old(info).confirmed_symbols + 1) as usize,
                enriched_symbols: (old(info).enriched_symbols + if enriched {
                    1int
                } else {
                    0int
                }) as usize,
                ..*old(info)
            })
        }),
{
    info.confirmed_symbols = info.confirmed_symbols + 1;
    let already = match &graph.nodes[node_index].signature {
        Some(s) => contains(s.as_str(), ty),
        None => false,
    };
    if !already {
        let updated = match &graph.nodes[node_index].signature {
            Some(s) => {
                if !is_blank(s.as_str()) {
                    let a = trim(s.as_str());
                    let b = trim(ty);
                    proof {
                        reveal_strlit(" -> ");
                    }
                    concat3(a.as_str(), " -> ", b.as_str())
                } else {
                    trim(ty)
                }
            },
            None => trim(ty),
        };
        let mut node = placeholder_node();
        std::mem::swap(&mut node, &mut graph.nodes[node_index]);
        node.signature = Some(updated);
        graph.nodes.set(node_index, node);
        info.enriched_symbols = info.enriched_symbols + 1;
    }
}

// ---------------------------------------------------------------- references

/// A function-like symbol with a file and a line range: where a reference
/// can be attributed.
pub struct FunctionSite {
    pub file: String,
    pub id: String,
    pub start_line: usize,
    pub end_line: usize,
}

/// A site as plain values: file, id, first and last line.
pub open spec fn site_view(s: FunctionSite) -> (Seq<char>, Seq<char>, int, int) {
    (s.file@, s.id@, s.start_line as int, s.end_line as int)
}

/// Views of a list of sites.
pub open spec fn site_views(v: Seq<FunctionSite>) -> Seq<(Seq<char>, Seq<char>, int, int)> {
    v.map_values(|s: FunctionSite| site_view(s))
}

/// The sites of the first `k` nodes, in node order.
pub open spec fn function_sites(nodes: Seq<Node>, k: int) -> Seq<(Seq<char>, Seq<char>, int, int)>
    decreases k,
{
    if k <= 0 {
        Seq::empty()
    } else {
        let prev = function_sites(nodes, k - 1);
        let n = nodes[k - 1];
        if is_semantic_target(n.kind) && n.file is Some && n.range is Some {
            prev.push(
                (n.file->0@, n.id@, n.range->0.start_line as int, n.range->0.end_line as int),
            )
        } else {
            prev
        }
    }
}

/// The sites of the graph's function-like symbols that have a file and a
/// range, in node order.
pub fn build_file_function_index(graph: &CodeGraph) -> (r: Vec<FunctionSite>)
    ensures
        site_views(r@) == function_sites(graph.nodes@, graph.nodes@.len() as int),
{
    let ghost nodes = graph.nodes@;
    let mut r: Vec<FunctionSite> = Vec::new();
    let mut i: usize = 0;
    while i < graph.nodes.len()
        invariant
            nodes == graph.nodes@,
            i <= nodes.len(),
            site_views(r@) == function_sites(nodes, i as int),
        decreases nodes.len() - i,
    {
        let n = &graph.nodes[i];
        let ghost before = r@;
        if is_target_kind(n.kind) {
            match (&n.file, &n.range) {
                (Some(f), Some(rg)) => {
                    r.push(
                        FunctionSite {
                            file: owned(f.as_str()),
                            id: owned(n.id.as_str()),
                            start_line: rg.start_line,
                            end_line: rg.end_line,
                        },
                    );
                    assert(site_views(r@) =~= site_views(before).push(site_view(r@.last())));
                },
                _ => {},
            }
        }
        i = i + 1;
    }
    r
}

/// The line span of a site; zero when its range is reversed.
pub open spec fn span(s: (Seq<char>, Seq<char>, int, int)) -> int {
    if s.3 >= s.2 {
        s.3 - s.2
    } else {
        0
    }
}

/// Whether a site in `file` covers `line`.
pub open spec fn covers(s: (Seq<char>, Seq<char>, int, int), file: Seq<char>, line: int) -> bool {
    s.0 == file && s.2 <= line && line <= s.3
}

/// Among the first `k` sites, the position of the narrowest one that covers
/// `line` of `file`; the earliest on a tie.
pub open spec fn best_site(
    sites: Seq<(Seq<char>, Seq<char>, int, int)>,
    file: Seq<char>,
    line: int,
    k: int,
) -> Option<int>
    decreases k,
{
    if k <= 0 {
        None
    } else {
        let b = best_site(sites, file, line, k - 1);
        if covers(sites[k - 1], file, line) {
            match b {
                None => Some(k - 1),
                Some(j) => if span(sites[k - 1]) < span(sites[j]) {
                    Some(k - 1)
                } else {
                    b
                },
            }
        } else {
            b
        }
    }
}

proof fn lemma_best_site_bounds(
    sites: Seq<(Seq<char>, Seq<char>, int, int)>,
    file: Seq<char>,
    line: int,
    k: int,
)
    ensures
        best_site(sites, file, line, k) matches Some(j) ==> 0 <= j < k,
    decreases k,
{
    if k > 0 {
        lemma_best_site_bounds(sites, file, line, k - 1);
    }
}

/// The id of the narrowest function site of `rel_file` whose lines cover
/// `line` (the earliest on a tie), if any.
pub fn resolve_caller_id(file_index: &Vec<FunctionSite>, rel_file: &str, line: usize) -> (r:
    Option<String>)
    ensures
        ({
            let sites = site_views(file_index@);
            match best_site(sites, rel_file@, line as int, sites.len() as int) {
                None => r is None,
                Some(j) => r is Some && r->0@ == sites[j].1,
            }
        }),
{
    let ghost sites = site_views(file_index@);
    let mut best: Option<usize> = None;
    let mut i: usize = 0;
    while i < file_index.len()
        invariant
            sites == site_views(file_index@),
            i <= file_index@.len(),
            match best {
                None => best_site(sites, rel_file@, line as int, i as int) is None,
                Some(b) => best_site(sites, rel_file@, line as int, i as int) == Some(b as int),
            },
            best matches Some(b) ==> b < i,
        decreases file_index@.len() - i,
    {
        let s = &file_index[i];
        assert(site_view(*s) == sites[i as int]);
        if str_eq(s.file.as_str(), rel_file) && s.start_line <= line && line <= s.end_line {
            match best {
                None => {
                    best = Some(i);
                },
                Some(b) => {
                    let cur = &file_index[b];
                    assert(site_view(*cur) == sites[b as int]);
                    let cur_span = if cur.end_line >= cur.start_line {
                        cur.end_line - cur.start_line
                    } else {
                        0
                    };
                    let new_span = if s.end_line >= s.start_line {
                        s.end_line - s.start_line
                    } else {
                        0
                    };
                    if new_span < cur_span {
                        best = Some(i);
                    }
                },
            }
        }
        i = i + 1;
    }
    match best {
        None => None,
        Some(b) => {
            assert(site_view(file_index@[b as int]) == sites[b as int]);
            Some(owned(file_index[b].id.as_str()))
        },
    }
}

/// Whether edge `e` is a call from `from` to `to` seen at `line`.
pub open spec fn is_calls_edge_at(e: Edge, from: Seq<char>, to: Seq<char>, line: int) -> bool {
    &&& e.kind == EdgeKind::Calls
    &&& e.from@ == from
    &&& e.to@ == to
    &&& e.evidence matches Some(loc) && loc.line == line
}

/// Whether some edge is a call from `from` to `to` seen at `line`.
pub open spec fn edges_have_call(edges: Seq<Edge>, from: Seq<char>, to: Seq<char>, line: int) -> bool {
    exists|j: int| 0 <= j < edges.len() && is_calls_edge_at(#[trigger] edges[j], from, to, line)
}

/// Whether the graph already records a call from `from` to `to` at `line`.
pub fn has_calls_edge(graph: &CodeGraph, from: &str, to: &str, line: usize) -> (r: bool)
    ensures
        r == edges_have_call(graph.edges@, from@, to@, line as int),
{
    let mut i: usize = 0;
    while i < graph.edges.len()
        invariant
            i <= graph.edges@.len(),
            forall|j: int|
                0 <= j < i ==> !is_calls_edge_at(#[trigger] graph.edges@[j], from@, to@, line as int),
        decreases graph.edges@.len() - i,
    {
        let e = &graph.edges[i];
        let at_line = match &e.evidence {
            Some(loc) => loc.line == line,
            None => false,
        };
        if e.kind == EdgeKind::Calls && str_eq(e.from.as_str(), from) && str_eq(e.to.as_str(), to)
            && at_line {
            return true;
        }
        i = i + 1;
    }
    false
}

/// A path relative to `root`: empty for the root itself, the rest after
/// `root/` for a path under it, nothing otherwise. Trailing `/` of the root
/// do not count.
pub open spec fn strip_root_spec(root: Seq<char>, p: Seq<char>) -> Option<Seq<char>> {
    let r = strip_trail(root, '/');
    if p == r {
        Some(Seq::empty())
    } else if seq_starts_with(p, r + "/"@) {
        Some(p.skip(r.len() + 1int))
    } else {
        None
    }
}

/// The path of `p` relative to `root`, if it lies under it.
pub fn strip_root(root: &str, p: &str) -> (r: Option<String>)
    ensures
        opt_view(r) == strip_root_spec(root@, p@),
{
    let rc = chars_of(root);
    let mut hi: usize = rc.len();
    assert(rc@.subrange(0, rc@.len() as int) =~= rc@);
    while hi > 0 && rc[hi - 1] == '/'
        invariant
            hi <= rc@.len(),
            rc@ == root@,
            strip_trail(root@, '/') == strip_trail(rc@.subrange(0, hi as int), '/'),
        decreases hi,
    {
        assert(rc@.subrange(0, hi as int).drop_last() =~= rc@.subrange(0, hi - 1));
        hi = hi - 1;
    }
    let r = string_from_range(rc.as_slice(), 0, hi);
    assert(strip_trail(root@, '/') == r@);
    if str_eq(p, r.as_str()) {
        return Some(String::new());
    }
    let with_slash = concat2(r.as_str(), "/");
    proof {
        reveal_strlit("/");
    }
    if starts_with(p, with_slash.as_str()) {
        let pc = chars_of(p);
        assert(with_slash@.len() == hi + 1);
        let plen = pc.len();
        assert(plen >= hi + 1);
        let rest = string_from_range(pc.as_slice(), hi + 1, plen);
        assert(rest@ =~= p@.skip(r@.len() + 1int));
        Some(rest)
    } else {
        None
    }
}

/// A reference reported by the language server: the file path of its
/// location, when its URI names a file, and its 0-based line.
pub struct ReferenceSite {
    pub path: Option<String>,
    pub line: u32,
}

/// Where a reference lands: the id of the function that holds it, its
/// file relative to the root, and its 1-based line.
pub open spec fn resolve_ref(
    sites: Seq<(Seq<char>, Seq<char>, int, int)>,
    root: Seq<char>,
    r: ReferenceSite,
) -> Option<(Seq<char>, Seq<char>, int)> {
    match r.path {
        None => None,
        Some(p) => match strip_root_spec(root, p@) {
            None => None,
            Some(rel) => match best_site(sites, rel, r.line + 1, sites.len() as int) {
                None => None,
                Some(j) => Some((sites[j].1, rel, r.line + 1)),
            },
        },
    }
}

/// Whether a call from `caller` at `line` was already added.
pub open spec fn added_has(added: Seq<(Seq<char>, Seq<char>, int)>, caller: Seq<char>, line: int) -> bool {
    exists|k: int| 0 <= k < added.len() && (#[trigger] added[k]).0 == caller && added[k].2 == line
}

/// What a list of references does to the graph of a target `target`: the
/// call edges added (caller, file, line), in order, and how many
/// references could not be placed. A reference from the target itself, or
/// one whose call at that line is already known, adds nothing.
pub open spec fn reference_outcome(
    sites: Seq<(Seq<char>, Seq<char>, int, int)>,
    target: Seq<char>,
    root: Seq<char>,
    edges: Seq<Edge>,
    refs: Seq<ReferenceSite>,
) -> (Seq<(Seq<char>, Seq<char>, int)>, nat)
    decreases refs.len(),
{
    if refs.len() == 0 {
        (Seq::empty(), 0)
    } else {
        let (added, unresolved) = reference_outcome(sites, target, root, edges, refs.drop_last());
        match resolve_ref(sites, root, refs.last()) {
            None => (added, unresolved + 1),
            Some((caller, file, line)) => if caller == target || edges_have_call(
                edges,
                caller,
                target,
                line,
            ) || added_has(added, caller, line) {
                (added, unresolved)
            } else {
                (added.push((caller, file, line)), unresolved)
            },
        }
    }
}

proof fn lemma_outcome_bounds(
    sites: Seq<(Seq<char>, Seq<char>, int, int)>,
    target: Seq<char>,
    root: Seq<char>,
    edges: Seq<Edge>,
    refs: Seq<ReferenceSite>,
)
    ensures
        reference_outcome(sites, target, root, edges, refs).0.len() + reference_outcome(
            sites,
            target,
            root,
            edges,
            refs,
        ).1 <= refs.len(),
    decreases refs.len(),
{
    if refs.len() > 0 {
        lemma_outcome_bounds(sites, target, root, edges, refs.drop_last());
    }
}

/// The call edge that a reference adds: from `from` to `to`, seen at
/// `line` of `file`, inferred and possible, in the `lsp_reference` style.
pub open spec fn is_reference_edge(e: Edge, from: Seq<char>, to: Seq<char>, file: Seq<char>, line: int) -> bool {
    &&& e.from@ == from
    &&& e.to@ == to
    &&& e.kind == EdgeKind::Calls
    &&& e.label is None
    &&& e.evidence matches Some(loc) && loc.file@ == file && loc.line == line
    &&& e.weight == 1
    &&& e.source == EdgeSource::Inferred
    &&& e.certainty == EdgeCertainty::Possible
    &&& e.call_style matches Some(st) && st@ == "lsp_reference"@
}

/// Turn the references to node `node_index` into call edges from the
/// functions that hold them, and count the references that cannot be
/// placed.
pub fn apply_references(
    graph: &mut CodeGraph,
    node_index: usize,
    refs: &Vec<ReferenceSite>,
    root: &str,
    info: &mut SemanticInfo,
)
    requires
        node_index < old(graph).nodes@.len(),
        forall|j: int| 0 <= j < refs@.len() ==> (#[trigger] refs@[j]).line < usize::MAX,
        old(info).unresolved_items + refs@.len() <= usize::MAX,
        old(info).enriched_edges + refs@.len() <= usize::MAX,
        old(info).confirmed_edges + refs@.len() <= usize::MAX,
    ensures
        ({
            let sites = function_sites(old(graph).nodes@, old(graph).nodes@.len() as int);
            let target = old(graph).nodes@[node_index as int].id@;
            let (added, unresolved) = reference_outcome(
                sites,
                target,
                root@,
                old(graph).edges@,
                refs@,
            );
            let base = old(graph).edges@.len();
            &&& final(graph).edges@.len() == base + added.len()
            &&& forall|j: int| 0 <= j < base ==> final(graph).edges@[j] == old(graph).edges@[j]
            &&& forall|k: int|
                0 <= k < added.len() ==> is_reference_edge(
                    #[trigger] final(graph).edges@[base + k],
                    added[k].0,
                    target,
                    added[k].1,
                    added[k].2,
                )
            &&& *final(graph) == (CodeGraph { edges: final(graph).edges, ..*old(graph) })
            &&& *final(info) == (SemanticInfo {
                unresolved_items: (old(info).unresolved_items + unresolved) as usize,
                enriched_edges: (old(info).enriched_edges + added.len()) as usize,
                confirmed_edges: (old(info).confirmed_edges + added.len()) as usize,
                ..*old(info)
            })
        }),
{
    let ghost g0 = *graph;
    let ghost i0 = *info;
    let ghost base = graph.edges@.len();
    let ghost target = graph.nodes@[node_index as int].id@;
    let target_id = owned(graph.nodes[node_index].id.as_str());
    let file_index = build_file_function_index(graph);
    let ghost sites = site_views(file_index@);
    proof {
        lemma_outcome_bounds(sites, target, root@, g0.edges@, refs@);
    }
    let mut k: usize = 0;
    while k < refs.len()
        invariant
            k <= refs@.len(),
            sites == site_views(file_index@),
            sites == function_sites(g0.nodes@, g0.nodes@.len() as int),
            target_id@ == target,
            base == g0.edges@.len(),
            forall|j: int| 0 <= j < refs@.len() ==> (#[trigger] refs@[j]).line < usize::MAX,
            i0.unresolved_items + refs@.len() <= usize::MAX,
            i0.enriched_edges + refs@.len() <= usize::MAX,
            i0.confirmed_edges + refs@.len() <= usize::MAX,
            ({
                let (added, unresolved) = reference_outcome(
                    sites,
                    target,
                    root@,
                    g0.edges@,
                    refs@.take(k as int),
                );
                &&& graph.edges@.len() == base + added.len()
                &&& forall|j: int| 0 <= j < base ==> graph.edges@[j] == g0.edges@[j]
                &&& forall|m: int|
                    0 <= m < added.len() ==> is_reference_edge(
                        #[trigger] graph.edges@[base + m],
                        added[m].0,
                        target,
                        added[m].1,
                        added[m].2,
                    )
                &&& *graph == (CodeGraph { edges: graph.edges, ..g0 })
                &&& *info == (SemanticInfo {
                    unresolved_items: (i0.unresolved_items + unresolved) as usize,
                    enriched_edges: (i0.enriched_edges + added.len()) as usize,
                    confirmed_edges: (i0.confirmed_edges + added.len()) as usize,
                    ..i0
                })
            }),
        decreases refs@.len() - k,
    {
        let ghost prev = refs@.take(k as int);
        let ghost (added, unresolved) = reference_outcome(sites, target, root@, g0.edges@, prev);
        assert(refs@.take(k + 1).drop_last() =~= prev);
        assert(refs@.take(k + 1).last() == refs@[k as int]);
        proof {
            lemma_outcome_bounds(sites, target, root@, g0.edges@, refs@.take(k + 1));
        }
        let r = &refs[k];
        match &r.path {
            None => {
                info.unresolved_items = info.unresolved_items + 1;
            },
            Some(p) => {
                match strip_root(root, p.as_str()) {
                    None => {
                        info.unresolved_items = info.unresolved_items + 1;
                    },
                    Some(rel) => {
                        let ref_line: usize = r.line as usize + 1;
                        match resolve_caller_id(&file_index, rel.as_str(), ref_line) {
                            None => {
                                info.unresolved_items = info.unresolved_items + 1;
                            },
                            Some(caller) => {
                                let same = str_eq(caller.as_str(), target_id.as_str());
                                let known = has_calls_edge(
                                    graph,
                                    caller.as_str(),
                                    target_id.as_str(),
                                    ref_line,
                                );
                                proof {
                                    let line = ref_line as int;
                                    let c = caller@;
                                    if c != target {
                                        assert(edges_have_call(graph.edges@, c, target, line)
                                            == (edges_have_call(g0.edges@, c, target, line)
                                            || added_has(added, c, line))) by {
                                            if edges_have_call(graph.edges@, c, target, line) {
                                                let j = choose|j: int|
                                                    0 <= j < graph.edges@.len()
                                                        && is_calls_edge_at(
                                                        #[trigger] graph.edges@[j],
                                                        c,
                                                        target,
                                                        line,
                                                    );
                                                if j < base {
                                                    assert(g0.edges@[j] == graph.edges@[j]);
                                                } else {
                                                    let m = j - base;
                                                    assert(is_reference_edge(
                                                        graph.edges@[base + m],
                                                        added[m].0,
                                                        target,
                                                        added[m].1,
                                                        added[m].2,
                                                    ));
                                                    assert(added[m].0 == c && added[m].2 == line);
                                                }
                                            }
                                            if edges_have_call(g0.edges@, c, target, line) {
                                                let j = choose|j: int|
                                                    0 <= j < g0.edges@.len()
                                                        && is_calls_edge_at(
                                                        #[trigger] g0.edges@[j],
                                                        c,
                                                        target,
                                                        line,
                                                    );
                                                assert(graph.edges@[j] == g0.edges@[j]);
                                            }
                                            if added_has(added, c, line) {
                                                let m = choose|m: int|
                                                    0 <= m < added.len() && (#[trigger] added[m]).0
                                                        == c && added[m].2 == line;
                                                assert(is_reference_edge(
                                                    graph.edges@[base + m],
                                                    added[m].0,
                                                    target,
                                                    added[m].1,
                                                    added[m].2,
                                                ));
                                                assert(is_calls_edge_at(
                                                    graph.edges@[base + m],
                                                    c,
                                                    target,
                                                    line,
                                                ));
                                            }
                                        }
                                    }
                                }
                                if !same && !known {
                                    let ghost before = graph.edges@;
                                    let ghost new_added = added.push((caller@, rel@, ref_line as int));
                                    proof {
                                        reveal_strlit("lsp_reference");
                                    }
                                    graph.edges.push(
                                        Edge {
                                            from: caller,
                                            to: owned(target_id.as_str()),
                                            kind: EdgeKind::Calls,
                                            label: None,
                                            evidence: Some(
                                                Location { file: rel, line: ref_line },
                                            ),
                                            weight: 1,
                                            source: EdgeSource::Inferred,
                                            certainty: EdgeCertainty::Possible,
                                            call_style: Some(owned("lsp_reference")),
                                        },
                                    );
                                    info.enriched_edges = info.enriched_edges + 1;
                                    info.confirmed_edges = info.confirmed_edges + 1;
                                    assert forall|m: int|
                                        0 <= m < new_added.len() implies is_reference_edge(
                                        #[trigger] graph.edges@[base + m],
                                        new_added[m].0,
                                        target,
                                        new_added[m].1,
                                        new_added[m].2,
                                    ) by {
                                        if m < added.len() {
                                            assert(graph.edges@[base + m] == before[base + m]);
                                        }
                                    }
                                }
                            },
                        }
                    },
                }
            },
        }
        k = k + 1;
    }
    assert(refs@.take(refs@.len() as int) =~= refs@);
}

// ---------------------------------------------------------------- bookkeeping

/// The record of a pass that found no language server.
pub fn disabled_info() -> (info: SemanticInfo)
    ensures
        !info.enabled,
        info.provider@.len() == 0,
        info.scanned_symbols == 0 && info.enriched_symbols == 0 && info.confirmed_symbols == 0,
        info.enriched_edges == 0 && info.confirmed_edges == 0 && info.unresolved_items == 0,
        info.warnings@.len() == 0,
{
    SemanticInfo {
        enabled: false,
        provider: String::new(),
        scanned_symbols: 0,
        enriched_symbols: 0,
        confirmed_symbols: 0,
        enriched_edges: 0,
        confirmed_edges: 0,
        unresolved_items: 0,
        warnings: Vec::new(),
    }
}

/// The record of a pass that started with server `provider`.
pub fn started_info(provider: String) -> (info: SemanticInfo)
    ensures
        info.enabled,
        info.provider == provider,
        info.scanned_symbols == 0 && info.enriched_symbols == 0 && info.confirmed_symbols == 0,
        info.enriched_edges == 0 && info.confirmed_edges == 0 && info.unresolved_items == 0,
        info.warnings@.len() == 0,
{
    SemanticInfo {
        enabled: true,
        provider,
        scanned_symbols: 0,
        enriched_symbols: 0,
        confirmed_symbols: 0,
        enriched_edges: 0,
        confirmed_edges: 0,
        unresolved_items: 0,
        warnings: Vec::new(),
    }
}

/// Count node `node_index` as scanned, and return its file and first line
/// when it has both; a node without them counts as unresolved.
pub fn scan_target(graph: &CodeGraph, node_index: usize, info: &mut SemanticInfo) -> (r: Option<
    (String, usize),
>)
    requires
        node_index < graph.nodes@.len(),
        old(info).scanned_symbols < usize::MAX,
        old(info).unresolved_items < usize::MAX,
    ensures
        ({
            let n = graph.nodes@[node_index as int];
            if n.file is Some && n.range is Some {
                &&& r matches Some(fr) && fr.0@ == n.file->0@ && fr.1 == n.range->0.start_line
                &&& *final(info) == (SemanticInfo {
                    scanned_symbols: (old(info).scanned_symbols + 1) as usize,
                    ..*old(info)
                })
            } else {
                &&& r is None
                &&& *final(info) == (SemanticInfo {
                    scanned_symbols: (old(info).scanned_symbols + 1) as usize,
                    unresolved_items: (old(info).unresolved_items + 1) as usize,
                    ..*old(info)
                })
            }
        }),
{
    info.scanned_symbols = info.scanned_symbols + 1;
    let n = &graph.nodes[node_index];
    match (&n.file, &n.range) {
        (Some(f), Some(rg)) => Some((owned(f.as_str()), rg.start_line)),
        _ => {
            info.unresolved_items = info.unresolved_items + 1;
            None
        },
    }
}

/// Count an item that failed (a file that could not be read or opened) and
/// keep the warning.
pub fn record_failure(info: &mut SemanticInfo, warning: String)
    requires
        old(info).unresolved_items < usize::MAX,
    ensures
        *final(info) == (SemanticInfo {
            unresolved_items: (old(info).unresolved_items + 1) as usize,
            warnings: final(info).warnings,
            ..*old(info)
        }),
        final(info).warnings@ == old(info).warnings@.push(warning),
{
    info.unresolved_items = info.unresolved_items + 1;
    info.warnings.push(warning);
}

/// The protocol position (0-based line, character 0) of a 1-based source
/// line; the line number is cut to 32 bits as the protocol has it.
pub fn lsp_position(_source: &str, line: usize) -> (r: (u32, u32))
    ensures
        r.0 == (if line == 0 {
            0u32
        } else {
            (line - 1) as u32
        }),
        r.1 == 0,
{
    if line == 0 {
        (0, 0)
    } else {
        (
            #[verifier::truncate]
            ((line - 1) as u32),
            0,
        )
    }
}

/// The label of a signature parameter as the language server gives it:
/// its text, or the offsets of its text in the signature.
pub enum ParamLabel {
    Simple(String),
    Offsets(u32, u32),
}

/// How a parameter label is shown.
pub open spec fn label_text(l: ParamLabel) -> Seq<char> {
    match l {
        ParamLabel::Simple(t) => t@,
        ParamLabel::Offsets(a, b) => "param["@ + decimal(a as nat) + ".."@ + decimal(b as nat) + "]"@,
    }
}

/// A parameter list shown as `(a, b, ...)`.
pub fn format_signature(params: &Vec<ParamLabel>) -> (r: String)
    ensures
        r@ == "("@ + join_spec(params@.map_values(|l: ParamLabel| label_text(l)), ", "@) + ")"@,
{
    let mut parts: Vec<String> = Vec::new();
    let mut i: usize = 0;
    while i < params.len()
        invariant
            i <= params@.len(),
            parts@.map_values(|x: String| x@) == params@.take(i as int).map_values(|l: ParamLabel| label_text(l)),
        decreases params@.len() - i,
    {
        let ghost before = parts@;
        proof {
            reveal_strlit("param[");
            reveal_strlit("..");
            reveal_strlit("]");
        }
        let text = match &params[i] {
            ParamLabel::Simple(t) => owned(t.as_str()),
            ParamLabel::Offsets(a, b) => {
                let left = concat2("param[", decimal_string(*a as usize).as_str());
                let mid = concat3(left.as_str(), "..", decimal_string(*b as usize).as_str());
                concat2(mid.as_str(), "]")
            },
        };
        assert(text@ == label_text(params@[i as int]));
        parts.push(text);
        assert(parts@.map_values(|x: String| x@) =~= before.map_values(|x: String| x@).push(text@));
        assert(params@.take(i + 1).map_values(|l: ParamLabel| label_text(l)) =~= params@.take(
            i as int,
        ).map_values(|l: ParamLabel| label_text(l)).push(label_text(params@[i as int])));
        assert(parts@.map_values(|x: String| x@) =~= params@.take(i + 1).map_values(|l: ParamLabel| label_text(l)));
        i = i + 1;
    }
    assert(params@.take(params@.len() as int) =~= params@);
    let inner = join(&parts, ", ");
    concat3("(", inner.as_str(), ")")
}

/// The `file:` URL of a path, from `Url::from_file_path` of `lsp-types`
/// (its `url` dependency). That function refuses a path that is not
/// absolute (an empty path never is) and otherwise builds the URL after the
/// text `file://`, which `to_string` gives back. Which other paths count as
/// absolute depends on the platform, and how the rest of the URL is encoded
/// is not stated.
#[verifier::external_body]
fn file_url(path: &str) -> (r: Option<String>)
    ensures
        path@.len() == 0 ==> r is None,
        r matches Some(u) ==> seq_starts_with(u@, "file://"@),
{
    match lsp_types::Url::from_file_path(path) {
        Ok(u) => Some(u.to_string()),
        Err(_) => None,
    }
}

/// The error when a path has no `file:` URL.
pub open spec fn uri_error_text(path: Seq<char>) -> Seq<char> {
    "failed to convert path to file URI: "@ + path
}

/// The `file:` URL of a path, or an error that names the path.
pub fn path_to_uri(path: &str) -> (r: Result<String, String>)
    ensures
        match r {
            Ok(u) => seq_starts_with(u@, "file://"@),
            Err(e) => e@ == uri_error_text(path@),
        },
        path@.len() == 0 ==> r is Err,
{
    match file_url(path) {
        Some(u) => Ok(u),
        None => Err(concat2("failed to convert path to file URI: ", path)),
    }
}

// ---------------------------------------------------------------- framing

/// Why a message header cannot be read.
#[derive(Clone, Copy, Debug, PartialEq, Eq, Structural)]
pub enum FrameError {
    /// No `Content-Length` line.
    MissingLength,
    /// A `Content-Length` line whose value is not a length.
    BadLength,
}

/// The value of a decimal digit.
pub open spec fn digit_value(c: char) -> nat {
    ((c as int) - ('0' as int)) as nat
}

/// The value of a string of decimal digits.
pub open spec fn digits_value(s: Seq<char>) -> nat
    decreases s.len(),
{
    if s.len() == 0 {
        0
    } else {
        digits_value(s.drop_last()) * 10 + digit_value(s.last())
    }
}

/// Whether every character is a decimal digit.
pub open spec fn all_digits(s: Seq<char>) -> bool {
    forall|i: int| 0 <= i < s.len() ==> is_ascii_digit(#[trigger] s[i])
}

/// The unsigned number a text writes: an optional `+`, then one digit or
/// more, with a value that fits in `usize`.
pub open spec fn parse_usize_spec(s: Seq<char>) -> Option<nat> {
    let t = if s.len() > 0 && s[0] == '+' {
        s.drop_first()
    } else {
        s
    };
    if t.len() > 0 && all_digits(t) && digits_value(t) <= usize::MAX {
        Some(digits_value(t))
    } else {
        None
    }
}

proof fn lemma_digits_value_prefix(s: Seq<char>, j: int)
    requires
        0 <= j <= s.len(),
    ensures
        digits_value(s.take(j)) <= digits_value(s),
    decreases s.len(),
{
    if j < s.len() {
        lemma_digits_value_prefix(s.drop_last(), j);
        assert(s.drop_last().take(j) =~= s.take(j));
    } else {
        assert(s.take(j) =~= s);
    }
}

/// Parse an unsigned number: an optional `+`, then decimal digits.
fn parse_usize(s: &str) -> (r: Option<usize>)
    ensures
        match parse_usize_spec(s@) {
            Some(n) => r == Some(n as usize),
            None => r is None,
        },
{
    let c = chars_of(s);
    let len = c.len();
    let start: usize = if len > 0 && c[0] == '+' {
        1
    } else {
        0
    };
    let ghost t = c@.subrange(start as int, len as int);
    assert(t =~= (if s@.len() > 0 && s@[0] == '+' {
        s@.drop_first()
    } else {
        s@
    }));
    if start == len {
        return None;
    }
    let mut acc: usize = 0;
    let mut i: usize = start;
    while i < len
        invariant
            c@ == s@,
            len == c@.len(),
            start <= i <= len,
            t == c@.subrange(start as int, len as int),
            t == (if s@.len() > 0 && s@[0] == '+' {
                s@.drop_first()
            } else {
                s@
            }),
            all_digits(c@.subrange(start as int, i as int)),
            acc == digits_value(c@.subrange(start as int, i as int)),
        decreases len - i,
    {
        let ch = c[i];
        if !('0' <= ch && ch <= '9') {
            assert(!is_ascii_digit(t[i - start]));
            return None;
        }
        let d: usize = ((ch as u32) - ('0' as u32)) as usize;
        let ghost next = c@.subrange(start as int, i + 1);
        assert(next.drop_last() =~= c@.subrange(start as int, i as int));
        assert(next.last() == ch);
        assert(t.take(i + 1 - start) =~= next);
        match acc.checked_mul(10) {
            None => {
                proof {
                    lemma_digits_value_prefix(t, i + 1 - start);
                }
                return None;
            },
            Some(m) => match m.checked_add(d) {
                None => {
                    proof {
                        lemma_digits_value_prefix(t, i + 1 - start);
                    }
                    return None;
                },
                Some(v) => {
                    acc = v;
                },
            },
        }
        i = i + 1;
    }
    Some(acc)
}

/// The header field that gives a message's length, in lower case.
pub open spec fn length_field() -> Seq<char> {
    "content-length:"@
}

/// The position of the first of lines `i..` that starts with the length
/// field, in any case.
pub open spec fn length_line_from(ls: Seq<Seq<char>>, i: int) -> Option<int>
    decreases ls.len() - i,
{
    if i < 0 || i >= ls.len() {
        None
    } else if seq_starts_with(seq_ascii_lower(ls[i]), length_field()) {
        Some(i)
    } else {
        length_line_from(ls, i + 1)
    }
}

/// The length a message header announces: the value after the first
/// `Content-Length:` line's field name (in any case), trimmed.
pub open spec fn content_length_spec(header: Seq<char>) -> Result<nat, FrameError> {
    let ls = lines_spec(header);
    match length_line_from(ls, 0) {
        None => Err(FrameError::MissingLength),
        Some(i) => match parse_usize_spec(
            trim_spec(seq_ascii_lower(ls[i]).skip(length_field().len() as int)),
        ) {
            Some(n) => Ok(n),
            None => Err(FrameError::BadLength),
        },
    }
}

/// Read the body length from a message header.
pub fn content_length(header: &str) -> (r: Result<usize, FrameError>)
    ensures
        match content_length_spec(header@) {
            Ok(n) => r == Ok::<usize, FrameError>(n as usize),
            Err(e) => r == Err::<usize, FrameError>(e),
        },
{
    let ls = lines(header);
    let ghost lv = ls@.map_values(|x: String| x@);
    proof {
        reveal_strlit("content-length:");
    }
    let mut i: usize = 0;
    while i < ls.len()
        invariant
            lv == ls@.map_values(|x: String| x@),
            lv == lines_spec(header@),
            i <= ls@.len(),
            length_line_from(lv, 0) == length_line_from(lv, i as int),
        decreases ls@.len() - i,
    {
        let lower = ascii_lowercase(ls[i].as_str());
        assert(lv[i as int] == ls@[i as int]@);
        proof {
            reveal_strlit("content-length:");
        }
        if starts_with(lower.as_str(), "content-length:") {
            let lc = chars_of(lower.as_str());
            let llen = lc.len();
            assert(llen >= 15);
            let rest = string_from_range(lc.as_slice(), 15, llen);
            assert(rest@ =~= seq_ascii_lower(lv[i as int]).skip(15));
            let t = trim(rest.as_str());
            return match parse_usize(t.as_str()) {
                Some(n) => Ok(n),
                None => Err(FrameError::BadLength),
            };
        }
        i = i + 1;
    }
    Err(FrameError::MissingLength)
}

/// The header that announces a body of `len` bytes.
pub fn frame_header(len: usize) -> (r: String)
    ensures
        r@ == "Content-Length: "@ + decimal(len as nat) + "\r\n\r\n"@,
{
    let digits = decimal_string(len);
    concat3("Content-Length: ", digits.as_str(), "\r\n\r\n")
}

} // verus!
