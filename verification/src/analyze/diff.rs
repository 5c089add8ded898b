//! What a change set touches: the files that `git diff --name-only` lists,
//! the symbols in those files and the edges at those symbols.

use vstd::prelude::*;
use crate::model::{CodeGraph, Edge, EdgeKind, Node, NodeKind, views};
use crate::nav::entries::lemma_push_to_set;
use crate::query::index::{last_with_id, lemma_last_with_id};
use crate::semantic::{strip_root, strip_root_spec};
use crate::sorting::{add_text, holds, seq_lt, sort_texts, sorted_set};
use crate::text::{
    concat2, str_eq, ends_with, lines, lines_spec, owned, replace_char, replace_char_spec,
    seq_ends_with, seq_starts_with, starts_with, trim, trim_spec,
};

verus! {

/// The root the change set is read against: the one given, else the
/// graph's project root.
pub fn resolve_project_root(graph: &CodeGraph, project_root: &Option<String>) -> (r: String)
    ensures
        r@ == match project_root {
            Some(p) => p@,
            None => graph.project.root@,
        },
{
    match project_root {
        Some(p) => owned(p.as_str()),
        None => owned(graph.project.root.as_str()),
    }
}

/// A listed path as the graph names files: an absolute path under `root`
/// is made relative to it (paths compared as text, `root` without its
/// trailing slashes), and back slashes become slashes.
pub open spec fn normalize_spec(line: Seq<char>, root: Seq<char>) -> Seq<char> {
    let rel = if seq_starts_with(line, "/"@) && root.len() > 0 {
        match strip_root_spec(root, line) {
            Some(r) => r,
            None => line,
        }
    } else {
        line
    };
    replace_char_spec(rel, '\\', '/')
}

/// A listed path as the graph names files.
pub fn normalize_path(line: &str, root: &str) -> (r: String)
    ensures
        r@ == normalize_spec(line@, root@),
{
    proof {
        reveal_strlit("/");
    }
    let rel = if starts_with(line, "/") && root.unicode_len() > 0 {
        match strip_root(root, line) {
            Some(r) => r,
            None => owned(line),
        }
    } else {
        owned(line)
    };
    replace_char(rel.as_str(), '\\', '/')
}

/// The paths named by the first `k` lines, trimmed, blank ones left out,
/// each normalized.
pub open spec fn changed_seq(ls: Seq<Seq<char>>, root: Seq<char>, k: int) -> Seq<Seq<char>>
    decreases k,
{
    if k <= 0 || k > ls.len() {
        Seq::empty()
    } else {
        let prev = changed_seq(ls, root, k - 1);
        let t = trim_spec(ls[k - 1]);
        if t.len() > 0 {
            prev.push(normalize_spec(t, root))
        } else {
            prev
        }
    }
}

/// The changed files that the output `out` of `git diff --name-only` lists.
pub open spec fn changed_set(out: Seq<char>, root: Seq<char>) -> Set<Seq<char>> {
    let ls = lines_spec(out);
    changed_seq(ls, root, ls.len() as int).to_set()
}

/// The changed files listed in `out`, in increasing order, each once.
pub fn changed_files(out: &str, root: &str) -> (r: Vec<String>)
    ensures
        sorted_set(r@, changed_set(out@, root@)),
{
    let ls = lines(out);
    let ghost lv = lines_spec(out@);
    assert(views(ls@) == lv);
    let mut set: Vec<String> = Vec::new();
    assert(views(set@) =~= Seq::<Seq<char>>::empty());
    assert(changed_seq(lv, root@, 0).to_set() =~= Set::<Seq<char>>::empty());
    let mut k: usize = 0;
    while k < ls.len()
        invariant
            k <= ls@.len(),
            views(ls@) == lv,
            views(set@).no_duplicates(),
            views(set@).to_set() == changed_seq(lv, root@, k as int).to_set(),
        decreases ls@.len() - k,
    {
        assert(ls@[k as int]@ == lv[k as int]);
        let t = trim(ls[k].as_str());
        if t.unicode_len() > 0 {
            let n = normalize_path(t.as_str(), root);
            add_text(&mut set, n.as_str());
            proof {
                lemma_push_to_set(changed_seq(lv, root@, k as int), n@);
            }
        }
        k = k + 1;
    }
    sort_texts(&set)
}

/// A node's file matches a change set when it ends with a changed path or
/// a changed path ends with it.
pub open spec fn file_matches_spec(file: Option<String>, changed: Set<Seq<char>>) -> bool {
    match file {
        None => false,
        Some(f) => exists|c: Seq<char>|
            #[trigger] changed.contains(c) && (seq_ends_with(f@, c) || seq_ends_with(c, f@)),
    }
}

/// Whether a node's file is among (or matches) the changed files.
pub fn file_matches(file: &Option<String>, changed: &Vec<String>) -> (r: bool)
    ensures
        r == file_matches_spec(*file, views(changed@).to_set()),
{
    match file {
        None => false,
        Some(f) => {
            let mut i: usize = 0;
            while i < changed.len()
                invariant
                    i <= changed@.len(),
                    file is Some && file->0@ == f@,
                    forall|j: int|
                        0 <= j < i ==> !(seq_ends_with(f@, #[trigger] changed@[j]@) || seq_ends_with(
                            changed@[j]@,
                            f@,
                        )),
                decreases changed@.len() - i,
            {
                if ends_with(f.as_str(), changed[i].as_str()) || ends_with(changed[i].as_str(), f.as_str()) {
                    assert(views(changed@)[i as int] == changed@[i as int]@);
                    assert(views(changed@).to_set().contains(changed@[i as int]@));
                    let ghost c = changed@[i as int]@;
                    assert(seq_ends_with(f@, c) || seq_ends_with(c, f@));
                    assert(file_matches_spec(*file, views(changed@).to_set()));
                    return true;
                }
                i = i + 1;
            }
            assert forall|c: Seq<char>| #[trigger] views(changed@).to_set().contains(c) implies !(
            seq_ends_with(f@, c) || seq_ends_with(c, f@)) by {
                let j = choose|j: int| 0 <= j < views(changed@).len() && views(changed@)[j] == c;
                assert(views(changed@)[j] == changed@[j]@);
            }
            false
        },
    }
}

/// The ids of the first `k` nodes whose file matches `changed`.
pub open spec fn affected_seq(nodes: Seq<Node>, changed: Set<Seq<char>>, k: int) -> Seq<Seq<char>>
    decreases k,
{
    if k <= 0 || k > nodes.len() {
        Seq::empty()
    } else {
        let prev = affected_seq(nodes, changed, k - 1);
        if file_matches_spec(nodes[k - 1].file, changed) {
            prev.push(nodes[k - 1].id@)
        } else {
            prev
        }
    }
}

/// The ids of the nodes whose file matches `changed`.
pub open spec fn affected_set(nodes: Seq<Node>, changed: Set<Seq<char>>) -> Set<Seq<char>> {
    affected_seq(nodes, changed, nodes.len() as int).to_set()
}

proof fn lemma_affected_are_ids(nodes: Seq<Node>, changed: Set<Seq<char>>, k: int, id: Seq<char>)
    requires
        0 <= k <= nodes.len(),
        affected_seq(nodes, changed, k).contains(id),
    ensures
        exists|j: int| 0 <= j < k && (#[trigger] nodes[j]).id@ == id,
    decreases k,
{
    let prev = affected_seq(nodes, changed, k - 1);
    if prev.contains(id) {
        lemma_affected_are_ids(nodes, changed, k - 1, id);
        let j = choose|j: int| 0 <= j < k - 1 && (#[trigger] nodes[j]).id@ == id;
        assert(nodes[j].id@ == id);
    } else {
        assert(nodes[k - 1].id@ == id);
    }
}

/// The ids of the nodes whose file matches the changed files, in
/// increasing order, each once.
pub fn affected_ids(graph: &CodeGraph, changed: &Vec<String>) -> (r: Vec<String>)
    ensures
        sorted_set(r@, affected_set(graph.nodes@, views(changed@).to_set())),
{
    let ghost cs = views(changed@).to_set();
    let ghost nodes = graph.nodes@;
    let mut ids: Vec<String> = Vec::new();
    assert(views(ids@) =~= Seq::<Seq<char>>::empty());
    assert(affected_seq(nodes, cs, 0).to_set() =~= Set::<Seq<char>>::empty());
    let mut i: usize = 0;
    while i < graph.nodes.len()
        invariant
            i <= nodes.len(),
            nodes == graph.nodes@,
            cs == views(changed@).to_set(),
            views(ids@).no_duplicates(),
            views(ids@).to_set() == affected_seq(nodes, cs, i as int).to_set(),
        decreases nodes.len() - i,
    {
        let n = &graph.nodes[i];
        if file_matches(&n.file, changed) {
            add_text(&mut ids, n.id.as_str());
            proof {
                lemma_push_to_set(affected_seq(nodes, cs, i as int), n.id@);
            }
        }
        i = i + 1;
    }
    sort_texts(&ids)
}

/// The edges among the first `k` that start or end at an id of `ids`.
pub open spec fn edges_at(edges: Seq<Edge>, ids: Set<Seq<char>>, k: int) -> Seq<Edge>
    decreases k,
{
    if k <= 0 || k > edges.len() {
        Seq::empty()
    } else {
        let prev = edges_at(edges, ids, k - 1);
        let e = edges[k - 1];
        if ids.contains(e.from@) || ids.contains(e.to@) {
            prev.push(e)
        } else {
            prev
        }
    }
}

/// A symbol of a changed file.
pub struct DiffNode {
    pub id: String,
    pub kind: NodeKind,
    pub qualified_name: String,
}

/// An edge at a symbol of a changed file.
pub struct DiffEdge {
    pub from: String,
    pub to: String,
    pub kind: EdgeKind,
}

/// The diff report. Nothing is ever reported removed.
pub struct DiffReport {
    pub base: String,
    pub added_nodes: Vec<DiffNode>,
    pub added_edges: Vec<DiffEdge>,
    pub changed_files: Vec<String>,
    pub warning: Option<String>,
}

/// What running `git diff --name-only` gave.
pub enum GitOutcome {
    /// The command could not be started; the reason.
    SpawnFailed(String),
    /// It exited with failure; what it wrote to standard error.
    Failed(String),
    /// It succeeded; what it wrote to standard output.
    Succeeded(String),
}

/// An empty report that carries a warning.
pub fn warning_result(base: &str, warning: String) -> (r: DiffReport)
    ensures
        r.base@ == base@,
        r.added_nodes@.len() == 0,
        r.added_edges@.len() == 0,
        r.changed_files@.len() == 0,
        r.warning == Some(warning),
{
    DiffReport {
        base: owned(base),
        added_nodes: Vec::new(),
        added_edges: Vec::new(),
        changed_files: Vec::new(),
        warning: Some(warning),
    }
}

/// The warning for a failed `git diff`, from what it wrote to standard
/// error.
pub open spec fn failure_text(stderr: Seq<char>) -> Seq<char> {
    let t = trim_spec(stderr);
    if t.len() == 0 {
        "git diff failed"@
    } else {
        "git diff failed: "@ + t
    }
}

/// The warning for a failed `git diff`.
pub fn git_failure_warning(stderr: &str) -> (r: String)
    ensures
        r@ == failure_text(stderr@),
{
    let t = trim(stderr);
    if t.unicode_len() == 0 {
        owned("git diff failed")
    } else {
        concat2("git diff failed: ", t.as_str())
    }
}

/// The warning for a `git diff` that could not be started.
pub open spec fn spawn_text(err: Seq<char>) -> Seq<char> {
    "failed to execute git diff: "@ + err
}

/// `d` lists node `n`.
pub open spec fn lists_node(d: DiffNode, n: Node) -> bool {
    &&& d.id@ == n.id@
    &&& d.kind == n.kind
    &&& d.qualified_name@ == n.qualified_name@
}

/// `d` lists edge `e`.
pub open spec fn lists_edge(d: DiffEdge, e: Edge) -> bool {
    &&& d.from@ == e.from@
    &&& d.to@ == e.to@
    &&& d.kind == e.kind
}

/// The position of the last node whose id is `id`.
fn last_node_with(nodes: &Vec<Node>, id: &str) -> (r: Option<usize>)
    ensures
        match r {
            Some(i) => i as int == last_with_id(nodes@, id@) && i < nodes@.len(),
            None => last_with_id(nodes@, id@) < 0,
        },
{
    let mut i: usize = nodes.len();
    assert(nodes@.take(i as int) =~= nodes@);
    while i > 0
        invariant
            i <= nodes@.len(),
            last_with_id(nodes@, id@) == last_with_id(nodes@.take(i as int), id@),
        decreases i,
    {
        assert(nodes@.take(i as int).last() == nodes@[i - 1]);
        if str_eq(nodes[i - 1].id.as_str(), id) {
            return Some(i - 1);
        }
        assert(nodes@.take(i as int).drop_last() =~= nodes@.take(i - 1));
        i = i - 1;
    }
    None
}

/// What a change set touches. When `git diff` ran, the changed files are
/// listed in increasing order; every node whose file matches one is listed
/// once, by increasing id (the last node with that id); every edge at such
/// a node is listed, in graph order. Otherwise the report is empty and
/// says why.
pub fn diff(graph: &CodeGraph, base: &str, project_root: &Option<String>, outcome: GitOutcome) -> (r:
    DiffReport)
    ensures
        r.base@ == base@,
        match outcome {
            GitOutcome::SpawnFailed(e) => {
                &&& r.warning is Some && r.warning->0@ == spawn_text(e@)
                &&& r.added_nodes@.len() == 0 && r.added_edges@.len() == 0 && r.changed_files@.len() == 0
            },
            GitOutcome::Failed(s) => {
                &&& r.warning is Some && r.warning->0@ == failure_text(s@)
                &&& r.added_nodes@.len() == 0 && r.added_edges@.len() == 0 && r.changed_files@.len() == 0
            },
            GitOutcome::Succeeded(out) => {
                let root = match project_root {
                    Some(p) => p@,
                    None => graph.project.root@,
                };
                let changed = changed_set(out@, root);
                let ids = affected_set(graph.nodes@, changed);
                let at = edges_at(graph.edges@, ids, graph.edges@.len() as int);
                &&& r.warning is None
                &&& sorted_set(r.changed_files@, changed)
                &&& views(r.added_nodes@.map_values(|d: DiffNode| d.id)).to_set() == ids
                &&& forall|i: int, j: int|
                    0 <= i < j < r.added_nodes@.len() ==> seq_lt(
                        (#[trigger] r.added_nodes@[i]).id@,
                        (#[trigger] r.added_nodes@[j]).id@,
                    )
                &&& forall|k: int|
                    0 <= k < r.added_nodes@.len() ==> lists_node(
                        #[trigger] r.added_nodes@[k],
                        graph.nodes@[last_with_id(graph.nodes@, r.added_nodes@[k].id@)],
                    )
                &&& r.added_edges@.len() == at.len()
                &&& forall|k: int| 0 <= k < at.len() ==> lists_edge(#[trigger] r.added_edges@[k], at[k])
            },
        },
{
    match outcome {
        GitOutcome::SpawnFailed(e) => warning_result(base, concat2("failed to execute git diff: ", e.as_str())),
        GitOutcome::Failed(s) => warning_result(base, git_failure_warning(s.as_str())),
        GitOutcome::Succeeded(out) => {
            let root = resolve_project_root(graph, project_root);
            let changed = changed_files(out.as_str(), root.as_str());
            let ids = affected_ids(graph, &changed);
            let ghost nodes = graph.nodes@;
            let ghost edges = graph.edges@;
            let ghost cs = views(changed@).to_set();
            let ghost aset = affected_set(nodes, cs);
            let mut added_nodes: Vec<DiffNode> = Vec::new();
            let mut k: usize = 0;
            while k < ids.len()
                invariant
                    k <= ids@.len(),
                    nodes == graph.nodes@,
                    sorted_set(ids@, aset),
                    aset == affected_set(nodes, cs),
                    added_nodes@.len() == k,
                    forall|t: int| 0 <= t < k ==> (#[trigger] added_nodes@[t]).id@ == ids@[t]@,
                    forall|t: int|
                        0 <= t < k ==> lists_node(
                            #[trigger] added_nodes@[t],
                            nodes[last_with_id(nodes, added_nodes@[t].id@)],
                        ),
                decreases ids@.len() - k,
            {
                proof {
                    assert(views(ids@)[k as int] == ids@[k as int]@);
                    assert(aset.contains(ids@[k as int]@));
                    lemma_affected_are_ids(nodes, cs, nodes.len() as int, ids@[k as int]@);
                    lemma_last_with_id(nodes, ids@[k as int]@);
                }
                match last_node_with(&graph.nodes, ids[k].as_str()) {
                    Some(i) => {
                        let n = &graph.nodes[i];
                        added_nodes.push(
                            DiffNode {
                                id: owned(n.id.as_str()),
                                kind: n.kind,
                                qualified_name: owned(n.qualified_name.as_str()),
                            },
                        );
                    },
                    None => {
                        proof {
                            let j = choose|j: int| 0 <= j < nodes.len() && (#[trigger] nodes[j]).id@ == ids@[k as int]@;
                            assert(nodes[j].id@ == ids@[k as int]@);
                        }
                    },
                }
                k = k + 1;
            }
            proof {
                let dv = views(added_nodes@.map_values(|d: DiffNode| d.id));
                assert(dv =~= views(ids@));
                assert forall|i: int, j: int|
                    0 <= i < j < added_nodes@.len() implies seq_lt(
                    (#[trigger] added_nodes@[i]).id@,
                    (#[trigger] added_nodes@[j]).id@,
                ) by {
                    assert(seq_lt(ids@[i]@, ids@[j]@));
                }
            }
            let mut added_edges: Vec<DiffEdge> = Vec::new();
            let mut m: usize = 0;
            while m < graph.edges.len()
                invariant
                    m <= edges.len(),
                    edges == graph.edges@,
                    views(ids@).to_set() == aset,
                    added_edges@.len() == edges_at(edges, aset, m as int).len(),
                    forall|t: int|
                        0 <= t < added_edges@.len() ==> lists_edge(
                            #[trigger] added_edges@[t],
                            edges_at(edges, aset, m as int)[t],
                        ),
                decreases edges.len() - m,
            {
                let e = &graph.edges[m];
                let ghost before = added_edges@;
                if holds(&ids, e.from.as_str()) || holds(&ids, e.to.as_str()) {
                    added_edges.push(
                        DiffEdge { from: owned(e.from.as_str()), to: owned(e.to.as_str()), kind: e.kind },
                    );
                    proof {
                        assert forall|t: int| 0 <= t < added_edges@.len() implies lists_edge(
                            #[trigger] added_edges@[t],
                            edges_at(edges, aset, m + 1)[t],
                        ) by {
                            if t < before.len() {
                                assert(added_edges@[t] == before[t]);
                            }
                        }
                    }
                }
                m = m + 1;
            }
            DiffReport {
                base: owned(base),
                added_nodes,
                added_edges,
                changed_files: changed,
                warning: None,
            }
        },
    }
}

} // verus!
