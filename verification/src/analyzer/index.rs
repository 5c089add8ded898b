//! Index a project: which files are indexed, and the graph built from the
//! parsed files.

use vstd::prelude::*;
use vstd::string::*;
use vstd::utf8::encode_utf8;
use crate::analyzer::builder::Builder;
use crate::analyzer::syntax::PyModule;
use crate::analyzer::visitors::{
    body_laid, body_calls, body_ok, calls_pending_in, call_pending_at, is_call_pending, decl_calls_ok, decl_node_ok,
    file_label, lemma_body_laid_grow, lemma_decl_counts, lemma_module_nodes_mono, module_nodes, stmt_nodes, visit_file,
};
use crate::analyzer::syntax::Stmt;
use crate::analyzer::builder::{PendingEdge, Resolution, edge_of_pending, lemma_resolved_has, resolve_name, resolved};
use crate::analyzer::helpers::module_name_spec;
use crate::model::{CodeGraph, Edge, EdgeKind, Node, NodeKind, Package, Project, node_kind_str, views};
use crate::text::{
    chars_of, concat2, contains, ends_with, owned, push_str, seq_contains, seq_ends_with,
    seq_starts_with, starts_with, str_eq, string_from_range,
};

verus! {

// ---------------------------------------------------------------- paths

/// The position of the last `c` in `s`, or -1.
pub open spec fn last_index(s: Seq<char>, c: char) -> int
    decreases s.len(),
{
    if s.len() == 0 {
        -1
    } else if s.last() == c {
        s.len() - 1
    } else {
        last_index(s.drop_last(), c)
    }
}

proof fn lemma_last_index_bounds(s: Seq<char>, c: char)
    ensures
        -1 <= last_index(s, c) < s.len(),
        last_index(s, c) >= 0 ==> s[last_index(s, c)] == c,
    decreases s.len(),
{
    if s.len() > 0 && s.last() != c {
        lemma_last_index_bounds(s.drop_last(), c);
    }
}

fn find_last(s: &Vec<char>, c: char) -> (r: Option<usize>)
    ensures
        match r {
            Some(i) => i as int == last_index(s@, c),
            None => last_index(s@, c) == -1,
        },
{
    let mut i: usize = s.len();
    assert(s@.take(s@.len() as int) =~= s@);
    while i > 0
        invariant
            i <= s@.len(),
            last_index(s@, c) == last_index(s@.take(i as int), c),
        decreases i,
    {
        assert(s@.take(i as int).drop_last() =~= s@.take(i - 1));
        if s[i - 1] == c {
            return Some(i - 1);
        }
        i = i - 1;
    }
    assert(s@.take(0) =~= Seq::<char>::empty());
    None
}

/// The last component of a `/`-separated path.
pub open spec fn file_name_of(p: Seq<char>) -> Seq<char> {
    p.skip(last_index(p, '/') + 1)
}

/// The last component of a `/`-separated path.
pub fn file_name(p: &str) -> (r: String)
    ensures
        r@ == file_name_of(p@),
{
    let c = chars_of(p);
    proof {
        lemma_last_index_bounds(p@, '/');
    }
    let from: usize = match find_last(&c, '/') {
        Some(i) => i + 1,
        None => 0,
    };
    let r = string_from_range(c.as_slice(), from, c.len());
    assert(r@ =~= file_name_of(p@));
    r
}

/// Whether a path names a `.py` file: its name has a `.` that is not its
/// first character, and `py` after the last one.
pub open spec fn has_py_extension(p: Seq<char>) -> bool {
    let n = file_name_of(p);
    let d = last_index(n, '.');
    d > 0 && n.skip(d + 1) == "py"@
}

/// Whether a path is a test file: under a `test` or `tests` directory, or
/// named `test_*` or `*_test.py`.
pub open spec fn is_test_source(p: Seq<char>) -> bool {
    seq_contains(p, "/test/"@) || seq_contains(p, "/tests/"@) || seq_starts_with(
        file_name_of(p),
        "test_"@,
    ) || seq_ends_with(file_name_of(p), "_test.py"@)
}

/// Whether a path is not a test file.
pub fn is_not_test_file(path: &str) -> (r: bool)
    ensures
        r == !is_test_source(path@),
{
    proof {
        reveal_strlit("/test/");
        reveal_strlit("/tests/");
        reveal_strlit("test_");
        reveal_strlit("_test.py");
    }
    if contains(path, "/test/") || contains(path, "/tests/") {
        return false;
    }
    let name = file_name(path);
    if starts_with(name.as_str(), "test_") || ends_with(name.as_str(), "_test.py") {
        return false;
    }
    true
}

/// Whether a discovered path is indexed: a `.py` file, and not a test file
/// unless tests are included.
pub fn is_python_source(path: &str, include_tests: bool) -> (r: bool)
    ensures
        r == (has_py_extension(path@) && (include_tests || !is_test_source(path@))),
{
    let name = file_name(path);
    let c = chars_of(name.as_str());
    proof {
        lemma_last_index_bounds(name@, '.');
        reveal_strlit("py");
    }
    let is_py = match find_last(&c, '.') {
        Some(d) => {
            if d > 0 {
                assert(d < c@.len() && c@.len() == c.len());
                let ext = string_from_range(c.as_slice(), d + 1, c.len());
                assert(ext@ =~= name@.skip(d + 1));
                str_eq(ext.as_str(), "py")
            } else {
                false
            }
        },
        None => false,
    };
    is_py && (include_tests || is_not_test_file(path))
}

/// The package name of a project root: its last component, or `unknown`.
pub open spec fn package_name_spec(root: Seq<char>) -> Seq<char> {
    if file_name_of(root).len() > 0 {
        file_name_of(root)
    } else {
        "unknown"@
    }
}

/// The package name of a project root: its last component, or `unknown`.
pub fn detect_package_name(root: &str) -> (r: String)
    ensures
        r@ == package_name_spec(root@),
{
    let n = file_name(root);
    if n.as_str().unicode_len() > 0 {
        n
    } else {
        proof {
            reveal_strlit("unknown");
        }
        owned("unknown")
    }
}

// ---------------------------------------------------------------- graph

/// What reading and parsing a Python file gave.
pub enum FileSource {
    /// The file's text and its syntax tree.
    Parsed { source: String, module: PyModule },
    /// The file could not be read.
    Unreadable,
    /// The file could be read but not parsed.
    Unparsable,
}

/// A discovered Python file: its path and what reading it gave.
pub struct SourceFile {
    pub path: String,
    pub content: FileSource,
}

/// Whether a file's syntax tree can be walked over its text.
pub open spec fn source_ok(f: SourceFile) -> bool {
    match f.content {
        FileSource::Parsed { source, module } => encode_utf8(source@).len() < usize::MAX && body_ok(
            module.body@,
            encode_utf8(source@),
        ),
        _ => true,
    }
}

/// The nodes the first `k` files add: a file node, a module node and the
/// declarations of each parsed file.
pub open spec fn index_nodes(files: Seq<SourceFile>, k: int) -> nat
    decreases k,
{
    if k <= 0 || k > files.len() {
        0
    } else {
        index_nodes(files, k - 1) + match files[k - 1].content {
            FileSource::Parsed { module, .. } => 2 + module_nodes(
                module.body@,
                module.body@.len() as int,
            ),
            _ => 0,
        }
    }
}

/// The warnings for the first `k` files that could not be indexed.
pub open spec fn failure_warnings(files: Seq<SourceFile>, k: int) -> Seq<Seq<char>>
    decreases k,
{
    if k <= 0 || k > files.len() {
        Seq::empty()
    } else {
        let prev = failure_warnings(files, k - 1);
        let p = files[k - 1].path@;
        match files[k - 1].content {
            FileSource::Parsed { .. } => prev,
            FileSource::Unreadable => prev.push(
                "Failed to index "@ + p + ": Failed to read "@ + p,
            ),
            FileSource::Unparsable => prev.push(
                "Failed to index "@ + p + ": Failed to visit "@ + p,
            ),
        }
    }
}

pub(crate) proof fn lemma_index_nodes_mono(files: Seq<SourceFile>, i: int, j: int)
    requires
        0 <= i <= j <= files.len(),
    ensures
        index_nodes(files, i) <= index_nodes(files, j),
    decreases j - i,
{
    if i < j {
        lemma_index_nodes_mono(files, i, j - 1);
    }
}

fn failure_text(path: &str, what: &str) -> (r: String)
    ensures
        r@ == "Failed to index "@ + path@ + ": "@ + what@ + path@,
{
    let mut r = concat2("Failed to index ", path);
    push_str(&mut r, ": ");
    push_str(&mut r, what);
    push_str(&mut r, path);
    r
}

/// The nodes a file adds: for a parsed file, a file node, a module node and
/// its declarations.
pub open spec fn file_size(f: SourceFile) -> nat {
    match f.content {
        FileSource::Parsed { module, .. } => 2 + module_nodes(module.body@, module.body@.len() as int),
        _ => 0,
    }
}

/// What a parsed file left at node position `o`: its file node, its module
/// node (linked from the file node by a module-file edge), and the node
/// each top-level function or class declares, named under the module.
#[verifier::opaque]
pub open spec fn file_indexed(f: SourceFile, nodes: Seq<Node>, edges: Seq<Edge>, o: int, root: Seq<char>) -> bool {
    match f.content {
        FileSource::Parsed { module, .. } => {
            let fnode = nodes[o];
            let md = nodes[o + 1];
            let mq = module_name_spec(f.path@, root);
            &&& fnode.kind == NodeKind::File
            &&& fnode.name@ == file_label(f.path@, root)
            &&& md.kind == NodeKind::Module
            &&& md.qualified_name@ == mq
            &&& exists|j: int|
                0 <= j < edges.len() && (#[trigger] edges[j]).kind == EdgeKind::ModuleFile && edges[j].from@ == fnode.id@
                    && edges[j].to@ == md.id@
            &&& forall|t: int|
                0 <= t < module.body@.len() ==> decl_node_ok(
                    #[trigger] module.body@[t],
                    nodes[o + 2 + module_nodes(module.body@, t)],
                    mq,
                )
        },
        _ => true,
    }
}

/// Each of the first `upto` files left what `file_indexed` says at its
/// node position.
#[verifier::opaque]
pub open spec fn files_indexed(files: Seq<SourceFile>, nodes: Seq<Node>, edges: Seq<Edge>, upto: int, root: Seq<char>) -> bool {
    forall|k: int| 0 <= k < upto ==> file_indexed(#[trigger] files[k], nodes, edges, 1 + index_nodes(files, k) as int, root)
}

/// Each call of `calls` whose name resolves among `nodes` has a call edge
/// from `caller` to the node it resolves to.
pub open spec fn calls_linked(nodes: Seq<Node>, edges: Seq<Edge>, caller: Seq<char>, calls: Seq<(Seq<char>, usize, Seq<char>)>) -> bool {
    forall|m: int|
        0 <= m < calls.len() ==> match resolve_name(nodes, (#[trigger] calls[m]).0) {
            Resolution::Target(id, _) => exists|j: int|
                0 <= j < edges.len() && (#[trigger] edges[j]).kind == EdgeKind::Calls && edges[j].from@ == caller
                    && edges[j].to@ == id,
            _ => true,
        }
}

/// For a function statement declared as node `n`: the calls in its body
/// are linked from `n`.
pub open spec fn decl_linked(s: Stmt, n: Node, nodes: Seq<Node>, edges: Seq<Edge>) -> bool {
    match s {
        Stmt::FunctionDef(fd) => calls_linked(nodes, edges, n.id@, body_calls(fd.body@, fd.body@.len() as int)),
        Stmt::AsyncFunctionDef(fd) => calls_linked(nodes, edges, n.id@, body_calls(fd.body@, fd.body@.len() as int)),
        _ => true,
    }
}

/// For each parsed file among the first `upto`, the calls in each
/// top-level function are linked from the function's node.
#[verifier::opaque]
pub open spec fn files_linked(files: Seq<SourceFile>, nodes: Seq<Node>, edges: Seq<Edge>, upto: int) -> bool {
    forall|k: int|
        0 <= k < upto ==> match (#[trigger] files[k]).content {
            FileSource::Parsed { module, .. } => forall|t: int|
                0 <= t < module.body@.len() ==> decl_linked(
                    #[trigger] module.body@[t],
                    nodes[(1 + index_nodes(files, k) + 2 + module_nodes(module.body@, t)) as int],
                    nodes,
                    edges,
                ),
            _ => true,
        }
}

/// For each parsed file among the first `upto`, the body was laid out from
/// its node position with its calls pending in `pend`.
#[verifier::opaque]
pub open spec fn files_pending(files: Seq<SourceFile>, nodes: Seq<Node>, pend: Seq<PendingEdge>, upto: int, root: Seq<char>) -> bool {
    forall|k: int|
        0 <= k < upto ==> match (#[trigger] files[k]).content {
            FileSource::Parsed { source, module } => body_laid(
                module.body@,
                nodes,
                pend,
                (1 + index_nodes(files, k) + 2) as int,
                module.body@.len() as int,
                module_name_spec(files[k].path@, root),
                file_label(files[k].path@, root),
                source@,
            ),
            _ => true,
        }
}

proof fn lemma_files_pending_step(
    files: Seq<SourceFile>,
    i: int,
    n0: Seq<Node>,
    p0: Seq<PendingEdge>,
    nb: Seq<Node>,
    pb: Seq<PendingEdge>,
    root: Seq<char>,
)
    requires
        0 <= i < files.len(),
        n0.len() == 1 + index_nodes(files, i),
        n0.len() <= nb.len(),
        nb.take(n0.len() as int) == n0,
        p0.len() <= pb.len(),
        pb.take(p0.len() as int) == p0,
        files_pending(files, n0, p0, i, root),
        match files[i].content {
            FileSource::Parsed { source, module } => body_laid(
                module.body@,
                nb,
                pb,
                (n0.len() + 2) as int,
                module.body@.len() as int,
                module_name_spec(files[i].path@, root),
                file_label(files[i].path@, root),
                source@,
            ),
            _ => true,
        },
    ensures
        files_pending(files, nb, pb, i + 1, root),
{
    reveal(files_pending);
    assert forall|k: int| 0 <= k < n0.len() implies nb[k] == n0[k] by {
        assert(nb.take(n0.len() as int)[k] == nb[k]);
    }
    assert forall|k: int| 0 <= k < i + 1 implies match (#[trigger] files[k]).content {
        FileSource::Parsed { source, module } => body_laid(
            module.body@,
            nb,
            pb,
            (1 + index_nodes(files, k) + 2) as int,
            module.body@.len() as int,
            module_name_spec(files[k].path@, root),
            file_label(files[k].path@, root),
            source@,
        ),
        _ => true,
    } by {
        if k < i {
            lemma_index_nodes_mono(files, k + 1, i);
            match files[k].content {
                FileSource::Parsed { source, module } => {
                    lemma_body_laid_grow(
                        module.body@,
                        n0,
                        p0,
                        nb,
                        pb,
                        (1 + index_nodes(files, k) + 2) as int,
                        module_name_spec(files[k].path@, root),
                        file_label(files[k].path@, root),
                        source@,
                    );
                },
                _ => {},
            }
        }
    }
}

proof fn lemma_files_linked(
    files: Seq<SourceFile>,
    nodes: Seq<Node>,
    pend: Seq<PendingEdge>,
    e1: Seq<Edge>,
    e2: Seq<Edge>,
    root: Seq<char>,
)
    requires
        files_pending(files, nodes, pend, files.len() as int, root),
        e2.len() == e1.len() + resolved(nodes, pend).len(),
        forall|k: int|
            0 <= k < resolved(nodes, pend).len() ==> edge_of_pending(
                #[trigger] e2[e1.len() + k],
                resolved(nodes, pend)[k].0,
                resolved(nodes, pend)[k].1,
                resolved(nodes, pend)[k].2,
            ),
    ensures
        files_linked(files, nodes, e2, files.len() as int),
{
    reveal(files_linked);
    reveal(files_pending);
    reveal(body_laid);
    reveal(calls_pending_in);
    assert forall|k: int| 0 <= k < files.len() implies match (#[trigger] files[k]).content {
        FileSource::Parsed { module, .. } => forall|t: int|
            0 <= t < module.body@.len() ==> decl_linked(
                #[trigger] module.body@[t],
                nodes[(1 + index_nodes(files, k) + 2 + module_nodes(module.body@, t)) as int],
                nodes,
                e2,
            ),
        _ => true,
    } by {
        match files[k].content {
            FileSource::Parsed { source, module } => {
                let body = module.body@;
                let o: int = (1 + index_nodes(files, k) + 2) as int;
                let file = file_label(files[k].path@, root);
                assert forall|t: int| 0 <= t < body.len() implies decl_linked(#[trigger] body[t], nodes[o + module_nodes(body, t)], nodes, e2) by {
                    let n = nodes[o + module_nodes(body, t)];
                    assert(decl_calls_ok(body[t], n, pend, file, source@));
                    match body[t] {
                        Stmt::FunctionDef(fd) => {
                            lemma_calls_linked(nodes, pend, e1, e2, n.id@, body_calls(fd.body@, fd.body@.len() as int), file, source@);
                        },
                        Stmt::AsyncFunctionDef(fd) => {
                            lemma_calls_linked(nodes, pend, e1, e2, n.id@, body_calls(fd.body@, fd.body@.len() as int), file, source@);
                        },
                        _ => {},
                    }
                }
            },
            _ => {},
        }
    }
}

proof fn lemma_calls_linked(
    nodes: Seq<Node>,
    pend: Seq<PendingEdge>,
    e1: Seq<Edge>,
    e2: Seq<Edge>,
    caller: Seq<char>,
    calls: Seq<(Seq<char>, usize, Seq<char>)>,
    file: Seq<char>,
    source: Seq<char>,
)
    requires
        calls_pending_in(pend, caller, calls, file, source),
        e2.len() == e1.len() + resolved(nodes, pend).len(),
        forall|k: int|
            0 <= k < resolved(nodes, pend).len() ==> edge_of_pending(
                #[trigger] e2[e1.len() + k],
                resolved(nodes, pend)[k].0,
                resolved(nodes, pend)[k].1,
                resolved(nodes, pend)[k].2,
            ),
    ensures
        calls_linked(nodes, e2, caller, calls),
{
    reveal(calls_pending_in);
    assert forall|m: int| 0 <= m < calls.len() implies match resolve_name(nodes, (#[trigger] calls[m]).0) {
        Resolution::Target(id, _) => exists|j: int|
            0 <= j < e2.len() && (#[trigger] e2[j]).kind == EdgeKind::Calls && e2[j].from@ == caller && e2[j].to@ == id,
        _ => true,
    } by {
        match resolve_name(nodes, calls[m].0) {
            Resolution::Target(id, c) => {
                assert(call_pending_at(pend, caller, calls[m], file, source));
                let j = choose|j: int| 0 <= j < pend.len() && is_call_pending(#[trigger] pend[j], caller, calls[m], file, source);
                lemma_resolved_has(nodes, pend, j, id, c);
                let kk = choose|kk: int| 0 <= kk < resolved(nodes, pend).len() && #[trigger] resolved(nodes, pend)[kk] == (pend[j], id, c);
                let w = e1.len() + kk;
                assert(edge_of_pending(e2[w], pend[j], id, c));
            },
            _ => {},
        }
    }
}

proof fn lemma_file_indexed_grow(
    f: SourceFile,
    nodes1: Seq<Node>,
    edges1: Seq<Edge>,
    nodes2: Seq<Node>,
    edges2: Seq<Edge>,
    o: int,
    root: Seq<char>,
)
    requires
        file_indexed(f, nodes1, edges1, o, root),
        0 <= o,
        o + file_size(f) <= nodes1.len() <= nodes2.len(),
        forall|k: int| 0 <= k < nodes1.len() ==> nodes2[k] == nodes1[k],
        edges1.len() <= edges2.len(),
        forall|k: int| 0 <= k < edges1.len() ==> edges2[k] == edges1[k],
    ensures
        file_indexed(f, nodes2, edges2, o, root),
{
    reveal(file_indexed);
    match f.content {
        FileSource::Parsed { module, .. } => {
            let body = module.body@;
            let mq = module_name_spec(f.path@, root);
            lemma_module_nodes_mono(body, 0, body.len() as int);
            assert(nodes2[o] == nodes1[o]);
            assert(nodes2[o + 1] == nodes1[o + 1]);
            let j = choose|j: int|
                0 <= j < edges1.len() && (#[trigger] edges1[j]).kind == EdgeKind::ModuleFile && edges1[j].from@ == nodes1[o].id@
                    && edges1[j].to@ == nodes1[o + 1].id@;
            assert(edges2[j] == edges1[j]);
            assert forall|t: int| 0 <= t < body.len() implies decl_node_ok(
                #[trigger] body[t],
                nodes2[o + 2 + module_nodes(body, t)],
                mq,
            ) by {
                lemma_decl_counts(body[t]);
                if stmt_nodes(body[t]) > 0 {
                    lemma_module_nodes_mono(body, t + 1, body.len() as int);
                    assert(nodes2[o + 2 + module_nodes(body, t)] == nodes1[o + 2 + module_nodes(body, t)]);
                }
            }
        },
        _ => {},
    }
}

/// What indexing `files` under `root` gives: schema 1; the project with
/// one package named after the root, holding the files; a project node
/// first, then the nodes of the parsed files; first the warnings for the
/// files that could not be read or parsed; no semantic pass yet.
pub open spec fn indexed(root: Seq<char>, files: Seq<SourceFile>, generated_at_ms: u128, g: CodeGraph) -> bool {
    &&& g.schema_version == 1
    &&& g.project.root@ == root
    &&& g.project.packages@.len() == 1
    &&& g.project.packages@[0].name@ == package_name_spec(root)
    &&& g.project.packages@[0].root@ == root
    &&& views(g.project.packages@[0].files@) == files.map_values(|f: SourceFile| f.path@)
    &&& g.nodes@.len() == 1 + index_nodes(files, files.len() as int)
    &&& g.nodes@[0].kind == NodeKind::Project
    &&& g.nodes@[0].id@ == "project:"@ + root
    &&& g.nodes@[0].name@ == root
    &&& g.nodes@[0].qualified_name@ == root
    &&& views(g.warnings@).take(failure_warnings(files, files.len() as int).len() as int)
        == failure_warnings(files, files.len() as int)
    &&& g.semantic is None
    &&& g.generated_at_ms == generated_at_ms
    &&& files_indexed(files, g.nodes@, g.edges@, files.len() as int, root)
    &&& files_linked(files, g.nodes@, g.edges@, files.len() as int)
}

proof fn lemma_unparsed_indexed(files: Seq<SourceFile>, i: int, nodes: Seq<Node>, edges: Seq<Edge>, root: Seq<char>)
    requires
        0 <= i < files.len(),
        !(files[i].content is Parsed),
        files_indexed(files, nodes, edges, i, root),
    ensures
        files_indexed(files, nodes, edges, i + 1, root),
{
    reveal(files_indexed);
    reveal(file_indexed);
}

proof fn lemma_indexed_step(
    files: Seq<SourceFile>,
    i: int,
    n0: Seq<Node>,
    e0: Seq<Edge>,
    nb: Seq<Node>,
    eb: Seq<Edge>,
    root: Seq<char>,
)
    requires
        0 <= i < files.len(),
        n0.len() == 1 + index_nodes(files, i),
        n0.len() <= nb.len(),
        nb.take(n0.len() as int) == n0,
        e0.len() <= eb.len(),
        eb.take(e0.len() as int) == e0,
        files_indexed(files, n0, e0, i, root),
        file_indexed(files[i], nb, eb, n0.len() as int, root),
    ensures
        files_indexed(files, nb, eb, i + 1, root),
{
    reveal(files_indexed);
    assert forall|k: int| 0 <= k < n0.len() implies nb[k] == n0[k] by {
        assert(nb.take(n0.len() as int)[k] == nb[k]);
    }
    assert forall|k: int| 0 <= k < e0.len() implies eb[k] == e0[k] by {
        assert(eb.take(e0.len() as int)[k] == eb[k]);
    }
    assert forall|k: int| 0 <= k < i + 1 implies file_indexed(#[trigger] files[k], nb, eb, 1 + index_nodes(files, k) as int, root) by {
        if k < i {
            lemma_index_nodes_mono(files, k + 1, i);
            assert(1 + index_nodes(files, k) + file_size(files[k]) == 1 + index_nodes(files, k + 1));
            lemma_file_indexed_grow(files[k], n0, e0, nb, eb, 1 + index_nodes(files, k) as int, root);
        }
    }
}

proof fn lemma_indexed_final(files: Seq<SourceFile>, nodes: Seq<Node>, edges1: Seq<Edge>, edges2: Seq<Edge>, root: Seq<char>)
    requires
        nodes.len() == 1 + index_nodes(files, files.len() as int),
        edges1.len() <= edges2.len(),
        edges2.subrange(0, edges1.len() as int) == edges1,
        files_indexed(files, nodes, edges1, files.len() as int, root),
    ensures
        files_indexed(files, nodes, edges2, files.len() as int, root),
{
    reveal(files_indexed);
    assert forall|k: int| 0 <= k < edges1.len() implies edges2[k] == edges1[k] by {
        assert(edges2.subrange(0, edges1.len() as int)[k] == edges2[k]);
    }
    assert forall|k: int| 0 <= k < files.len() implies file_indexed(#[trigger] files[k], nodes, edges2, 1 + index_nodes(files, k) as int, root) by {
        lemma_index_nodes_mono(files, k + 1, files.len() as int);
        assert(1 + index_nodes(files, k) + file_size(files[k]) == 1 + index_nodes(files, k + 1));
        lemma_file_indexed_grow(files[k], nodes, edges1, nodes, edges2, 1 + index_nodes(files, k) as int, root);
    }
}

/// Build the graph of a project from its discovered files, in order: a
/// project node, then each parsed file's nodes and edges; a file that could
/// not be read or parsed leaves a warning. Pending calls, imports and base
/// classes are resolved once all files are in.
pub fn index_project(root: &str, files: &Vec<SourceFile>, generated_at_ms: u128) -> (g: CodeGraph)
    requires
        forall|i: int| 0 <= i < files@.len() ==> source_ok(#[trigger] files@[i]),
        1 + index_nodes(files@, files@.len() as int) <= usize::MAX,
    ensures
        indexed(root@, files@, generated_at_ms, g),
{
    let mut builder = Builder::new();
    builder.add_node(NodeKind::Project, root, root, None, 1, 1, None, None, None);
    let ghost first = builder.view_nodes()[0];
    proof {
        reveal_strlit("project");
        reveal_strlit("project:");
        reveal_strlit(":");
        assert(node_kind_str(NodeKind::Project) + ":"@ + root@ =~= "project:"@ + root@);
        assert(first.id@ == "project:"@ + root@);
        lemma_index_nodes_mono(files@, 0, files@.len() as int);
        reveal_strlit("Failed to read ");
        reveal_strlit("Failed to visit ");
        reveal_strlit("Failed to index ");
        reveal_strlit(": ");
        reveal_strlit(": Failed to read ");
        reveal_strlit(": Failed to visit ");
    }
    assert(files_indexed(files@, builder.view_nodes(), builder.view_edges(), 0, root@)) by {
        reveal(files_indexed);
    }
    assert(files_pending(files@, builder.view_nodes(), builder.view_pending(), 0, root@)) by {
        reveal(files_pending);
    }
    let mut paths: Vec<String> = Vec::new();
    let mut i: usize = 0;
    while i < files.len()
        invariant
            i <= files@.len(),
            forall|j: int| 0 <= j < files@.len() ==> source_ok(#[trigger] files@[j]),
            1 + index_nodes(files@, files@.len() as int) <= usize::MAX,
            builder.wf(),
            builder.view_nodes().len() == 1 + index_nodes(files@, i as int),
            builder.view_nodes()[0] == first,
            first.kind == NodeKind::Project && first.name@ == root@ && first.qualified_name@ == root@,
            views(builder.view_warnings()) == failure_warnings(files@, i as int),
            views(paths@) == files@.take(i as int).map_values(|f: SourceFile| f.path@),
            files_indexed(files@, builder.view_nodes(), builder.view_edges(), i as int, root@),
            files_pending(files@, builder.view_nodes(), builder.view_pending(), i as int, root@),
        decreases files@.len() - i,
    {
        proof {
            lemma_index_nodes_mono(files@, i + 1, files@.len() as int);
        }
        let f = &files[i];
        let ghost w0 = views(builder.view_warnings());
        let ghost n0 = builder.view_nodes();
        let ghost e0 = builder.view_edges();
        let ghost p0 = builder.view_pending();
        assert(source_ok(files@[i as int]));
        match &f.content {
            FileSource::Parsed { source, module } => {
                visit_file(&mut builder, module, source.as_str(), f.path.as_str(), root);
                assert(builder.view_nodes()[0] == builder.view_nodes().take(n0.len() as int)[0]);
                proof {
                    let nb = builder.view_nodes();
                    let eb = builder.view_edges();
                    assert(file_indexed(files@[i as int], nb, eb, n0.len() as int, root@)) by {
                        reveal(file_indexed);
                        reveal(body_laid);
                        let j = e0.len() as int;
                        assert(eb[j].kind == EdgeKind::ModuleFile);
                    }
                    lemma_indexed_step(files@, i as int, n0, e0, nb, eb, root@);
                    let pb = builder.view_pending();
                    lemma_files_pending_step(files@, i as int, n0, p0, nb, pb, root@);
                }
            },
            FileSource::Unreadable => {
                proof {
                    reveal_strlit("Failed to read ");
                    reveal_strlit(": Failed to read ");
                    reveal_strlit(": ");
                }
                let w = failure_text(f.path.as_str(), "Failed to read ");
                assert(w@ =~= "Failed to index "@ + f.path@ + ": Failed to read "@ + f.path@);
                builder.warn(w);
                assert(views(builder.view_warnings()) =~= w0.push(
                    "Failed to index "@ + f.path@ + ": Failed to read "@ + f.path@,
                ));
                proof {
                    lemma_unparsed_indexed(files@, i as int, builder.view_nodes(), builder.view_edges(), root@);
                    assert(n0.take(n0.len() as int) =~= n0);
                    assert(p0.take(p0.len() as int) =~= p0);
                    lemma_files_pending_step(files@, i as int, n0, p0, builder.view_nodes(), builder.view_pending(), root@);
                }
            },
            FileSource::Unparsable => {
                proof {
                    reveal_strlit("Failed to visit ");
                    reveal_strlit(": Failed to visit ");
                    reveal_strlit(": ");
                }
                let w = failure_text(f.path.as_str(), "Failed to visit ");
                assert(w@ =~= "Failed to index "@ + f.path@ + ": Failed to visit "@ + f.path@);
                builder.warn(w);
                assert(views(builder.view_warnings()) =~= w0.push(
                    "Failed to index "@ + f.path@ + ": Failed to visit "@ + f.path@,
                ));
                proof {
                    lemma_unparsed_indexed(files@, i as int, builder.view_nodes(), builder.view_edges(), root@);
                    assert(n0.take(n0.len() as int) =~= n0);
                    assert(p0.take(p0.len() as int) =~= p0);
                    lemma_files_pending_step(files@, i as int, n0, p0, builder.view_nodes(), builder.view_pending(), root@);
                }
            },
        }
        let ghost pv = views(paths@);
        paths.push(owned(f.path.as_str()));
        assert(views(paths@) =~= pv.push(f.path@));
        assert(files@.take(i + 1).map_values(|f: SourceFile| f.path@) =~= files@.take(
            i as int,
        ).map_values(|f: SourceFile| f.path@).push(f.path@));
        i = i + 1;
    }
    assert(files@.take(files@.len() as int) =~= files@);
    let ghost fw = views(builder.view_warnings());
    let ghost nodes1 = builder.view_nodes();
    let ghost edges1 = builder.view_edges();
    let ghost pend1 = builder.view_pending();
    builder.resolve_pending();
    let (nodes, edges, warnings) = builder.finish();
    proof {
        lemma_indexed_final(files@, nodes1, edges1, edges@, root@);
        lemma_files_linked(files@, nodes1, pend1, edges1, edges@, root@);
    }
    assert(views(warnings@).take(fw.len() as int) =~= fw);
    let package = Package { name: detect_package_name(root), root: owned(root), files: paths };
    CodeGraph {
        schema_version: 1,
        project: Project { root: owned(root), packages: vec![package] },
        nodes,
        edges,
        semantic: None,
        warnings,
        generated_at_ms,
    }
}

} // verus!
