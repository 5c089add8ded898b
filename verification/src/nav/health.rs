//! Architecture health: dead public symbols, god modules, module cycles,
//! hot symbols, and a score out of 100.

use vstd::prelude::*;
use vstd::string::StringSliceAdditionalSpecFns;
use vstd::utf8::{decode_utf8, encode_utf8, is_char_boundary};
use crate::model::{
    CodeGraph, Edge, EdgeCertainty, EdgeKind, EdgeSource, Node, NodeKind, is_tally_of,
    lemma_occurrences_bounds, occurrences, tally, tally_keys, views,
};
use crate::query::filter::is_symbol_kind;
use crate::query::index::{
    QueryIndex, degree_at, last_with_id, lemma_last_with_id, positions_at, total_weight,
};
use crate::sorting::{
    count_set, lemma_count_set, lemma_count_set_zero, sort_positions, sorted_positions,
};
use crate::text::{
    chars_of, concat2, contains, lines, lines_spec, owned, seq_contains, seq_starts_with,
    split_char, split_spec, starts_with, str_eq, string_from_range,
};

verus! {

// ---------------------------------------------------------------- paths

/// A file's module: its first path component once a leading `src/` is
/// dropped.
pub open spec fn top_module_spec(file: Seq<char>) -> Seq<char> {
    let rest = if seq_starts_with(file, "src/"@) {
        file.skip(4)
    } else {
        file
    };
    split_spec(rest, '/')[0]
}

/// Strip `src/` prefix from file path, then take the first path component.
pub fn top_module(file: &str) -> (r: String)
    ensures
        r@ == top_module_spec(file@),
{
    proof {
        reveal_strlit("src/");
    }
    let rest = if starts_with(file, "src/") {
        let cs = chars_of(file);
        string_from_range(cs.as_slice(), 4, cs.len())
    } else {
        owned(file)
    };
    assert(seq_starts_with(file@, "src/"@) ==> file@.subrange(4, file@.len() as int) =~= file@.skip(4));
    let parts = split_char(rest.as_str(), '/');
    proof {
        crate::text::lemma_split_from_nonempty(rest@, '/', 0);
    }
    let first = &parts[0];
    owned(first.as_str())
}

/// A path that looks like a test file: it holds `/test`, `/tests/` or
/// `_test.`.
pub open spec fn is_test_path(file: Seq<char>) -> bool {
    seq_contains(file, "/test"@) || seq_contains(file, "/tests/"@) || seq_contains(file, "_test."@)
}

/// Check if a file path looks like a test file.
pub fn is_test_file(file: &str) -> (r: bool)
    ensures
        r == is_test_path(file@),
{
    contains(file, "/test") || contains(file, "/tests/") || contains(file, "_test.")
}

// ---------------------------------------------------------------- truncation

/// The largest character boundary of `bytes` at or below `e`.
pub open spec fn boundary_at_most(bytes: Seq<u8>, e: int) -> int
    decreases e,
{
    if e <= 0 {
        0
    } else if is_char_boundary(bytes, e) {
        e
    } else {
        boundary_at_most(bytes, e - 1)
    }
}

/// `s` cut to at most `max` bytes at a character boundary, with `...`
/// appended when something was cut.
pub open spec fn truncate_spec(s: Seq<char>, max: usize) -> Seq<char> {
    if encode_utf8(s).len() <= max {
        s
    } else {
        decode_utf8(encode_utf8(s).subrange(0, boundary_at_most(encode_utf8(s), max as int)))
            + "..."@
    }
}

/// Truncate to max bytes with a `...` suffix.
pub fn truncate(s: &str, max: usize) -> (r: String)
    ensures
        r@ == truncate_spec(s@, max),
{
    proof {
        vstd::utf8::encode_utf8_valid_utf8(s@);
        vstd::utf8::encode_utf8_decode_utf8(s@);
    }
    let nbytes = s.as_bytes().len();
    if nbytes <= max {
        return owned(s);
    }
    let mut end: usize = max;
    while end > 0 && !s.is_char_boundary(end)
        invariant
            end <= max,
            s.spec_bytes().len() > max,
            boundary_at_most(s.spec_bytes(), max as int) == boundary_at_most(s.spec_bytes(), end as int),
        decreases end,
    {
        end = end - 1;
    }
    proof {
        vstd::utf8::is_char_boundary_start_end_of_seq(s.spec_bytes());
    }
    let (head, _tail) = s.split_at(end);
    proof {
        vstd::utf8::encode_utf8_decode_utf8(head@);
        assert(head.spec_bytes() == encode_utf8(head@));
        assert(decode_utf8(encode_utf8(head@)) == head@);
        reveal_strlit("...");
    }
    concat2(head, "...")
}

/// The first line of a text, if it has one.
pub open spec fn first_line(s: Seq<char>) -> Option<Seq<char>> {
    if lines_spec(s).len() > 0 {
        Some(lines_spec(s)[0])
    } else {
        None
    }
}

// ---------------------------------------------------------------- cycles

/// The module of the node with id `id`, when that node exists and has a
/// file.
pub open spec fn module_of(nodes: Seq<Node>, id: Seq<char>) -> Option<Seq<char>> {
    let i = last_with_id(nodes, id);
    if 0 <= i < nodes.len() && nodes[i].file is Some {
        Some(top_module_spec(nodes[i].file->0@))
    } else {
        None
    }
}

/// Edge `e` is a definite AST call or import from module `a` into another
/// module `b`.
pub open spec fn edge_links(nodes: Seq<Node>, e: Edge, a: Seq<char>, b: Seq<char>) -> bool {
    &&& e.source == EdgeSource::Ast
    &&& e.certainty == EdgeCertainty::Definite
    &&& (e.kind == EdgeKind::Calls || e.kind == EdgeKind::Imports)
    &&& module_of(nodes, e.from@) == Some(a)
    &&& module_of(nodes, e.to@) == Some(b)
    &&& a != b
}

/// Module `a` depends on module `b` through some edge.
pub open spec fn module_link(nodes: Seq<Node>, edges: Seq<Edge>, a: Seq<char>, b: Seq<char>) -> bool {
    exists|j: int| 0 <= j < edges.len() && edge_links(nodes, #[trigger] edges[j], a, b)
}

/// `c` is a dependency cycle: it starts and ends at the same module, passes
/// through at least one other, has at most 7 entries, and each step is a
/// module link.
pub open spec fn is_cycle(nodes: Seq<Node>, edges: Seq<Edge>, c: Seq<Seq<char>>) -> bool {
    &&& 3 <= c.len() <= 7
    &&& c[0] == c.last()
    &&& forall|i: int| 0 <= i < c.len() - 1 ==> module_link(nodes, edges, #[trigger] c[i], c[i + 1])
}

/// Module `m` links to, or is linked from, some other module.
pub open spec fn linked_module(nodes: Seq<Node>, edges: Seq<Edge>, m: Seq<char>) -> bool {
    exists|b: Seq<char>|
        #![trigger module_link(nodes, edges, m, b)]
        #![trigger module_link(nodes, edges, b, m)]
        module_link(nodes, edges, m, b) || module_link(nodes, edges, b, m)
}

/// The module dependency graph: module names, and for each module the
/// modules it links to.
struct ModuleGraph {
    names: Vec<String>,
    deps: Vec<Vec<usize>>,
}

impl ModuleGraph {
    /// Every recorded dependency is a module link.
    spec fn sound(&self, nodes: Seq<Node>, edges: Seq<Edge>) -> bool {
        &&& self.deps@.len() == self.names@.len()
        &&& forall|a: int, k: int|
            0 <= a < self.deps@.len() && 0 <= k < self.deps@[a]@.len() ==> {
                let b = #[trigger] self.deps@[a]@[k];
                &&& b < self.names@.len()
                &&& module_link(nodes, edges, self.names@[a]@, self.names@[b as int]@)
            }
    }

    /// No module name is held twice, nor any dependency of a module.
    spec fn distinct(&self) -> bool {
        &&& forall|i: int, j: int|
            0 <= i < j < self.names@.len() ==> (#[trigger] self.names@[i])@ != (#[trigger] self.names@[j])@
        &&& forall|a: int, i: int, j: int|
            0 <= a < self.deps@.len() && 0 <= i < j < self.deps@[a]@.len() ==> #[trigger] self.deps@[a]@[i]
                != #[trigger] self.deps@[a]@[j]
    }

    /// Every module name is a linked module.
    spec fn named_linked(&self, nodes: Seq<Node>, edges: Seq<Edge>) -> bool {
        forall|a: int| 0 <= a < self.names@.len() ==> linked_module(nodes, edges, #[trigger] self.names@[a]@)
    }

    /// Module `a` is held with a recorded dependency on module `b`.
    spec fn records(&self, a: Seq<char>, b: Seq<char>) -> bool {
        exists|x: int, y: usize|
            0 <= x < self.names@.len() && y < self.names@.len() && self.names@[x]@ == a && self.names@[y as int]@ == b
                && #[trigger] self.deps@[x]@.contains(y)
    }

    /// Every module link is recorded, between the modules' only entries.
    spec fn complete(&self, nodes: Seq<Node>, edges: Seq<Edge>) -> bool {
        &&& self.sound(nodes, edges)
        &&& self.distinct()
        &&& self.named_linked(nodes, edges)
        &&& forall|m: Seq<char>|
            #[trigger] linked_module(nodes, edges, m) ==> exists|x: int| 0 <= x < self.names@.len() && (#[trigger] self.names@[x])@ == m
        &&& forall|x: int, y: int|
            0 <= x < self.names@.len() && 0 <= y < self.names@.len() && module_link(
                nodes,
                edges,
                #[trigger] self.names@[x]@,
                #[trigger] self.names@[y]@,
            ) ==> self.deps@[x]@.contains(y as usize)
    }

    /// `new` keeps every name and dependency of `self` in place.
    spec fn grows_to(&self, new: ModuleGraph) -> bool {
        &&& self.names@.len() <= new.names@.len()
        &&& self.deps@.len() == self.names@.len()
        &&& new.deps@.len() == new.names@.len()
        &&& forall|x: int| 0 <= x < self.names@.len() ==> (#[trigger] new.names@[x])@ == self.names@[x]@
        &&& forall|x: int, y: usize|
            0 <= x < self.deps@.len() && #[trigger] self.deps@[x]@.contains(y) ==> new.deps@[x]@.contains(y)
    }
}

proof fn lemma_records_grow(g: ModuleGraph, h: ModuleGraph, a: Seq<char>, b: Seq<char>)
    requires
        g.grows_to(h),
        g.records(a, b),
    ensures
        h.records(a, b),
{
    let (x, y) = choose|x: int, y: usize|
        0 <= x < g.names@.len() && y < g.names@.len() && g.names@[x]@ == a && g.names@[y as int]@ == b
            && #[trigger] g.deps@[x]@.contains(y);
    assert(h.names@[x]@ == a);
    assert(h.names@[y as int]@ == b);
    assert(h.deps@[x]@.contains(y));
}

/// The index of module `name`, added when new.
fn module_index(g: &mut ModuleGraph, name: &str, Ghost(nodes): Ghost<Seq<Node>>, Ghost(edges): Ghost<Seq<Edge>>) -> (r: usize)
    requires
        old(g).sound(nodes, edges),
        old(g).distinct(),
        old(g).named_linked(nodes, edges),
        linked_module(nodes, edges, name@),
    ensures
        final(g).sound(nodes, edges),
        final(g).distinct(),
        final(g).named_linked(nodes, edges),
        old(g).grows_to(*final(g)),
        r < final(g).names@.len(),
        final(g).names@[r as int]@ == name@,
        final(g).names@.len() >= old(g).names@.len(),
        forall|a: int| 0 <= a < old(g).names@.len() ==> final(g).names@[a]@ == #[trigger] old(g).names@[a]@,
        forall|a: int| 0 <= a < old(g).deps@.len() ==> final(g).deps@[a]@ == #[trigger] old(g).deps@[a]@,
{
    let mut i: usize = 0;
    while i < g.names.len()
        invariant
            0 <= i <= g.names@.len(),
            g.sound(nodes, edges),
            g.names@ == old(g).names@,
            g.deps@ == old(g).deps@,
            g.distinct(),
            g.named_linked(nodes, edges),
            forall|j: int| 0 <= j < i ==> (#[trigger] g.names@[j])@ != name@,
        decreases g.names@.len() - i,
    {
        if str_eq(g.names[i].as_str(), name) {
            return i;
        }
        i = i + 1;
    }
    let ghost old_deps = g.deps@;
    let ghost old_names = g.names@;
    let ghost old_g = *g;
    g.names.push(owned(name));
    g.deps.push(Vec::new());
    proof {
        assert forall|x: int, y: int| 0 <= x < y < g.names@.len() implies (#[trigger] g.names@[x])@ != (
        #[trigger] g.names@[y])@ by {
            assert(g.names@[x] == old_names[x]);
            if y < old_names.len() {
                assert(g.names@[y] == old_names[y]);
            }
        }
        assert forall|a: int, x: int, y: int|
            0 <= a < g.deps@.len() && 0 <= x < y < g.deps@[a]@.len() implies #[trigger] g.deps@[a]@[x]
                != #[trigger] g.deps@[a]@[y] by {
            assert(a < old_deps.len());
            assert(g.deps@[a] == old_deps[a]);
        }
        assert forall|a: int| 0 <= a < g.names@.len() implies linked_module(nodes, edges, #[trigger] g.names@[a]@) by {
            if a < old_names.len() {
                assert(g.names@[a] == old_names[a]);
            }
        }
        assert forall|x: int, y: usize|
            0 <= x < old_g.deps@.len() && #[trigger] old_g.deps@[x]@.contains(y) implies g.deps@[x]@.contains(y) by {
            assert(g.deps@[x] == old_deps[x]);
        }
        assert forall|x: int| 0 <= x < old_g.names@.len() implies (#[trigger] g.names@[x])@ == old_g.names@[x]@ by {
            assert(g.names@[x] == old_names[x]);
        }

        assert forall|a: int, k: int|
            0 <= a < g.deps@.len() && 0 <= k < g.deps@[a]@.len() implies {
                let b = #[trigger] g.deps@[a]@[k];
                &&& b < g.names@.len()
                &&& module_link(nodes, edges, g.names@[a]@, g.names@[b as int]@)
            } by {
            assert(a < old_deps.len());
            assert(g.deps@[a] == old_deps[a]);
            let b = old_deps[a]@[k];
            assert(g.names@[a] == old_names[a]);
            assert(g.names@[b as int] == old_names[b as int]);
        }
    }
    g.names.len() - 1
}

/// Record that module `a` links to module `b`, once.
fn add_dep(g: &mut ModuleGraph, a: usize, b: usize, Ghost(nodes): Ghost<Seq<Node>>, Ghost(edges): Ghost<Seq<Edge>>)
    requires
        old(g).sound(nodes, edges),
        a < old(g).names@.len(),
        b < old(g).names@.len(),
        module_link(nodes, edges, old(g).names@[a as int]@, old(g).names@[b as int]@),
    ensures
        final(g).sound(nodes, edges),
        old(g).distinct() ==> final(g).distinct(),
        final(g).names@ == old(g).names@,
        final(g).deps@.len() == old(g).deps@.len(),
        forall|x: int| 0 <= x < old(g).deps@.len() && x != a ==> final(g).deps@[x]@ == #[trigger] old(g).deps@[x]@,
        final(g).deps@[a as int]@ == if old(g).deps@[a as int]@.contains(b) {
            old(g).deps@[a as int]@
        } else {
            old(g).deps@[a as int]@.push(b)
        },
{
    let mut k: usize = 0;
    while k < g.deps[a].len()
        invariant
            a < g.deps@.len(),
            0 <= k <= g.deps@[a as int]@.len(),
            g.sound(nodes, edges),
            g.names@ == old(g).names@,
            g.deps@ == old(g).deps@,
            forall|j: int| 0 <= j < k ==> g.deps@[a as int]@[j] != b,
        decreases g.deps@[a as int]@.len() - k,
    {
        if g.deps[a][k] == b {
            assert(g.deps@[a as int]@[k as int] == b);
            return;
        }
        k = k + 1;
    }
    assert(!g.deps@[a as int]@.contains(b));
    let ghost old_deps = g.deps@;
    let mut list: Vec<usize> = Vec::new();
    std::mem::swap(&mut list, &mut g.deps[a]);
    list.push(b);
    g.deps.set(a, list);
    proof {
        assert forall|x: int, j: int|
            0 <= x < g.deps@.len() && 0 <= j < g.deps@[x]@.len() implies {
                let y = #[trigger] g.deps@[x]@[j];
                &&& y < g.names@.len()
                &&& module_link(nodes, edges, g.names@[x]@, g.names@[y as int]@)
            } by {
            if x != a {
                assert(g.deps@[x] == old_deps[x]);
            } else if j < old_deps[x]@.len() {
                assert(g.deps@[x]@[j] == old_deps[x]@[j]);
            }
        }
    }
}

/// Build the module graph from the definite AST calls and imports that cross
/// modules.
fn module_graph(index: &QueryIndex) -> (g: ModuleGraph)
    requires
        index.wf(),
    ensures
        g.complete(index.node_seq(), index.edge_seq()),
{
    let graph = index.graph();
    let ghost nodes = graph.nodes@;
    let ghost edges = graph.edges@;
    let mut g = ModuleGraph { names: Vec::new(), deps: Vec::new() };
    let mut j: usize = 0;
    while j < graph.edges.len()
        invariant
            index.wf(),
            nodes == index.node_seq(),
            edges == index.edge_seq(),
            graph.nodes@ == nodes,
            graph.edges@ == edges,
            0 <= j <= edges.len(),
            g.sound(nodes, edges),
            g.distinct(),
            g.named_linked(nodes, edges),
            forall|i: int, a: Seq<char>, b: Seq<char>|
                0 <= i < j && #[trigger] edge_links(nodes, edges[i], a, b) ==> g.records(a, b),
        decreases edges.len() - j,
    {
        let e = &graph.edges[j];
        j = j + 1;
        if e.source != EdgeSource::Ast || e.certainty != EdgeCertainty::Definite {
            continue;
        }
        if e.kind != EdgeKind::Calls && e.kind != EdgeKind::Imports {
            continue;
        }
        let from_node = match index.node(e.from.as_str()) {
            Some(n) => n,
            None => continue,
        };
        let to_node = match index.node(e.to.as_str()) {
            Some(n) => n,
            None => continue,
        };
        let from_file = match &from_node.file {
            Some(f) => f,
            None => continue,
        };
        let to_file = match &to_node.file {
            Some(f) => f,
            None => continue,
        };
        let from_mod = top_module(from_file.as_str());
        let to_mod = top_module(to_file.as_str());
        if str_eq(from_mod.as_str(), to_mod.as_str()) {
            continue;
        }
        proof {
            assert(edge_links(nodes, edges[j - 1], from_mod@, to_mod@));
            assert(linked_module(nodes, edges, from_mod@) && linked_module(nodes, edges, to_mod@)) by {
                assert(module_link(nodes, edges, from_mod@, to_mod@));
            }
        }
        let ghost g0 = g;
        let a = module_index(&mut g, from_mod.as_str(), Ghost(nodes), Ghost(edges));
        let ghost g1 = g;
        let b = module_index(&mut g, to_mod.as_str(), Ghost(nodes), Ghost(edges));
        let ghost g2 = g;
        add_dep(&mut g, a, b, Ghost(nodes), Ghost(edges));
        proof {
            assert(g0.grows_to(g2)) by {
                assert forall|x: int, y: usize|
                    0 <= x < g0.deps@.len() && #[trigger] g0.deps@[x]@.contains(y) implies g2.deps@[x]@.contains(y) by {
                    assert(g1.deps@[x]@.contains(y));
                }
                assert forall|x: int| 0 <= x < g0.names@.len() implies (#[trigger] g2.names@[x])@ == g0.names@[x]@ by {
                    assert(g1.names@[x]@ == g0.names@[x]@);
                }
            }
            assert(g2.grows_to(g)) by {
                assert forall|x: int, y: usize|
                    0 <= x < g2.deps@.len() && #[trigger] g2.deps@[x]@.contains(y) implies g.deps@[x]@.contains(y) by {
                    if x == a {
                        if !g2.deps@[x]@.contains(b) {
                            let k = choose|k: int| 0 <= k < g2.deps@[x]@.len() && g2.deps@[x]@[k] == y;
                            assert(g.deps@[x]@[k] == y);
                        }
                    }
                }
            }
            assert(g.names@[a as int]@ == from_mod@);
            assert(g.deps@[a as int]@.contains(b)) by {
                let l = g2.deps@[a as int]@;
                if !l.contains(b) {
                    assert(l.push(b)[l.len() as int] == b);
                }
            }
            assert(g.records(from_mod@, to_mod@));
            assert forall|i: int, x: Seq<char>, y: Seq<char>|
                0 <= i < j && #[trigger] edge_links(nodes, edges[i], x, y) implies g.records(x, y) by {
                if i < j - 1 {
                    lemma_records_grow(g0, g2, x, y);
                    lemma_records_grow(g2, g, x, y);
                } else {
                    assert(x == from_mod@ && y == to_mod@);
                }
            }
        }
    }
    proof {
        assert forall|m: Seq<char>| #[trigger] linked_module(nodes, edges, m) implies exists|x: int|
            0 <= x < g.names@.len() && (#[trigger] g.names@[x])@ == m by {
            let b = choose|b: Seq<char>|
                #![trigger module_link(nodes, edges, m, b)]
                #![trigger module_link(nodes, edges, b, m)]
                module_link(nodes, edges, m, b) || module_link(nodes, edges, b, m);
            if module_link(nodes, edges, m, b) {
                let i = choose|i: int| 0 <= i < edges.len() && edge_links(nodes, #[trigger] edges[i], m, b);
                assert(g.records(m, b));
            } else {
                let i = choose|i: int| 0 <= i < edges.len() && edge_links(nodes, #[trigger] edges[i], b, m);
                assert(g.records(b, m));
            }
        }
        assert forall|x: int, y: int|
            0 <= x < g.names@.len() && 0 <= y < g.names@.len() && module_link(
                nodes,
                edges,
                #[trigger] g.names@[x]@,
                #[trigger] g.names@[y]@,
            ) implies g.deps@[x]@.contains(y as usize) by {
            let i = choose|i: int| 0 <= i < edges.len() && edge_links(nodes, #[trigger] edges[i], g.names@[x]@, g.names@[y]@);
            assert(g.records(g.names@[x]@, g.names@[y]@));
            let (x2, y2) = choose|x2: int, y2: usize|
                0 <= x2 < g.names@.len() && y2 < g.names@.len() && g.names@[x2]@ == g.names@[x]@ && g.names@[y2 as int]@
                    == g.names@[y]@ && #[trigger] g.deps@[x2]@.contains(y2);
            if x2 != x {
                if x2 < x {
                    assert(g.names@[x2]@ != g.names@[x]@);
                } else {
                    assert(g.names@[x]@ != g.names@[x2]@);
                }
            }
            if y2 as int != y {
                if (y2 as int) < y {
                    assert(g.names@[y2 as int]@ != g.names@[y]@);
                } else {
                    assert(g.names@[y]@ != g.names@[y2 as int]@);
                }
            }
        }
    }
    g
}

/// A module path of the graph: consecutive entries are linked modules.
spec fn is_module_path(g: ModuleGraph, nodes: Seq<Node>, edges: Seq<Edge>, p: Seq<usize>) -> bool {
    &&& forall|i: int| 0 <= i < p.len() ==> #[trigger] p[i] < g.names@.len()
    &&& forall|i: int|
        0 <= i < p.len() - 1 ==> module_link(nodes, edges, g.names@[#[trigger] p[i] as int]@, g.names@[p[i + 1] as int]@)
}

/// The names along a module path.
spec fn path_names(g: ModuleGraph, p: Seq<usize>) -> Seq<Seq<char>> {
    p.map_values(|m: usize| g.names@[m as int]@)
}

/// A cycle of the module graph through `start`, as module indices: at most
/// seven entries, each a recorded dependency of the one before.
spec fn dep_cycle(g: ModuleGraph, start: usize, c: Seq<usize>) -> bool {
    &&& 3 <= c.len() <= 7
    &&& c[0] == start
    &&& c.last() == start
    &&& forall|i: int| 0 <= i < c.len() ==> #[trigger] c[i] < g.deps@.len()
    &&& forall|i: int| 0 < i < c.len() ==> g.deps@[c[i - 1] as int]@.contains(#[trigger] c[i])
}

/// Module `d` has a queue entry whose path has at most `bound` entries.
spec fn reached_in(queue: Seq<(usize, Vec<usize>)>, d: usize, bound: nat) -> bool {
    exists|q: int| 0 <= q < queue.len() && (#[trigger] queue[q]).0 == d && queue[q].1@.len() <= bound
}

/// Queue entry `q`, if its path is short enough to extend, had every
/// dependency queued one step further, and none of them is `start` unless
/// the entry is `start` itself.
spec fn entry_done(g: ModuleGraph, queue: Seq<(usize, Vec<usize>)>, q: int, start: usize) -> bool {
    queue[q].1@.len() <= 6 ==> forall|t: int|
        0 <= t < g.deps@[queue[q].0 as int]@.len() ==> {
            let d = #[trigger] g.deps@[queue[q].0 as int]@[t];
            &&& (d == start ==> queue[q].1@.len() == 1)
            &&& reached_in(queue, d, queue[q].1@.len() + 1)
        }
}

proof fn lemma_reached_grow(old_q: Seq<(usize, Vec<usize>)>, new_q: Seq<(usize, Vec<usize>)>, d: usize, bound: nat)
    requires
        old_q.len() <= new_q.len(),
        forall|q: int| 0 <= q < old_q.len() ==> new_q[q] == old_q[q],
        reached_in(old_q, d, bound),
    ensures
        reached_in(new_q, d, bound),
{
    let q = choose|q: int| 0 <= q < old_q.len() && (#[trigger] old_q[q]).0 == d && old_q[q].1@.len() <= bound;
    assert(new_q[q] == old_q[q]);
}

proof fn lemma_done_grow(g: ModuleGraph, old_q: Seq<(usize, Vec<usize>)>, new_q: Seq<(usize, Vec<usize>)>, upto: int, start: usize)
    requires
        0 <= upto <= old_q.len() <= new_q.len(),
        forall|q: int| 0 <= q < old_q.len() ==> new_q[q] == old_q[q],
        forall|q: int| 0 <= q < upto ==> #[trigger] entry_done(g, old_q, q, start),
    ensures
        forall|q: int| 0 <= q < upto ==> #[trigger] entry_done(g, new_q, q, start),
{
    assert forall|q: int| 0 <= q < upto implies #[trigger] entry_done(g, new_q, q, start) by {
        assert(new_q[q] == old_q[q]);
        assert(entry_done(g, old_q, q, start));
        if new_q[q].1@.len() <= 6 {
            assert forall|t: int| 0 <= t < g.deps@[new_q[q].0 as int]@.len() implies {
                let d = #[trigger] g.deps@[new_q[q].0 as int]@[t];
                &&& (d == start ==> new_q[q].1@.len() == 1)
                &&& reached_in(new_q, d, new_q[q].1@.len() + 1)
            } by {
                let d = g.deps@[old_q[q].0 as int]@[t];
                lemma_reached_grow(old_q, new_q, d, old_q[q].1@.len() + 1);
            }
        }
    }
}

proof fn lemma_cycle_reached(g: ModuleGraph, queue: Seq<(usize, Vec<usize>)>, start: usize, c: Seq<usize>, i: int)
    requires
        dep_cycle(g, start, c),
        0 <= i < c.len() - 1,
        queue.len() >= 1,
        queue[0].0 == start,
        queue[0].1@.len() == 1,
        forall|q: int| 0 <= q < queue.len() ==> #[trigger] entry_done(g, queue, q, start),
    ensures
        reached_in(queue, c[i], (i + 1) as nat),
    decreases i,
{
    if i == 0 {
        assert(queue[0].0 == c[0]);
    } else {
        lemma_cycle_reached(g, queue, start, c, i - 1);
        let q = choose|q: int| 0 <= q < queue.len() && (#[trigger] queue[q]).0 == c[i - 1] && queue[q].1@.len() <= i;
        assert(entry_done(g, queue, q, start));
        assert(g.deps@[c[i - 1] as int]@.contains(c[i]));
        let t = choose|t: int| 0 <= t < g.deps@[c[i - 1] as int]@.len() && #[trigger] g.deps@[c[i - 1] as int]@[t] == c[i];
        assert(g.deps@[queue[q].0 as int]@[t] == c[i]);
        let q2 = choose|q2: int| 0 <= q2 < queue.len() && (#[trigger] queue[q2]).0 == c[i] && queue[q2].1@.len() <= queue[q].1@.len() + 1;
        assert(queue[q2].1@.len() <= i + 1);
    }
}

proof fn lemma_no_cycle(
    g: ModuleGraph,
    nodes: Seq<Node>,
    edges: Seq<Edge>,
    queue: Seq<(usize, Vec<usize>)>,
    start: usize,
    c: Seq<usize>,
)
    requires
        g.sound(nodes, edges),
        queue.len() >= 1,
        queue[0].0 == start,
        queue[0].1@.len() == 1,
        forall|q: int| 0 <= q < queue.len() ==> (#[trigger] queue[q]).1@.len() >= 1 && queue[q].1@[0] == start
            && queue[q].1@.last() == queue[q].0,
        forall|q: int| 0 <= q < queue.len() ==> #[trigger] entry_done(g, queue, q, start),
    ensures
        !dep_cycle(g, start, c),
{
    if dep_cycle(g, start, c) {
        let m = c.len() - 2;
        lemma_cycle_reached(g, queue, start, c, m);
        let q = choose|q: int| 0 <= q < queue.len() && (#[trigger] queue[q]).0 == c[m] && queue[q].1@.len() <= m + 1;
        assert(entry_done(g, queue, q, start));
        assert(g.deps@[c[m] as int]@.contains(c[m + 1]));
        let t = choose|t: int| 0 <= t < g.deps@[c[m] as int]@.len() && #[trigger] g.deps@[c[m] as int]@[t] == c[m + 1];
        assert(g.deps@[queue[q].0 as int]@[t] == start);
        assert(queue[q].1@.len() == 1);
        assert(queue[q].0 == start);
        assert(module_link(nodes, edges, g.names@[start as int]@, g.names@[start as int]@));
        let j = choose|j: int| 0 <= j < edges.len() && edge_links(nodes, #[trigger] edges[j], g.names@[start as int]@, g.names@[start as int]@);
        assert(false);
    }
}

/// The cycles through module `start` that a breadth-first search of depth 6
/// finds, as module indices. None is found only where the graph has no
/// cycle of at most seven entries through `start`.
fn cycles_from(g: &ModuleGraph, start: usize, Ghost(nodes): Ghost<Seq<Node>>, Ghost(edges): Ghost<Seq<Edge>>) -> (r: Vec<Vec<usize>>)
    requires
        g.sound(nodes, edges),
        start < g.names@.len(),
    ensures
        forall|k: int|
            0 <= k < r@.len() ==> {
                let c = (#[trigger] r@[k])@;
                &&& is_module_path(*g, nodes, edges, c)
                &&& 3 <= c.len() <= 7
                &&& c[0] == start
                &&& c.last() == start
            },
        r@.len() == 0 ==> forall|c: Seq<usize>| !#[trigger] dep_cycle(*g, start, c),
{
    let n = g.names.len();
    let mut seen: Vec<bool> = Vec::new();
    let mut i: usize = 0;
    while i < n
        invariant
            0 <= i <= n,
            seen@.len() == i,
            forall|q: int| 0 <= q < i ==> !#[trigger] seen@[q],
        decreases n - i,
    {
        seen.push(false);
        i = i + 1;
    }
    proof {
        lemma_count_set_zero(seen@);
        lemma_count_set(seen@, start as int);
    }
    seen.set(start, true);
    let mut seen_count: usize = 1;
    let mut queue: Vec<(usize, Vec<usize>)> = Vec::new();
    let mut first: Vec<usize> = Vec::new();
    first.push(start);
    queue.push((start, first));
    let mut head: usize = 0;
    let mut cycles: Vec<Vec<usize>> = Vec::new();
    while head < queue.len()
        invariant
            g.sound(nodes, edges),
            n == g.names@.len(),
            start < n,
            seen@.len() == n,
            seen_count == count_set(seen@),
            seen_count <= n,
            0 <= head <= queue@.len(),
            queue@.len() <= seen_count,
            forall|q: int|
                0 <= q < queue@.len() ==> {
                    let e = #[trigger] queue@[q];
                    &&& e.0 < n
                    &&& is_module_path(*g, nodes, edges, e.1@)
                    &&& e.1@.len() >= 1
                    &&& e.1@[0] == start
                    &&& e.1@.last() == e.0
                },
            forall|k: int|
                0 <= k < cycles@.len() ==> {
                    let c = (#[trigger] cycles@[k])@;
                    &&& is_module_path(*g, nodes, edges, c)
                    &&& 3 <= c.len() <= 7
                    &&& c[0] == start
                    &&& c.last() == start
                },
            queue@[0].0 == start,
            queue@[0].1@.len() == 1,
            forall|q1: int, q2: int|
                0 <= q1 <= q2 < queue@.len() ==> (#[trigger] queue@[q1]).1@.len() <= (#[trigger] queue@[q2]).1@.len(),
            head == 0 ==> queue@.len() == 1,
            head > 0 ==> forall|q: int| 0 <= q < queue@.len() ==> (#[trigger] queue@[q]).1@.len() <= queue@[head - 1].1@.len() + 1,
            forall|x: int| 0 <= x < n && #[trigger] seen@[x] ==> exists|q: int| 0 <= q < queue@.len() && (#[trigger] queue@[q]).0 == x,
            cycles@.len() == 0 ==> forall|q: int| 0 <= q < head ==> #[trigger] entry_done(*g, queue@, q, start),
        decreases 2 * (n - seen_count) + (queue@.len() - head),
    {
        let current = queue[head].0;
        let path = queue[head].1.clone();
        let ghost entry = queue@[head as int];
        let ghost qh = head as int;
        let ghost measure = 2 * (n - seen_count) + (queue@.len() - head);
        assert(path@ == entry.1@);
        proof {
            assert forall|q: int| 0 <= q < queue@.len() implies (#[trigger] queue@[q]).1@.len() <= path@.len() + 1 by {
                if qh > 0 {
                    assert(queue@[qh - 1].1@.len() <= queue@[qh].1@.len());
                }
            }
        }
        head = head + 1;
        if path.len() > 6 {
            continue;
        }
        let deps = &g.deps[current];
        let mut k: usize = 0;
        while k < deps.len()
            invariant
                g.sound(nodes, edges),
                n == g.names@.len(),
                start < n,
                current < n,
                deps@ == g.deps@[current as int]@,
                seen@.len() == n,
                seen_count == count_set(seen@),
                seen_count <= n,
                0 <= head <= queue@.len(),
                queue@.len() <= seen_count,
                2 * (n - seen_count) + (queue@.len() - head) < measure,
                is_module_path(*g, nodes, edges, path@),
                1 <= path@.len() <= 6,
                path@[0] == start,
                path@.last() == current,
                0 <= k <= deps@.len(),
                forall|q: int|
                    0 <= q < queue@.len() ==> {
                        let e = #[trigger] queue@[q];
                        &&& e.0 < n
                        &&& is_module_path(*g, nodes, edges, e.1@)
                        &&& e.1@.len() >= 1
                        &&& e.1@[0] == start
                        &&& e.1@.last() == e.0
                    },
                forall|c: int|
                    0 <= c < cycles@.len() ==> {
                        let cy = (#[trigger] cycles@[c])@;
                        &&& is_module_path(*g, nodes, edges, cy)
                        &&& 3 <= cy.len() <= 7
                        &&& cy[0] == start
                        &&& cy.last() == start
                    },
                head == qh + 1,
                0 <= qh,
                queue@[qh].0 == current,
                queue@[qh].1@ == path@,
                queue@[0].0 == start,
                queue@[0].1@.len() == 1,
                forall|q1: int, q2: int|
                    0 <= q1 <= q2 < queue@.len() ==> (#[trigger] queue@[q1]).1@.len() <= (#[trigger] queue@[q2]).1@.len(),
                forall|q: int| 0 <= q < queue@.len() ==> (#[trigger] queue@[q]).1@.len() <= path@.len() + 1,
                forall|x: int| 0 <= x < n && #[trigger] seen@[x] ==> exists|q: int| 0 <= q < queue@.len() && (#[trigger] queue@[q]).0 == x,
                cycles@.len() == 0 ==> forall|q: int| 0 <= q < qh ==> #[trigger] entry_done(*g, queue@, q, start),
                cycles@.len() == 0 ==> forall|t: int| 0 <= t < k ==> {
                    let d = #[trigger] deps@[t];
                    &&& (d == start ==> path@.len() == 1)
                    &&& reached_in(queue@, d, path@.len() + 1)
                },
            ensures
                cycles@.len() == 0 ==> k == deps@.len(),
            decreases deps@.len() - k,
        {
            let dep = deps[k];
            proof {
                assert(dep < n && module_link(nodes, edges, g.names@[current as int]@, g.names@[dep as int]@));
            }
            let mut next = path.clone();
            next.push(dep);
            proof {
                assert(next@ == path@.push(dep));
                assert forall|i: int| 0 <= i < next@.len() - 1 implies module_link(
                    nodes,
                    edges,
                    g.names@[#[trigger] next@[i] as int]@,
                    g.names@[next@[i + 1] as int]@,
                ) by {
                    if i < path@.len() - 1 {
                        assert(next@[i] == path@[i] && next@[i + 1] == path@[i + 1]);
                    }
                }
            }
            if dep == start && path.len() > 1 {
                cycles.push(next);
                break;
            }
            if !seen[dep] {
                proof {
                    lemma_count_set(seen@, dep as int);
                }
                let ghost old_q = queue@;
                let ghost old_seen = seen@;
                seen.set(dep, true);
                seen_count = seen_count + 1;
                queue.push((dep, next));
                proof {
                    assert(queue@[old_q.len() as int].0 == dep);
                    assert forall|q: int| 0 <= q < queue@.len() implies {
                        let e = #[trigger] queue@[q];
                        &&& e.0 < n
                        &&& is_module_path(*g, nodes, edges, e.1@)
                        &&& e.1@.len() >= 1
                        &&& e.1@[0] == start
                        &&& e.1@.last() == e.0
                    } by {
                        if q < old_q.len() {
                            assert(queue@[q] == old_q[q]);
                        }
                    }
                    assert forall|q1: int, q2: int|
                        0 <= q1 <= q2 < queue@.len() implies (#[trigger] queue@[q1]).1@.len() <= (#[trigger] queue@[q2]).1@.len() by {
                        if q2 < old_q.len() {
                            assert(queue@[q1] == old_q[q1] && queue@[q2] == old_q[q2]);
                        } else if q1 < old_q.len() {
                            assert(queue@[q1] == old_q[q1]);
                        }
                    }
                    assert forall|q: int| 0 <= q < queue@.len() implies (#[trigger] queue@[q]).1@.len() <= path@.len() + 1 by {
                        if q < old_q.len() {
                            assert(queue@[q] == old_q[q]);
                        }
                    }
                    assert forall|x: int| 0 <= x < n && #[trigger] seen@[x] implies exists|q: int|
                        0 <= q < queue@.len() && (#[trigger] queue@[q]).0 == x by {
                        if x != dep {
                            assert(old_seen[x]);
                            let q = choose|q: int| 0 <= q < old_q.len() && (#[trigger] old_q[q]).0 == x;
                            assert(queue@[q] == old_q[q]);
                        }
                    }
                    assert(qh < old_q.len());
                    assert(queue@[qh].0 == old_q[qh].0 && queue@[qh].1@ == old_q[qh].1@);
                    assert(queue@[0].0 == old_q[0].0 && queue@[0].1@ == old_q[0].1@);
                    if cycles@.len() == 0 {
                        lemma_done_grow(*g, old_q, queue@, qh, start);
                        assert forall|t: int| 0 <= t < k + 1 implies {
                            let d = #[trigger] deps@[t];
                            &&& (d == start ==> path@.len() == 1)
                            &&& reached_in(queue@, d, path@.len() + 1)
                        } by {
                            if t < k {
                                lemma_reached_grow(old_q, queue@, deps@[t], path@.len() + 1);
                            } else {
                                assert(queue@[old_q.len() as int].1@.len() == path@.len() + 1);
                            }
                        }
                    }
                }
            } else {
                proof {
                    let q = choose|q: int| 0 <= q < queue@.len() && (#[trigger] queue@[q]).0 == dep as int;
                    assert(queue@[q].1@.len() <= path@.len() + 1);
                    assert(reached_in(queue@, dep, path@.len() + 1));
                }
            }
            k = k + 1;
        }
        proof {
            if cycles@.len() == 0 {
                assert(entry_done(*g, queue@, qh, start)) by {
                    assert forall|t: int| 0 <= t < g.deps@[queue@[qh].0 as int]@.len() implies {
                        let d = #[trigger] g.deps@[queue@[qh].0 as int]@[t];
                        &&& (d == start ==> queue@[qh].1@.len() == 1)
                        &&& reached_in(queue@, d, queue@[qh].1@.len() + 1)
                    } by {
                        assert(deps@[t] == g.deps@[current as int]@[t]);
                    }
                }
            }
        }
    }
    proof {
        if cycles@.len() == 0 {
            assert forall|c: Seq<usize>| !#[trigger] dep_cycle(*g, start, c) by {
                lemma_no_cycle(*g, nodes, edges, queue@, start, c);
            }
        }
    }
    cycles
}

// ---------------------------------------------------------------- report

/// A symbol with many edges.
pub struct HotSymbol {
    /// Position of the node in the graph.
    pub node: usize,
    pub degree: usize,
    /// The signature, cut to 120 bytes.
    pub signature: Option<String>,
    /// The first line of the docs, cut to 120 bytes.
    pub docs: Option<String>,
}

/// What `health` finds.
pub struct HealthReport {
    pub score: usize,
    pub label: String,
    /// Module cycles, longest first.
    pub cycles: Vec<Vec<String>>,
    /// Files with at least 40 symbols, with their symbol count, largest first.
    pub god_modules: Vec<(String, usize)>,
    /// Positions of public symbols outside test files that nothing points to.
    pub dead_public: Vec<usize>,
    pub hot_symbols: Vec<HotSymbol>,
}

/// A node whose visibility is `pub` or `public`.
pub open spec fn is_public(n: Node) -> bool {
    n.visibility is Some && (n.visibility->0@ == "pub"@ || n.visibility->0@ == "public"@)
}

/// A node's file, or the empty text.
pub open spec fn file_text(n: Node) -> Seq<char> {
    if n.file is Some {
        n.file->0@
    } else {
        Seq::empty()
    }
}

/// A public symbol outside test files with no incoming edge.
pub open spec fn is_dead_public(n: Node, edges: Seq<Edge>) -> bool {
    is_public(n) && !is_test_path(file_text(n)) && positions_at(edges, n.id@, false).len() == 0
}

/// Positions of the dead public symbols, in graph order.
pub open spec fn dead_positions(nodes: Seq<Node>, edges: Seq<Edge>) -> Seq<int>
    decreases nodes.len(),
{
    if nodes.len() == 0 {
        Seq::empty()
    } else {
        let prev = dead_positions(nodes.drop_last(), edges);
        if is_dead_public(nodes.last(), edges) {
            prev.push(nodes.len() - 1)
        } else {
            prev
        }
    }
}

/// The files of the symbol nodes, one entry per symbol.
pub open spec fn symbol_files(nodes: Seq<Node>) -> Seq<Seq<char>>
    decreases nodes.len(),
{
    if nodes.len() == 0 {
        Seq::empty()
    } else {
        let prev = symbol_files(nodes.drop_last());
        let n = nodes.last();
        if is_symbol_kind(n.kind) && n.file is Some {
            prev.push(n.file->0@)
        } else {
            prev
        }
    }
}

/// A node other than a file or the project, with degree 20 or more.
pub open spec fn is_hot(n: Node, edges: Seq<Edge>) -> bool {
    n.kind != NodeKind::File && n.kind != NodeKind::Project && degree_at(edges, n.id@) >= 20
}

/// Positions of the hot nodes, in graph order.
pub open spec fn hot_positions(nodes: Seq<Node>, edges: Seq<Edge>) -> Seq<int>
    decreases nodes.len(),
{
    if nodes.len() == 0 {
        Seq::empty()
    } else {
        let prev = hot_positions(nodes.drop_last(), edges);
        if is_hot(nodes.last(), edges) {
            prev.push(nodes.len() - 1)
        } else {
            prev
        }
    }
}

/// The smaller of `a` and `b`.
pub open spec fn at_most(a: nat, b: nat) -> nat {
    if a <= b {
        a
    } else {
        b
    }
}

/// `100 - 5 * cycles - 3 * god modules - dead symbols - 2 * warnings`, each
/// count capped at 10, and never below 0.
pub open spec fn health_score(cycles: nat, gods: nat, dead: nat, warnings: nat) -> nat {
    let penalty = 5 * at_most(cycles, 10) + 3 * at_most(gods, 10) + at_most(dead, 10) + 2 * at_most(
        warnings,
        10,
    );
    if penalty >= 100 {
        0
    } else {
        (100 - penalty) as nat
    }
}

/// The label of a score.
pub open spec fn health_label(score: nat) -> Seq<char> {
    if 80 <= score <= 100 {
        "high"@
    } else if 60 <= score <= 79 {
        "medium"@
    } else if 40 <= score <= 59 {
        "low"@
    } else {
        "critical"@
    }
}

/// `gm` lists, without repeats and largest first, up to `limit` files that
/// occur at least 40 times in `keys`, each with its count; a file left out
/// occurs no more often than the last one listed.
pub open spec fn god_modules_ok(gm: Seq<(String, usize)>, keys: Seq<Seq<char>>, limit: nat) -> bool {
    &&& tally_keys(gm).no_duplicates()
    &&& gm.len() <= limit
    &&& forall|i: int|
        0 <= i < gm.len() ==> (#[trigger] gm[i]).1 == occurrences(keys, gm[i].0@) && gm[i].1 >= 40
    &&& forall|i: int, j: int| 0 <= i < j < gm.len() ==> (#[trigger] gm[i]).1 >= (#[trigger] gm[j]).1
    &&& forall|f: Seq<char>|
        #![trigger occurrences(keys, f)]
        occurrences(keys, f) >= 40 && !tally_keys(gm).contains(f) ==> gm.len() == limit && (
        gm.len() == 0 || occurrences(keys, f) <= gm.last().1)
}

/// The order of hot symbols: by degree, largest first, ties in graph order.
pub open spec fn by_degree_desc(ds: Seq<usize>) -> spec_fn(int, int) -> bool {
    |i: int, j: int| ds[i] > ds[j] || (ds[i] == ds[j] && i < j)
}

/// What a hot-symbol entry shows of node `n` with degree `d`.
pub open spec fn hot_entry_ok(h: HotSymbol, pos: int, n: Node, d: nat) -> bool {
    &&& h.node == pos
    &&& h.degree == d
    &&& (match n.signature {
        Some(sig) => h.signature is Some && h.signature->0@ == truncate_spec(sig@, 120),
        None => h.signature is None,
    })
    &&& (match n.docs {
        Some(doc) => match first_line(doc@) {
            Some(l) => h.docs is Some && h.docs->0@ == truncate_spec(l, 120),
            None => h.docs is None,
        },
        None => h.docs is None,
    })
}

/// What `health` answers for a graph and a limit.
pub open spec fn health_spec(graph: &CodeGraph, limit: usize, r: HealthReport) -> bool {
    &&& r.dead_public@.len() == at_most(dead_positions(graph.nodes@, graph.edges@).len(), limit as nat)
    &&& forall|k: int|
                0 <= k < r.dead_public@.len() ==> #[trigger] r.dead_public@[k] == dead_positions(
                    graph.nodes@,
                    graph.edges@,
                )[k]
    &&& god_modules_ok(r.god_modules@, symbol_files(graph.nodes@), limit as nat)
    &&& r.cycles@.len() <= limit
    &&& forall|k: int|
                0 <= k < r.cycles@.len() ==> is_cycle(
                    graph.nodes@,
                    graph.edges@,
                    (#[trigger] r.cycles@[k])@.map_values(|s: String| s@),
                )
    &&& forall|i: int, j: int|
                0 <= i < j < r.cycles@.len() ==> (#[trigger] r.cycles@[i])@.len() >= (
                #[trigger] r.cycles@[j])@.len()
    &&& (r.cycles@.len() == 0 && limit > 0 ==> forall|c: Seq<Seq<char>>|
        !#[trigger] is_cycle(graph.nodes@, graph.edges@, c))
    &&& ({
                let cand = hot_positions(graph.nodes@, graph.edges@);
                let ds = Seq::new(
                    cand.len(),
                    |k: int| degree_at(graph.edges@, graph.nodes@[cand[k]].id@) as usize,
                );
                exists|order: Seq<usize>|
                    {
                        &&& sorted_positions(order, cand.len() as int, by_degree_desc(ds))
                        &&& r.hot_symbols@.len() == at_most(cand.len(), limit as nat)
                        &&& forall|k: int|
                            0 <= k < r.hot_symbols@.len() ==> hot_entry_ok(
                                #[trigger] r.hot_symbols@[k],
                                cand[order[k] as int],
                                graph.nodes@[cand[order[k] as int]],
                                ds[order[k] as int] as nat,
                            )
                    }
            })
    &&& r.score == health_score(
                r.cycles@.len() as nat,
                r.god_modules@.len() as nat,
                r.dead_public@.len() as nat,
                graph.warnings@.len() as nat,
            )
    &&& r.label@ == health_label(r.score as nat)
}

/// Computes a 0-100 architecture health score.
///
/// Module cycles are found by a breadth-first search of depth 6 from each
/// module; which of several cycles through a module are reported depends on
/// the order in which dependencies are visited.
pub fn health(graph: &CodeGraph, limit: usize) -> (r: HealthReport)
    requires
        2 * total_weight(graph.edges@) <= usize::MAX,
    ensures
        health_spec(graph, limit, r),
{
    let index = QueryIndex::new(graph);
    let dead_public = dead_public_symbols(graph, &index, limit);
    let god_modules = god_modules(graph, limit);
    let cycles = module_cycles(&index, limit);
    let hot_symbols = hot_symbols(graph, &index, limit);
    let c = if cycles.len() < 10 { cycles.len() } else { 10 };
    let g = if god_modules.len() < 10 { god_modules.len() } else { 10 };
    let d = if dead_public.len() < 10 { dead_public.len() } else { 10 };
    let w = if graph.warnings.len() < 10 { graph.warnings.len() } else { 10 };
    let penalty = 5 * c + 3 * g + d + 2 * w;
    let score: usize = if penalty >= 100 { 0 } else { 100 - penalty };
    let label = if score >= 80 && score <= 100 {
        "high"
    } else if score >= 60 && score <= 79 {
        "medium"
    } else if score >= 40 && score <= 59 {
        "low"
    } else {
        "critical"
    };
    proof {
        reveal_strlit("high");
        reveal_strlit("medium");
        reveal_strlit("low");
        reveal_strlit("critical");
    }
    HealthReport {
        score,
        label: owned(label),
        cycles,
        god_modules,
        dead_public,
        hot_symbols,
    }
}

/// Positions of the dead public symbols, the first `limit` of them.
fn dead_public_symbols(graph: &CodeGraph, index: &QueryIndex, limit: usize) -> (r: Vec<usize>)
    requires
        index.wf(),
        index.node_seq() == graph.nodes@,
        index.edge_seq() == graph.edges@,
    ensures
        r@.len() == at_most(dead_positions(graph.nodes@, graph.edges@).len(), limit as nat),
        forall|k: int|
            0 <= k < r@.len() ==> #[trigger] r@[k] == dead_positions(graph.nodes@, graph.edges@)[k],
{
    let ghost edges = graph.edges@;
    let mut r: Vec<usize> = Vec::new();
    let mut i: usize = 0;
    proof {
        reveal_strlit("pub");
        reveal_strlit("public");
    }
    while i < graph.nodes.len()
        invariant
            index.wf(),
            index.node_seq() == graph.nodes@,
            index.edge_seq() == graph.edges@,
            edges == graph.edges@,
            0 <= i <= graph.nodes@.len(),
            r@.len() == dead_positions(graph.nodes@.take(i as int), edges).len(),
            forall|k: int|
                0 <= k < r@.len() ==> #[trigger] r@[k] == dead_positions(
                    graph.nodes@.take(i as int),
                    edges,
                )[k],
        decreases graph.nodes@.len() - i,
    {
        let node = &graph.nodes[i];
        let ghost pre = graph.nodes@.take(i as int);
        let ghost cur = graph.nodes@.take(i + 1);
        assert(cur.drop_last() =~= pre);
        assert(cur.last() == graph.nodes@[i as int]);
        let public = match &node.visibility {
            Some(v) => str_eq(v.as_str(), "pub") || str_eq(v.as_str(), "public"),
            None => false,
        };
        let test = match &node.file {
            Some(f) => is_test_file(f.as_str()),
            None => is_test_file(""),
        };
        proof {
            reveal_strlit("");
            assert(""@ =~= Seq::<char>::empty());
        }
        assert(public == is_public(graph.nodes@[i as int]));
        assert(test == is_test_path(file_text(graph.nodes@[i as int])));
        let ghost old_r = r@;
        if public && !test {
            let incoming = index.edges(node.id.as_str(), false);
            if incoming.len() == 0 {
                r.push(i);
            }
        }
        proof {
            let dp = dead_positions(pre, edges);
            let dc = dead_positions(cur, edges);
            if is_dead_public(graph.nodes@[i as int], edges) {
                assert(dc == dp.push(i as int));
                assert forall|k: int| 0 <= k < r@.len() implies #[trigger] r@[k] == dc[k] by {
                    if k < dp.len() {
                        assert(r@[k] == old_r[k]);
                    }
                }
            } else {
                assert(dc == dp);
            }
        }
        i = i + 1;
    }
    assert(graph.nodes@.take(graph.nodes@.len() as int) =~= graph.nodes@);
    let ghost all = r@;
    if r.len() > limit {
        r.truncate(limit);
    }
    r
}

/// Files with at least 40 symbols, largest first, the first `limit` of them.
fn god_modules(graph: &CodeGraph, limit: usize) -> (r: Vec<(String, usize)>)
    ensures
        god_modules_ok(r@, symbol_files(graph.nodes@), limit as nat),
{
    let ghost keys = symbol_files(graph.nodes@);
    let mut files: Vec<String> = Vec::new();
    let mut i: usize = 0;
    while i < graph.nodes.len()
        invariant
            0 <= i <= graph.nodes@.len(),
            views(files@) == symbol_files(graph.nodes@.take(i as int)),
        decreases graph.nodes@.len() - i,
    {
        let node = &graph.nodes[i];
        let ghost pre = graph.nodes@.take(i as int);
        let ghost cur = graph.nodes@.take(i + 1);
        assert(cur.drop_last() =~= pre);
        assert(cur.last() == graph.nodes@[i as int]);
        let symbol = match node.kind {
            NodeKind::Function | NodeKind::Method | NodeKind::AsyncFunction
            | NodeKind::AsyncMethod | NodeKind::Class => true,
            _ => false,
        };
        if symbol {
            if let Some(f) = &node.file {
                files.push(owned(f.as_str()));
            }
        }
        assert(views(files@) =~= symbol_files(cur));
        i = i + 1;
    }
    assert(graph.nodes@.take(graph.nodes@.len() as int) =~= graph.nodes@);
    let t = tally(&files);
    // the tally entries with 40 symbols or more, in tally order
    let mut cand: Vec<usize> = Vec::new();
    let mut ds: Vec<usize> = Vec::new();
    let mut j: usize = 0;
    while j < t.len()
        invariant
            0 <= j <= t@.len(),
            cand@.len() == ds@.len(),
            forall|k: int| 0 <= k < cand@.len() ==> #[trigger] cand@[k] < j,
            forall|k1: int, k2: int| 0 <= k1 < k2 < cand@.len() ==> #[trigger] cand@[k1] < #[trigger] cand@[k2],
            forall|k: int| 0 <= k < cand@.len() ==> #[trigger] ds@[k] == t@[cand@[k] as int].1,
            forall|k: int| 0 <= k < cand@.len() ==> t@[#[trigger] cand@[k] as int].1 >= 40,
            forall|x: int| 0 <= x < j && t@[x].1 >= 40 ==> #[trigger] cand@.contains(x as usize),
        decreases t@.len() - j,
    {
        let ghost old_c = cand@;
        if t[j].1 >= 40 {
            cand.push(j);
            ds.push(t[j].1);
            assert(cand@[cand@.len() - 1] == j);
        }
        proof {
            assert forall|x: int| 0 <= x < j + 1 && t@[x].1 >= 40 implies #[trigger] cand@.contains(
                x as usize,
            ) by {
                if x < j {
                    assert(old_c.contains(x as usize));
                    let w = choose|w: int| 0 <= w < old_c.len() && old_c[w] == x as usize;
                    assert(cand@[w] == x as usize);
                }
            }
        }
        j = j + 1;
    }
    let n = cand.len();
    let ghost lt = by_degree_desc(ds@);
    let before = |x: usize, y: usize| -> (b: bool)
        requires
            x < ds@.len(),
            y < ds@.len(),
        ensures
            b == (ds@[x as int] > ds@[y as int] || (ds@[x as int] == ds@[y as int] && x < y)),
        { ds[x] > ds[y] || (ds[x] == ds[y] && x < y) };
    let order = sort_positions(n, &before, Ghost(lt));
    let take = if limit < n { limit } else { n };
    let mut r: Vec<(String, usize)> = Vec::new();
    let mut k: usize = 0;
    while k < take
        invariant
            0 <= k <= take,
            take <= n,
            n == cand@.len(),
            n == ds@.len(),
            sorted_positions(order@, n as int, lt),
            forall|q: int| 0 <= q < cand@.len() ==> #[trigger] cand@[q] < t@.len(),
            forall|q: int| 0 <= q < cand@.len() ==> #[trigger] ds@[q] == t@[cand@[q] as int].1,
            r@.len() == k,
            forall|q: int|
                0 <= q < k ==> (#[trigger] r@[q]).0@ == t@[cand@[order@[q] as int] as int].0@
                    && r@[q].1 == ds@[order@[q] as int],
        decreases take - k,
    {
        let c = cand[order[k]];
        let name = owned(t[c].0.as_str());
        let ghost old_r = r@;
        r.push((name, t[c].1));
        proof {
            assert forall|q: int| 0 <= q < k + 1 implies (#[trigger] r@[q]).0@ == t@[cand@[order@[q] as int] as int].0@
                && r@[q].1 == ds@[order@[q] as int] by {
                if q < k {
                    assert(r@[q] == old_r[q]);
                }
            }
        }
        k = k + 1;
    }
    proof {
        let gm = r@;
        let tk = tally_keys(gm);
        assert forall|p: int, q: int| 0 <= p < q < tk.len() implies tk[p] != tk[q] by {
            assert(order@[p] != order@[q]);
            let cp = cand@[order@[p] as int];
            let cq = cand@[order@[q] as int];
            if order@[p] < order@[q] {
                assert(cp < cq);
            } else {
                assert(cq < cp);
            }
            assert(tally_keys(t@)[cp as int] == tk[p]);
            assert(tally_keys(t@)[cq as int] == tk[q]);
        }
        assert forall|p: int| 0 <= p < gm.len() implies (#[trigger] gm[p]).1 == occurrences(keys, gm[p].0@)
            && gm[p].1 >= 40 by {
            let c = cand@[order@[p] as int];
            assert(t@[c as int].1 == occurrences(views(files@), t@[c as int].0@));
        }
        assert forall|p: int, q: int| 0 <= p < q < gm.len() implies (#[trigger] gm[p]).1 >= (
        #[trigger] gm[q]).1 by {
            assert(lt(order@[p] as int, order@[q] as int));
        }
        assert forall|f: Seq<char>|
            #![trigger occurrences(keys, f)]
            occurrences(keys, f) >= 40 && !tally_keys(gm).contains(f) implies gm.len() == limit && (
            gm.len() == 0 || occurrences(keys, f) <= gm.last().1) by {
            lemma_occurrences_bounds(keys, f);
            assert(keys.contains(f));
            assert(tally_keys(t@).contains(f));
            let x = choose|x: int| 0 <= x < tally_keys(t@).len() && tally_keys(t@)[x] == f;
            assert(t@[x].0@ == f);
            assert(t@[x].1 == occurrences(keys, f));
            assert(cand@.contains(x as usize));
            let c = choose|c: int| 0 <= c < cand@.len() && cand@[c] == x as usize;
            assert(order@.contains(c as usize));
            let p = choose|p: int| 0 <= p < order@.len() && order@[p] == c as usize;
            if p < take {
                assert(tally_keys(gm)[p] == f);
            }
            assert(p >= take);
            if gm.len() > 0 {
                assert(lt(order@[take - 1] as int, order@[p] as int));
                assert(gm.last() == gm[take - 1]);
            }
        }
    }
    r
}

proof fn lemma_cycle_indices(g: ModuleGraph, nodes: Seq<Node>, edges: Seq<Edge>, c: Seq<Seq<char>>) -> (p: Seq<usize>)
    requires
        g.complete(nodes, edges),
        g.names@.len() <= usize::MAX,
        is_cycle(nodes, edges, c),
    ensures
        p.len() == c.len(),
        p[0] < g.names@.len(),
        dep_cycle(g, p[0], p),
{
    let n = g.names@.len();
    assert forall|i: int| 0 <= i < c.len() implies #[trigger] linked_module(nodes, edges, c[i]) by {
        if i == 0 {
            assert(module_link(nodes, edges, c[0], c[1]));
        } else {
            assert(module_link(nodes, edges, c[i - 1], c[i]));
        }
    }
    let p = Seq::new(c.len(), |i: int| (choose|x: int| 0 <= x < n && (#[trigger] g.names@[x])@ == c[i]) as usize);
    assert forall|i: int| 0 <= i < c.len() implies #[trigger] p[i] < n && g.names@[p[i] as int]@ == c[i] by {
        assert(linked_module(nodes, edges, c[i]));
        assert(exists|x: int| 0 <= x < n && (#[trigger] g.names@[x])@ == c[i]);
        let x = choose|x: int| 0 <= x < n && (#[trigger] g.names@[x])@ == c[i];
        assert(p[i] == x as usize);
    }
    assert(p[0] == p.last());
    assert forall|i: int| 0 < i < p.len() implies g.deps@[p[i - 1] as int]@.contains(#[trigger] p[i]) by {
        assert(p[i - 1] < n && g.names@[p[i - 1] as int]@ == c[i - 1]);
        assert(p[i] < n && g.names@[p[i] as int]@ == c[i]);
        assert(module_link(nodes, edges, c[i - 1], c[i]));
        assert(module_link(nodes, edges, g.names@[p[i - 1] as int]@, g.names@[p[i] as int]@));
    }
    p
}

/// Module cycles, longest first, the first `limit` of them.
fn module_cycles(index: &QueryIndex, limit: usize) -> (r: Vec<Vec<String>>)
    requires
        index.wf(),
    ensures
        r@.len() <= limit,
        forall|k: int|
            0 <= k < r@.len() ==> is_cycle(
                index.node_seq(),
                index.edge_seq(),
                (#[trigger] r@[k])@.map_values(|s: String| s@),
            ),
        forall|i: int, j: int|
            0 <= i < j < r@.len() ==> (#[trigger] r@[i])@.len() >= (#[trigger] r@[j])@.len(),
        r@.len() == 0 && limit > 0 ==> forall|c: Seq<Seq<char>>| !#[trigger] is_cycle(index.node_seq(), index.edge_seq(), c),
{
    let ghost nodes = index.node_seq();
    let ghost edges = index.edge_seq();
    let g = module_graph(index);
    let mut all: Vec<Vec<usize>> = Vec::new();
    let mut s: usize = 0;
    while s < g.names.len()
        invariant
            g.sound(nodes, edges),
            g.complete(nodes, edges),
            all@.len() == 0 ==> forall|s2: int, c: Seq<usize>| 0 <= s2 < s ==> !#[trigger] dep_cycle(g, s2 as usize, c),
            0 <= s <= g.names@.len(),
            forall|k: int|
                0 <= k < all@.len() ==> {
                    let c = (#[trigger] all@[k])@;
                    &&& is_module_path(g, nodes, edges, c)
                    &&& 3 <= c.len() <= 7
                    &&& c[0] == c.last()
                },
        decreases g.names@.len() - s,
    {
        let found = cycles_from(&g, s, Ghost(nodes), Ghost(edges));
        let ghost all0 = all@.len();
        let mut k: usize = 0;
        while k < found.len()
            invariant
                g.sound(nodes, edges),
                all@.len() == all0 + k,
                s < g.names@.len(),
                0 <= k <= found@.len(),
                forall|q: int|
                    0 <= q < found@.len() ==> {
                        let c = (#[trigger] found@[q])@;
                        &&& is_module_path(g, nodes, edges, c)
                        &&& 3 <= c.len() <= 7
                        &&& c[0] == s
                        &&& c.last() == s
                    },
                forall|q: int|
                    0 <= q < all@.len() ==> {
                        let c = (#[trigger] all@[q])@;
                        &&& is_module_path(g, nodes, edges, c)
                        &&& 3 <= c.len() <= 7
                        &&& c[0] == c.last()
                    },
            decreases found@.len() - k,
        {
            all.push(found[k].clone());
            assert(all@.last()@ == found@[k as int]@);
            k = k + 1;
        }
        proof {
            if all@.len() == 0 {
                assert(found@.len() == 0);
                assert forall|s2: int, c: Seq<usize>| 0 <= s2 < s + 1 implies !#[trigger] dep_cycle(g, s2 as usize, c) by {
                    if s2 == s {
                        assert(!dep_cycle(g, s, c));
                    }
                }
            }
        }
        s = s + 1;
    }
    let n = all.len();
    let mut lens: Vec<usize> = Vec::new();
    let mut q: usize = 0;
    while q < n
        invariant
            n == all@.len(),
            0 <= q <= n,
            lens@.len() == q,
            forall|k: int| 0 <= k < q ==> #[trigger] lens@[k] == all@[k]@.len(),
        decreases n - q,
    {
        lens.push(all[q].len());
        q = q + 1;
    }
    let ghost lt = by_degree_desc(lens@);
    let before = |x: usize, y: usize| -> (b: bool)
        requires
            x < lens@.len(),
            y < lens@.len(),
        ensures
            b == (lens@[x as int] > lens@[y as int] || (lens@[x as int] == lens@[y as int] && x < y)),
        { lens[x] > lens[y] || (lens[x] == lens[y] && x < y) };
    let order = sort_positions(n, &before, Ghost(lt));
    let take = if limit < n { limit } else { n };
    let mut r: Vec<Vec<String>> = Vec::new();
    let mut k: usize = 0;
    while k < take
        invariant
            0 <= k <= take,
            take <= n,
            take <= limit,
            n == all@.len(),
            n == lens@.len(),
            forall|x: int| 0 <= x < n ==> #[trigger] lens@[x] == all@[x]@.len(),
            sorted_positions(order@, n as int, lt),
            g.sound(nodes, edges),
            forall|x: int|
                0 <= x < all@.len() ==> {
                    let c = (#[trigger] all@[x])@;
                    &&& is_module_path(g, nodes, edges, c)
                    &&& 3 <= c.len() <= 7
                    &&& c[0] == c.last()
                },
            r@.len() == k,
            forall|x: int|
                0 <= x < k ==> (#[trigger] r@[x])@.map_values(|s: String| s@) == path_names(
                    g,
                    all@[order@[x] as int]@,
                ),
        decreases take - k,
    {
        let c = &all[order[k]];
        let mut names: Vec<String> = Vec::new();
        let mut m: usize = 0;
        while m < c.len()
            invariant
                0 <= m <= c@.len(),
                forall|x: int| 0 <= x < c@.len() ==> #[trigger] c@[x] < g.names@.len(),
                names@.len() == m,
                forall|x: int| 0 <= x < m ==> (#[trigger] names@[x])@ == g.names@[c@[x] as int]@,
            decreases c@.len() - m,
        {
            names.push(owned(g.names[c[m]].as_str()));
            m = m + 1;
        }
        assert(names@.map_values(|s: String| s@) =~= path_names(g, c@));
        r.push(names);
        k = k + 1;
    }
    proof {
        assert forall|x: int| 0 <= x < r@.len() implies is_cycle(
            nodes,
            edges,
            (#[trigger] r@[x])@.map_values(|s: String| s@),
        ) by {
            let c = all@[order@[x] as int]@;
            let names = path_names(g, c);
            assert forall|i: int| 0 <= i < names.len() - 1 implies module_link(
                nodes,
                edges,
                #[trigger] names[i],
                names[i + 1],
            ) by {
                assert(module_link(nodes, edges, g.names@[c[i] as int]@, g.names@[c[i + 1] as int]@));
            }
        }
        if r@.len() == 0 && limit > 0 {
            assert(g.names@.len() == g.names.len());
            assert forall|c: Seq<Seq<char>>| !#[trigger] is_cycle(nodes, edges, c) by {
                if is_cycle(nodes, edges, c) {
                    let p = lemma_cycle_indices(g, nodes, edges, c);
                    assert(dep_cycle(g, p[0] as int as usize, p));
                }
            }
        }
        assert forall|i: int, j: int| 0 <= i < j < r@.len() implies (#[trigger] r@[i])@.len() >= (
        #[trigger] r@[j])@.len() by {
            assert(lt(order@[i] as int, order@[j] as int));
            assert(r@[i]@.len() == r@[i]@.map_values(|s: String| s@).len());
            assert(r@[j]@.len() == r@[j]@.map_values(|s: String| s@).len());
        }
    }
    r
}

/// Hot symbols, highest degree first, the first `limit` of them.
fn hot_symbols(graph: &CodeGraph, index: &QueryIndex, limit: usize) -> (r: Vec<HotSymbol>)
    requires
        index.wf(),
        index.node_seq() == graph.nodes@,
        index.edge_seq() == graph.edges@,
    ensures
        ({
            let cand = hot_positions(graph.nodes@, graph.edges@);
            let ds = Seq::new(
                cand.len(),
                |k: int| degree_at(graph.edges@, graph.nodes@[cand[k]].id@) as usize,
            );
            exists|order: Seq<usize>|
                {
                    &&& sorted_positions(order, cand.len() as int, by_degree_desc(ds))
                    &&& r@.len() == at_most(cand.len(), limit as nat)
                    &&& forall|k: int|
                        0 <= k < r@.len() ==> hot_entry_ok(
                            #[trigger] r@[k],
                            cand[order[k] as int],
                            graph.nodes@[cand[order[k] as int]],
                            ds[order[k] as int] as nat,
                        )
                }
        }),
{
    let ghost nodes = graph.nodes@;
    let ghost edges = graph.edges@;
    let mut cand: Vec<usize> = Vec::new();
    let mut ds: Vec<usize> = Vec::new();
    let mut i: usize = 0;
    while i < graph.nodes.len()
        invariant
            index.wf(),
            index.node_seq() == nodes,
            index.edge_seq() == edges,
            nodes == graph.nodes@,
            edges == graph.edges@,
            0 <= i <= nodes.len(),
            cand@.len() == ds@.len(),
            cand@.len() == hot_positions(nodes.take(i as int), edges).len(),
            forall|k: int|
                0 <= k < cand@.len() ==> #[trigger] cand@[k] == hot_positions(
                    nodes.take(i as int),
                    edges,
                )[k],
            forall|k: int| 0 <= k < cand@.len() ==> #[trigger] cand@[k] < i,
            forall|k: int|
                0 <= k < cand@.len() ==> #[trigger] ds@[k] == degree_at(edges, nodes[cand@[k] as int].id@),
        decreases nodes.len() - i,
    {
        let node = &graph.nodes[i];
        let ghost pre = nodes.take(i as int);
        let ghost cur = nodes.take(i + 1);
        assert(cur.drop_last() =~= pre);
        assert(cur.last() == nodes[i as int]);
        let ghost old_c = cand@;
        let ghost old_d = ds@;
        if node.kind != NodeKind::File && node.kind != NodeKind::Project {
            let d = index.degree(node.id.as_str());
            if d >= 20 {
                cand.push(i);
                ds.push(d);
            }
        }
        proof {
            let hp = hot_positions(pre, edges);
            let hc = hot_positions(cur, edges);
            if is_hot(nodes[i as int], edges) {
                assert(hc == hp.push(i as int));
                assert forall|k: int| 0 <= k < cand@.len() implies #[trigger] cand@[k] == hc[k] by {
                    if k < hp.len() {
                        assert(cand@[k] == old_c[k]);
                    }
                }
                assert forall|k: int| 0 <= k < cand@.len() implies #[trigger] ds@[k] == degree_at(
                    edges,
                    nodes[cand@[k] as int].id@,
                ) by {
                    if k < hp.len() {
                        assert(cand@[k] == old_c[k] && ds@[k] == old_d[k]);
                    }
                }
            } else {
                assert(hc == hp);
            }
        }
        i = i + 1;
    }
    assert(nodes.take(nodes.len() as int) =~= nodes);
    let ghost cand_s = hot_positions(nodes, edges);
    let ghost dv = Seq::new(
        cand_s.len(),
        |k: int| degree_at(edges, nodes[cand_s[k]].id@) as usize,
    );
    assert(ds@ =~= dv);
    let n = cand.len();
    let ghost lt = by_degree_desc(ds@);
    let before = |x: usize, y: usize| -> (b: bool)
        requires
            x < ds@.len(),
            y < ds@.len(),
        ensures
            b == (ds@[x as int] > ds@[y as int] || (ds@[x as int] == ds@[y as int] && x < y)),
        { ds[x] > ds[y] || (ds[x] == ds[y] && x < y) };
    let order = sort_positions(n, &before, Ghost(lt));
    let take = if limit < n { limit } else { n };
    let mut r: Vec<HotSymbol> = Vec::new();
    let mut k: usize = 0;
    while k < take
        invariant
            0 <= k <= take,
            take <= n,
            n == cand@.len(),
            n == ds@.len(),
            nodes == graph.nodes@,
            cand@.len() == cand_s.len(),
            forall|x: int| 0 <= x < n ==> #[trigger] cand@[x] as int == cand_s[x],
            forall|x: int| 0 <= x < n ==> #[trigger] cand@[x] < nodes.len(),
            sorted_positions(order@, n as int, lt),
            r@.len() == k,
            forall|x: int|
                0 <= x < k ==> hot_entry_ok(
                    #[trigger] r@[x],
                    cand_s[order@[x] as int],
                    nodes[cand_s[order@[x] as int]],
                    ds@[order@[x] as int] as nat,
                ),
        decreases take - k,
    {
        let o = order[k];
        let p = cand[o];
        let node = &graph.nodes[p];
        let signature = match &node.signature {
            Some(sig) => Some(truncate(sig.as_str(), 120)),
            None => None,
        };
        let docs = match &node.docs {
            Some(d) => {
                let ls = lines(d.as_str());
                if ls.len() > 0 {
                    assert(ls@[0]@ == lines_spec(d@)[0]);
                    Some(truncate(ls[0].as_str(), 120))
                } else {
                    None
                }
            },
            None => None,
        };
        r.push(HotSymbol { node: p, degree: ds[o], signature, docs });
        k = k + 1;
    }
    assert(sorted_positions(order@, cand_s.len() as int, by_degree_desc(dv)));
    r
}

} // verus!
