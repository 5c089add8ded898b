//! The code graph: nodes, edges, their kinds, and graph statistics.

use vstd::prelude::*;
use crate::text::{owned, str_eq};

verus! {

// ---- Graph ----

/// A Python project indexed into a graph of symbols and relations.
#[derive(Clone, Debug)]
pub struct CodeGraph {
    pub schema_version: u32,
    pub project: Project,
    pub nodes: Vec<Node>,
    pub edges: Vec<Edge>,
    pub semantic: Option<SemanticInfo>,
    pub warnings: Vec<String>,
    pub generated_at_ms: u128,
}

/// The indexed project root and its packages.
#[derive(Clone, Debug)]
pub struct Project {
    pub root: String,
    pub packages: Vec<Package>,
}

/// A package: its name, root directory and Python files.
#[derive(Clone, Debug)]
pub struct Package {
    pub name: String,
    pub root: String,
    pub files: Vec<String>,
}

// ---- Node ----

/// A symbol of the graph. `metrics` holds named counters, at most one
/// entry per name.
#[derive(Clone, Debug)]
pub struct Node {
    pub id: String,
    pub kind: NodeKind,
    pub name: String,
    pub qualified_name: String,
    pub file: Option<String>,
    pub range: Option<Range>,
    pub visibility: Option<String>,
    pub signature: Option<String>,
    pub docs: Option<String>,
    pub metrics: Vec<(String, usize)>,
}

/// The kind of a node.
#[derive(Clone, Copy, Debug, PartialEq, Eq, Structural, PartialOrd, Ord)]
pub enum NodeKind {
    Project,
    File,
    Module,
    Package,
    Function,
    Method,
    AsyncFunction,
    AsyncMethod,
    Class,
    ClassMethod,
    StaticMethod,
    Variable,
    Field,
    Property,
    Decorator,
    Import,
    Enum,
    NamedTuple,
    DataType,
    TypeAlias,
    Protocol,
    ABC,
    Generator,
    Dunder,
    Constructor,
    ClassVariable,
    InstanceVariable,
    Constant,
    Unknown,
}

/// The snake_case name of a node kind.
pub open spec fn node_kind_str(k: NodeKind) -> Seq<char> {
    match k {
        NodeKind::Project => "project"@,
        NodeKind::File => "file"@,
        NodeKind::Module => "module"@,
        NodeKind::Package => "package"@,
        NodeKind::Function => "function"@,
        NodeKind::Method => "method"@,
        NodeKind::AsyncFunction => "async_function"@,
        NodeKind::AsyncMethod => "async_method"@,
        NodeKind::Class => "class"@,
        NodeKind::ClassMethod => "class_method"@,
        NodeKind::StaticMethod => "static_method"@,
        NodeKind::Variable => "variable"@,
        NodeKind::Field => "field"@,
        NodeKind::Property => "property"@,
        NodeKind::Decorator => "decorator"@,
        NodeKind::Import => "import"@,
        NodeKind::Enum => "enum"@,
        NodeKind::NamedTuple => "named_tuple"@,
        NodeKind::DataType => "data_type"@,
        NodeKind::TypeAlias => "type_alias"@,
        NodeKind::Protocol => "protocol"@,
        NodeKind::ABC => "abc"@,
        NodeKind::Generator => "generator"@,
        NodeKind::Dunder => "dunder"@,
        NodeKind::Constructor => "constructor"@,
        NodeKind::ClassVariable => "class_variable"@,
        NodeKind::InstanceVariable => "instance_variable"@,
        NodeKind::Constant => "constant"@,
        NodeKind::Unknown => "unknown"@,
    }
}

impl NodeKind {
    /// The snake_case name of this kind.
    pub fn as_str(&self) -> (r: &'static str)
        ensures
            r@ == node_kind_str(*self),
    {
        match self {
            NodeKind::Project => "project",
            NodeKind::File => "file",
            NodeKind::Module => "module",
            NodeKind::Package => "package",
            NodeKind::Function => "function",
            NodeKind::Method => "method",
            NodeKind::AsyncFunction => "async_function",
            NodeKind::AsyncMethod => "async_method",
            NodeKind::Class => "class",
            NodeKind::ClassMethod => "class_method",
            NodeKind::StaticMethod => "static_method",
            NodeKind::Variable => "variable",
            NodeKind::Field => "field",
            NodeKind::Property => "property",
            NodeKind::Decorator => "decorator",
            NodeKind::Import => "import",
            NodeKind::Enum => "enum",
            NodeKind::NamedTuple => "named_tuple",
            NodeKind::DataType => "data_type",
            NodeKind::TypeAlias => "type_alias",
            NodeKind::Protocol => "protocol",
            NodeKind::ABC => "abc",
            NodeKind::Generator => "generator",
            NodeKind::Dunder => "dunder",
            NodeKind::Constructor => "constructor",
            NodeKind::ClassVariable => "class_variable",
            NodeKind::InstanceVariable => "instance_variable",
            NodeKind::Constant => "constant",
            NodeKind::Unknown => "unknown",
        }
    }
}

// ---- Edge ----

/// A relation between two nodes, named by their ids.
#[derive(Clone, Debug)]
pub struct Edge {
    pub from: String,
    pub to: String,
    pub kind: EdgeKind,
    pub label: Option<String>,
    pub evidence: Option<Location>,
    pub weight: usize,
    pub source: EdgeSource,
    pub certainty: EdgeCertainty,
    pub call_style: Option<String>,
}

/// The kind of an edge.
#[derive(Clone, Copy, Debug, PartialEq, Eq, Structural)]
pub enum EdgeKind {
    Contains,
    Declares,
    Imports,
    Calls,
    HasMethod,
    HasField,
    InheritsFrom,
    UsesType,
    ModuleFile,
    AwaitCalls,
    Decorates,
    FromImports,
    Overrides,
    Implements,
    Returns,
    Mixin,
    Describes,
}

/// The snake_case name of an edge kind.
pub open spec fn edge_kind_str(k: EdgeKind) -> Seq<char> {
    match k {
        EdgeKind::Contains => "contains"@,
        EdgeKind::Declares => "declares"@,
        EdgeKind::Imports => "imports"@,
        EdgeKind::Calls => "calls"@,
        EdgeKind::HasMethod => "has_method"@,
        EdgeKind::HasField => "has_field"@,
        EdgeKind::InheritsFrom => "inherits_from"@,
        EdgeKind::UsesType => "uses_type"@,
        EdgeKind::ModuleFile => "module_file"@,
        EdgeKind::AwaitCalls => "await_calls"@,
        EdgeKind::Decorates => "decorates"@,
        EdgeKind::FromImports => "from_imports"@,
        EdgeKind::Overrides => "overrides"@,
        EdgeKind::Implements => "implements"@,
        EdgeKind::Returns => "returns"@,
        EdgeKind::Mixin => "mixin"@,
        EdgeKind::Describes => "describes"@,
    }
}

impl EdgeKind {
    /// The snake_case name of this kind.
    pub fn as_str(&self) -> (r: &'static str)
        ensures
            r@ == edge_kind_str(*self),
    {
        match self {
            EdgeKind::Contains => "contains",
            EdgeKind::Declares => "declares",
            EdgeKind::Imports => "imports",
            EdgeKind::Calls => "calls",
            EdgeKind::HasMethod => "has_method",
            EdgeKind::HasField => "has_field",
            EdgeKind::InheritsFrom => "inherits_from",
            EdgeKind::UsesType => "uses_type",
            EdgeKind::ModuleFile => "module_file",
            EdgeKind::AwaitCalls => "await_calls",
            EdgeKind::Decorates => "decorates",
            EdgeKind::FromImports => "from_imports",
            EdgeKind::Overrides => "overrides",
            EdgeKind::Implements => "implements",
            EdgeKind::Returns => "returns",
            EdgeKind::Mixin => "mixin",
            EdgeKind::Describes => "describes",
        }
    }
}

/// Where an edge came from.
#[derive(Clone, Copy, Debug, PartialEq, Eq, Structural)]
pub enum EdgeSource {
    Ast,
    Inferred,
}

/// The snake_case name of an edge source.
pub open spec fn edge_source_str(s: EdgeSource) -> Seq<char> {
    match s {
        EdgeSource::Ast => "ast"@,
        EdgeSource::Inferred => "inferred"@,
    }
}

impl EdgeSource {
    /// The snake_case name of this source.
    pub fn as_str(&self) -> (r: &'static str)
        ensures
            r@ == edge_source_str(*self),
    {
        match self {
            EdgeSource::Ast => "ast",
            EdgeSource::Inferred => "inferred",
        }
    }
}

/// How sure the indexer is of an edge.
#[derive(Clone, Copy, Debug, PartialEq, Eq, Structural)]
pub enum EdgeCertainty {
    Definite,
    Inferred,
    Possible,
}

/// The snake_case name of an edge certainty.
pub open spec fn edge_certainty_str(c: EdgeCertainty) -> Seq<char> {
    match c {
        EdgeCertainty::Definite => "definite"@,
        EdgeCertainty::Inferred => "inferred"@,
        EdgeCertainty::Possible => "possible"@,
    }
}

impl EdgeCertainty {
    /// The snake_case name of this certainty.
    pub fn as_str(&self) -> (r: &'static str)
        ensures
            r@ == edge_certainty_str(*self),
    {
        match self {
            EdgeCertainty::Definite => "definite",
            EdgeCertainty::Inferred => "inferred",
            EdgeCertainty::Possible => "possible",
        }
    }
}

// ---- Common ----

/// A 1-based, inclusive line range.
#[derive(Clone, Copy, Debug, PartialEq, Eq, Structural)]
pub struct Range {
    pub start_line: usize,
    pub end_line: usize,
}

/// A line of a file.
#[derive(Clone, Debug)]
pub struct Location {
    pub file: String,
    pub line: usize,
}

// ---- Stats ----

/// Counts of a graph. Each tally holds one entry per distinct name.
#[derive(Clone, Debug)]
pub struct GraphStats {
    pub nodes: usize,
    pub edges: usize,
    pub by_kind: Vec<(String, usize)>,
    pub by_edge: Vec<(String, usize)>,
    pub by_source: Vec<(String, usize)>,
    pub by_certainty: Vec<(String, usize)>,
    pub files: usize,
    pub symbols: usize,
    pub warnings: usize,
}

/// What the language-server enrichment pass did.
#[derive(Clone, Debug)]
pub struct SemanticInfo {
    pub enabled: bool,
    pub provider: String,
    pub scanned_symbols: usize,
    pub enriched_symbols: usize,
    pub confirmed_symbols: usize,
    pub enriched_edges: usize,
    pub confirmed_edges: usize,
    pub unresolved_items: usize,
    pub warnings: Vec<String>,
}

/// Views of a sequence of strings.
pub open spec fn views(v: Seq<String>) -> Seq<Seq<char>> {
    v.map_values(|s: String| s@)
}

/// Number of occurrences of `k` in `keys`.
pub open spec fn occurrences(keys: Seq<Seq<char>>, k: Seq<char>) -> nat
    decreases keys.len(),
{
    if keys.len() == 0 {
        0
    } else {
        occurrences(keys.drop_last(), k) + (if keys.last() == k { 1nat } else { 0nat })
    }
}

/// Names of a tally.
pub open spec fn tally_keys(t: Seq<(String, usize)>) -> Seq<Seq<char>> {
    t.map_values(|e: (String, usize)| e.0@)
}

/// `t` counts the names in `keys`: one entry per distinct name, each with
/// its number of occurrences.
pub open spec fn is_tally_of(t: Seq<(String, usize)>, keys: Seq<Seq<char>>) -> bool {
    &&& tally_keys(t).no_duplicates()
    &&& forall|i: int| 0 <= i < t.len() ==> t[i].1 == occurrences(keys, #[trigger] t[i].0@)
    &&& forall|i: int| 0 <= i < t.len() ==> keys.contains(#[trigger] t[i].0@)
    &&& forall|k: Seq<char>| #[trigger] keys.contains(k) ==> tally_keys(t).contains(k)
}

pub proof fn lemma_occurrences_bounds(keys: Seq<Seq<char>>, k: Seq<char>)
    ensures
        occurrences(keys, k) <= keys.len(),
        !keys.contains(k) ==> occurrences(keys, k) == 0,
    decreases keys.len(),
{
    if keys.len() > 0 {
        lemma_occurrences_bounds(keys.drop_last(), k);
        if !keys.contains(k) {
            assert(keys.last() != k) by {
                assert(keys[keys.len() - 1] == keys.last());
            }
            assert(!keys.drop_last().contains(k)) by {
                if keys.drop_last().contains(k) {
                    let q = choose|q: int| 0 <= q < keys.drop_last().len() && keys.drop_last()[q] == k;
                    assert(keys[q] == k);
                }
            }
        }
    }
}

/// Position of the entry named `k` in a tally, if any.
fn tally_find(t: &Vec<(String, usize)>, k: &str) -> (r: Option<usize>)
    ensures
        match r {
            Some(j) => j < t.len() && t@[j as int].0@ == k@,
            None => !tally_keys(t@).contains(k@),
        },
{
    let mut j: usize = 0;
    while j < t.len()
        invariant
            0 <= j <= t.len(),
            forall|m: int| 0 <= m < j ==> t@[m].0@ != k@,
        decreases t.len() - j,
    {
        if str_eq(t[j].0.as_str(), k) {
            return Some(j);
        }
        j = j + 1;
    }
    assert(!tally_keys(t@).contains(k@)) by {
        if tally_keys(t@).contains(k@) {
            let q = choose|q: int| 0 <= q < tally_keys(t@).len() && tally_keys(t@)[q] == k@;
            assert(t@[q].0@ == k@);
        }
    }
    None
}

/// Counts the names in `keys`.
pub fn tally(keys: &Vec<String>) -> (t: Vec<(String, usize)>)
    ensures
        is_tally_of(t@, views(keys@)),
{
    let mut t: Vec<(String, usize)> = Vec::new();
    let mut i: usize = 0;
    while i < keys.len()
        invariant
            0 <= i <= keys.len(),
            is_tally_of(t@, views(keys@.subrange(0, i as int))),
        decreases keys.len() - i,
    {
        let ghost pre = views(keys@.subrange(0, i as int));
        let ghost post = views(keys@.subrange(0, i + 1));
        assert(post =~= pre.push(keys@[i as int]@));
        assert(post.drop_last() =~= pre);
        let k = &keys[i];
        proof {
            lemma_occurrences_bounds(pre, k@);
            assert(pre.len() == i);
        }
        let ghost old_t = t@;
        match tally_find(&t, k.as_str()) {
            Some(j) => {
                let (name, count) = t.remove(j);
                t.insert(j, (name, count + 1));
                proof {
                    assert(tally_keys(t@) =~= tally_keys(old_t));
                    assert forall|m: int| 0 <= m < t@.len() implies t@[m].1 == occurrences(post, #[trigger] t@[m].0@) by {
                        if m != j {
                            assert(t@[m] == old_t[m]);
                            assert(old_t[m].0@ != k@) by {
                                assert(tally_keys(old_t)[m] == old_t[m].0@);
                                assert(tally_keys(old_t)[j as int] == k@);
                            }
                        }
                    }
                    assert forall|kk: Seq<char>| #[trigger] post.contains(kk) implies tally_keys(
                        t@,
                    ).contains(kk) by {
                        if kk == k@ {
                            assert(tally_keys(t@)[j as int] == kk);
                        } else {
                            let idx = choose|q: int| 0 <= q < post.len() && post[q] == kk;
                            assert(pre[idx] == kk);
                            assert(pre.contains(kk));
                        }
                    }
                    assert forall|m: int| 0 <= m < t@.len() implies post.contains(
                        #[trigger] t@[m].0@,
                    ) by {
                        assert(pre.contains(old_t[m].0@));
                        let idx = choose|q: int| 0 <= q < pre.len() && pre[q] == old_t[m].0@;
                        assert(post[idx] == old_t[m].0@);
                    }
                }
            },
            None => {
                let name = owned(k.as_str());
                t.push((name, 1));
                proof {
                    assert(tally_keys(t@) =~= tally_keys(old_t).push(k@));
                    assert forall|m: int| 0 <= m < t@.len() implies t@[m].1 == occurrences(post, #[trigger] t@[m].0@) by {
                        if m < old_t.len() {
                            assert(t@[m] == old_t[m]);
                            assert(old_t[m].0@ != k@) by {
                                assert(tally_keys(old_t)[m] == old_t[m].0@);
                            }
                        }
                    }
                    assert(!pre.contains(k@)) by {
                        if pre.contains(k@) {
                            assert(tally_keys(old_t).contains(k@));
                        }
                    }
                    lemma_occurrences_bounds(pre, k@);
                    assert forall|kk: Seq<char>| #[trigger] post.contains(kk) implies tally_keys(
                        t@,
                    ).contains(kk) by {
                        if kk == k@ {
                            assert(tally_keys(t@)[old_t.len() as int] == kk);
                        } else {
                            let idx = choose|q: int| 0 <= q < post.len() && post[q] == kk;
                            assert(pre[idx] == kk);
                            assert(pre.contains(kk));
                            let q = choose|q: int|
                                0 <= q < tally_keys(old_t).len() && tally_keys(old_t)[q] == kk;
                            assert(tally_keys(t@)[q] == kk);
                        }
                    }
                    assert forall|m: int| 0 <= m < t@.len() implies post.contains(
                        #[trigger] t@[m].0@,
                    ) by {
                        if m < old_t.len() {
                            assert(pre.contains(old_t[m].0@));
                            let idx = choose|q: int| 0 <= q < pre.len() && pre[q] == old_t[m].0@;
                            assert(post[idx] == old_t[m].0@);
                        } else {
                            assert(post[i as int] == k@);
                        }
                    }
                }
            },
        }
        i = i + 1;
    }
    assert(keys@.subrange(0, keys.len() as int) =~= keys@);
    t
}

/// Number of nodes of the given kind.
pub open spec fn count_kind(nodes: Seq<Node>, k: NodeKind) -> nat {
    nodes.filter(|n: Node| n.kind == k).len()
}

/// Number of symbol nodes: all but projects and files.
pub open spec fn count_symbols(nodes: Seq<Node>) -> nat {
    nodes.filter(|n: Node| n.kind != NodeKind::Project && n.kind != NodeKind::File).len()
}

/// Names of the kinds of the nodes, in order.
pub open spec fn node_kind_names(nodes: Seq<Node>) -> Seq<Seq<char>> {
    nodes.map_values(|n: Node| node_kind_str(n.kind))
}

/// Names of the kinds of the edges, in order.
pub open spec fn edge_kind_names(edges: Seq<Edge>) -> Seq<Seq<char>> {
    edges.map_values(|e: Edge| edge_kind_str(e.kind))
}

/// Names of the sources of the edges, in order.
pub open spec fn edge_source_names(edges: Seq<Edge>) -> Seq<Seq<char>> {
    edges.map_values(|e: Edge| edge_source_str(e.source))
}

/// Names of the certainties of the edges, in order.
pub open spec fn edge_certainty_names(edges: Seq<Edge>) -> Seq<Seq<char>> {
    edges.map_values(|e: Edge| edge_certainty_str(e.certainty))
}

proof fn lemma_filter_push<A>(s: Seq<A>, x: A, p: spec_fn(A) -> bool)
    ensures
        s.push(x).filter(p) == (if p(x) { s.filter(p).push(x) } else { s.filter(p) }),
{
    reveal(Seq::filter);
    assert(s.push(x).drop_last() =~= s);
}

impl CodeGraph {
    /// Counts of nodes and edges, by kind, source and certainty.
    pub fn stats(&self) -> (s: GraphStats)
        ensures
            s.nodes == self.nodes.len(),
            s.edges == self.edges.len(),
            is_tally_of(s.by_kind@, node_kind_names(self.nodes@)),
            is_tally_of(s.by_edge@, edge_kind_names(self.edges@)),
            is_tally_of(s.by_source@, edge_source_names(self.edges@)),
            is_tally_of(s.by_certainty@, edge_certainty_names(self.edges@)),
            s.files == count_kind(self.nodes@, NodeKind::File),
            s.symbols == count_symbols(self.nodes@),
            s.warnings == self.warnings.len(),
    {
        let mut kinds: Vec<String> = Vec::new();
        let mut files: usize = 0;
        let mut symbols: usize = 0;
        let mut i: usize = 0;
        while i < self.nodes.len()
            invariant
                0 <= i <= self.nodes.len(),
                views(kinds@) == node_kind_names(self.nodes@.subrange(0, i as int)),
                files == count_kind(self.nodes@.subrange(0, i as int), NodeKind::File),
                symbols == count_symbols(self.nodes@.subrange(0, i as int)),
                files <= i,
                symbols <= i,
            decreases self.nodes.len() - i,
        {
            let node = &self.nodes[i];
            let ghost pre = self.nodes@.subrange(0, i as int);
            assert(self.nodes@.subrange(0, i + 1) =~= pre.push(*node));
            proof {
                lemma_filter_push(pre, *node, |n: Node| n.kind == NodeKind::File);
                lemma_filter_push(
                    pre,
                    *node,
                    |n: Node| n.kind != NodeKind::Project && n.kind != NodeKind::File,
                );
            }
            let ghost old_kinds = kinds@;
            let kname = owned(node.kind.as_str());
            kinds.push(kname);
            assert(views(kinds@) =~= views(old_kinds).push(kname@));
            if node.kind == NodeKind::File {
                files = files + 1;
            }
            if node.kind != NodeKind::Project && node.kind != NodeKind::File {
                symbols = symbols + 1;
            }
            i = i + 1;
            assert(node_kind_names(self.nodes@.subrange(0, i as int)) =~= node_kind_names(pre).push(node_kind_str(node.kind)));
        }
        let mut ekinds: Vec<String> = Vec::new();
        let mut sources: Vec<String> = Vec::new();
        let mut certs: Vec<String> = Vec::new();
        let mut j: usize = 0;
        while j < self.edges.len()
            invariant
                0 <= j <= self.edges.len(),
                views(ekinds@) == edge_kind_names(self.edges@.subrange(0, j as int)),
                views(sources@) == edge_source_names(self.edges@.subrange(0, j as int)),
                views(certs@) == edge_certainty_names(self.edges@.subrange(0, j as int)),
            decreases self.edges.len() - j,
        {
            let edge = &self.edges[j];
            let ghost (ok, os, oc) = (ekinds@, sources@, certs@);
            let a = owned(edge.kind.as_str());
            let b = owned(edge.source.as_str());
            let c = owned(edge.certainty.as_str());
            ekinds.push(a);
            sources.push(b);
            certs.push(c);
            assert(views(ekinds@) =~= views(ok).push(a@));
            assert(views(sources@) =~= views(os).push(b@));
            assert(views(certs@) =~= views(oc).push(c@));
            assert(self.edges@.subrange(0, j + 1) =~= self.edges@.subrange(0, j as int).push(self.edges@[j as int]));
            j = j + 1;
            assert(views(ekinds@) =~= edge_kind_names(self.edges@.subrange(0, j as int)));
            assert(views(sources@) =~= edge_source_names(self.edges@.subrange(0, j as int)));
            assert(views(certs@) =~= edge_certainty_names(self.edges@.subrange(0, j as int)));
        }
        assert(self.nodes@.subrange(0, self.nodes.len() as int) =~= self.nodes@);
        assert(self.edges@.subrange(0, self.edges.len() as int) =~= self.edges@);
        GraphStats {
            nodes: self.nodes.len(),
            edges: self.edges.len(),
            by_kind: tally(&kinds),
            by_edge: tally(&ekinds),
            by_source: tally(&sources),
            by_certainty: tally(&certs),
            files,
            symbols,
            warnings: self.warnings.len(),
        }
    }
}

// ---- Copies ----

/// Optional text views.
pub open spec fn text_opt(o: Option<String>) -> Option<Seq<char>> {
    match o {
        Some(s) => Some(s@),
        None => None,
    }
}

/// Views of named counts.
pub open spec fn metric_views(m: Seq<(String, usize)>) -> Seq<(Seq<char>, usize)> {
    m.map_values(|p: (String, usize)| (p.0@, p.1))
}

/// `a` and `b` hold the same texts and values.
pub open spec fn same_node(a: Node, b: Node) -> bool {
    &&& a.id@ == b.id@
    &&& a.kind == b.kind
    &&& a.name@ == b.name@
    &&& a.qualified_name@ == b.qualified_name@
    &&& text_opt(a.file) == text_opt(b.file)
    &&& a.range == b.range
    &&& text_opt(a.visibility) == text_opt(b.visibility)
    &&& text_opt(a.signature) == text_opt(b.signature)
    &&& text_opt(a.docs) == text_opt(b.docs)
    &&& metric_views(a.metrics@) == metric_views(b.metrics@)
}

/// A copy of an optional text.
pub fn copy_text_opt(o: &Option<String>) -> (r: Option<String>)
    ensures
        text_opt(r) == text_opt(*o),
{
    match o {
        Some(s) => Some(owned(s.as_str())),
        None => None,
    }
}

/// A copy of a node.
pub fn copy_node(n: &Node) -> (r: Node)
    ensures
        same_node(r, *n),
{
    let mut metrics: Vec<(String, usize)> = Vec::new();
    let mut i: usize = 0;
    while i < n.metrics.len()
        invariant
            i <= n.metrics@.len(),
            metric_views(metrics@) == metric_views(n.metrics@).take(i as int),
        decreases n.metrics@.len() - i,
    {
        let ghost before = metrics@;
        metrics.push((owned(n.metrics[i].0.as_str()), n.metrics[i].1));
        assert(metric_views(metrics@) =~= metric_views(before).push(metric_views(n.metrics@)[i as int]));
        assert(metric_views(n.metrics@).take(i + 1) =~= metric_views(n.metrics@).take(i as int).push(
            metric_views(n.metrics@)[i as int],
        ));
        i = i + 1;
    }
    assert(metric_views(n.metrics@).take(n.metrics@.len() as int) =~= metric_views(n.metrics@));
    Node {
        id: owned(n.id.as_str()),
        kind: n.kind,
        name: owned(n.name.as_str()),
        qualified_name: owned(n.qualified_name.as_str()),
        file: copy_text_opt(&n.file),
        range: n.range,
        visibility: copy_text_opt(&n.visibility),
        signature: copy_text_opt(&n.signature),
        docs: copy_text_opt(&n.docs),
        metrics,
    }
}

} // verus!
