//! Graph builder: accumulates nodes and edges during indexing and resolves
//! call, import and inheritance targets by name once all files are read.

use vstd::prelude::*;
use vstd::hash_map::StringHashMap;
use vstd::utf8::is_char_boundary;
use vstd::string::StringSliceAdditionalSpecFns;
use crate::analyzer::helpers::{offset_line, offset_line_spec};
use crate::model::{
    node_kind_str, Edge, EdgeCertainty, EdgeKind, EdgeSource, Location, Node, NodeKind, Range,
};
use crate::text::{decimal, decimal_string, lemma_decimal_digits, lemma_decimal_injective, owned, push_str};

verus! {

/// Pending edge: a call, import or base class whose target is known only
/// by name until every file has been indexed.
pub struct PendingEdge {
    pub from: String,
    pub to_name: String,
    pub kind: EdgeKind,
    pub location: Option<Location>,
    pub call_style: Option<String>,
}

/// Graph builder: accumulates nodes and edges during indexing.
pub struct Builder {
    pub nodes: Vec<Node>,
    pub edges: Vec<Edge>,
    pub pending: Vec<PendingEdge>,
    pub warnings: Vec<String>,
    /// qualified name → id of the latest node with that name
    by_qname: StringHashMap<String>,
    /// short name → ids of the nodes with that name, in order
    by_name: StringHashMap<Vec<String>>,
    /// base id → number of nodes with that base id
    id_counter: StringHashMap<usize>,
}

// ---------------------------------------------------------------- ids

/// The base id of a node: `kind:qualified_name`.
pub open spec fn base_id(kind: NodeKind, qualified_name: Seq<char>) -> Seq<char> {
    node_kind_str(kind) + ":"@ + qualified_name
}

/// The id of the `count`-th node (from 1) with a base id: the base id
/// itself for the first, `base#count` after.
pub open spec fn make_id(base: Seq<char>, count: nat) -> Seq<char> {
    if count > 1 {
        base + "#"@ + decimal(count)
    } else {
        base
    }
}

/// Base id of a node.
pub open spec fn base_of(n: Node) -> Seq<char> {
    base_id(n.kind, n.qualified_name@)
}

/// Number of nodes with base id `b`.
pub open spec fn count_base(nodes: Seq<Node>, b: Seq<char>) -> nat
    decreases nodes.len(),
{
    if nodes.len() == 0 {
        0
    } else {
        count_base(nodes.drop_last(), b) + (if base_of(nodes.last()) == b { 1nat } else { 0nat })
    }
}

/// Every node's id is `make_id` of its base id and its rank among the
/// nodes with that base id.
pub open spec fn ids_wf(nodes: Seq<Node>) -> bool {
    forall|j: int|
        0 <= j < nodes.len() ==> (#[trigger] nodes[j]).id@ == make_id(
            base_of(nodes[j]),
            count_base(nodes.take(j + 1), base_of(nodes[j])),
        )
}

/// Id of the latest node with qualified name `q`.
pub open spec fn last_id_with_qname(nodes: Seq<Node>, q: Seq<char>) -> Option<Seq<char>>
    decreases nodes.len(),
{
    if nodes.len() == 0 {
        None
    } else if nodes.last().qualified_name@ == q {
        Some(nodes.last().id@)
    } else {
        last_id_with_qname(nodes.drop_last(), q)
    }
}

/// Ids of the nodes with short name `n`, in order.
pub open spec fn ids_named(nodes: Seq<Node>, n: Seq<char>) -> Seq<Seq<char>>
    decreases nodes.len(),
{
    if nodes.len() == 0 {
        seq![]
    } else if nodes.last().name@ == n {
        ids_named(nodes.drop_last(), n).push(nodes.last().id@)
    } else {
        ids_named(nodes.drop_last(), n)
    }
}

/// Views of the optional string of a map entry.
pub open spec fn lookup_str(m: Map<Seq<char>, String>, k: Seq<char>) -> Option<Seq<char>> {
    if m.contains_key(k) {
        Some(m[k]@)
    } else {
        None
    }
}

/// Views of the strings of a map entry (empty when absent).
pub open spec fn lookup_strs(m: Map<Seq<char>, Vec<String>>, k: Seq<char>) -> Seq<Seq<char>> {
    if m.contains_key(k) {
        m[k]@.map_values(|s: String| s@)
    } else {
        seq![]
    }
}

/// A counter entry (0 when absent).
pub open spec fn lookup_count(m: Map<Seq<char>, usize>, k: Seq<char>) -> nat {
    if m.contains_key(k) {
        m[k] as nat
    } else {
        0
    }
}

/// Optional string views.
pub open spec fn opt_view(o: Option<String>) -> Option<Seq<char>> {
    match o {
        Some(s) => Some(s@),
        None => None,
    }
}

/// Optional string-slice views.
pub open spec fn opt_str_view(o: Option<&str>) -> Option<Seq<char>> {
    match o {
        Some(s) => Some(s@),
        None => None,
    }
}

/// View of an optional location.
pub open spec fn loc_view(l: Option<Location>) -> Option<(Seq<char>, usize)> {
    match l {
        Some(l) => Some((l.file@, l.line)),
        None => None,
    }
}

// ---------------------------------------------------------------- resolution

/// How a pending edge is resolved against the nodes.
pub enum Resolution {
    /// An edge to this id with this certainty.
    Target(Seq<char>, EdgeCertainty),
    /// The short name matches this many nodes: skipped with a warning.
    Ambiguous(nat),
    /// Nothing matches: skipped silently.
    Missing,
}

/// Resolution of a target name: exact qualified name first (inferred),
/// then a unique short name (possible).
pub open spec fn resolve_name(nodes: Seq<Node>, name: Seq<char>) -> Resolution {
    match last_id_with_qname(nodes, name) {
        Some(id) => Resolution::Target(id, EdgeCertainty::Inferred),
        None => {
            let ids = ids_named(nodes, name);
            if ids.len() == 1 {
                Resolution::Target(ids[0], EdgeCertainty::Possible)
            } else if ids.len() > 1 {
                Resolution::Ambiguous(ids.len())
            } else {
                Resolution::Missing
            }
        },
    }
}

/// The edge a resolved pending edge becomes.
pub open spec fn edge_of_pending(
    e: Edge,
    pe: PendingEdge,
    to: Seq<char>,
    certainty: EdgeCertainty,
) -> bool {
    &&& e.from@ == pe.from@
    &&& e.to@ == to
    &&& e.kind == pe.kind
    &&& e.label is None
    &&& loc_view(e.evidence) == loc_view(pe.location)
    &&& e.weight == 1
    &&& e.source == EdgeSource::Ast
    &&& e.certainty == certainty
    &&& opt_view(e.call_style) == opt_view(pe.call_style)
}

/// The pending edges that resolve to a target, with the target id and
/// certainty, in order.
pub open spec fn resolved(nodes: Seq<Node>, pend: Seq<PendingEdge>) -> Seq<
    (PendingEdge, Seq<char>, EdgeCertainty),
>
    decreases pend.len(),
{
    if pend.len() == 0 {
        seq![]
    } else {
        let rest = resolved(nodes, pend.drop_last());
        match resolve_name(nodes, pend.last().to_name@) {
            Resolution::Target(id, c) => rest.push((pend.last(), id, c)),
            _ => rest,
        }
    }
}

/// Every pending edge whose target name resolves is among the resolved
/// ones, with that target.
pub proof fn lemma_resolved_has(nodes: Seq<Node>, pend: Seq<PendingEdge>, j: int, id: Seq<char>, c: EdgeCertainty)
    requires
        0 <= j < pend.len(),
        resolve_name(nodes, pend[j].to_name@) == Resolution::Target(id, c),
    ensures
        exists|k: int| 0 <= k < resolved(nodes, pend).len() && #[trigger] resolved(nodes, pend)[k] == (pend[j], id, c),
    decreases pend.len(),
{
    let rest = resolved(nodes, pend.drop_last());
    if j == pend.len() - 1 {
        assert(resolved(nodes, pend) == rest.push((pend.last(), id, c)));
        assert(resolved(nodes, pend)[rest.len() as int] == (pend[j], id, c));
    } else {
        lemma_resolved_has(nodes, pend.drop_last(), j, id, c);
        let k = choose|k: int| 0 <= k < rest.len() && #[trigger] rest[k] == (pend.drop_last()[j], id, c);
        match resolve_name(nodes, pend.last().to_name@) {
            Resolution::Target(id2, c2) => {
                assert(resolved(nodes, pend) == rest.push((pend.last(), id2, c2)));
                assert(resolved(nodes, pend)[k] == rest[k]);
            },
            _ => {
                assert(resolved(nodes, pend) == rest);
            },
        }
    }
}

/// The warning for an ambiguous target.
pub open spec fn ambiguity_warning(name: Seq<char>, n: nat) -> Seq<char> {
    "ambiguous target '"@ + name + "' matches "@ + decimal(n) + " nodes — skipped"@
}

/// The warnings for the ambiguous pending edges, in order.
pub open spec fn ambiguity_warnings(nodes: Seq<Node>, pend: Seq<PendingEdge>) -> Seq<Seq<char>>
    decreases pend.len(),
{
    if pend.len() == 0 {
        seq![]
    } else {
        let rest = ambiguity_warnings(nodes, pend.drop_last());
        match resolve_name(nodes, pend.last().to_name@) {
            Resolution::Ambiguous(n) => rest.push(ambiguity_warning(pend.last().to_name@, n)),
            _ => rest,
        }
    }
}

// ---------------------------------------------------------------- lemmas

proof fn lemma_count_base_take_push(nodes: Seq<Node>, j: int, b: Seq<char>)
    requires
        0 <= j < nodes.len(),
    ensures
        count_base(nodes.take(j + 1), b) == count_base(nodes.take(j), b) + (if base_of(nodes[j])
            == b { 1nat } else { 0nat }),
{
    assert(nodes.take(j + 1).drop_last() =~= nodes.take(j));
}

proof fn lemma_count_base_mono(nodes: Seq<Node>, i: int, j: int, b: Seq<char>)
    requires
        0 <= i <= j <= nodes.len(),
    ensures
        count_base(nodes.take(i), b) <= count_base(nodes.take(j), b),
    decreases j - i,
{
    if i < j {
        lemma_count_base_mono(nodes, i, j - 1, b);
        lemma_count_base_take_push(nodes, j - 1, b);
    }
}

proof fn lemma_count_base_le(nodes: Seq<Node>, b: Seq<char>)
    ensures
        count_base(nodes, b) <= nodes.len(),
    decreases nodes.len(),
{
    if nodes.len() > 0 {
        lemma_count_base_le(nodes.drop_last(), b);
    }
}

/// No node-kind name holds `#`.
proof fn lemma_kind_str_no_hash(k: NodeKind)
    ensures
        !node_kind_str(k).contains('#'),
{
    reveal_strlit("project");
    reveal_strlit("file");
    reveal_strlit("module");
    reveal_strlit("package");
    reveal_strlit("function");
    reveal_strlit("method");
    reveal_strlit("async_function");
    reveal_strlit("async_method");
    reveal_strlit("class");
    reveal_strlit("class_method");
    reveal_strlit("static_method");
    reveal_strlit("variable");
    reveal_strlit("field");
    reveal_strlit("property");
    reveal_strlit("decorator");
    reveal_strlit("import");
    reveal_strlit("enum");
    reveal_strlit("named_tuple");
    reveal_strlit("data_type");
    reveal_strlit("type_alias");
    reveal_strlit("protocol");
    reveal_strlit("abc");
    reveal_strlit("generator");
    reveal_strlit("dunder");
    reveal_strlit("constructor");
    reveal_strlit("class_variable");
    reveal_strlit("instance_variable");
    reveal_strlit("constant");
    reveal_strlit("unknown");
    let s = node_kind_str(k);
    assert forall|i: int| 0 <= i < s.len() implies s[i] != '#' by {}
}

proof fn lemma_base_no_hash(k: NodeKind, q: Seq<char>)
    requires
        !q.contains('#'),
    ensures
        !base_id(k, q).contains('#'),
{
    lemma_kind_str_no_hash(k);
    reveal_strlit(":");
    let a = node_kind_str(k);
    let b = base_id(k, q);
    assert forall|i: int| 0 <= i < b.len() implies b[i] != '#' by {
        if i < a.len() {
            assert(b[i] == a[i]);
            assert(!(a[i] == '#')) by {
                if a[i] == '#' {
                    assert(a.contains('#'));
                }
            }
        } else if i == a.len() {
            assert(b[i] == ':');
        } else {
            assert(b[i] == q[i - a.len() - 1]);
            if q[i - a.len() - 1] == '#' {
                assert(q.contains('#'));
            }
        }
    }
}

/// Ids built from bases without `#` determine base and rank.
proof fn lemma_make_id_injective(b1: Seq<char>, c1: nat, b2: Seq<char>, c2: nat)
    requires
        !b1.contains('#'),
        !b2.contains('#'),
        c1 >= 1,
        c2 >= 1,
        make_id(b1, c1) == make_id(b2, c2),
    ensures
        b1 == b2,
        c1 == c2,
{
    reveal_strlit("#");
    assert("#"@ =~= seq!['#']);
    let id = make_id(b1, c1);
    if c1 > 1 && c2 > 1 {
        if b1.len() < b2.len() {
            assert(id[b1.len() as int] == '#');
            assert(id[b1.len() as int] == b2[b1.len() as int]);
            assert(b2.contains('#'));
        } else if b2.len() < b1.len() {
            assert(id[b2.len() as int] == '#');
            assert(id[b2.len() as int] == b1[b2.len() as int]);
            assert(b1.contains('#'));
        } else {
            assert(b1 =~= id.subrange(0, b1.len() as int));
            assert(b2 =~= id.subrange(0, b2.len() as int));
            assert(decimal(c1) =~= id.subrange(b1.len() + 1int, id.len() as int));
            assert(decimal(c2) =~= id.subrange(b2.len() + 1int, id.len() as int));
            lemma_decimal_injective(c1, c2);
        }
    } else if c1 > 1 {
        // id = b1 # d1 and id = b2: b2 would hold `#`.
        assert(id[b1.len() as int] == '#');
        assert(b2.contains('#'));
    } else if c2 > 1 {
        assert(id[b2.len() as int] == '#');
        assert(b1.contains('#'));
    }
}

/// Node ids built by the builder are distinct when no qualified name holds
/// `#`.
pub proof fn lemma_ids_distinct(nodes: Seq<Node>)
    requires
        ids_wf(nodes),
        forall|j: int| 0 <= j < nodes.len() ==> !(#[trigger] nodes[j]).qualified_name@.contains('#'),
    ensures
        forall|i: int, j: int|
            0 <= i < j < nodes.len() ==> (#[trigger] nodes[i]).id@ != (#[trigger] nodes[j]).id@,
{
    assert forall|i: int, j: int| 0 <= i < j < nodes.len() implies (#[trigger] nodes[i]).id@ != (
    #[trigger] nodes[j]).id@ by {
        let bi = base_of(nodes[i]);
        let bj = base_of(nodes[j]);
        let ci = count_base(nodes.take(i + 1), bi);
        let cj = count_base(nodes.take(j + 1), bj);
        lemma_count_base_take_push(nodes, i, bi);
        lemma_count_base_take_push(nodes, j, bj);
        lemma_base_no_hash(nodes[i].kind, nodes[i].qualified_name@);
        lemma_base_no_hash(nodes[j].kind, nodes[j].qualified_name@);
        if nodes[i].id@ == nodes[j].id@ {
            lemma_make_id_injective(bi, ci, bj, cj);
            lemma_count_base_mono(nodes, i + 1, j, bi);
        }
    }
}

/// Every node of a well-formed builder has an id of its own, as long as no
/// qualified name holds `#`.
pub proof fn lemma_builder_ids_unique(b: &Builder)
    requires
        b.wf(),
        forall|j: int|
            0 <= j < b.view_nodes().len() ==> !(#[trigger] b.view_nodes()[j]).qualified_name@.contains(
                '#',
            ),
    ensures
        forall|i: int, j: int|
            0 <= i < j < b.view_nodes().len() ==> (#[trigger] b.view_nodes()[i]).id@ != (
            #[trigger] b.view_nodes()[j]).id@,
{
    lemma_ids_distinct(b.nodes@);
}

// ---------------------------------------------------------------- builder

impl Builder {
    /// The builder's indexes agree with its nodes.
    pub closed spec fn wf(&self) -> bool {
        &&& ids_wf(self.nodes@)
        &&& forall|q: Seq<char>|
            lookup_str(self.by_qname@, q) == #[trigger] last_id_with_qname(self.nodes@, q)
        &&& forall|n: Seq<char>| lookup_strs(self.by_name@, n) == #[trigger] ids_named(self.nodes@, n)
        &&& forall|b: Seq<char>|
            lookup_count(self.id_counter@, b) == #[trigger] count_base(self.nodes@, b)
    }

    /// The nodes added so far.
    pub closed spec fn view_nodes(&self) -> Seq<Node> {
        self.nodes@
    }

    /// The edges created so far.
    pub closed spec fn view_edges(&self) -> Seq<Edge> {
        self.edges@
    }

    /// The edges waiting for resolution.
    pub closed spec fn view_pending(&self) -> Seq<PendingEdge> {
        self.pending@
    }

    /// The warnings recorded so far.
    pub closed spec fn view_warnings(&self) -> Seq<String> {
        self.warnings@
    }

    /// Create an empty builder.
    pub fn new() -> (b: Self)
        ensures
            b.wf(),
            b.view_nodes().len() == 0,
            b.view_edges().len() == 0,
            b.view_pending().len() == 0,
            b.view_warnings().len() == 0,
    {
        Builder {
            nodes: Vec::new(),
            edges: Vec::new(),
            pending: Vec::new(),
            warnings: Vec::new(),
            by_qname: StringHashMap::new(),
            by_name: StringHashMap::new(),
            id_counter: StringHashMap::new(),
        }
    }

    /// Add a node with all fields pre-computed.
    ///
    /// Generates an id of the form `kind:qualified_name`. If a node with
    /// the same kind and qualified name already exists, a `#N` suffix is
    /// appended to disambiguate.
    ///
    /// Returns the assigned node id.
    pub fn add_node(
        &mut self,
        kind: NodeKind,
        name: &str,
        qualified_name: &str,
        file: Option<&str>,
        start_line: usize,
        end_line: usize,
        visibility: Option<&str>,
        signature: Option<&str>,
        docs: Option<&str>,
    ) -> (id: String)
        requires
            old(self).wf(),
            old(self).view_nodes().len() < usize::MAX,
        ensures
            final(self).wf(),
            final(self).view_nodes().len() == old(self).view_nodes().len() + 1,
            final(self).view_nodes().drop_last() == old(self).view_nodes(),
            id@ == make_id(
                base_id(kind, qualified_name@),
                count_base(old(self).view_nodes(), base_id(kind, qualified_name@)) + 1,
            ),
            ({
                let n = final(self).view_nodes().last();
                &&& n.id@ == id@
                &&& n.kind == kind
                &&& n.name@ == name@
                &&& n.qualified_name@ == qualified_name@
                &&& opt_view(n.file) == opt_str_view(file)
                &&& n.range == Some(Range { start_line, end_line })
                &&& opt_view(n.visibility) == opt_str_view(visibility)
                &&& opt_view(n.signature) == opt_str_view(signature)
                &&& opt_view(n.docs) == opt_str_view(docs)
                &&& n.metrics@.len() == 0
            }),
            final(self).view_edges() == old(self).view_edges(),
            final(self).view_pending() == old(self).view_pending(),
            final(self).view_warnings() == old(self).view_warnings(),
    {
        let mut base = owned(kind.as_str());
        push_str(&mut base, ":");
        push_str(&mut base, qualified_name);
        let ghost b = base@;
        assert(b == base_id(kind, qualified_name@));
        // Track duplicate base ids and append a #N suffix.
        let prev: usize = match self.id_counter.get(base.as_str()) {
            Some(c) => *c,
            None => 0,
        };
        assert(prev == count_base(self.nodes@, b));
        proof {
            lemma_count_base_le(self.nodes@, b);
        }
        let count = prev + 1;
        self.id_counter.insert(owned(base.as_str()), count);
        let id = if count > 1 {
            let mut s = owned(base.as_str());
            push_str(&mut s, "#");
            let digits = decimal_string(count);
            push_str(&mut s, digits.as_str());
            s
        } else {
            owned(base.as_str())
        };
        let node = Node {
            id: owned(id.as_str()),
            kind,
            name: owned(name),
            qualified_name: owned(qualified_name),
            file: match file {
                Some(s) => Some(owned(s)),
                None => None,
            },
            range: Some(Range { start_line, end_line }),
            visibility: match visibility {
                Some(s) => Some(owned(s)),
                None => None,
            },
            signature: match signature {
                Some(s) => Some(owned(s)),
                None => None,
            },
            docs: match docs {
                Some(s) => Some(owned(s)),
                None => None,
            },
            metrics: Vec::new(),
        };
        let ghost old_nodes = self.nodes@;
        self.nodes.push(node);
        // Index by qualified name (latest wins).
        self.by_qname.insert(owned(qualified_name), owned(id.as_str()));
        // Index by short name.
        let ghost old_by_name = self.by_name@;
        let mut ids: Vec<String> = match self.by_name.get(name) {
            Some(v) => clone_strings(v),
            None => Vec::new(),
        };
        let ghost old_ids = ids@.map_values(|s: String| s@);
        assert(old_ids == lookup_strs(old_by_name, name@)) by {
            if !old_by_name.contains_key(name@) {
                assert(old_ids =~= Seq::<Seq<char>>::empty());
            }
        }
        ids.push(owned(id.as_str()));
        assert(ids@.map_values(|s: String| s@) =~= old_ids.push(id@));
        self.by_name.insert(owned(name), ids);
        proof {
            let nodes = self.nodes@;
            assert(nodes.drop_last() =~= old_nodes);
            assert(base_of(nodes.last()) == b);
            assert forall|j: int| 0 <= j < nodes.len() implies (#[trigger] nodes[j]).id@ == make_id(
                base_of(nodes[j]),
                count_base(nodes.take(j + 1), base_of(nodes[j])),
            ) by {
                if j < old_nodes.len() {
                    assert(nodes.take(j + 1) =~= old_nodes.take(j + 1));
                    assert(nodes[j] == old_nodes[j]);
                } else {
                    assert(nodes.take(j + 1) =~= nodes);
                }
            }
            assert forall|q: Seq<char>| lookup_str(self.by_qname@, q) == #[trigger] last_id_with_qname(
                self.nodes@,
                q,
            ) by {
                if q != qualified_name@ {
                    assert(last_id_with_qname(old_nodes, q) == last_id_with_qname(nodes, q));
                }
            }
            assert(old_ids == ids_named(old_nodes, name@));
            assert(nodes.last().name@ == name@);
            assert(ids_named(nodes, name@) == ids_named(old_nodes, name@).push(id@));
            assert forall|n: Seq<char>| lookup_strs(self.by_name@, n) == #[trigger] ids_named(
                self.nodes@,
                n,
            ) by {
                if n != name@ {
                    assert(ids_named(old_nodes, n) == ids_named(nodes, n));
                }
            }
            assert forall|bb: Seq<char>| lookup_count(self.id_counter@, bb) == #[trigger] count_base(
                self.nodes@,
                bb,
            ) by {
                if bb != b {
                    assert(count_base(old_nodes, bb) == count_base(nodes, bb));
                }
            }
        }
        id
    }

    /// Add a symbol node from byte offsets into `source`, converted to line
    /// numbers with [`offset_line`].
    ///
    /// Returns the assigned node id.
    pub fn symbol(
        &mut self,
        kind: NodeKind,
        name: &str,
        qualified_name: &str,
        file: &str,
        source: &str,
        start_offset: usize,
        end_offset: usize,
        visibility: Option<&str>,
        signature: Option<&str>,
        docs: Option<&str>,
    ) -> (id: String)
        requires
            old(self).wf(),
            old(self).view_nodes().len() < usize::MAX,
            source.spec_bytes().len() < usize::MAX,
            start_offset >= source.spec_bytes().len() || is_char_boundary(
                source.spec_bytes(),
                start_offset as int,
            ),
            end_offset >= source.spec_bytes().len() || is_char_boundary(
                source.spec_bytes(),
                end_offset as int,
            ),
        ensures
            final(self).wf(),
            final(self).view_nodes().len() == old(self).view_nodes().len() + 1,
            final(self).view_nodes().drop_last() == old(self).view_nodes(),
            id@ == make_id(
                base_id(kind, qualified_name@),
                count_base(old(self).view_nodes(), base_id(kind, qualified_name@)) + 1,
            ),
            ({
                let n = final(self).view_nodes().last();
                &&& n.id@ == id@
                &&& n.kind == kind
                &&& n.name@ == name@
                &&& n.qualified_name@ == qualified_name@
                &&& n.file == Some(n.file->0) && n.file->0@ == file@
                &&& n.range == Some(
                    Range {
                        start_line: offset_line_spec(source@, start_offset as int) as usize,
                        end_line: offset_line_spec(source@, end_offset as int) as usize,
                    },
                )
                &&& opt_view(n.visibility) == opt_str_view(visibility)
                &&& opt_view(n.signature) == opt_str_view(signature)
                &&& opt_view(n.docs) == opt_str_view(docs)
            }),
            final(self).view_edges() == old(self).view_edges(),
            final(self).view_pending() == old(self).view_pending(),
            final(self).view_warnings() == old(self).view_warnings(),
    {
        let start_line = offset_line(source, start_offset);
        let end_line = offset_line(source, end_offset);
        self.add_node(
            kind,
            name,
            qualified_name,
            Some(file),
            start_line,
            end_line,
            visibility,
            signature,
            docs,
        )
    }

    /// Create an edge between two nodes, with source `Ast`, certainty
    /// `Definite` and weight 1.
    pub fn edge(
        &mut self,
        from_id: &str,
        to_id: &str,
        kind: EdgeKind,
        label: Option<&str>,
        location: Option<Location>,
        call_style: Option<&str>,
    )
        requires
            old(self).wf(),
        ensures
            final(self).wf(),
            final(self).view_edges().len() == old(self).view_edges().len() + 1,
            final(self).view_edges().drop_last() == old(self).view_edges(),
            ({
                let e = final(self).view_edges().last();
                &&& e.from@ == from_id@
                &&& e.to@ == to_id@
                &&& e.kind == kind
                &&& opt_view(e.label) == opt_str_view(label)
                &&& e.evidence == location
                &&& e.weight == 1
                &&& e.source == EdgeSource::Ast
                &&& e.certainty == EdgeCertainty::Definite
                &&& opt_view(e.call_style) == opt_str_view(call_style)
            }),
            final(self).view_nodes() == old(self).view_nodes(),
            final(self).view_pending() == old(self).view_pending(),
            final(self).view_warnings() == old(self).view_warnings(),
    {
        self.edge_with_source(
            from_id,
            to_id,
            kind,
            label,
            location,
            EdgeSource::Ast,
            EdgeCertainty::Definite,
            call_style,
        );
    }

    /// Create an edge with the given source and certainty, weight 1.
    pub fn edge_with_source(
        &mut self,
        from_id: &str,
        to_id: &str,
        kind: EdgeKind,
        label: Option<&str>,
        location: Option<Location>,
        source: EdgeSource,
        certainty: EdgeCertainty,
        call_style: Option<&str>,
    )
        requires
            old(self).wf(),
        ensures
            final(self).wf(),
            final(self).view_edges().len() == old(self).view_edges().len() + 1,
            final(self).view_edges().drop_last() == old(self).view_edges(),
            ({
                let e = final(self).view_edges().last();
                &&& e.from@ == from_id@
                &&& e.to@ == to_id@
                &&& e.kind == kind
                &&& opt_view(e.label) == opt_str_view(label)
                &&& e.evidence == location
                &&& e.weight == 1
                &&& e.source == source
                &&& e.certainty == certainty
                &&& opt_view(e.call_style) == opt_str_view(call_style)
            }),
            final(self).view_nodes() == old(self).view_nodes(),
            final(self).view_pending() == old(self).view_pending(),
            final(self).view_warnings() == old(self).view_warnings(),
    {
        let edge = Edge {
            from: owned(from_id),
            to: owned(to_id),
            kind,
            label: match label {
                Some(s) => Some(owned(s)),
                None => None,
            },
            evidence: location,
            weight: 1,
            source,
            certainty,
            call_style: match call_style {
                Some(s) => Some(owned(s)),
                None => None,
            },
        };
        let ghost old_edges = self.edges@;
        self.edges.push(edge);
        assert(self.edges@.drop_last() =~= old_edges);
    }

    /// Register a pending edge whose target will be resolved later.
    pub fn add_pending(
        &mut self,
        from_id: &str,
        to_name: &str,
        kind: EdgeKind,
        location: Option<Location>,
        call_style: Option<&str>,
    )
        requires
            old(self).wf(),
        ensures
            final(self).wf(),
            final(self).view_pending().len() == old(self).view_pending().len() + 1,
            final(self).view_pending().drop_last() == old(self).view_pending(),
            ({
                let p = final(self).view_pending().last();
                &&& p.from@ == from_id@
                &&& p.to_name@ == to_name@
                &&& p.kind == kind
                &&& p.location == location
                &&& opt_view(p.call_style) == opt_str_view(call_style)
            }),
            final(self).view_nodes() == old(self).view_nodes(),
            final(self).view_edges() == old(self).view_edges(),
            final(self).view_warnings() == old(self).view_warnings(),
    {
        let ghost old_p = self.pending@;
        self.pending.push(
            PendingEdge {
                from: owned(from_id),
                to_name: owned(to_name),
                kind,
                location,
                call_style: match call_style {
                    Some(s) => Some(owned(s)),
                    None => None,
                },
            },
        );
        assert(self.pending@.drop_last() =~= old_p);
    }

    /// Resolve all pending edges.
    ///
    /// For each pending edge:
    /// - if the target name is a qualified name, create the edge (inferred);
    /// - else if it is the short name of exactly one node, create the edge
    ///   (possible);
    /// - if it is the short name of several nodes, skip it with a warning;
    /// - if not found, skip it silently.
    ///
    /// Clears the pending list when done.
    pub fn resolve_pending(&mut self)
        requires
            old(self).wf(),
        ensures
            final(self).wf(),
            final(self).view_pending().len() == 0,
            final(self).view_nodes() == old(self).view_nodes(),
            ({
                let r = resolved(old(self).view_nodes(), old(self).view_pending());
                &&& final(self).view_edges().len() == old(self).view_edges().len() + r.len()
                &&& final(self).view_edges().subrange(0, old(self).view_edges().len() as int)
                    == old(self).view_edges()
                &&& forall|k: int|
                    0 <= k < r.len() ==> edge_of_pending(
                        #[trigger] final(self).view_edges()[old(self).view_edges().len() + k],
                        r[k].0,
                        r[k].1,
                        r[k].2,
                    )
            }),
            final(self).view_warnings().map_values(|w: String| w@) == old(self).view_warnings().map_values(|w: String| w@) + ambiguity_warnings(
                old(self).view_nodes(),
                old(self).view_pending(),
            ),
    {
        let mut pending: Vec<PendingEdge> = Vec::new();
        std::mem::swap(&mut pending, &mut self.pending);
        let ghost nodes = self.nodes@;
        let ghost e0 = self.edges@;
        let ghost w0 = self.warnings@.map_values(|w: String| w@);
        let mut i: usize = 0;
        while i < pending.len()
            invariant
                self.wf(),
                self.nodes@ == nodes,
                self.pending@.len() == 0,
                0 <= i <= pending.len(),
                ({
                    let r = resolved(nodes, pending@.take(i as int));
                    &&& self.edges@.len() == e0.len() + r.len()
                    &&& self.edges@.subrange(0, e0.len() as int) == e0
                    &&& forall|k: int|
                        0 <= k < r.len() ==> edge_of_pending(
                            #[trigger] self.edges@[e0.len() + k],
                            r[k].0,
                            r[k].1,
                            r[k].2,
                        )
                }),
                self.warnings@.map_values(|w: String| w@) == w0 + ambiguity_warnings(
                    nodes,
                    pending@.take(i as int),
                ),
            decreases pending.len() - i,
        {
            let pe = &pending[i];
            let ghost pre = pending@.take(i as int);
            let ghost post = pending@.take(i + 1);
            assert(post.drop_last() =~= pre);
            assert(post.last() == *pe);
            let ghost r0 = resolved(nodes, pre);
            let ghost old_edges = self.edges@;
            let ghost old_w = self.warnings@;
            // Exact qualified-name lookup first.
            let by_q: Option<String> = match self.by_qname.get(pe.to_name.as_str()) {
                Some(id) => Some(owned(id.as_str())),
                None => None,
            };
            match by_q {
                Some(to_id) => {
                    assert(last_id_with_qname(nodes, pe.to_name@) == Some(to_id@));
                    self.push_resolved(pe, to_id.as_str(), EdgeCertainty::Inferred);
                    proof {
                        assert(resolve_name(nodes, pe.to_name@) == Resolution::Target(to_id@, EdgeCertainty::Inferred));
                        assert(resolved(nodes, post) == r0.push((*pe, to_id@, EdgeCertainty::Inferred)));
                        assert(ambiguity_warnings(nodes, post) == ambiguity_warnings(nodes, pre));
                        lemma_edges_extended(old_edges, self.edges@, e0, r0, (*pe, to_id@, EdgeCertainty::Inferred));
                    }
                },
                None => {
                    // Then short-name lookup.
                    let ids: Vec<String> = match self.by_name.get(pe.to_name.as_str()) {
                        Some(v) => clone_strings(v),
                        None => Vec::new(),
                    };
                    assert(last_id_with_qname(nodes, pe.to_name@) is None);
                    assert(ids@.map_values(|s: String| s@) == ids_named(nodes, pe.to_name@)) by {
                        if !self.by_name@.contains_key(pe.to_name@) {
                            assert(ids@.map_values(|s: String| s@) =~= Seq::<Seq<char>>::empty());
                        }
                    }
                    if ids.len() == 1 {
                        self.push_resolved(pe, ids[0].as_str(), EdgeCertainty::Possible);
                        proof {
                            assert(ids@.map_values(|s: String| s@)[0] == ids@[0]@);
                            assert(resolve_name(nodes, pe.to_name@) == Resolution::Target(ids@[0]@, EdgeCertainty::Possible));
                            assert(resolved(nodes, post) == r0.push((*pe, ids@[0]@, EdgeCertainty::Possible)));
                            assert(ambiguity_warnings(nodes, post) == ambiguity_warnings(nodes, pre));
                            lemma_edges_extended(old_edges, self.edges@, e0, r0, (*pe, ids@[0]@, EdgeCertainty::Possible));
                        }
                    } else if ids.len() > 1 {
                        let mut w = owned("ambiguous target '");
                        push_str(&mut w, pe.to_name.as_str());
                        push_str(&mut w, "' matches ");
                        let n = decimal_string(ids.len());
                        push_str(&mut w, n.as_str());
                        push_str(&mut w, " nodes — skipped");
                        self.warnings.push(w);
                        proof {
                            assert(self.warnings@.map_values(|x: String| x@) =~= old_w.map_values(|x: String| x@).push(w@));
                            assert(resolve_name(nodes, pe.to_name@) == Resolution::Ambiguous(ids.len() as nat));
                            assert(w@ =~= ambiguity_warning(pe.to_name@, ids.len() as nat));
                            assert(resolved(nodes, post) == r0);
                            assert(ambiguity_warnings(nodes, post) == ambiguity_warnings(nodes, pre).push(w@));
                        }
                    } else {
                        proof {
                            assert(resolve_name(nodes, pe.to_name@) == Resolution::Missing);
                            assert(resolved(nodes, post) == r0);
                            assert(ambiguity_warnings(nodes, post) == ambiguity_warnings(nodes, pre));
                        }
                    }
                }
            }
            i = i + 1;
        }
        assert(pending@.take(pending.len() as int) =~= pending@);
    }

    /// Append the edge a pending edge resolves to.
    fn push_resolved(&mut self, pe: &PendingEdge, to_id: &str, certainty: EdgeCertainty)
        requires
            old(self).wf(),
        ensures
            final(self).wf(),
            final(self).view_edges().len() == old(self).view_edges().len() + 1,
            final(self).view_edges().drop_last() == old(self).view_edges(),
            edge_of_pending(final(self).view_edges().last(), *pe, to_id@, certainty),
            final(self).view_nodes() == old(self).view_nodes(),
            final(self).view_pending() == old(self).view_pending(),
            final(self).view_warnings() == old(self).view_warnings(),
    {
        let location = clone_location(&pe.location);
        let call_style: Option<&str> = match &pe.call_style {
            Some(s) => Some(s.as_str()),
            None => None,
        };
        self.edge_with_source(
            pe.from.as_str(),
            to_id,
            pe.kind,
            None,
            location,
            EdgeSource::Ast,
            certainty,
            call_style,
        );
    }

    /// Look up a node id by qualified name: the latest node with that name.
    pub fn find_node_id(&self, qualified_name: &str) -> (r: Option<&String>)
        requires
            self.wf(),
        ensures
            match r {
                Some(id) => last_id_with_qname(self.view_nodes(), qualified_name@) == Some(id@),
                None => last_id_with_qname(self.view_nodes(), qualified_name@) is None,
            },
    {
        assert(lookup_str(self.by_qname@, qualified_name@) == last_id_with_qname(self.nodes@, qualified_name@));
        self.by_qname.get(qualified_name)
    }

    /// Record a warning.
    pub fn warn(&mut self, warning: String)
        requires
            old(self).wf(),
        ensures
            final(self).wf(),
            final(self).view_warnings() == old(self).view_warnings().push(warning),
            final(self).view_nodes() == old(self).view_nodes(),
            final(self).view_edges() == old(self).view_edges(),
            final(self).view_pending() == old(self).view_pending(),
    {
        self.warnings.push(warning);
    }

    /// The nodes, edges and warnings collected, in order.
    pub fn finish(self) -> (r: (Vec<Node>, Vec<Edge>, Vec<String>))
        ensures
            r.0@ == self.view_nodes(),
            r.1@ == self.view_edges(),
            r.2@ == self.view_warnings(),
    {
        (self.nodes, self.edges, self.warnings)
    }

    /// The number of nodes added so far.
    pub fn node_count(&self) -> (n: usize)
        ensures
            n == self.view_nodes().len(),
    {
        self.nodes.len()
    }

    /// Replace the metrics of a node.
    pub fn set_metrics(&mut self, index: usize, metrics: Vec<(String, usize)>)
        requires
            old(self).wf(),
            index < old(self).view_nodes().len(),
        ensures
            final(self).wf(),
            final(self).view_nodes() == old(self).view_nodes().update(
                index as int,
                Node { metrics, ..old(self).view_nodes()[index as int] },
            ),
            final(self).view_edges() == old(self).view_edges(),
            final(self).view_pending() == old(self).view_pending(),
            final(self).view_warnings() == old(self).view_warnings(),
    {
        let ghost old_nodes = self.nodes@;
        let mut node = self.nodes.remove(index);
        node.metrics = metrics;
        self.nodes.insert(index, node);
        proof {
            let nodes = self.nodes@;
            assert(nodes =~= old_nodes.update(index as int, Node { metrics, ..old_nodes[index as int] }));
            assert forall|j: int| 0 <= j < old_nodes.len() implies old_nodes[j].id == nodes[j].id
                && old_nodes[j].kind == nodes[j].kind && old_nodes[j].name == nodes[j].name
                && old_nodes[j].qualified_name == nodes[j].qualified_name by {
                if j != index {
                    assert(nodes[j] == old_nodes[j]);
                }
            }
            lemma_same_keys_same_indexes(old_nodes, nodes);
            assert forall|q: Seq<char>| lookup_str(self.by_qname@, q) == #[trigger] last_id_with_qname(
                self.nodes@,
                q,
            ) by {
                assert(last_id_with_qname(old_nodes, q) == last_id_with_qname(nodes, q));
            }
            assert forall|n: Seq<char>| lookup_strs(self.by_name@, n) == #[trigger] ids_named(
                self.nodes@,
                n,
            ) by {
                assert(ids_named(old_nodes, n) == ids_named(nodes, n));
            }
            assert forall|bb: Seq<char>| lookup_count(self.id_counter@, bb) == #[trigger] count_base(
                self.nodes@,
                bb,
            ) by {
                assert(count_base(old_nodes, bb) == count_base(nodes, bb));
            }
        }
    }
}

/// Two node sequences that differ only outside ids, kinds and names have
/// the same derived indexes.
proof fn lemma_same_keys_same_indexes(a: Seq<Node>, b: Seq<Node>)
    requires
        a.len() == b.len(),
        forall|j: int|
            0 <= j < a.len() ==> a[j].id == b[j].id && a[j].kind == b[j].kind && a[j].name
                == b[j].name && a[j].qualified_name == b[j].qualified_name,
    ensures
        forall|q: Seq<char>| #[trigger] last_id_with_qname(a, q) == last_id_with_qname(b, q),
        forall|n: Seq<char>| #[trigger] ids_named(a, n) == ids_named(b, n),
        forall|x: Seq<char>| #[trigger] count_base(a, x) == count_base(b, x),
        forall|j: int, x: Seq<char>|
            0 <= j <= a.len() ==> #[trigger] count_base(a.take(j), x) == count_base(b.take(j), x),
        ids_wf(a) ==> ids_wf(b),
    decreases a.len(),
{
    if a.len() > 0 {
        let a0 = a.drop_last();
        let b0 = b.drop_last();
        assert forall|j: int| 0 <= j < a0.len() implies a0[j].id == b0[j].id && a0[j].kind
            == b0[j].kind && a0[j].name == b0[j].name && a0[j].qualified_name
            == b0[j].qualified_name by {
            assert(a0[j] == a[j] && b0[j] == b[j]);
        }
        lemma_same_keys_same_indexes(a0, b0);
        let la = a[a.len() - 1];
        let lb = b[b.len() - 1];
        assert(la.id == lb.id && la.kind == lb.kind && la.name == lb.name && la.qualified_name
            == lb.qualified_name);
        assert(a.last() == la && b.last() == lb);
        assert forall|q: Seq<char>| #[trigger] last_id_with_qname(a, q) == last_id_with_qname(b, q) by {
            assert(last_id_with_qname(a0, q) == last_id_with_qname(b0, q));
        }
        assert forall|n: Seq<char>| #[trigger] ids_named(a, n) == ids_named(b, n) by {
            assert(ids_named(a0, n) == ids_named(b0, n));
        }
        assert forall|x: Seq<char>| #[trigger] count_base(a, x) == count_base(b, x) by {
            assert(count_base(a0, x) == count_base(b0, x));
            assert(base_of(la) == base_of(lb));
        }
        assert forall|j: int, x: Seq<char>|
            0 <= j <= a.len() implies #[trigger] count_base(a.take(j), x) == count_base(b.take(j), x) by {
            if j == a.len() {
                assert(a.take(j) =~= a);
                assert(b.take(j) =~= b);
                assert(count_base(a, x) == count_base(b, x));
            } else {
                assert(a.take(j) =~= a0.take(j));
                assert(b.take(j) =~= b0.take(j));
                assert(count_base(a0.take(j), x) == count_base(b0.take(j), x));
            }
        }
        if ids_wf(a) {
            assert forall|j: int| 0 <= j < b.len() implies (#[trigger] b[j]).id@ == make_id(
                base_of(b[j]),
                count_base(b.take(j + 1), base_of(b[j])),
            ) by {
                assert(a[j].id@ == make_id(base_of(a[j]), count_base(a.take(j + 1), base_of(a[j]))));
                assert(base_of(a[j]) == base_of(b[j]));
                assert(count_base(a.take(j + 1), base_of(a[j])) == count_base(b.take(j + 1), base_of(a[j])));
            }
        }
    } else {
        assert forall|j: int, x: Seq<char>|
            0 <= j <= a.len() implies #[trigger] count_base(a.take(j), x) == count_base(b.take(j), x) by {
            assert(a.take(j) =~= a);
            assert(b.take(j) =~= b);
        }
    }
}

proof fn lemma_edges_extended(
    old_edges: Seq<Edge>,
    edges: Seq<Edge>,
    e0: Seq<Edge>,
    r0: Seq<(PendingEdge, Seq<char>, EdgeCertainty)>,
    x: (PendingEdge, Seq<char>, EdgeCertainty),
)
    requires
        old_edges.len() == e0.len() + r0.len(),
        old_edges.subrange(0, e0.len() as int) == e0,
        forall|k: int|
            0 <= k < r0.len() ==> edge_of_pending(
                #[trigger] old_edges[e0.len() + k],
                r0[k].0,
                r0[k].1,
                r0[k].2,
            ),
        edges.len() == old_edges.len() + 1,
        edges.drop_last() == old_edges,
        edge_of_pending(edges.last(), x.0, x.1, x.2),
    ensures
        ({
            let r = r0.push(x);
            &&& edges.len() == e0.len() + r.len()
            &&& edges.subrange(0, e0.len() as int) == e0
            &&& forall|k: int|
                0 <= k < r.len() ==> edge_of_pending(
                    #[trigger] edges[e0.len() + k],
                    r[k].0,
                    r[k].1,
                    r[k].2,
                )
        }),
{
    let r = r0.push(x);
    assert(edges.subrange(0, e0.len() as int) =~= old_edges.subrange(0, e0.len() as int));
    assert forall|k: int| 0 <= k < r.len() implies edge_of_pending(
        #[trigger] edges[e0.len() + k],
        r[k].0,
        r[k].1,
        r[k].2,
    ) by {
        if k < r0.len() {
            assert(edges[e0.len() + k] == old_edges[e0.len() + k]);
            assert(r[k] == r0[k]);
        } else {
            assert(edges[e0.len() + k] == edges.last());
        }
    }
}

/// A copy of a list of strings.
fn clone_strings(v: &Vec<String>) -> (r: Vec<String>)
    ensures
        r@.map_values(|s: String| s@) == v@.map_values(|s: String| s@),
{
    let mut r: Vec<String> = Vec::new();
    let mut i: usize = 0;
    while i < v.len()
        invariant
            0 <= i <= v.len(),
            r@.map_values(|s: String| s@) == v@.subrange(0, i as int).map_values(|s: String| s@),
        decreases v.len() - i,
    {
        let ghost old_r = r@;
        let x = owned(v[i].as_str());
        r.push(x);
        assert(v@.subrange(0, i + 1) =~= v@.subrange(0, i as int).push(v@[i as int]));
        assert(r@.map_values(|s: String| s@) =~= old_r.map_values(|s: String| s@).push(x@));
        assert(v@.subrange(0, i + 1).map_values(|s: String| s@) =~= v@.subrange(0, i as int).map_values(|s: String| s@).push(v@[i as int]@));
        i = i + 1;
    }
    assert(v@.subrange(0, v.len() as int) =~= v@);
    r
}

/// A copy of an optional location.
pub fn clone_location(l: &Option<Location>) -> (r: Option<Location>)
    ensures
        loc_view(r) == loc_view(*l),
{
    match l {
        Some(l) => Some(Location { file: owned(l.file.as_str()), line: l.line }),
        None => None,
    }
}

} // verus!
