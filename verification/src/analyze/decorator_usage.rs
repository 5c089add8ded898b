//! Decorator usage: how often each decorator is applied, in which files, to
//! which symbols, and which decorators are the project's own.

use vstd::prelude::*;
use crate::model::{CodeGraph, Edge, EdgeKind, Node, NodeKind, views};
use crate::query::index::{
    QueryIndex, last_with_id, lemma_last_with_id, lemma_positions_at, positions_at, total_weight,
};
use crate::sorting::{
    add_texts, by_key_then_name, min_count, seq_lt, sort_texts, sorted_positions, sorted_set,
    top_desc_by_name,
};
use crate::text::{concat2, owned, seq_starts_with, starts_with, str_eq};

verus! {

/// The name a decorator node is counted under: its qualified name, or its
/// name when that is empty.
pub open spec fn deco_key(n: Node) -> Seq<char> {
    if n.qualified_name@.len() > 0 {
        n.qualified_name@
    } else {
        n.name@
    }
}

/// The distinct decorator names of the first `k` nodes, first seen first.
pub open spec fn deco_keys(nodes: Seq<Node>, k: int) -> Seq<Seq<char>>
    decreases k,
{
    if k <= 0 || k > nodes.len() {
        Seq::empty()
    } else {
        let prev = deco_keys(nodes, k - 1);
        let n = nodes[k - 1];
        if n.kind == NodeKind::Decorator && !prev.contains(deco_key(n)) {
            prev.push(deco_key(n))
        } else {
            prev
        }
    }
}

/// How many of the first `k` nodes are decorators counted under `key`.
pub open spec fn deco_count(nodes: Seq<Node>, key: Seq<char>, k: int) -> nat
    decreases k,
{
    if k <= 0 || k > nodes.len() {
        0
    } else {
        deco_count(nodes, key, k - 1) + if nodes[k - 1].kind == NodeKind::Decorator && deco_key(
            nodes[k - 1],
        ) == key {
            1nat
        } else {
            0nat
        }
    }
}

/// How many of the first `k` nodes are decorators.
pub open spec fn deco_total(nodes: Seq<Node>, k: int) -> nat
    decreases k,
{
    if k <= 0 || k > nodes.len() {
        0
    } else {
        deco_total(nodes, k - 1) + if nodes[k - 1].kind == NodeKind::Decorator {
            1nat
        } else {
            0nat
        }
    }
}

/// The files named by the declaring edges `ps[..k]` into a decorator: the
/// declaring node's file, or its name when it has no file (and a name).
pub open spec fn declaring_files(nodes: Seq<Node>, edges: Seq<Edge>, ps: Seq<usize>, k: int) -> Seq<Seq<char>>
    decreases k,
{
    if k <= 0 || k > ps.len() {
        Seq::empty()
    } else {
        let prev = declaring_files(nodes, edges, ps, k - 1);
        let e = edges[ps[k - 1] as int];
        let i = last_with_id(nodes, e.from@);
        if e.kind == EdgeKind::Declares && 0 <= i < nodes.len() {
            match nodes[i].file {
                Some(f) => prev.push(f@),
                None => if nodes[i].name@.len() > 0 {
                    prev.push(nodes[i].name@)
                } else {
                    prev
                },
            }
        } else {
            prev
        }
    }
}

/// The files of one decorator node: those its declaring edges name, or
/// else its own file.
pub open spec fn node_files(nodes: Seq<Node>, edges: Seq<Edge>, n: Node) -> Seq<Seq<char>> {
    let ps = positions_at(edges, n.id@, false);
    let fs = declaring_files(nodes, edges, ps, ps.len() as int);
    if fs.len() > 0 {
        fs
    } else {
        match n.file {
            Some(f) => seq![f@],
            None => Seq::empty(),
        }
    }
}

/// The qualified names of the targets of the decorating edges `ps[..k]`.
pub open spec fn decorated(nodes: Seq<Node>, edges: Seq<Edge>, ps: Seq<usize>, k: int) -> Seq<Seq<char>>
    decreases k,
{
    if k <= 0 || k > ps.len() {
        Seq::empty()
    } else {
        let prev = decorated(nodes, edges, ps, k - 1);
        let e = edges[ps[k - 1] as int];
        let i = last_with_id(nodes, e.to@);
        if e.kind == EdgeKind::Decorates && 0 <= i < nodes.len() {
            prev.push(nodes[i].qualified_name@)
        } else {
            prev
        }
    }
}

/// The targets of one decorator node.
pub open spec fn node_targets(nodes: Seq<Node>, edges: Seq<Edge>, n: Node) -> Seq<Seq<char>> {
    let ps = positions_at(edges, n.id@, true);
    decorated(nodes, edges, ps, ps.len() as int)
}

/// The files of the first `k` decorators counted under `key`.
pub open spec fn deco_files(nodes: Seq<Node>, edges: Seq<Edge>, key: Seq<char>, k: int) -> Set<Seq<char>>
    decreases k,
{
    if k <= 0 || k > nodes.len() {
        Set::empty()
    } else {
        let prev = deco_files(nodes, edges, key, k - 1);
        let n = nodes[k - 1];
        if n.kind == NodeKind::Decorator && deco_key(n) == key {
            prev.union(node_files(nodes, edges, n).to_set())
        } else {
            prev
        }
    }
}

/// The targets of the first `k` decorators counted under `key`.
pub open spec fn deco_targets(nodes: Seq<Node>, edges: Seq<Edge>, key: Seq<char>, k: int) -> Set<Seq<char>>
    decreases k,
{
    if k <= 0 || k > nodes.len() {
        Set::empty()
    } else {
        let prev = deco_targets(nodes, edges, key, k - 1);
        let n = nodes[k - 1];
        if n.kind == NodeKind::Decorator && deco_key(n) == key {
            prev.union(node_targets(nodes, edges, n).to_set())
        } else {
            prev
        }
    }
}

/// The prefixes of decorators that come with Python or common libraries.
pub open spec fn common_prefixes() -> Seq<Seq<char>> {
    seq![
        "property"@,
        "staticmethod"@,
        "classmethod"@,
        "abc.abstractmethod"@,
        "typing."@,
        "dataclasses."@,
        "functools."@,
        "contextlib."@,
        "pytest."@,
        "unittest.mock."@,
        "django."@,
        "flask."@,
        "fastapi."@,
    ]
}

/// Whether a decorator is the project's own: its name starts with none of
/// the common prefixes.
pub open spec fn is_custom(name: Seq<char>) -> bool {
    forall|k: int| 0 <= k < common_prefixes().len() ==> !seq_starts_with(name, #[trigger] common_prefixes()[k])
}

fn custom_decorator_name(name: &str) -> (r: bool)
    ensures
        r == is_custom(name@),
{
    proof {
        reveal_strlit("property");
        reveal_strlit("staticmethod");
        reveal_strlit("classmethod");
        reveal_strlit("abc.abstractmethod");
        reveal_strlit("typing.");
        reveal_strlit("dataclasses.");
        reveal_strlit("functools.");
        reveal_strlit("contextlib.");
        reveal_strlit("pytest.");
        reveal_strlit("unittest.mock.");
        reveal_strlit("django.");
        reveal_strlit("flask.");
        reveal_strlit("fastapi.");
    }
    let prefixes = vec![
        "property",
        "staticmethod",
        "classmethod",
        "abc.abstractmethod",
        "typing.",
        "dataclasses.",
        "functools.",
        "contextlib.",
        "pytest.",
        "unittest.mock.",
        "django.",
        "flask.",
        "fastapi.",
    ];
    assert(prefixes@.map_values(|s: &str| s@) =~= common_prefixes());
    let mut k: usize = 0;
    while k < prefixes.len()
        invariant
            k <= prefixes@.len(),
            prefixes@.map_values(|s: &str| s@) == common_prefixes(),
            forall|j: int| 0 <= j < k ==> !seq_starts_with(name@, #[trigger] common_prefixes()[j]),
        decreases prefixes@.len() - k,
    {
        assert(prefixes@[k as int]@ == common_prefixes()[k as int]);
        if starts_with(name, prefixes[k]) {
            return false;
        }
        k = k + 1;
    }
    true
}

/// One decorator as listed: `@name`, how often it is applied, its files
/// and targets in order.
pub struct DecoratorView {
    pub name: String,
    pub count: usize,
    pub files: Vec<String>,
    pub targets: Vec<String>,
}

/// A decorator of the project's own: `@name`, the first of its files, and
/// how often it is applied.
pub struct CustomDecorator {
    pub name: String,
    pub defined_in: Option<String>,
    pub usage_count: usize,
}

/// The decorator report.
pub struct DecoratorUsage {
    pub decorators: Vec<DecoratorView>,
    pub custom: Vec<CustomDecorator>,
    pub total_decorators: usize,
    pub total_applications: usize,
}

/// The names, among the decorators at positions `order[..k]`, that are the
/// project's own, in that order.
pub open spec fn custom_keys(keys: Seq<Seq<char>>, order: Seq<usize>, k: int) -> Seq<Seq<char>>
    decreases k,
{
    if k <= 0 || k > order.len() {
        Seq::empty()
    } else {
        let prev = custom_keys(keys, order, k - 1);
        let key = keys[order[k - 1] as int];
        if is_custom(key) {
            prev.push(key)
        } else {
            prev
        }
    }
}

/// `d` is the first of the texts of `s` (in the order of `seq_lt`), or
/// nothing when `s` is empty.
pub open spec fn first_of(s: Set<Seq<char>>, d: Option<String>) -> bool {
    match d {
        None => s == Set::<Seq<char>>::empty(),
        Some(f) => s.contains(f@) && forall|g: Seq<char>| #[trigger] s.contains(g) && g != f@ ==> seq_lt(f@, g),
    }
}

/// `c` lists the decorator counted under `key`.
pub open spec fn custom_entry(c: CustomDecorator, key: Seq<char>, nodes: Seq<Node>, edges: Seq<Edge>) -> bool {
    let n = nodes.len() as int;
    &&& c.name@ == "@"@ + key
    &&& c.usage_count == deco_count(nodes, key, n)
    &&& first_of(deco_files(nodes, edges, key, n), c.defined_in)
}

/// `custom` lists the first `limit` of the project's own decorators among
/// those at positions `order[..k]`.
pub open spec fn custom_prefix(
    custom: Seq<CustomDecorator>,
    keys: Seq<Seq<char>>,
    order: Seq<usize>,
    k: int,
    nodes: Seq<Node>,
    edges: Seq<Edge>,
    limit: nat,
) -> bool {
    let ck = custom_keys(keys, order, k);
    &&& custom.len() == min_count(ck.len(), limit)
    &&& forall|t: int| 0 <= t < custom.len() ==> custom_entry(#[trigger] custom[t], ck[t], nodes, edges)
}

/// `custom` lists the first `limit` of the project's own decorators, in
/// the order `order`.
pub open spec fn custom_listed(
    custom: Seq<CustomDecorator>,
    keys: Seq<Seq<char>>,
    order: Seq<usize>,
    nodes: Seq<Node>,
    edges: Seq<Edge>,
    limit: nat,
) -> bool {
    custom_prefix(custom, keys, order, order.len() as int, nodes, edges, limit)
}

proof fn lemma_custom_keys_len(keys: Seq<Seq<char>>, order: Seq<usize>, k: int)
    requires
        0 <= k <= order.len(),
    ensures
        custom_keys(keys, order, k).len() <= k,
    decreases k,
{
    if k > 0 {
        lemma_custom_keys_len(keys, order, k - 1);
    }
}

proof fn lemma_first_of_sorted(v: Seq<String>, s: Set<Seq<char>>)
    requires
        sorted_set(v, s),
    ensures
        v.len() == 0 ==> first_of(s, None),
        v.len() > 0 ==> forall|d: String| d@ == v[0]@ ==> first_of(s, Some(d)),
{
    if v.len() == 0 {
        assert(views(v).to_set() =~= Set::<Seq<char>>::empty());
    } else {
        assert(views(v)[0] == v[0]@);
        assert forall|g: Seq<char>| #[trigger] s.contains(g) && g != v[0]@ implies seq_lt(v[0]@, g) by {
            let t = choose|t: int| 0 <= t < views(v).len() && views(v)[t] == g;
            assert(views(v)[t] == v[t]@);
            assert(t != 0);
        }
    }
}

/// The files of decorator node `n`, with repeats.
fn files_of(index: &QueryIndex, n: &Node) -> (r: Vec<String>)
    requires
        index.wf(),
    ensures
        views(r@) == node_files(index.node_seq(), index.edge_seq(), *n),
{
    let graph = index.graph();
    let ghost nodes = graph.nodes@;
    let ghost edges = graph.edges@;
    let ne = graph.edges.len();
    let ps = index.edges(n.id.as_str(), false);
    proof {
        lemma_positions_at(edges, n.id@, false);
    }
    let mut r: Vec<String> = Vec::new();
    let mut k: usize = 0;
    while k < ps.len()
        invariant
            index.wf(),
            nodes == index.node_seq(),
            edges == index.edge_seq(),
            graph.nodes@ == nodes,
            graph.edges@ == edges,
            k <= ps@.len(),
            forall|t: int| 0 <= t < ps@.len() ==> #[trigger] ps@[t] < edges.len(),
            views(r@) == declaring_files(nodes, edges, ps@, k as int),
        decreases ps@.len() - k,
    {
        let e = &graph.edges[ps[k]];
        proof {
            lemma_last_with_id(nodes, e.from@);
        }
        if e.kind == EdgeKind::Declares {
            match index.node_index(e.from.as_str()) {
                Some(i) => {
                    let parent = &graph.nodes[i];
                    let ghost before = views(r@);
                    match &parent.file {
                        Some(f) => {
                            r.push(owned(f.as_str()));
                            assert(views(r@) =~= before.push(f@));
                        },
                        None => {
                            if parent.name.as_str().unicode_len() > 0 {
                                r.push(owned(parent.name.as_str()));
                                assert(views(r@) =~= before.push(parent.name@));
                            }
                        },
                    }
                },
                None => {},
            }
        }
        k = k + 1;
    }
    if r.len() == 0 {
        match &n.file {
            Some(f) => {
                r.push(owned(f.as_str()));
                assert(views(r@) =~= seq![f@]);
            },
            None => {},
        }
    }
    r
}

/// The targets of decorator node `n`, with repeats.
fn targets_of(index: &QueryIndex, n: &Node) -> (r: Vec<String>)
    requires
        index.wf(),
    ensures
        views(r@) == node_targets(index.node_seq(), index.edge_seq(), *n),
{
    let graph = index.graph();
    let ghost nodes = graph.nodes@;
    let ghost edges = graph.edges@;
    let ne = graph.edges.len();
    let ps = index.edges(n.id.as_str(), true);
    proof {
        lemma_positions_at(edges, n.id@, true);
    }
    let mut r: Vec<String> = Vec::new();
    let mut k: usize = 0;
    while k < ps.len()
        invariant
            index.wf(),
            nodes == index.node_seq(),
            edges == index.edge_seq(),
            graph.nodes@ == nodes,
            graph.edges@ == edges,
            k <= ps@.len(),
            forall|t: int| 0 <= t < ps@.len() ==> #[trigger] ps@[t] < edges.len(),
            views(r@) == decorated(nodes, edges, ps@, k as int),
        decreases ps@.len() - k,
    {
        let e = &graph.edges[ps[k]];
        proof {
            lemma_last_with_id(nodes, e.to@);
        }
        if e.kind == EdgeKind::Decorates {
            match index.node_index(e.to.as_str()) {
                Some(i) => {
                    let ghost before = views(r@);
                    r.push(owned(graph.nodes[i].qualified_name.as_str()));
                    assert(views(r@) =~= before.push(nodes[i as int].qualified_name@));
                },
                None => {},
            }
        }
        k = k + 1;
    }
    r
}

proof fn lemma_deco_facts(nodes: Seq<Node>, edges: Seq<Edge>, key: Seq<char>, k: int)
    requires
        0 <= k <= nodes.len(),
    ensures
        deco_keys(nodes, k).no_duplicates(),
        deco_count(nodes, key, k) <= k,
        !deco_keys(nodes, k).contains(key) ==> deco_count(nodes, key, k) == 0 && deco_files(
            nodes,
            edges,
            key,
            k,
        ) == Set::<Seq<char>>::empty() && deco_targets(nodes, edges, key, k) == Set::<Seq<char>>::empty(),
    decreases k,
{
    if k > 0 {
        lemma_deco_facts(nodes, edges, key, k - 1);
        let n = nodes[k - 1];
        let prev = deco_keys(nodes, k - 1);
        if n.kind == NodeKind::Decorator && !prev.contains(deco_key(n)) {
            assert(deco_keys(nodes, k).last() == deco_key(n));
        }
        if prev.contains(key) {
            let w = choose|w: int| 0 <= w < prev.len() && #[trigger] prev[w] == key;
            assert(deco_keys(nodes, k)[w] == key);
        }
        if n.kind == NodeKind::Decorator && deco_key(n) == key && !prev.contains(key) {
            assert(deco_keys(nodes, k).last() == key);
        }
    }
}

/// The counts, among the first `k` nodes, of the names `keys[..m]`, added
/// up.
pub open spec fn counts_sum(nodes: Seq<Node>, keys: Seq<Seq<char>>, k: int, m: int) -> nat
    decreases m,
{
    if m <= 0 || m > keys.len() {
        0
    } else {
        counts_sum(nodes, keys, k, m - 1) + deco_count(nodes, keys[m - 1], k)
    }
}

proof fn lemma_counts_sum_step(nodes: Seq<Node>, keys: Seq<Seq<char>>, k: int, m: int)
    requires
        0 < k <= nodes.len(),
        0 <= m <= keys.len(),
        keys.no_duplicates(),
    ensures
        counts_sum(nodes, keys, k, m) == counts_sum(nodes, keys, k - 1, m) + if nodes[k - 1].kind
            == NodeKind::Decorator && keys.take(m).contains(deco_key(nodes[k - 1])) {
            1nat
        } else {
            0nat
        },
    decreases m,
{
    if m > 0 {
        lemma_counts_sum_step(nodes, keys, k, m - 1);
        let key = deco_key(nodes[k - 1]);
        assert(keys.take(m) =~= keys.take(m - 1).push(keys[m - 1]));
        if keys.take(m - 1).contains(key) {
            let w = choose|w: int| 0 <= w < keys.take(m - 1).len() && #[trigger] keys.take(m - 1)[w] == key;
            assert(keys[w] == key);
            assert(keys[m - 1] != key);
        }
        if keys.take(m).contains(key) && !keys.take(m - 1).contains(key) {
            let w = choose|w: int| 0 <= w < keys.take(m).len() && #[trigger] keys.take(m)[w] == key;
            if w < m - 1 {
                assert(keys.take(m - 1)[w] == key);
            }
        }
        if keys[m - 1] == key {
            assert(keys.take(m)[m - 1] == key);
        }
    }
}

proof fn lemma_counts_sum_push(nodes: Seq<Node>, keys: Seq<Seq<char>>, key: Seq<char>, k: int, m: int)
    requires
        0 <= m <= keys.len(),
    ensures
        counts_sum(nodes, keys.push(key), k, m) == counts_sum(nodes, keys, k, m),
    decreases m,
{
    if m > 0 {
        lemma_counts_sum_push(nodes, keys, key, k, m - 1);
        assert(keys.push(key)[m - 1] == keys[m - 1]);
    }
}

/// Every application of a decorator is counted under exactly one name:
/// the counts of the decorator names add up to the number of decorator
/// nodes.
pub proof fn lemma_applications_counted(nodes: Seq<Node>, k: int)
    requires
        0 <= k <= nodes.len(),
    ensures
        counts_sum(nodes, deco_keys(nodes, k), k, deco_keys(nodes, k).len() as int) == deco_total(
            nodes,
            k,
        ),
    decreases k,
{
    if k > 0 {
        lemma_applications_counted(nodes, k - 1);
        let prev = deco_keys(nodes, k - 1);
        let n = nodes[k - 1];
        let key = deco_key(n);
        lemma_deco_facts(nodes, Seq::empty(), key, k - 1);
        lemma_deco_facts(nodes, Seq::empty(), key, k);
        let keys = deco_keys(nodes, k);
        if n.kind == NodeKind::Decorator && !prev.contains(key) {
            assert(keys == prev.push(key));
            let m = prev.len() as int;
            assert(prev.push(key).take(m) =~= prev);
            lemma_counts_sum_step(nodes, prev.push(key), k, m);
            lemma_counts_sum_push(nodes, prev, key, k - 1, m);
            assert(counts_sum(nodes, keys, k, m + 1) == counts_sum(nodes, keys, k, m) + deco_count(nodes, key, k));
            assert(deco_count(nodes, key, k - 1) == 0);
        } else {
            assert(keys == prev);
            assert(prev.take(prev.len() as int) =~= prev);
            lemma_counts_sum_step(nodes, prev, k, prev.len() as int);
        }
    }
}

/// How the decorators of a graph are used. Decorator nodes are counted
/// under their qualified name (or their name); for each: how many nodes,
/// their files (from the edges that declare them, else their own file)
/// and the symbols they decorate. The first `limit`, most applied first
/// (then by name), are listed; so are the first `limit` of those, in the
/// same order, that are the project's own, with the first of their files.
pub fn decorator_usage(graph: &CodeGraph, limit: usize) -> (r: DecoratorUsage)
    requires
        2 * total_weight(graph.edges@) <= usize::MAX,
    ensures
        ({
            let nodes = graph.nodes@;
            let edges = graph.edges@;
            let n = nodes.len() as int;
            let keys = deco_keys(nodes, n);
            let counts = Seq::new(keys.len(), |j: int| deco_count(nodes, keys[j], n) as usize);
            &&& r.total_decorators == keys.len()
            &&& r.total_applications == deco_total(nodes, n)
            &&& exists|order: Seq<usize>|
                {
                    &&& sorted_positions(order, keys.len() as int, by_key_then_name(counts, keys))
                    &&& r.decorators@.len() == min_count(keys.len(), limit as nat)
                    &&& forall|k: int|
                        0 <= k < r.decorators@.len() ==> {
                            let key = keys[order[k] as int];
                            let d = #[trigger] r.decorators@[k];
                            &&& d.name@ == "@"@ + key
                            &&& d.count == deco_count(nodes, key, n)
                            &&& sorted_set(d.files@, deco_files(nodes, edges, key, n))
                            &&& sorted_set(d.targets@, deco_targets(nodes, edges, key, n))
                        }
                    &&& custom_listed(r.custom@, keys, order, nodes, edges, limit as nat)
                }
        }),
{
    let index = QueryIndex::new(graph);
    let ghost nodes = graph.nodes@;
    let ghost edges = graph.edges@;
    let mut keys: Vec<String> = Vec::new();
    let mut counts: Vec<usize> = Vec::new();
    let mut files: Vec<Vec<String>> = Vec::new();
    let mut targets: Vec<Vec<String>> = Vec::new();
    let mut applications: usize = 0;
    let mut i: usize = 0;
    while i < graph.nodes.len()
        invariant
            index.wf(),
            index.node_seq() == nodes,
            index.edge_seq() == edges,
            nodes == graph.nodes@,
            edges == graph.edges@,
            i <= nodes.len(),
            applications == deco_total(nodes, i as int),
            applications <= i,
            views(keys@) == deco_keys(nodes, i as int),
            counts@.len() == keys@.len(),
            files@.len() == keys@.len(),
            targets@.len() == keys@.len(),
            forall|j: int| 0 <= j < keys@.len() ==> #[trigger] counts@[j] == deco_count(nodes, keys@[j]@, i as int),
            forall|j: int| 0 <= j < keys@.len() ==> views((#[trigger] files@[j])@).no_duplicates()
                && views(files@[j]@).to_set() == deco_files(nodes, edges, keys@[j]@, i as int),
            forall|j: int| 0 <= j < keys@.len() ==> views((#[trigger] targets@[j])@).no_duplicates()
                && views(targets@[j]@).to_set() == deco_targets(nodes, edges, keys@[j]@, i as int),
        decreases nodes.len() - i,
    {
        let n = &graph.nodes[i];
        assert(*n == nodes[i as int]);
        if n.kind == NodeKind::Decorator {
            let key = if n.qualified_name.as_str().unicode_len() > 0 {
                owned(n.qualified_name.as_str())
            } else {
                owned(n.name.as_str())
            };
            assert(key@ == deco_key(*n));
            let nf = files_of(&index, n);
            let nt = targets_of(&index, n);
            proof {
                lemma_deco_facts(nodes, edges, key@, i as int);
                lemma_deco_facts(nodes, edges, key@, i + 1);
            }
            applications = applications + 1;
            let mut found: Option<usize> = None;
            let mut j: usize = 0;
            while j < keys.len() && found.is_none()
                invariant
                    j <= keys@.len(),
                    match found {
                        None => forall|t: int| 0 <= t < j ==> keys@[t]@ != key@,
                        Some(f) => f < keys@.len() && keys@[f as int]@ == key@,
                    },
                decreases keys@.len() - j,
            {
                if str_eq(keys[j].as_str(), key.as_str()) {
                    found = Some(j);
                }
                j = j + 1;
            }
            let ghost i1 = (i + 1) as int;
            let ghost old_keys = keys@;
            let ghost old_counts = counts@;
            let ghost old_files = files@;
            let ghost old_targets = targets@;
            match found {
                None => {
                    assert(!views(keys@).contains(key@)) by {
                        if views(keys@).contains(key@) {
                            let t = choose|t: int| 0 <= t < views(keys@).len() && views(keys@)[t] == key@;
                            assert(keys@[t]@ == key@);
                        }
                    }
                    keys.push(owned(key.as_str()));
                    counts.push(1);
                    let mut fs: Vec<String> = Vec::new();
                    assert(views(fs@) =~= Seq::<Seq<char>>::empty());
                    add_texts(&mut fs, &nf);
                    files.push(fs);
                    let mut ts: Vec<String> = Vec::new();
                    assert(views(ts@) =~= Seq::<Seq<char>>::empty());
                    add_texts(&mut ts, &nt);
                    targets.push(ts);
                    proof {
                        assert(views(keys@) =~= views(old_keys).push(key@));
                        assert(Seq::<Seq<char>>::empty().to_set() =~= Set::<Seq<char>>::empty());
                        assert forall|j: int| 0 <= j < keys@.len() implies #[trigger] counts@[j] == deco_count(nodes, keys@[j]@, i1) by {
                            if j < old_keys.len() {
                                assert(keys@[j] == old_keys[j]);
                                assert(keys@[j]@ != key@);
                            }
                        }
                        assert forall|j: int| 0 <= j < keys@.len() implies views((#[trigger] files@[j])@).no_duplicates()
                            && views(files@[j]@).to_set() == deco_files(nodes, edges, keys@[j]@, i1) by {
                            if j < old_keys.len() {
                                assert(keys@[j] == old_keys[j]);
                                assert(files@[j] == old_files[j]);
                                assert(keys@[j]@ != key@);
                            } else {
                                assert(Set::<Seq<char>>::empty().union(views(nf@).to_set()) =~= views(nf@).to_set());
                            }
                        }
                        assert forall|j: int| 0 <= j < keys@.len() implies views((#[trigger] targets@[j])@).no_duplicates()
                            && views(targets@[j]@).to_set() == deco_targets(nodes, edges, keys@[j]@, i1) by {
                            if j < old_keys.len() {
                                assert(keys@[j] == old_keys[j]);
                                assert(targets@[j] == old_targets[j]);
                                assert(keys@[j]@ != key@);
                            } else {
                                assert(Set::<Seq<char>>::empty().union(views(nt@).to_set()) =~= views(nt@).to_set());
                            }
                        }
                    }
                },
                Some(f) => {
                    assert(views(keys@)[f as int] == key@);
                    let c = counts[f] + 1;
                    counts.set(f, c);
                    let mut fs: Vec<String> = Vec::new();
                    std::mem::swap(&mut fs, &mut files[f]);
                    add_texts(&mut fs, &nf);
                    files.set(f, fs);
                    let mut ts: Vec<String> = Vec::new();
                    std::mem::swap(&mut ts, &mut targets[f]);
                    add_texts(&mut ts, &nt);
                    targets.set(f, ts);
                    proof {
                        assert forall|j: int| 0 <= j < keys@.len() && j != f implies keys@[j]@ != key@ by {
                            assert(views(keys@).no_duplicates());
                            assert(views(keys@)[j] == keys@[j]@);
                        }
                        assert forall|j: int| 0 <= j < keys@.len() implies #[trigger] counts@[j] == deco_count(nodes, keys@[j]@, i1) by {
                            if j != f {
                                assert(counts@[j] == old_counts[j]);
                            }
                        }
                        assert forall|j: int| 0 <= j < keys@.len() implies views((#[trigger] files@[j])@).no_duplicates()
                            && views(files@[j]@).to_set() == deco_files(nodes, edges, keys@[j]@, i1) by {
                            if j != f {
                                assert(files@[j] == old_files[j]);
                            }
                        }
                        assert forall|j: int| 0 <= j < keys@.len() implies views((#[trigger] targets@[j])@).no_duplicates()
                            && views(targets@[j]@).to_set() == deco_targets(nodes, edges, keys@[j]@, i1) by {
                            if j != f {
                                assert(targets@[j] == old_targets[j]);
                            }
                        }
                    }
                },
            }
        }
        i = i + 1;
    }
    proof {
        lemma_deco_facts(nodes, edges, Seq::empty(), nodes.len() as int);
    }
    let order = top_desc_by_name(&counts, &keys, keys.len());
    let ghost o = choose|o: Seq<usize>|
        sorted_positions(o, counts@.len() as int, by_key_then_name(counts@, views(keys@))) && order@
            == o.take(min_count(counts@.len(), counts@.len() as nat) as int);
    assert(order@ =~= o);
    proof {
        reveal_strlit("@");
    }
    let mut decorators: Vec<DecoratorView> = Vec::new();
    let mut custom: Vec<CustomDecorator> = Vec::new();
    let mut k: usize = 0;
    while k < order.len()
        invariant
            k <= order@.len(),
            order@ == o,
            sorted_positions(o, counts@.len() as int, by_key_then_name(counts@, views(keys@))),
            views(keys@) == deco_keys(nodes, nodes.len() as int),
            counts@.len() == keys@.len(),
            files@.len() == keys@.len(),
            targets@.len() == keys@.len(),
            forall|j: int| 0 <= j < keys@.len() ==> #[trigger] counts@[j] == deco_count(nodes, keys@[j]@, nodes.len() as int),
            forall|j: int| 0 <= j < keys@.len() ==> views((#[trigger] files@[j])@).no_duplicates()
                && views(files@[j]@).to_set() == deco_files(nodes, edges, keys@[j]@, nodes.len() as int),
            forall|j: int| 0 <= j < keys@.len() ==> views((#[trigger] targets@[j])@).no_duplicates()
                && views(targets@[j]@).to_set() == deco_targets(nodes, edges, keys@[j]@, nodes.len() as int),
            decorators@.len() == min_count(k as nat, limit as nat),
            forall|t: int|
                0 <= t < decorators@.len() ==> {
                    let key = keys@[o[t] as int]@;
                    let d = #[trigger] decorators@[t];
                    &&& d.name@ == "@"@ + key
                    &&& d.count == deco_count(nodes, key, nodes.len() as int)
                    &&& sorted_set(d.files@, deco_files(nodes, edges, key, nodes.len() as int))
                    &&& sorted_set(d.targets@, deco_targets(nodes, edges, key, nodes.len() as int))
                },
            custom_prefix(custom@, views(keys@), o, k as int, nodes, edges, limit as nat),
        decreases order@.len() - k,
    {
        let j = order[k];
        let key = keys[j].as_str();
        assert(key@ == views(keys@)[j as int]);
        let sorted_files = sort_texts(&files[j]);
        proof {
            lemma_first_of_sorted(sorted_files@, deco_files(nodes, edges, key@, nodes.len() as int));
            lemma_custom_keys_len(views(keys@), o, k as int);
        }
        let ghost old_custom = custom@;
        let ghost old_decorators = decorators@;
        if custom_decorator_name(key) && custom.len() < limit {
            let first = if sorted_files.len() > 0 {
                Some(owned(sorted_files[0].as_str()))
            } else {
                None
            };
            custom.push(CustomDecorator { name: concat2("@", key), defined_in: first, usage_count: counts[j] });
            proof {
                let ck = custom_keys(views(keys@), o, k + 1);
                assert(ck == custom_keys(views(keys@), o, k as int).push(key@));
                assert forall|t: int| 0 <= t < custom@.len() implies custom_entry(#[trigger] custom@[t], ck[t], nodes, edges) by {
                    if t < old_custom.len() {
                        assert(custom@[t] == old_custom[t]);
                    }
                }
            }
        } else {
            proof {
                let ck = custom_keys(views(keys@), o, k + 1);
                if is_custom(key@) {
                    assert(ck == custom_keys(views(keys@), o, k as int).push(key@));
                    assert forall|t: int| 0 <= t < custom@.len() implies custom_entry(#[trigger] custom@[t], ck[t], nodes, edges) by {
                        assert(ck[t] == custom_keys(views(keys@), o, k as int)[t]);
                    }
                }
            }
        }
        if decorators.len() < limit {
            let sorted_targets = sort_texts(&targets[j]);
            decorators.push(
                DecoratorView {
                    name: concat2("@", key),
                    count: counts[j],
                    files: sorted_files,
                    targets: sorted_targets,
                },
            );
            proof {
                assert forall|t: int| 0 <= t < decorators@.len() implies {
                    let key = keys@[o[t] as int]@;
                    let d = #[trigger] decorators@[t];
                    &&& d.name@ == "@"@ + key
                    &&& d.count == deco_count(nodes, key, nodes.len() as int)
                    &&& sorted_set(d.files@, deco_files(nodes, edges, key, nodes.len() as int))
                    &&& sorted_set(d.targets@, deco_targets(nodes, edges, key, nodes.len() as int))
                } by {
                    if t < old_decorators.len() {
                        assert(decorators@[t] == old_decorators[t]);
                    }
                }
            }
        }
        k = k + 1;
    }
    let ghost keysv = views(keys@);
    proof {
        let cv = Seq::new(keysv.len(), |j: int| deco_count(nodes, keysv[j], nodes.len() as int) as usize);
        assert(counts@ =~= cv);
    }
    DecoratorUsage {
        decorators,
        custom,
        total_decorators: keys.len(),
        total_applications: applications,
    }
}

} // verus!
