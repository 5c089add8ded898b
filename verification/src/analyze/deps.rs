//! Directory-level dependencies: weighted links between directories,
//! greedy dependency chains, and how far a change can spread.

use vstd::prelude::*;
use vstd::hash_map::StringHashMap;
use crate::analyze::refactor_order::{lemma_names_distinct, module_table, position_of, sorted_distinct};
use crate::analyzer::builder::opt_str_view;
use crate::model::{CodeGraph, Edge, EdgeKind, Node, occurrences};
use crate::sorting::{count_set, lemma_count_set, lemma_count_set_le, lemma_count_set_zero, sort_positions, sorted_positions};
use crate::text::{join, join_spec, lemma_split_join, owned, split_char, split_spec, str_eq};

verus! {

// ---------------------------------------------------------------- clusters

/// A file's directory (the path without its last component); a path of one
/// component is its own key.
pub open spec fn cluster_key_spec(file: Seq<char>) -> Seq<char> {
    let parts = split_spec(file, '/');
    if parts.len() >= 2 {
        join_spec(parts.take(parts.len() - 1), "/"@)
    } else {
        file
    }
}

/// A file's key is its directory: a path holding `/` is its key, a `/`
/// and a last component with no `/`; a path without `/` is its own key.
pub proof fn lemma_cluster_key_parent(file: Seq<char>)
    ensures
        file.contains('/') ==> exists|tail: Seq<char>|
            file == cluster_key_spec(file) + "/"@ + tail && !#[trigger] tail.contains('/'),
        !file.contains('/') ==> cluster_key_spec(file) == file,
{
    reveal_strlit("/");
    lemma_split_join(file, '/', 0);
    let parts = split_spec(file, '/');
    assert(file.subrange(0, file.len() as int) =~= file);
    assert(file.contains('/') <==> exists|k: int| 0 <= k < file.len() && file[k] == '/');
    if parts.len() >= 2 {
        assert(parts.drop_last() =~= parts.take(parts.len() - 1));
        let tail = parts.last();
        assert(!parts[parts.len() - 1].contains('/'));
        assert("/"@ =~= seq!['/']);
        assert(join_spec(parts, seq!['/']) == join_spec(parts.drop_last(), seq!['/']) + seq!['/'] + parts.last());
        assert(cluster_key_spec(file) == join_spec(parts.drop_last(), seq!['/']));
        assert(file == cluster_key_spec(file) + "/"@ + tail);
    }
}

/// Drop the filename, keep only the directory path.
pub fn cluster_key(file: &str) -> (r: String)
    ensures
        r@ == cluster_key_spec(file@),
{
    let mut parts = split_char(file, '/');
    if parts.len() >= 2 {
        let ghost all = parts@.map_values(|s: String| s@);
        parts.pop();
        assert(parts@.map_values(|s: String| s@) =~= all.take(all.len() - 1));
        proof {
            reveal_strlit("/");
        }
        join(&parts, "/")
    } else {
        owned(file)
    }
}

/// The file of the last node with id `id` that has a file.
pub open spec fn file_of_id(nodes: Seq<Node>, id: Seq<char>) -> Option<Seq<char>>
    decreases nodes.len(),
{
    if nodes.len() == 0 {
        None
    } else if nodes.last().id@ == id && nodes.last().file is Some {
        Some(nodes.last().file->0@)
    } else {
        file_of_id(nodes.drop_last(), id)
    }
}

/// Edge kinds that count as a dependency.
pub open spec fn dep_kind(k: EdgeKind) -> bool {
    k == EdgeKind::Calls || k == EdgeKind::Imports || k == EdgeKind::UsesType || k == EdgeKind::Declares
}

/// The directory link that an edge makes, if any.
pub open spec fn edge_pair(nodes: Seq<Node>, e: Edge) -> Option<(Seq<char>, Seq<char>)> {
    let sf = file_of_id(nodes, e.from@);
    let df = file_of_id(nodes, e.to@);
    if dep_kind(e.kind) && sf is Some && df is Some && cluster_key_spec(sf->0)
        != cluster_key_spec(df->0) {
        Some((cluster_key_spec(sf->0), cluster_key_spec(df->0)))
    } else {
        None
    }
}

/// The directory links of the edges, one per edge, in edge order.
pub open spec fn dep_pairs(nodes: Seq<Node>, edges: Seq<Edge>) -> Seq<(Seq<char>, Seq<char>)>
    decreases edges.len(),
{
    if edges.len() == 0 {
        Seq::empty()
    } else {
        let prev = dep_pairs(nodes, edges.drop_last());
        match edge_pair(nodes, edges.last()) {
            Some(p) => prev.push(p),
            None => prev,
        }
    }
}

/// The directories that the links name, each link giving its source then
/// its target.
pub open spec fn pair_names(pairs: Seq<(Seq<char>, Seq<char>)>) -> Seq<Seq<char>>
    decreases pairs.len(),
{
    if pairs.len() == 0 {
        Seq::empty()
    } else {
        pair_names(pairs.drop_last()).push(pairs.last().0).push(pairs.last().1)
    }
}

/// How many times the link `(a, b)` occurs.
pub open spec fn pair_count(pairs: Seq<(Seq<char>, Seq<char>)>, a: Seq<char>, b: Seq<char>) -> nat
    decreases pairs.len(),
{
    if pairs.len() == 0 {
        0
    } else {
        pair_count(pairs.drop_last(), a, b) + (if pairs.last() == (a, b) {
            1nat
        } else {
            0nat
        })
    }
}

/// For each id, the file of the last node with that id and a file.
fn id_files(nodes: &Vec<Node>) -> (r: StringHashMap<String>)
    ensures
        forall|id: Seq<char>|
            #![trigger file_of_id(nodes@, id)]
            match file_of_id(nodes@, id) {
                Some(f) => r@.contains_key(id) && r@[id]@ == f,
                None => !r@.contains_key(id),
            },
{
    let mut r: StringHashMap<String> = StringHashMap::new();
    let mut i: usize = 0;
    while i < nodes.len()
        invariant
            0 <= i <= nodes@.len(),
            forall|id: Seq<char>|
                #![trigger file_of_id(nodes@.take(i as int), id)]
                match file_of_id(nodes@.take(i as int), id) {
                    Some(f) => r@.contains_key(id) && r@[id]@ == f,
                    None => !r@.contains_key(id),
                },
        decreases nodes@.len() - i,
    {
        let ghost pre = nodes@.take(i as int);
        let ghost cur = nodes@.take(i + 1);
        assert(cur.drop_last() =~= pre);
        assert(cur.last() == nodes@[i as int]);
        let ghost before = r@;
        if let Some(f) = &nodes[i].file {
            r.insert(owned(nodes[i].id.as_str()), owned(f.as_str()));
        }
        proof {
            assert forall|id: Seq<char>|
                #![trigger file_of_id(cur, id)]
                match file_of_id(cur, id) {
                    Some(f) => r@.contains_key(id) && r@[id]@ == f,
                    None => !r@.contains_key(id),
                } by {
                if !(nodes@[i as int].id@ == id && nodes@[i as int].file is Some) {
                    assert(file_of_id(cur, id) == file_of_id(pre, id));
                    if id != nodes@[i as int].id@ {
                        assert(r@.contains_key(id) == before.contains_key(id));
                        if before.contains_key(id) {
                            assert(r@[id] == before[id]);
                        }
                    }
                }
            }
        }
        i = i + 1;
    }
    assert(nodes@.take(nodes@.len() as int) =~= nodes@);
    r
}

/// The directory links of the graph's edges, in edge order.
fn collect_pairs(graph: &CodeGraph) -> (r: Vec<(String, String)>)
    ensures
        r@.map_values(|p: (String, String)| (p.0@, p.1@)) == dep_pairs(graph.nodes@, graph.edges@),
{
    let nf = id_files(&graph.nodes);
    let mut r: Vec<(String, String)> = Vec::new();
    let mut j: usize = 0;
    while j < graph.edges.len()
        invariant
            0 <= j <= graph.edges@.len(),
            forall|id: Seq<char>|
                #![trigger file_of_id(graph.nodes@, id)]
                match file_of_id(graph.nodes@, id) {
                    Some(f) => nf@.contains_key(id) && nf@[id]@ == f,
                    None => !nf@.contains_key(id),
                },
            r@.map_values(|p: (String, String)| (p.0@, p.1@)) == dep_pairs(
                graph.nodes@,
                graph.edges@.take(j as int),
            ),
        decreases graph.edges@.len() - j,
    {
        let e = &graph.edges[j];
        let ghost pre = graph.edges@.take(j as int);
        let ghost cur = graph.edges@.take(j + 1);
        assert(cur.drop_last() =~= pre);
        assert(cur.last() == graph.edges@[j as int]);
        let ghost old_r = r@.map_values(|p: (String, String)| (p.0@, p.1@));
        let relevant = match e.kind {
            EdgeKind::Calls | EdgeKind::Imports | EdgeKind::UsesType | EdgeKind::Declares => true,
            _ => false,
        };
        proof {
            let _a = file_of_id(graph.nodes@, e.from@);
            let _b = file_of_id(graph.nodes@, e.to@);
        }
        if relevant {
            match (nf.get(e.from.as_str()), nf.get(e.to.as_str())) {
                (Some(sf), Some(df)) => {
                    let sc = cluster_key(sf.as_str());
                    let dc = cluster_key(df.as_str());
                    if !str_eq(sc.as_str(), dc.as_str()) {
                        r.push((sc, dc));
                    }
                },
                _ => {},
            }
        }
        assert(r@.map_values(|p: (String, String)| (p.0@, p.1@)) =~= dep_pairs(graph.nodes@, cur));
        j = j + 1;
    }
    assert(graph.edges@.take(graph.edges@.len() as int) =~= graph.edges@);
    r
}

// ---------------------------------------------------------------- weights

/// The weight of the link from directory `cl[a]` to `cl[b]`.
pub open spec fn link_weight(pv: Seq<(Seq<char>, Seq<char>)>, cl: Seq<Seq<char>>, a: int, b: int) -> nat {
    pair_count(pv, cl[a], cl[b])
}

/// Which directories link to which.
pub open spec fn links(pv: Seq<(Seq<char>, Seq<char>)>, cl: Seq<Seq<char>>) -> spec_fn(int, int) -> bool {
    |a: int, b: int| link_weight(pv, cl, a, b) > 0
}

/// Directory `a` passes the source filter.
pub open spec fn keeps(cl: Seq<Seq<char>>, from: Option<Seq<char>>, a: int) -> bool {
    from is None || cl[a] == cluster_key_spec(from->0)
}

/// The links `(a, b)`, `b < k`, of row `a` that have a weight and pass the
/// source filter, in order.
pub open spec fn row_candidates(
    pv: Seq<(Seq<char>, Seq<char>)>,
    cl: Seq<Seq<char>>,
    from: Option<Seq<char>>,
    a: int,
    k: int,
) -> Seq<(int, int)>
    decreases k,
{
    if k <= 0 {
        Seq::empty()
    } else {
        let prev = row_candidates(pv, cl, from, a, k - 1);
        if link_weight(pv, cl, a, k - 1) > 0 && keeps(cl, from, a) {
            prev.push((a, k - 1))
        } else {
            prev
        }
    }
}

/// The candidate links of rows `a < k`, in (source, target) order.
pub open spec fn link_candidates(
    pv: Seq<(Seq<char>, Seq<char>)>,
    cl: Seq<Seq<char>>,
    from: Option<Seq<char>>,
    k: int,
) -> Seq<(int, int)>
    decreases k,
{
    if k <= 0 {
        Seq::empty()
    } else {
        link_candidates(pv, cl, from, k - 1) + row_candidates(pv, cl, from, k - 1, cl.len() as int)
    }
}

/// The directories `a < k` whose greedy chain has at least three entries.
pub open spec fn chain_candidates(adj: spec_fn(int, int) -> bool, k: int, n: int) -> Seq<int>
    decreases k,
{
    if k <= 0 {
        Seq::empty()
    } else {
        let prev = chain_candidates(adj, k - 1, n);
        if greedy_chain(adj, k - 1, n).len() >= 3 {
            prev.push(k - 1)
        } else {
            prev
        }
    }
}

/// Largest first, ties in order.
pub open spec fn larger_first(ds: Seq<usize>) -> spec_fn(int, int) -> bool {
    |i: int, j: int| ds[i] > ds[j] || (ds[i] == ds[j] && i < j)
}

/// A directory link and how many edges make it.
pub struct DepItem {
    pub from: String,
    pub to: String,
    pub weight: usize,
}

/// A dependency chain of at least three directories.
pub struct RecompileChain {
    pub chain: Vec<String>,
}

/// What `deps` finds.
pub struct DepsReport {
    pub items: Vec<DepItem>,
    pub recompile_impact: Vec<RecompileChain>,
    pub total_recompile_modules: usize,
}

/// The weights of the links between the directories of `cl`.
fn weight_matrix(pairs: &Vec<(String, String)>, cl: &Vec<String>) -> (w: Vec<Vec<usize>>)
    requires
        module_table(cl@.map_values(|s: String| s@), pair_names(pairs@.map_values(|p: (String, String)| (p.0@, p.1@)))),
    ensures
        w@.len() == cl@.len(),
        forall|a: int| 0 <= a < cl@.len() ==> (#[trigger] w@[a])@.len() == cl@.len(),
        forall|a: int, b: int|
            0 <= a < cl@.len() && 0 <= b < cl@.len() ==> (#[trigger] w@[a]@[b]) == pair_count(
                pairs@.map_values(|p: (String, String)| (p.0@, p.1@)),
                cl@[a]@,
                cl@[b]@,
            ),
{
    let ghost pv = pairs@.map_values(|p: (String, String)| (p.0@, p.1@));
    let ghost cv = cl@.map_values(|s: String| s@);
    let n = cl.len();
    proof {
        lemma_names_distinct(cv);
    }
    let mut w: Vec<Vec<usize>> = Vec::new();
    let mut a: usize = 0;
    while a < n
        invariant
            0 <= a <= n,
            w@.len() == a,
            forall|x: int| 0 <= x < a ==> (#[trigger] w@[x])@.len() == n,
            forall|x: int, y: int| 0 <= x < a && 0 <= y < n ==> (#[trigger] w@[x]@[y]) == 0,
        decreases n - a,
    {
        let mut row: Vec<usize> = Vec::new();
        let mut b: usize = 0;
        while b < n
            invariant
                0 <= b <= n,
                row@.len() == b,
                forall|y: int| 0 <= y < b ==> #[trigger] row@[y] == 0,
            decreases n - b,
        {
            row.push(0);
            b = b + 1;
        }
        w.push(row);
        a = a + 1;
    }
    let mut k: usize = 0;
    while k < pairs.len()
        invariant
            0 <= k <= pairs@.len(),
            n == cl@.len(),
            pv == pairs@.map_values(|p: (String, String)| (p.0@, p.1@)),
            cv == cl@.map_values(|s: String| s@),
            module_table(cv, pair_names(pv)),
            forall|i: int, j: int| 0 <= i < j < cv.len() ==> #[trigger] cv[i] != #[trigger] cv[j],
            w@.len() == n,
            forall|x: int| 0 <= x < n ==> (#[trigger] w@[x])@.len() == n,
            forall|x: int, y: int|
                0 <= x < n && 0 <= y < n ==> (#[trigger] w@[x]@[y]) == pair_count(pv.take(k as int), cv[x], cv[y]),
            forall|x: int, y: int| 0 <= x < n && 0 <= y < n ==> (#[trigger] w@[x]@[y]) <= k,
        decreases pairs@.len() - k,
    {
        let ghost pre = pv.take(k as int);
        let ghost cur = pv.take(k + 1);
        assert(cur.drop_last() =~= pre);
        assert(cur.last() == pv[k as int]);
        proof {
            lemma_pair_names_contains(pv, k as int);
        }
        let a = position_of(cl, pairs[k].0.as_str());
        let b = position_of(cl, pairs[k].1.as_str());
        let ghost old_w = w@;
        let mut row: Vec<usize> = Vec::new();
        std::mem::swap(&mut row, &mut w[a]);
        let v = row[b] + 1;
        row.set(b, v);
        w.set(a, row);
        proof {
            assert forall|x: int, y: int| 0 <= x < n && 0 <= y < n implies (#[trigger] w@[x]@[y]) == pair_count(
                cur,
                cv[x],
                cv[y],
            ) by {
                if x == a && y == b {
                    assert(cur.last() == (cv[x], cv[y]));
                } else {
                    if x != a {
                        assert(w@[x] == old_w[x]);
                    }
                    assert(w@[x]@[y] == old_w[x]@[y]);
                    if cur.last() == (cv[x], cv[y]) {
                        if x != a as int {
                            assert(cv[x] != cv[a as int]);
                        } else {
                            assert(cv[y] != cv[b as int]);
                        }
                    }
                }
            }
            assert forall|x: int, y: int| 0 <= x < n && 0 <= y < n implies (#[trigger] w@[x]@[y]) <= k + 1 by {
                if !(x == a && y == b) {
                    if x != a {
                        assert(w@[x] == old_w[x]);
                    }
                    assert(w@[x]@[y] == old_w[x]@[y]);
                }
            }
        }
        k = k + 1;
    }
    assert(pv.take(pv.len() as int) =~= pv);
    w
}

/// Both names of link `k` are among the link names.
proof fn lemma_pair_names_contains(pv: Seq<(Seq<char>, Seq<char>)>, k: int)
    requires
        0 <= k < pv.len(),
    ensures
        pair_names(pv).contains(pv[k].0),
        pair_names(pv).contains(pv[k].1),
    decreases pv.len(),
{
    let names = pair_names(pv);
    if k == pv.len() - 1 {
        assert(names[names.len() - 2] == pv[k].0);
        assert(names[names.len() - 1] == pv[k].1);
    } else {
        lemma_pair_names_contains(pv.drop_last(), k);
        let prev = pair_names(pv.drop_last());
        assert(names == prev.push(pv.last().0).push(pv.last().1));
        let w0 = choose|w: int| 0 <= w < prev.len() && prev[w] == pv[k].0;
        assert(names[w0] == pv[k].0);
        let w1 = choose|w: int| 0 <= w < prev.len() && prev[w] == pv[k].1;
        assert(names[w1] == pv[k].1);
    }
}

// ---------------------------------------------------------------- chains

/// The first `b` in `k..n` that `cur` links to and that is not visited, or
/// -1.
pub open spec fn first_open(adj: spec_fn(int, int) -> bool, visited: Seq<bool>, cur: int, k: int, n: int) -> int
    decreases n - k,
{
    if k >= n {
        -1
    } else if adj(cur, k) && !visited[k] {
        k
    } else {
        first_open(adj, visited, cur, k + 1, n)
    }
}

/// The rest of a greedy chain from `cur`: at most `steps` more
/// directories, each the first unvisited one the previous links to.
pub open spec fn chain_rest(adj: spec_fn(int, int) -> bool, visited: Seq<bool>, cur: int, steps: nat, n: int) -> Seq<int>
    decreases steps,
{
    if steps == 0 {
        Seq::empty()
    } else {
        let nb = first_open(adj, visited, cur, 0, n);
        if nb < 0 {
            Seq::empty()
        } else {
            seq![nb] + chain_rest(adj, visited.update(nb, true), nb, (steps - 1) as nat, n)
        }
    }
}

/// The greedy chain from `a`: `a`, then up to 10 further directories.
pub open spec fn greedy_chain(adj: spec_fn(int, int) -> bool, a: int, n: int) -> Seq<int> {
    seq![a] + chain_rest(adj, only(n, a), a, 10, n)
}

/// `n` flags, only `a` set.
pub open spec fn only(n: int, a: int) -> Seq<bool> {
    Seq::new(n as nat, |x: int| x == a)
}

proof fn lemma_first_open(adj: spec_fn(int, int) -> bool, visited: Seq<bool>, cur: int, k: int, n: int)
    requires
        0 <= k <= n,
        visited.len() == n,
    ensures
        first_open(adj, visited, cur, k, n) == -1 || (k <= first_open(adj, visited, cur, k, n) < n
            && adj(cur, first_open(adj, visited, cur, k, n)) && !visited[first_open(adj, visited, cur, k, n)]),
        first_open(adj, visited, cur, k, n) == -1 ==> forall|b: int| k <= b < n ==> !(adj(cur, b) && !visited[b]),
    decreases n - k,
{
    if k < n {
        lemma_first_open(adj, visited, cur, k + 1, n);
    }
}

/// The greedy chain from directory `a`.
fn chain_of(w: &Vec<Vec<usize>>, a: usize, Ghost(adj): Ghost<spec_fn(int, int) -> bool>) -> (r: Vec<usize>)
    requires
        a < w@.len(),
        forall|x: int| 0 <= x < w@.len() ==> (#[trigger] w@[x])@.len() == w@.len(),
        forall|x: int, y: int| 0 <= x < w@.len() && 0 <= y < w@.len() ==> ((#[trigger] w@[x]@[y]) > 0) == adj(x, y),
    ensures
        r@.map_values(|x: usize| x as int) == greedy_chain(adj, a as int, w@.len() as int),
        forall|k: int| 0 <= k < r@.len() ==> #[trigger] r@[k] < w@.len(),
{
    let n = w.len();
    let mut visited: Vec<bool> = Vec::new();
    let mut i: usize = 0;
    while i < n
        invariant
            0 <= i <= n,
            visited@.len() == i,
            forall|x: int| 0 <= x < i ==> #[trigger] visited@[x] == (x == a),
        decreases n - i,
    {
        visited.push(i == a);
        i = i + 1;
    }
    assert(visited@ =~= only(n as int, a as int));
    let mut chain: Vec<usize> = Vec::new();
    chain.push(a);
    assert(chain@.map_values(|x: usize| x as int) =~= seq![a as int]);
    let mut cur = a;
    let mut step: usize = 0;
    assert(chain@.map_values(|x: usize| x as int) + chain_rest(adj, visited@, a as int, 10, n as int)
        == greedy_chain(adj, a as int, n as int));
    while step < 10
        invariant
            n == w@.len(),
            forall|x: int| 0 <= x < n ==> (#[trigger] w@[x])@.len() == n,
            forall|x: int, y: int| 0 <= x < n && 0 <= y < n ==> ((#[trigger] w@[x]@[y]) > 0) == adj(x, y),
            cur < n,
            step <= 10,
            visited@.len() == n,
            forall|k: int| 0 <= k < chain@.len() ==> #[trigger] chain@[k] < n,
            chain@.map_values(|x: usize| x as int) + chain_rest(adj, visited@, cur as int, (10 - step) as nat, n as int)
                == greedy_chain(adj, a as int, n as int),
        decreases 10 - step,
    {
        let mut b: usize = 0;
        let mut found: Option<usize> = None;
        while b < n
            invariant_except_break
                found is None,
            invariant
                n == w@.len(),
                forall|x: int| 0 <= x < n ==> (#[trigger] w@[x])@.len() == n,
                forall|x: int, y: int| 0 <= x < n && 0 <= y < n ==> ((#[trigger] w@[x]@[y]) > 0) == adj(x, y),
                cur < n,
                visited@.len() == n,
                0 <= b <= n,
                first_open(adj, visited@, cur as int, 0, n as int) == first_open(adj, visited@, cur as int, b as int, n as int),
            ensures
                found is Some ==> first_open(adj, visited@, cur as int, 0, n as int) == found->0 as int && found->0 < n,
                found is None ==> first_open(adj, visited@, cur as int, 0, n as int) == -1,
            decreases n - b,
        {
            if w[cur][b] > 0 && !visited[b] {
                found = Some(b);
                break;
            }
            b = b + 1;
        }
        let ghost rest = chain_rest(adj, visited@, cur as int, (10 - step) as nat, n as int);
        match found {
            Some(nb) => {
                let ghost old_chain = chain@.map_values(|x: usize| x as int);
                proof {
                    assert(rest == seq![nb as int] + chain_rest(
                        adj,
                        visited@.update(nb as int, true),
                        nb as int,
                        (10 - step - 1) as nat,
                        n as int,
                    ));
                }
                visited.set(nb, true);
                chain.push(nb);
                assert(chain@.map_values(|x: usize| x as int) =~= old_chain.push(nb as int));
                assert(old_chain.push(nb as int) + chain_rest(adj, visited@, nb as int, (10 - (step + 1)) as nat, n as int)
                    =~= old_chain + rest);
                cur = nb;
            },
            None => {
                proof {
                    lemma_first_open(adj, visited@, cur as int, b as int, n as int);
                    assert(rest == Seq::<int>::empty());
                    assert(chain@.map_values(|x: usize| x as int) + rest =~= chain@.map_values(|x: usize| x as int));
                }
                return chain;
            },
        }
        step = step + 1;
    }
    assert(chain@.map_values(|x: usize| x as int) + chain_rest(adj, visited@, cur as int, 0, n as int)
        =~= chain@.map_values(|x: usize| x as int));
    chain
}

// ---------------------------------------------------------------- spread

/// `p` is a path of directories, each linked to the next.
pub open spec fn is_path(adj: spec_fn(int, int) -> bool, n: int, p: Seq<int>) -> bool {
    &&& p.len() >= 1
    &&& forall|i: int| 0 <= i < p.len() ==> 0 <= #[trigger] p[i] < n
    &&& forall|i: int| 0 <= i < p.len() - 1 ==> adj(#[trigger] p[i], p[i + 1])
}

/// Directory `c` can be reached from `s`.
pub open spec fn reaches(adj: spec_fn(int, int) -> bool, n: int, s: int, c: int) -> bool {
    exists|p: Seq<int>| #[trigger] is_path(adj, n, p) && p[0] == s && p.last() == c
}

/// How many directories can be reached from `s`, `s` included.
pub open spec fn reach_count(adj: spec_fn(int, int) -> bool, n: int, s: int) -> nat {
    count_set(Seq::new(n as nat, |c: int| reaches(adj, n, s, c)))
}

/// How many directories `a` links to among `0..k`.
pub open spec fn out_degree(adj: spec_fn(int, int) -> bool, a: int, k: int) -> nat
    decreases k,
{
    if k <= 0 {
        0
    } else {
        out_degree(adj, a, k - 1) + (if adj(a, k - 1) {
            1nat
        } else {
            0nat
        })
    }
}

/// The last of `0..k` with the most links (`k >= 1`).
pub open spec fn most_linked(adj: spec_fn(int, int) -> bool, k: int, n: int) -> int
    decreases k,
{
    if k <= 1 {
        0
    } else {
        let b = most_linked(adj, k - 1, n);
        if out_degree(adj, k - 1, n) >= out_degree(adj, b, n) {
            k - 1
        } else {
            b
        }
    }
}

/// Every node on a path from a visited start is visited when the visited
/// set is closed under links.
proof fn lemma_closed_paths(adj: spec_fn(int, int) -> bool, n: int, visited: Seq<bool>, p: Seq<int>)
    requires
        visited.len() == n,
        is_path(adj, n, p),
        visited[p[0]],
        forall|x: int, y: int| 0 <= x < n && 0 <= y < n && #[trigger] visited[x] && adj(x, y) ==> #[trigger] visited[y],
    ensures
        visited[p.last()],
    decreases p.len(),
{
    if p.len() > 1 {
        let q = p.drop_last();
        assert(is_path(adj, n, q)) by {
            assert forall|i: int| 0 <= i < q.len() - 1 implies adj(#[trigger] q[i], q[i + 1]) by {
                assert(q[i] == p[i] && q[i + 1] == p[i + 1]);
            }
        }
        lemma_closed_paths(adj, n, visited, q);
        assert(adj(p[p.len() - 2], p[p.len() - 1]));
        assert(visited[q.last()]);
    }
}

/// How many directories can be reached from `start`.
fn reach_size(w: &Vec<Vec<usize>>, start: usize, Ghost(adj): Ghost<spec_fn(int, int) -> bool>) -> (r: usize)
    requires
        start < w@.len(),
        forall|x: int| 0 <= x < w@.len() ==> (#[trigger] w@[x])@.len() == w@.len(),
        forall|x: int, y: int| 0 <= x < w@.len() && 0 <= y < w@.len() ==> ((#[trigger] w@[x]@[y]) > 0) == adj(x, y),
    ensures
        r == reach_count(adj, w@.len() as int, start as int),
{
    let n = w.len();
    let mut visited: Vec<bool> = Vec::new();
    let mut i: usize = 0;
    while i < n
        invariant
            0 <= i <= n,
            visited@.len() == i,
            forall|x: int| 0 <= x < i ==> !#[trigger] visited@[x],
        decreases n - i,
    {
        visited.push(false);
        i = i + 1;
    }
    proof {
        lemma_count_set_zero(visited@);
        lemma_count_set(visited@, start as int);
    }
    let ghost before = visited@;
    visited.set(start, true);
    proof {
        let p = seq![start as int];
        assert(is_path(adj, n as int, p));
    }
    let mut queue: Vec<usize> = Vec::new();
    queue.push(start);
    proof {
        assert forall|x: int| 0 <= x < n && #[trigger] visited@[x] implies queue@.contains(x as usize) by {
            if x != start {
                assert(visited@[x] == before[x]);
            }
            assert(queue@[0] == start);
        }
    }
    let mut count: usize = 1;
    let mut head: usize = 0;
    while head < queue.len()
        invariant
            n == w@.len(),
            forall|x: int| 0 <= x < n ==> (#[trigger] w@[x])@.len() == n,
            forall|x: int, y: int| 0 <= x < n && 0 <= y < n ==> ((#[trigger] w@[x]@[y]) > 0) == adj(x, y),
            start < n,
            visited@.len() == n,
            visited@[start as int],
            count == count_set(visited@),
            count <= n,
            queue@.len() == count,
            0 <= head <= queue@.len(),
            forall|q: int| 0 <= q < queue@.len() ==> #[trigger] queue@[q] < n && visited@[queue@[q] as int],
            forall|x: int| 0 <= x < n && #[trigger] visited@[x] ==> queue@.contains(x as usize),
            forall|x: int| 0 <= x < n && #[trigger] visited@[x] ==> reaches(adj, n as int, start as int, x),
            forall|q: int, y: int|
                0 <= q < head && 0 <= y < n && adj(#[trigger] queue@[q] as int, y) ==> #[trigger] visited@[y],
        decreases n - head,
    {
        let cur = queue[head];
        let mut b: usize = 0;
        while b < n
            invariant
                n == w@.len(),
                forall|x: int| 0 <= x < n ==> (#[trigger] w@[x])@.len() == n,
                forall|x: int, y: int| 0 <= x < n && 0 <= y < n ==> ((#[trigger] w@[x]@[y]) > 0) == adj(x, y),
                start < n,
                cur < n,
                visited@[cur as int],
                head < queue@.len(),
                queue@[head as int] == cur,
                visited@.len() == n,
                visited@[start as int],
                count == count_set(visited@),
                count <= n,
                queue@.len() == count,
                0 <= b <= n,
                forall|q: int| 0 <= q < queue@.len() ==> #[trigger] queue@[q] < n && visited@[queue@[q] as int],
                forall|x: int| 0 <= x < n && #[trigger] visited@[x] ==> queue@.contains(x as usize),
                forall|x: int| 0 <= x < n && #[trigger] visited@[x] ==> reaches(adj, n as int, start as int, x),
                forall|q: int, y: int|
                    0 <= q < head && 0 <= y < n && adj(#[trigger] queue@[q] as int, y) ==> #[trigger] visited@[y],
                forall|y: int| 0 <= y < b && adj(cur as int, y) ==> #[trigger] visited@[y],
            decreases n - b,
        {
            if w[cur][b] > 0 && !visited[b] {
                proof {
                    lemma_count_set(visited@, b as int);
                    let pw = choose|p: Seq<int>| #[trigger] is_path(adj, n as int, p) && p[0] == start as int && p.last() == cur as int;
                    let p2 = pw.push(b as int);
                    assert(is_path(adj, n as int, p2)) by {
                        assert forall|i: int| 0 <= i < p2.len() - 1 implies adj(#[trigger] p2[i], p2[i + 1]) by {
                            if i < pw.len() - 1 {
                                assert(p2[i] == pw[i] && p2[i + 1] == pw[i + 1]);
                            }
                        }
                    }
                    assert(reaches(adj, n as int, start as int, b as int));
                }
                let ghost old_q = queue@;
                let ghost old_v = visited@;
                visited.set(b, true);
                queue.push(b);
                count = count + 1;
                proof {
                    assert forall|x: int| 0 <= x < n && #[trigger] visited@[x] implies queue@.contains(x as usize) by {
                        if x == b {
                            assert(queue@[queue@.len() - 1] == b);
                        } else {
                            assert(old_v[x]);
                            let w2 = choose|w2: int| 0 <= w2 < old_q.len() && old_q[w2] == x as usize;
                            assert(queue@[w2] == x as usize);
                        }
                    }
                    assert forall|q: int, y: int|
                        0 <= q < head && 0 <= y < n && adj(#[trigger] queue@[q] as int, y) implies #[trigger] visited@[y] by {
                        assert(queue@[q] == old_q[q]);
                    }
                }
            }
            b = b + 1;
        }
        head = head + 1;
    }
    proof {
        let flags = Seq::new(n as nat, |c: int| reaches(adj, n as int, start as int, c));
        assert forall|c: int| 0 <= c < n implies visited@[c] == flags[c] by {
            if reaches(adj, n as int, start as int, c) {
                let p = choose|p: Seq<int>| #[trigger] is_path(adj, n as int, p) && p[0] == start as int && p.last() == c;
                assert forall|x: int, y: int|
                    0 <= x < n && 0 <= y < n && #[trigger] visited@[x] && adj(x, y) implies #[trigger] visited@[y] by {
                    assert(queue@.contains(x as usize));
                    let q = choose|q: int| 0 <= q < queue@.len() && queue@[q] == x as usize;
                }
                lemma_closed_paths(adj, n as int, visited@, p);
            }
        }
        assert(visited@ =~= flags);
    }
    count
}

// ---------------------------------------------------------------- report

/// What `deps` answers, for the sorted distinct directories `cl` and the
/// orders `o1` of the links and `o2` of the chains.
pub open spec fn deps_ok(
    graph: CodeGraph,
    from: Option<Seq<char>>,
    limit: usize,
    r: DepsReport,
    cl: Seq<Seq<char>>,
    o1: Seq<usize>,
    o2: Seq<usize>,
) -> bool {
    let pv = dep_pairs(graph.nodes@, graph.edges@);
    let n = cl.len() as int;
    let adj = links(pv, cl);
    let cands = link_candidates(pv, cl, from, n);
    let ws = cands.map_values(|c: (int, int)| link_weight(pv, cl, c.0, c.1) as usize);
    let chains = chain_candidates(adj, n, n);
    let lens = chains.map_values(|a: int| greedy_chain(adj, a, n).len() as usize);
    &&& module_table(cl, pair_names(pv))
    &&& sorted_positions(o1, cands.len() as int, larger_first(ws))
    &&& r.items@.len() == if cands.len() <= limit {
        cands.len() as int
    } else {
        limit as int
    }
    &&& forall|k: int|
        0 <= k < r.items@.len() ==> {
            let c = cands[o1[k] as int];
            &&& (#[trigger] r.items@[k]).from@ == cl[c.0]
            &&& r.items@[k].to@ == cl[c.1]
            &&& r.items@[k].weight == ws[o1[k] as int]
        }
    &&& sorted_positions(o2, chains.len() as int, larger_first(lens))
    &&& r.recompile_impact@.len() == chains.len()
    &&& forall|k: int|
        0 <= k < r.recompile_impact@.len() ==> (#[trigger] r.recompile_impact@[k]).chain@.map_values(
            |s: String| s@,
        ) == greedy_chain(adj, chains[o2[k] as int], n).map_values(|x: int| cl[x])
    &&& r.total_recompile_modules == if n == 0 {
        0
    } else {
        reach_count(adj, n, most_linked(adj, n, n))
    }
}

/// Directory-level dependencies of the graph, optionally only those from
/// the directory of `from`: the heaviest `limit` links, the greedy chains of
/// three directories or more (longest first), and how many directories can
/// be reached from the most linked one.
pub fn deps(graph: &CodeGraph, from: Option<&str>, limit: usize) -> (r: DepsReport)
    ensures
        exists|cl: Seq<Seq<char>>, o1: Seq<usize>, o2: Seq<usize>|
            #[trigger] deps_ok(
                *graph,
                opt_str_view(from),
                limit,
                r,
                cl,
                o1,
                o2,
            ),
{
    let ghost fv: Option<Seq<char>> = opt_str_view(from);
    let pairs = collect_pairs(graph);
    let ghost pv = pairs@.map_values(|p: (String, String)| (p.0@, p.1@));
    let mut names: Vec<String> = Vec::new();
    let mut k: usize = 0;
    while k < pairs.len()
        invariant
            0 <= k <= pairs@.len(),
            pv == pairs@.map_values(|p: (String, String)| (p.0@, p.1@)),
            names@.map_values(|s: String| s@) == pair_names(pv.take(k as int)),
        decreases pairs@.len() - k,
    {
        let ghost old_n = names@.map_values(|s: String| s@);
        names.push(owned(pairs[k].0.as_str()));
        names.push(owned(pairs[k].1.as_str()));
        assert(pv.take(k + 1).drop_last() =~= pv.take(k as int));
        assert(names@.map_values(|s: String| s@) =~= pair_names(pv.take(k + 1)));
        k = k + 1;
    }
    assert(pv.take(pv.len() as int) =~= pv);
    let cl = sorted_distinct(&names);
    let ghost clv = cl@.map_values(|s: String| s@);
    let n = cl.len();
    let w = weight_matrix(&pairs, &cl);
    let ghost adj = links(pv, clv);
    assert forall|x: int, y: int| 0 <= x < n && 0 <= y < n implies ((#[trigger] w@[x]@[y]) > 0) == adj(x, y) by {
        assert(w@[x]@[y] == link_weight(pv, clv, x, y));
    }
    // the heaviest links
    let from_key: Option<String> = match from {
        Some(f) => Some(cluster_key(f)),
        None => None,
    };
    let mut cands: Vec<(usize, usize)> = Vec::new();
    let mut ws: Vec<usize> = Vec::new();
    let mut a: usize = 0;
    while a < n
        invariant
            0 <= a <= n,
            n == cl@.len(),
            clv == cl@.map_values(|s: String| s@),
            w@.len() == n,
            forall|x: int| 0 <= x < n ==> (#[trigger] w@[x])@.len() == n,
            forall|x: int, y: int| 0 <= x < n && 0 <= y < n ==> (#[trigger] w@[x]@[y]) == link_weight(pv, clv, x, y),
            match from_key {
                Some(fk) => fv is Some && fk@ == cluster_key_spec(fv->0),
                None => fv is None,
            },
            cands@.map_values(|c: (usize, usize)| (c.0 as int, c.1 as int)) == link_candidates(pv, clv, fv, a as int),
            ws@.len() == cands@.len(),
            forall|q: int| 0 <= q < cands@.len() ==> #[trigger] ws@[q] == link_weight(pv, clv, cands@[q].0 as int, cands@[q].1 as int),
            forall|q: int| 0 <= q < cands@.len() ==> (#[trigger] cands@[q]).0 < n && cands@[q].1 < n,
        decreases n - a,
    {
        let keep = match &from_key {
            Some(fk) => str_eq(cl[a].as_str(), fk.as_str()),
            None => true,
        };
        let mut b: usize = 0;
        let ghost base = cands@.map_values(|c: (usize, usize)| (c.0 as int, c.1 as int));
        while b < n
            invariant
                0 <= b <= n,
                a < n,
                n == cl@.len(),
                clv == cl@.map_values(|s: String| s@),
                w@.len() == n,
                forall|x: int| 0 <= x < n ==> (#[trigger] w@[x])@.len() == n,
                forall|x: int, y: int| 0 <= x < n && 0 <= y < n ==> (#[trigger] w@[x]@[y]) == link_weight(pv, clv, x, y),
                keep == keeps(clv, fv, a as int),
                cands@.map_values(|c: (usize, usize)| (c.0 as int, c.1 as int)) == base + row_candidates(pv, clv, fv, a as int, b as int),
                ws@.len() == cands@.len(),
                forall|q: int| 0 <= q < cands@.len() ==> #[trigger] ws@[q] == link_weight(pv, clv, cands@[q].0 as int, cands@[q].1 as int),
                forall|q: int| 0 <= q < cands@.len() ==> (#[trigger] cands@[q]).0 < n && cands@[q].1 < n,
            decreases n - b,
        {
            let ghost old_c = cands@.map_values(|c: (usize, usize)| (c.0 as int, c.1 as int));
            if w[a][b] > 0 && keep {
                cands.push((a, b));
                ws.push(w[a][b]);
                assert(cands@.map_values(|c: (usize, usize)| (c.0 as int, c.1 as int)) =~= old_c.push((a as int, b as int)));
            }
            assert(base + row_candidates(pv, clv, fv, a as int, b + 1) =~= (if link_weight(pv, clv, a as int, b as int) > 0 && keeps(clv, fv, a as int) {
                (base + row_candidates(pv, clv, fv, a as int, b as int)).push((a as int, b as int))
            } else {
                base + row_candidates(pv, clv, fv, a as int, b as int)
            }));
            b = b + 1;
        }
        a = a + 1;
    }
    let ghost cv = link_candidates(pv, clv, fv, n as int);
    let ghost wsv = cv.map_values(|c: (int, int)| link_weight(pv, clv, c.0, c.1) as usize);
    assert(ws@ =~= wsv);
    let m = cands.len();
    let ghost lt1 = larger_first(ws@);
    let before1 = |x: usize, y: usize| -> (b: bool)
        requires
            x < ws@.len(),
            y < ws@.len(),
        ensures
            b == (ws@[x as int] > ws@[y as int] || (ws@[x as int] == ws@[y as int] && x < y)),
        { ws[x] > ws[y] || (ws[x] == ws[y] && x < y) };
    let o1 = sort_positions(m, &before1, Ghost(lt1));
    let take = if m <= limit { m } else { limit };
    let mut items: Vec<DepItem> = Vec::new();
    let mut q: usize = 0;
    while q < take
        invariant
            0 <= q <= take,
            take <= m,
            m == cands@.len(),
            m == ws@.len(),
            n == cl@.len(),
            clv == cl@.map_values(|s: String| s@),
            cands@.map_values(|c: (usize, usize)| (c.0 as int, c.1 as int)) == cv,
            forall|x: int| 0 <= x < cands@.len() ==> (#[trigger] cands@[x]).0 < n && cands@[x].1 < n,
            sorted_positions(o1@, m as int, lt1),
            items@.len() == q,
            forall|k: int|
                0 <= k < q ==> {
                    let c = cv[o1@[k] as int];
                    &&& (#[trigger] items@[k]).from@ == clv[c.0]
                    &&& items@[k].to@ == clv[c.1]
                    &&& items@[k].weight == ws@[o1@[k] as int]
                },
        decreases take - q,
    {
        let c = cands[o1[q]];
        assert(cv[o1@[q as int] as int] == (c.0 as int, c.1 as int));
        items.push(DepItem { from: owned(cl[c.0].as_str()), to: owned(cl[c.1].as_str()), weight: ws[o1[q]] });
        q = q + 1;
    }
    // chains of three or more
    let mut chains: Vec<Vec<usize>> = Vec::new();
    let mut starts: Vec<usize> = Vec::new();
    let mut lens: Vec<usize> = Vec::new();
    let mut a: usize = 0;
    while a < n
        invariant
            0 <= a <= n,
            n == w@.len(),
            forall|x: int| 0 <= x < n ==> (#[trigger] w@[x])@.len() == n,
            forall|x: int, y: int| 0 <= x < n && 0 <= y < n ==> ((#[trigger] w@[x]@[y]) > 0) == adj(x, y),
            starts@.map_values(|x: usize| x as int) == chain_candidates(adj, a as int, n as int),
            chains@.len() == starts@.len(),
            lens@.len() == starts@.len(),
            forall|k: int| 0 <= k < chains@.len() ==> (#[trigger] chains@[k])@.map_values(|x: usize| x as int)
                == greedy_chain(adj, starts@[k] as int, n as int),
            forall|k: int| 0 <= k < chains@.len() ==> #[trigger] lens@[k] == chains@[k]@.len(),
            forall|k: int, j: int| 0 <= k < chains@.len() && 0 <= j < chains@[k]@.len() ==> #[trigger] chains@[k]@[j] < n,
        decreases n - a,
    {
        let ch = chain_of(&w, a, Ghost(adj));
        let ghost old_s = starts@.map_values(|x: usize| x as int);
        if ch.len() >= 3 {
            lens.push(ch.len());
            chains.push(ch);
            starts.push(a);
            assert(starts@.map_values(|x: usize| x as int) =~= old_s.push(a as int));
        }
        proof {
            assert(ch@.len() == greedy_chain(adj, a as int, n as int).len());
        }
        a = a + 1;
    }
    let ghost chv = chain_candidates(adj, n as int, n as int);
    let ghost lensv = chv.map_values(|x: int| greedy_chain(adj, x, n as int).len() as usize);
    assert forall|k: int| 0 <= k < lens@.len() implies #[trigger] lens@[k] == lensv[k] by {
        assert(chains@[k]@.map_values(|x: usize| x as int).len() == chains@[k]@.len());
    }
    assert(lens@ =~= lensv);
    let cn = chains.len();
    let ghost lt2 = larger_first(lens@);
    let before2 = |x: usize, y: usize| -> (b: bool)
        requires
            x < lens@.len(),
            y < lens@.len(),
        ensures
            b == (lens@[x as int] > lens@[y as int] || (lens@[x as int] == lens@[y as int] && x < y)),
        { lens[x] > lens[y] || (lens[x] == lens[y] && x < y) };
    let o2 = sort_positions(cn, &before2, Ghost(lt2));
    let mut impact: Vec<RecompileChain> = Vec::new();
    let mut q: usize = 0;
    while q < cn
        invariant
            0 <= q <= cn,
            cn == chains@.len(),
            n == cl@.len(),
            clv == cl@.map_values(|s: String| s@),
            starts@.map_values(|x: usize| x as int) == chv,
            chains@.len() == starts@.len(),
            forall|k: int| 0 <= k < chains@.len() ==> (#[trigger] chains@[k])@.map_values(|x: usize| x as int)
                == greedy_chain(adj, starts@[k] as int, n as int),
            forall|k: int, j: int| 0 <= k < chains@.len() && 0 <= j < chains@[k]@.len() ==> #[trigger] chains@[k]@[j] < n,
            sorted_positions(o2@, cn as int, lt2),
            impact@.len() == q,
            forall|k: int|
                0 <= k < q ==> (#[trigger] impact@[k]).chain@.map_values(|s: String| s@) == greedy_chain(
                    adj,
                    chv[o2@[k] as int],
                    n as int,
                ).map_values(|x: int| clv[x]),
        decreases cn - q,
    {
        let ch = &chains[o2[q]];
        let mut names: Vec<String> = Vec::new();
        let mut j: usize = 0;
        while j < ch.len()
            invariant
                0 <= j <= ch@.len(),
                n == cl@.len(),
                forall|x: int| 0 <= x < ch@.len() ==> #[trigger] ch@[x] < n,
                names@.len() == j,
                forall|x: int| 0 <= x < j ==> (#[trigger] names@[x])@ == cl@[ch@[x] as int]@,
            decreases ch@.len() - j,
        {
            names.push(owned(cl[ch[j]].as_str()));
            j = j + 1;
        }
        proof {
            let g = greedy_chain(adj, chv[o2@[q as int] as int], n as int);
            assert(ch@.map_values(|x: usize| x as int) == g);
            let nv = names@.map_values(|s: String| s@);
            let gv = g.map_values(|y: int| clv[y]);
            assert forall|x: int| 0 <= x < g.len() implies #[trigger] nv[x] == gv[x] by {
                assert(g[x] == ch@[x] as int);
            }
            assert(nv =~= gv);
        }
        impact.push(RecompileChain { chain: names });
        q = q + 1;
    }
    // how far a change to the most linked directory spreads
    let total = if n == 0 {
        0
    } else {
        let mut best: usize = 0;
        let mut best_deg: usize = out_links(&w, 0, Ghost(adj));
        let mut a: usize = 1;
        while a < n
            invariant
                1 <= a <= n,
                n == w@.len(),
                forall|x: int| 0 <= x < n ==> (#[trigger] w@[x])@.len() == n,
                forall|x: int, y: int| 0 <= x < n && 0 <= y < n ==> ((#[trigger] w@[x]@[y]) > 0) == adj(x, y),
                best < n,
                best as int == most_linked(adj, a as int, n as int),
                best_deg == out_degree(adj, best as int, n as int),
            decreases n - a,
        {
            let d = out_links(&w, a, Ghost(adj));
            if d >= best_deg {
                best = a;
                best_deg = d;
            }
            a = a + 1;
        }
        reach_size(&w, best, Ghost(adj))
    };
    let r = DepsReport { items, recompile_impact: impact, total_recompile_modules: total };
    assert(deps_ok(*graph, fv, limit, r, clv, o1@, o2@));
    r
}

/// How many directories `a` links to.
fn out_links(w: &Vec<Vec<usize>>, a: usize, Ghost(adj): Ghost<spec_fn(int, int) -> bool>) -> (r: usize)
    requires
        a < w@.len(),
        forall|x: int| 0 <= x < w@.len() ==> (#[trigger] w@[x])@.len() == w@.len(),
        forall|x: int, y: int| 0 <= x < w@.len() && 0 <= y < w@.len() ==> ((#[trigger] w@[x]@[y]) > 0) == adj(x, y),
    ensures
        r == out_degree(adj, a as int, w@.len() as int),
{
    let n = w.len();
    let mut c: usize = 0;
    let mut b: usize = 0;
    while b < n
        invariant
            0 <= b <= n,
            n == w@.len(),
            a < n,
            forall|x: int| 0 <= x < n ==> (#[trigger] w@[x])@.len() == n,
            forall|x: int, y: int| 0 <= x < n && 0 <= y < n ==> ((#[trigger] w@[x]@[y]) > 0) == adj(x, y),
            c == out_degree(adj, a as int, b as int),
            c <= b,
        decreases n - b,
    {
        if w[a][b] > 0 {
            c = c + 1;
        }
        b = b + 1;
    }
    c
}

} // verus!
