//! How many functions carry type annotations, overall and by module, and
//! which do not.

use vstd::prelude::*;
use vstd::hash_map::StringHashMap;
use crate::analyze::refactor_order::{lemma_names_distinct, module_table, sorted_distinct};
use crate::model::{CodeGraph, Node, NodeKind, occurrences, views};
use crate::sorting::{lemma_seq_lt_irreflexive, lemma_seq_lt_total, lemma_seq_lt_transitive, seq_lt, sort_positions, sorted_positions, str_lt};
use crate::text::{contains, has_char, owned, seq_contains, split_char, split_spec};

verus! {

/// Functions, methods, properties and the like.
pub open spec fn is_function_like(k: NodeKind) -> bool {
    k == NodeKind::Function || k == NodeKind::AsyncFunction || k == NodeKind::Method || k == NodeKind::AsyncMethod
        || k == NodeKind::ClassMethod || k == NodeKind::StaticMethod || k == NodeKind::Property || k
        == NodeKind::Generator || k == NodeKind::Constructor || k == NodeKind::Dunder
}

/// A signature with a return type (`->`) or a parameter annotation (`:`).
pub open spec fn is_typed(n: Node) -> bool {
    n.signature is Some && (seq_contains(n.signature->0@, "->"@) || n.signature->0@.contains(':'))
}

/// The module of a file: its first path component, or `unknown`.
pub open spec fn module_key_spec(file: Option<Seq<char>>) -> Seq<char> {
    match file {
        Some(f) => if split_spec(f, '/')[0].len() > 0 {
            split_spec(f, '/')[0]
        } else {
            "unknown"@
        },
        None => "unknown"@,
    }
}

/// The module of a file.
pub fn module_key(file: Option<&str>) -> (r: String)
    ensures
        r@ == module_key_spec(match file { Some(f) => Some(f@), None => None }),
{
    proof {
        reveal_strlit("unknown");
    }
    match file {
        Some(f) => {
            let parts = split_char(f, '/');
            proof {
                crate::text::lemma_split_from_nonempty(f@, '/', 0);
            }
            if parts[0].as_str().unicode_len() > 0 {
                owned(parts[0].as_str())
            } else {
                owned("unknown")
            }
        },
        None => owned("unknown"),
    }
}

/// The function-like nodes among the first `k`, by position.
pub open spec fn function_positions(nodes: Seq<Node>, k: int) -> Seq<int>
    decreases k,
{
    if k <= 0 {
        Seq::empty()
    } else {
        let prev = function_positions(nodes, k - 1);
        if is_function_like(nodes[k - 1].kind) {
            prev.push(k - 1)
        } else {
            prev
        }
    }
}

/// The function-like nodes without type annotations among the first `k`.
pub open spec fn untyped_positions(nodes: Seq<Node>, k: int) -> Seq<int>
    decreases k,
{
    if k <= 0 {
        Seq::empty()
    } else {
        let prev = untyped_positions(nodes, k - 1);
        if is_function_like(nodes[k - 1].kind) && !is_typed(nodes[k - 1]) {
            prev.push(k - 1)
        } else {
            prev
        }
    }
}

/// The module of each function-like node among the first `k`, and whether
/// it is typed.
pub open spec fn function_modules(nodes: Seq<Node>, k: int) -> Seq<(Seq<char>, bool)>
    decreases k,
{
    if k <= 0 {
        Seq::empty()
    } else {
        let prev = function_modules(nodes, k - 1);
        let n = nodes[k - 1];
        if is_function_like(n.kind) {
            prev.push((module_key_spec(match n.file { Some(f) => Some(f@), None => None }), is_typed(n)))
        } else {
            prev
        }
    }
}

/// How many functions of module `m` there are, and how many are typed.
pub open spec fn module_total(fm: Seq<(Seq<char>, bool)>, m: Seq<char>) -> nat
    decreases fm.len(),
{
    if fm.len() == 0 {
        0
    } else {
        module_total(fm.drop_last(), m) + (if fm.last().0 == m { 1nat } else { 0nat })
    }
}

/// How many functions of module `m` are typed.
pub open spec fn module_typed(fm: Seq<(Seq<char>, bool)>, m: Seq<char>) -> nat
    decreases fm.len(),
{
    if fm.len() == 0 {
        0
    } else {
        module_typed(fm.drop_last(), m) + (if fm.last().0 == m && fm.last().1 { 1nat } else { 0nat })
    }
}

/// The module names, one per function.
pub open spec fn module_names(fm: Seq<(Seq<char>, bool)>) -> Seq<Seq<char>> {
    fm.map_values(|e: (Seq<char>, bool)| e.0)
}

/// The coverage of one module.
pub struct ModuleCoverage {
    pub module: String,
    pub total: usize,
    pub typed: usize,
}

/// Module order: lower coverage first, then more functions, then by name.
/// Coverage is compared as the exact ratio `typed / total`.
pub open spec fn coverage_before(t1: nat, y1: nat, m1: Seq<char>, t2: nat, y2: nat, m2: Seq<char>) -> bool {
    y1 * t2 < y2 * t1 || (y1 * t2 == y2 * t1 && (t1 > t2 || (t1 == t2 && seq_lt(m1, m2))))
}

/// Nodes at `ps` ordered by qualified name, ties in order.
pub open spec fn by_qualified_name(nodes: Seq<Node>, ps: Seq<int>) -> spec_fn(int, int) -> bool {
    |a: int, b: int| seq_lt(nodes[ps[a]].qualified_name@, nodes[ps[b]].qualified_name@)
        || (nodes[ps[a]].qualified_name@ == nodes[ps[b]].qualified_name@ && a < b)
}

/// What `type_coverage` finds.
pub struct TypeCoverage {
    pub by_module: Vec<ModuleCoverage>,
    /// Positions of untyped functions, by qualified name.
    pub untyped: Vec<usize>,
    pub total_functions: usize,
    pub typed_functions: usize,
}

/// Cross-multiplied ratio comparisons chain.
proof fn lemma_ratio_chain(y1: nat, t1: nat, y2: nat, t2: nat, y3: nat, t3: nat)
    requires
        t1 > 0,
        t2 > 0,
        t3 > 0,
        y1 * t2 <= y2 * t1,
        y2 * t3 <= y3 * t2,
    ensures
        y1 * t3 <= y3 * t1,
        (y1 * t2 < y2 * t1 || y2 * t3 < y3 * t2) ==> y1 * t3 < y3 * t1,
{
    assert(y1 * t2 * t3 <= y2 * t1 * t3) by (nonlinear_arith)
        requires
            y1 * t2 <= y2 * t1,
    ;
    assert(y2 * t3 * t1 <= y3 * t2 * t1) by (nonlinear_arith)
        requires
            y2 * t3 <= y3 * t2,
    ;
    assert(t2 * (y1 * t3) <= t2 * (y3 * t1)) by (nonlinear_arith)
        requires
            y1 * t2 * t3 <= y2 * t1 * t3,
            y2 * t3 * t1 <= y3 * t2 * t1,
    ;
    assert(y1 * t3 <= y3 * t1) by (nonlinear_arith)
        requires
            t2 > 0,
            t2 * (y1 * t3) <= t2 * (y3 * t1),
    ;
    if y1 * t2 < y2 * t1 || y2 * t3 < y3 * t2 {
        assert(t2 * (y1 * t3) < t2 * (y3 * t1)) by (nonlinear_arith)
            requires
                y1 * t2 <= y2 * t1,
                y2 * t3 <= y3 * t2,
                y1 * t2 < y2 * t1 || y2 * t3 < y3 * t2,
                t1 > 0,
                t3 > 0,
        ;
        assert(y1 * t3 < y3 * t1) by (nonlinear_arith)
            requires
                t2 > 0,
                t2 * (y1 * t3) < t2 * (y3 * t1),
        ;
    }
}

/// Type-annotation coverage of the function-like nodes: overall, by
/// module (lowest coverage first), and the first `limit` untyped functions
/// by qualified name.
pub fn type_coverage(graph: &CodeGraph, limit: usize) -> (r: TypeCoverage)
    ensures
        ({
            let nodes = graph.nodes@;
            let fm = function_modules(nodes, nodes.len() as int);
            let bm = r.by_module@;
            let un = untyped_positions(nodes, nodes.len() as int);
            &&& r.total_functions == function_positions(nodes, nodes.len() as int).len()
            &&& r.typed_functions == function_positions(nodes, nodes.len() as int).len() - un.len()
            &&& bm.map_values(|m: ModuleCoverage| m.module@).no_duplicates()
            &&& forall|m: Seq<char>| #[trigger] module_names(fm).contains(m) <==> bm.map_values(|x: ModuleCoverage| x.module@).contains(m)
            &&& forall|k: int| 0 <= k < bm.len() ==> (#[trigger] bm[k]).total == module_total(fm, bm[k].module@) && bm[k].typed == module_typed(fm, bm[k].module@)
            &&& forall|i: int, j: int| 0 <= i < j < bm.len() ==> coverage_before(
                (#[trigger] bm[i]).total as nat,
                bm[i].typed as nat,
                bm[i].module@,
                (#[trigger] bm[j]).total as nat,
                bm[j].typed as nat,
                bm[j].module@,
            )
            &&& exists|order: Seq<usize>|
                #[trigger] sorted_positions(order, un.len() as int, by_qualified_name(nodes, un))
                    && r.untyped@.len() == (if un.len() <= limit { un.len() as int } else { limit as int })
                    && forall|k: int| 0 <= k < r.untyped@.len() ==> #[trigger] r.untyped@[k] as int == un[order[k] as int]
        }),
{
    let ghost nodes = graph.nodes@;
    let n = graph.nodes.len();
    let mut keys: Vec<String> = Vec::new();
    let mut flags: Vec<bool> = Vec::new();
    let mut untyped: Vec<usize> = Vec::new();
    let mut total: usize = 0;
    let mut i: usize = 0;
    proof {
        reveal_strlit("->");
    }
    while i < n
        invariant
            graph.nodes@ == nodes,
            n == nodes.len(),
            0 <= i <= n,
            keys@.len() == flags@.len(),
            keys@.len() == total,
            total == function_positions(nodes, i as int).len(),
            total <= i,
            untyped@.map_values(|p: usize| p as int) == untyped_positions(nodes, i as int),
            untyped@.len() <= total,
            forall|k: int| 0 <= k < untyped@.len() ==> #[trigger] untyped@[k] < i,
            views(keys@) == module_names(function_modules(nodes, i as int)),
            forall|k: int| 0 <= k < keys@.len() ==> #[trigger] flags@[k] == function_modules(nodes, i as int)[k].1,
            function_modules(nodes, i as int).len() == keys@.len(),
        decreases n - i,
    {
        let node = &graph.nodes[i];
        let f = match node.kind {
            NodeKind::Function | NodeKind::AsyncFunction | NodeKind::Method | NodeKind::AsyncMethod
            | NodeKind::ClassMethod | NodeKind::StaticMethod | NodeKind::Property | NodeKind::Generator
            | NodeKind::Constructor | NodeKind::Dunder => true,
            _ => false,
        };
        let ghost old_k = views(keys@);
        let ghost old_u = untyped@.map_values(|p: usize| p as int);
        let ghost old_f = flags@;
        if f {
            let typed = match &node.signature {
                Some(sig) => contains(sig.as_str(), "->") || has_char(sig.as_str(), ':'),
                None => false,
            };
            let file: Option<&str> = match &node.file {
                Some(x) => Some(x.as_str()),
                None => None,
            };
            let key = module_key(file);
            keys.push(key);
            flags.push(typed);
            total = total + 1;
            if !typed {
                untyped.push(i);
                assert(untyped@.map_values(|p: usize| p as int) =~= old_u.push(i as int));
            }
            proof {
                let fm0 = function_modules(nodes, i as int);
                let fm1 = function_modules(nodes, i + 1);
                assert(fm1 == fm0.push((module_key_spec(match node.file { Some(f) => Some(f@), None => None }), is_typed(*node))));
                assert(views(keys@) =~= old_k.push(module_key_spec(match node.file { Some(f) => Some(f@), None => None })));
                assert(module_names(fm1) =~= module_names(fm0).push(fm1.last().0));
                assert forall|k: int| 0 <= k < keys@.len() implies #[trigger] flags@[k] == fm1[k].1 by {
                    if k < old_f.len() {
                        assert(flags@[k] == old_f[k]);
                    }
                }
            }
        }
        i = i + 1;
    }
    let ghost fm = function_modules(nodes, n as int);
    let mods = sorted_distinct(&keys);
    let ghost mv = views(mods@);
    assert(mv == mods@.map_values(|s: String| s@));
    assert(views(keys@) == keys@.map_values(|s: String| s@));
    proof {
        lemma_names_distinct(mv);
    }
    // per-module counts
    let m = mods.len();
    let mut idx: StringHashMap<usize> = StringHashMap::new();
    let mut totals: Vec<usize> = Vec::new();
    let mut typeds: Vec<usize> = Vec::new();
    let mut k: usize = 0;
    while k < m
        invariant
            0 <= k <= m,
            m == mods@.len(),
            mv == views(mods@),
            mv.no_duplicates(),
            totals@.len() == k,
            typeds@.len() == k,
            forall|q: int| 0 <= q < k ==> #[trigger] totals@[q] == 0,
            forall|q: int| 0 <= q < k ==> #[trigger] typeds@[q] == 0,
            forall|f: Seq<char>| #[trigger] idx@.contains_key(f) ==> idx@[f] < k && mv[idx@[f] as int] == f,
            forall|q: int| 0 <= q < k ==> #[trigger] idx@.contains_key(mv[q]),
        decreases m - k,
    {
        let ghost old_idx = idx@;
        idx.insert(owned(mods[k].as_str()), k);
        totals.push(0);
        typeds.push(0);
        proof {
            assert forall|f: Seq<char>| #[trigger] idx@.contains_key(f) implies idx@[f] < k + 1 && mv[idx@[f] as int] == f by {
                if f != mv[k as int] {
                    assert(old_idx.contains_key(f));
                }
            }
            assert forall|q: int| 0 <= q < k + 1 implies #[trigger] idx@.contains_key(mv[q]) by {
                if q < k {
                    assert(old_idx.contains_key(mv[q]));
                }
            }
        }
        k = k + 1;
    }
    let nk = keys.len();
    let mut j: usize = 0;
    while j < nk
        invariant
            0 <= j <= nk,
            nk == keys@.len(),
            nk == flags@.len(),
            fm.len() == nk,
            views(keys@) == module_names(fm),
            forall|q: int| 0 <= q < nk ==> #[trigger] flags@[q] == fm[q].1,
            m == mods@.len(),
            mv == views(mods@),
            mv.no_duplicates(),
            module_table(mv, module_names(fm)),
            forall|f: Seq<char>| #[trigger] idx@.contains_key(f) ==> idx@[f] < m && mv[idx@[f] as int] == f,
            forall|q: int| 0 <= q < m ==> #[trigger] idx@.contains_key(mv[q]),
            totals@.len() == m,
            typeds@.len() == m,
            forall|q: int| 0 <= q < m ==> #[trigger] totals@[q] == module_total(fm.take(j as int), mv[q]),
            forall|q: int| 0 <= q < m ==> #[trigger] typeds@[q] == module_typed(fm.take(j as int), mv[q]),
            forall|q: int| 0 <= q < m ==> #[trigger] totals@[q] <= j,
            forall|q: int| 0 <= q < m ==> #[trigger] typeds@[q] <= totals@[q],
        decreases nk - j,
    {
        let ghost pre = fm.take(j as int);
        let ghost cur = fm.take(j + 1);
        assert(cur.drop_last() =~= pre);
        assert(cur.last() == fm[j as int]);
        assert(module_names(fm)[j as int] == keys@[j as int]@);
        assert(module_names(fm).contains(keys@[j as int]@));
        let t = match idx.get(keys[j].as_str()) {
            Some(t) => *t,
            None => 0,
        };
        assert(mv.contains(keys@[j as int]@));
        proof {
            let w = choose|w: int| 0 <= w < mv.len() && mv[w] == keys@[j as int]@;
            assert(idx@.contains_key(mv[w]));
        }
        let ghost ot = totals@;
        let ghost oy = typeds@;
        let nt = totals[t] + 1;
        totals.set(t, nt);
        if flags[j] {
            let ny = typeds[t] + 1;
            typeds.set(t, ny);
        }
        proof {
            assert forall|q: int| 0 <= q < m implies #[trigger] totals@[q] == module_total(cur, mv[q]) by {
                if q != t {
                    assert(mv[q] != mv[t as int]);
                }
            }
            assert forall|q: int| 0 <= q < m implies #[trigger] typeds@[q] == module_typed(cur, mv[q]) by {
                if q != t {
                    assert(mv[q] != mv[t as int]);
                }
            }
            assert forall|q: int| 0 <= q < m implies #[trigger] typeds@[q] <= totals@[q] by {
                if q != t {
                    assert(typeds@[q] == oy[q] && totals@[q] == ot[q]);
                }
            }
        }
        j = j + 1;
    }
    assert(fm.take(nk as int) =~= fm);
    // every module has a function
    proof {
        assert forall|q: int| 0 <= q < m implies #[trigger] totals@[q] >= 1 by {
            assert(module_names(fm).contains(mv[q]));
            let w = choose|w: int| 0 <= w < module_names(fm).len() && module_names(fm)[w] == mv[q];
            lemma_module_total_pos(fm, w);
        }
    }
    let ghost lt = |a: int, b: int| coverage_before(totals@[a] as nat, typeds@[a] as nat, mv[a], totals@[b] as nat, typeds@[b] as nat, mv[b]);
    proof {
        assert forall|a: int| 0 <= a < m implies !#[trigger] lt(a, a) by {
            lemma_seq_lt_irreflexive(mv[a]);
        }
        assert forall|a: int, b: int| 0 <= a < m && 0 <= b < m && a != b implies #[trigger] lt(a, b) || #[trigger] lt(b, a) by {
            if a < b {
                assert(mv[a] != mv[b]);
            } else {
                assert(mv[b] != mv[a]);
            }
            lemma_seq_lt_total(mv[a], mv[b]);
        }
        assert forall|a: int, b: int, c: int|
            0 <= a < m && 0 <= b < m && 0 <= c < m && #[trigger] lt(a, b) && #[trigger] lt(b, c) implies lt(a, c) by {
            let (t1, y1, t2, y2, t3, y3) = (totals@[a] as nat, typeds@[a] as nat, totals@[b] as nat, typeds@[b] as nat, totals@[c] as nat, typeds@[c] as nat);
            lemma_ratio_chain(y1, t1, y2, t2, y3, t3);
            if y1 * t2 == y2 * t1 && y2 * t3 == y3 * t2 && t1 == t2 && t2 == t3 {
                lemma_seq_lt_transitive(mv[a], mv[b], mv[c]);
            }
        }
    }
    let before = |x: usize, y: usize| -> (b: bool)
        requires
            x < totals@.len(),
            y < totals@.len(),
            typeds@.len() == totals@.len(),
            mods@.len() == totals@.len(),
        ensures
            b == coverage_before(totals@[x as int] as nat, typeds@[x as int] as nat, mods@[x as int]@, totals@[y as int] as nat, typeds@[y as int] as nat, mods@[y as int]@),
        {
            let tx = typeds[x] as u128;
            let ty = totals[y] as u128;
            let uy = typeds[y] as u128;
            let ux = totals[x] as u128;
            assert(tx * ty <= 0xffff_ffff_ffff_ffffu128 * 0xffff_ffff_ffff_ffffu128) by (nonlinear_arith)
                requires
                    tx <= 0xffff_ffff_ffff_ffffu128,
                    ty <= 0xffff_ffff_ffff_ffffu128,
            ;
            assert(uy * ux <= 0xffff_ffff_ffff_ffffu128 * 0xffff_ffff_ffff_ffffu128) by (nonlinear_arith)
                requires
                    uy <= 0xffff_ffff_ffff_ffffu128,
                    ux <= 0xffff_ffff_ffff_ffffu128,
            ;
            let a = tx * ty;
            let b = uy * ux;
            a < b || (a == b && (totals[x] > totals[y] || (totals[x] == totals[y] && str_lt(mods[x].as_str(), mods[y].as_str()))))
        };
    let order = sort_positions(m, &before, Ghost(lt));
    let mut bm: Vec<ModuleCoverage> = Vec::new();
    let mut k: usize = 0;
    while k < m
        invariant
            0 <= k <= m,
            m == mods@.len(),
            mv == views(mods@),
            totals@.len() == m,
            typeds@.len() == m,
            sorted_positions(order@, m as int, lt),
            bm@.len() == k,
            forall|q: int| 0 <= q < k ==> {
                let o = order@[q] as int;
                &&& (#[trigger] bm@[q]).module@ == mv[o]
                &&& bm@[q].total == totals@[o]
                &&& bm@[q].typed == typeds@[o]
            },
        decreases m - k,
    {
        let o = order[k];
        bm.push(ModuleCoverage { module: owned(mods[o].as_str()), total: totals[o], typed: typeds[o] });
        k = k + 1;
    }
    // untyped functions by qualified name
    let nu = untyped.len();
    let ghost un = untyped_positions(nodes, n as int);
    let ghost lt2 = by_qualified_name(nodes, un);
    proof {
        assert forall|a: int| 0 <= a < nu implies untyped@[a] as int == #[trigger] un[a] by {
            assert(untyped@.map_values(|p: usize| p as int)[a] == un[a]);
        }
        assert forall|a: int| 0 <= a < nu implies !#[trigger] lt2(a, a) by {
            lemma_seq_lt_irreflexive(nodes[un[a]].qualified_name@);
        }
        assert forall|a: int, b: int| 0 <= a < nu && 0 <= b < nu && a != b implies #[trigger] lt2(a, b) || #[trigger] lt2(b, a) by {
            lemma_seq_lt_total(nodes[un[a]].qualified_name@, nodes[un[b]].qualified_name@);
        }
        assert forall|a: int, b: int, c: int|
            0 <= a < nu && 0 <= b < nu && 0 <= c < nu && #[trigger] lt2(a, b) && #[trigger] lt2(b, c) implies lt2(a, c) by {
            let (qa, qb, qc) = (nodes[un[a]].qualified_name@, nodes[un[b]].qualified_name@, nodes[un[c]].qualified_name@);
            if seq_lt(qa, qb) && seq_lt(qb, qc) {
                lemma_seq_lt_transitive(qa, qb, qc);
            }
        }
    }
    let before2 = |x: usize, y: usize| -> (b: bool)
        requires
            x < untyped@.len(),
            y < untyped@.len(),
            forall|q: int| 0 <= q < untyped@.len() ==> #[trigger] untyped@[q] < graph.nodes@.len(),
        ensures
            b == (seq_lt(graph.nodes@[untyped@[x as int] as int].qualified_name@, graph.nodes@[untyped@[y as int] as int].qualified_name@)
                || (graph.nodes@[untyped@[x as int] as int].qualified_name@ == graph.nodes@[untyped@[y as int] as int].qualified_name@ && x < y)),
        {
            let qx = graph.nodes[untyped[x]].qualified_name.as_str();
            let qy = graph.nodes[untyped[y]].qualified_name.as_str();
            str_lt(qx, qy) || (crate::text::str_eq(qx, qy) && x < y)
        };
    let order2 = sort_positions(nu, &before2, Ghost(lt2));
    let take = if nu <= limit { nu } else { limit };
    let mut un_out: Vec<usize> = Vec::new();
    let mut k: usize = 0;
    while k < take
        invariant
            0 <= k <= take,
            take <= nu,
            nu == untyped@.len(),
            forall|a: int| 0 <= a < nu ==> untyped@[a] as int == #[trigger] un[a],
            sorted_positions(order2@, nu as int, lt2),
            un_out@.len() == k,
            forall|q: int| 0 <= q < k ==> #[trigger] un_out@[q] as int == un[order2@[q] as int],
        decreases take - k,
    {
        un_out.push(untyped[order2[k]]);
        k = k + 1;
    }
    let r = TypeCoverage { by_module: bm, untyped: un_out, total_functions: total, typed_functions: total - untyped.len() };
    proof {
        let bmv = r.by_module@;
        let names = bmv.map_values(|x: ModuleCoverage| x.module@);
        assert forall|a: int, b: int| 0 <= a < b < names.len() implies names[a] != names[b] by {
            assert(order@[a] != order@[b]);
            assert(mv[order@[a] as int] != mv[order@[b] as int]);
        }
        assert forall|mm: Seq<char>| #[trigger] module_names(fm).contains(mm) <==> names.contains(mm) by {
            if module_names(fm).contains(mm) {
                let w = choose|w: int| 0 <= w < mv.len() && mv[w] == mm;
                assert(order@.contains(w as usize));
                let p = choose|p: int| 0 <= p < order@.len() && order@[p] == w as usize;
                assert(names[p] == mm);
            }
            if names.contains(mm) {
                let p = choose|p: int| 0 <= p < names.len() && names[p] == mm;
                assert(mv[order@[p] as int] == mm);
            }
        }
        assert forall|i: int, j: int| 0 <= i < j < bmv.len() implies coverage_before(
            (#[trigger] bmv[i]).total as nat,
            bmv[i].typed as nat,
            bmv[i].module@,
            (#[trigger] bmv[j]).total as nat,
            bmv[j].typed as nat,
            bmv[j].module@,
        ) by {
            assert(lt(order@[i] as int, order@[j] as int));
        }
        assert(untyped_positions(nodes, n as int).len() == untyped@.len());
    }
    r
}

/// A module named by a function has at least one function.
proof fn lemma_module_total_pos(fm: Seq<(Seq<char>, bool)>, w: int)
    requires
        0 <= w < fm.len(),
    ensures
        module_total(fm, fm[w].0) >= 1,
    decreases fm.len(),
{
    if w < fm.len() - 1 {
        lemma_module_total_pos(fm.drop_last(), w);
    }
}

} // verus!
