//! The order in which to refactor a set of modules: each after the modules
//! it depends on (Kahn's algorithm), and the modules caught in cycles.

use vstd::prelude::*;
use vstd::hash_map::StringHashMap;
use crate::model::{CodeGraph, Edge, EdgeKind, Node};
use crate::query::index::{last_with_id};
use crate::sorting::{
    count_set, lemma_count_set, lemma_count_set_le, lemma_count_set_zero, lemma_seq_lt_irreflexive,
    lemma_seq_lt_total, lemma_seq_lt_transitive, seq_lt, sort_positions, sorted_positions, str_lt,
};
use crate::text::{
    chars_of, concat2, concat3, decimal, join, join_spec, owned, replace_char, replace_char_spec,
    seq_starts_with, starts_with, str_eq, string_from_range,
};

verus! {

// ---------------------------------------------------------------- names

/// `s` without leading `c`.
pub open spec fn strip_lead(s: Seq<char>, c: char) -> Seq<char>
    decreases s.len(),
{
    if s.len() > 0 && s[0] == c {
        strip_lead(s.drop_first(), c)
    } else {
        s
    }
}

/// `s` without trailing `c`.
pub open spec fn strip_trail(s: Seq<char>, c: char) -> Seq<char>
    decreases s.len(),
{
    if s.len() > 0 && s.last() == c {
        strip_trail(s.drop_last(), c)
    } else {
        s
    }
}

/// A module name without surrounding `/`, with `\` turned into `/`.
pub open spec fn normalize_spec(m: Seq<char>) -> Seq<char> {
    replace_char_spec(strip_trail(strip_lead(m, '/'), '/'), '\\', '/')
}

/// Normalize a module name.
pub fn normalize_module_name(module: &str) -> (r: String)
    ensures
        r@ == normalize_spec(module@),
{
    let cs = chars_of(module);
    let mut lo: usize = 0;
    assert(cs@.subrange(0, cs@.len() as int) =~= cs@);
    while lo < cs.len() && cs[lo] == '/'
        invariant
            0 <= lo <= cs@.len(),
            strip_lead(cs@, '/') == strip_lead(cs@.subrange(lo as int, cs@.len() as int), '/'),
        decreases cs@.len() - lo,
    {
        assert(cs@.subrange(lo as int, cs@.len() as int).drop_first() =~= cs@.subrange(
            lo + 1,
            cs@.len() as int,
        ));
        lo = lo + 1;
    }
    let ghost lead = cs@.subrange(lo as int, cs@.len() as int);
    assert(strip_lead(cs@, '/') == lead) by {
        assert(cs@.subrange(0, cs@.len() as int) =~= cs@);
    }
    let mut hi: usize = cs.len();
    while hi > lo && cs[hi - 1] == '/'
        invariant
            lo <= hi <= cs@.len(),
            lead == cs@.subrange(lo as int, cs@.len() as int),
            strip_trail(lead, '/') == strip_trail(cs@.subrange(lo as int, hi as int), '/'),
        decreases hi,
    {
        assert(cs@.subrange(lo as int, hi as int).drop_last() =~= cs@.subrange(lo as int, hi - 1));
        hi = hi - 1;
    }
    assert(cs@.subrange(lo as int, cs@.len() as int) =~= cs@.subrange(lo as int, cs@.len() as int));
    let trimmed = string_from_range(cs.as_slice(), lo, hi);
    assert(cs@ == module@);
    replace_char(trimmed.as_str(), '\\', '/')
}

/// Whether `file` belongs to `module` (normalized again here): the file
/// is the module, lies under it, or is its `.py`-style file, with or without
/// a leading `src/`.
pub open spec fn file_matches_spec(file: Seq<char>, module: Seq<char>) -> bool {
    let m = normalize_spec(module);
    file == m || seq_starts_with(file, m + "/"@) || seq_starts_with(file, "src/"@ + m)
        || seq_starts_with(file, m + "."@) || seq_starts_with(file, "src/"@ + m + "."@)
}

proof fn lemma_starts_with_prefixed(f: Seq<char>, p: Seq<char>, pre: Seq<char>)
    requires
        seq_starts_with(f, p),
    ensures
        seq_starts_with(pre + f, pre + p),
{
    assert((pre + f).subrange(0, (pre + p).len() as int) =~= pre + p);
}

/// A file belongs to its module whether or not it sits under `src/`: the
/// module's own path, a file under its directory, or its `.py`-style file,
/// each also with `src/` in front.
pub proof fn lemma_file_matches_src(f: Seq<char>, module: Seq<char>)
    requires
        f == normalize_spec(module) || seq_starts_with(f, normalize_spec(module) + "/"@) || seq_starts_with(
            f,
            normalize_spec(module) + "."@,
        ),
    ensures
        file_matches_spec(f, module),
        file_matches_spec("src/"@ + f, module),
{
    let m = normalize_spec(module);
    if f == m {
        assert(("src/"@ + f).subrange(0, ("src/"@ + m).len() as int) =~= "src/"@ + m);
    } else if seq_starts_with(f, m + "/"@) {
        lemma_starts_with_prefixed(f, m + "/"@, "src/"@);
        assert(seq_starts_with(f, m + "/"@));
        assert(("src/"@ + f).subrange(0, ("src/"@ + m).len() as int) =~= "src/"@ + m);
    } else {
        lemma_starts_with_prefixed(f, m + "."@, "src/"@);
        assert("src/"@ + (m + "."@) =~= "src/"@ + m + "."@);
    }
}

/// Whether `file` belongs to `module`.
pub fn file_matches_module(file: &str, module: &str) -> (r: bool)
    ensures
        r == file_matches_spec(file@, module@),
{
    let m = normalize_module_name(module);
    let ms = m.as_str();
    let a = concat2(ms, "/");
    let b = concat2("src/", ms);
    let c = concat2(ms, ".");
    let d = concat3("src/", ms, ".");
    str_eq(file, ms) || starts_with(file, a.as_str()) || starts_with(file, b.as_str())
        || starts_with(file, c.as_str()) || starts_with(file, d.as_str())
}

/// The risk level of a score.
pub open spec fn risk_level_spec(score: nat) -> Seq<char> {
    if score == 0 {
        "none"@
    } else if score <= 3 {
        "low"@
    } else if score <= 8 {
        "medium"@
    } else {
        "high"@
    }
}

/// The risk level of a score.
pub fn risk_level(score: usize) -> (r: &'static str)
    ensures
        r@ == risk_level_spec(score as nat),
{
    proof {
        reveal_strlit("none");
        reveal_strlit("low");
        reveal_strlit("medium");
        reveal_strlit("high");
    }
    if score == 0 {
        "none"
    } else if score <= 3 {
        "low"
    } else if score <= 8 {
        "medium"
    } else {
        "high"
    }
}

// ---------------------------------------------------------------- modules

/// `mods` lists the distinct names of `targets`, in increasing order.
pub open spec fn module_table(mods: Seq<Seq<char>>, targets: Seq<Seq<char>>) -> bool {
    &&& forall|i: int, j: int| 0 <= i < j < mods.len() ==> seq_lt(#[trigger] mods[i], #[trigger] mods[j])
    &&& forall|i: int| 0 <= i < mods.len() ==> targets.contains(#[trigger] mods[i])
    &&& forall|t: Seq<char>| #[trigger] targets.contains(t) ==> mods.contains(t)
}

/// The distinct names of `targets`, sorted.
pub fn sorted_distinct(targets: &Vec<String>) -> (r: Vec<String>)
    ensures
        module_table(r@.map_values(|s: String| s@), targets@.map_values(|s: String| s@)),
        r@.len() <= targets@.len(),
{
    let ghost tv = targets@.map_values(|s: String| s@);
    // distinct names, first occurrences first
    let mut uniq: Vec<String> = Vec::new();
    let mut i: usize = 0;
    while i < targets.len()
        invariant
            0 <= i <= targets@.len(),
            tv == targets@.map_values(|s: String| s@),
            uniq@.map_values(|s: String| s@).no_duplicates(),
            uniq@.len() <= i,
            forall|k: int| 0 <= k < uniq@.len() ==> tv.contains(#[trigger] uniq@[k]@),
            forall|k: int| 0 <= k < i ==> uniq@.map_values(|s: String| s@).contains(#[trigger] tv[k]),
        decreases targets@.len() - i,
    {
        let t = targets[i].as_str();
        let mut found = false;
        let mut k: usize = 0;
        while k < uniq.len()
            invariant
                0 <= k <= uniq@.len(),
                found ==> uniq@.map_values(|s: String| s@).contains(t@),
                !found ==> forall|q: int| 0 <= q < k ==> (#[trigger] uniq@[q])@ != t@,
            decreases uniq@.len() - k,
        {
            if str_eq(uniq[k].as_str(), t) {
                found = true;
                assert(uniq@.map_values(|s: String| s@)[k as int] == t@);
            }
            k = k + 1;
        }
        let ghost old_u = uniq@.map_values(|s: String| s@);
        if !found {
            uniq.push(owned(t));
            assert(uniq@.map_values(|s: String| s@) =~= old_u.push(t@));
        }
        proof {
            let nu = uniq@.map_values(|s: String| s@);
            assert(tv[i as int] == t@);
            assert(nu.contains(t@)) by {
                if !found {
                    assert(nu[old_u.len() as int] == t@);
                }
            }
            assert forall|q: int| 0 <= q < i + 1 implies nu.contains(#[trigger] tv[q]) by {
                if q < i {
                    let w = choose|w: int| 0 <= w < old_u.len() && old_u[w] == tv[q];
                    assert(nu[w] == tv[q]);
                }
            }
            assert forall|q: int| 0 <= q < uniq@.len() implies tv.contains(#[trigger] uniq@[q]@) by {
                if q == old_u.len() && !found {
                    assert(tv[i as int] == uniq@[q]@);
                } else {
                    assert(old_u[q] == uniq@[q]@);
                }
            }
        }
        i = i + 1;
    }
    let ghost uv = uniq@.map_values(|s: String| s@);
    let n = uniq.len();
    let ghost lt = |x: int, y: int| seq_lt(uv[x], uv[y]);
    proof {
        assert forall|x: int| 0 <= x < n implies !#[trigger] lt(x, x) by {
            lemma_seq_lt_irreflexive(uv[x]);
        }
        assert forall|x: int, y: int| 0 <= x < n && 0 <= y < n && x != y implies #[trigger] lt(x, y)
            || #[trigger] lt(y, x) by {
            lemma_seq_lt_total(uv[x], uv[y]);
        }
        assert forall|x: int, y: int, z: int|
            0 <= x < n && 0 <= y < n && 0 <= z < n && #[trigger] lt(x, y) && #[trigger] lt(y, z) implies lt(
            x,
            z,
        ) by {
            lemma_seq_lt_transitive(uv[x], uv[y], uv[z]);
        }
    }
    let before = |x: usize, y: usize| -> (b: bool)
        requires
            x < uniq@.len(),
            y < uniq@.len(),
        ensures
            b == seq_lt(uniq@[x as int]@, uniq@[y as int]@),
        { str_lt(uniq[x].as_str(), uniq[y].as_str()) };
    let order = sort_positions(n, &before, Ghost(lt));
    let mut r: Vec<String> = Vec::new();
    let mut k: usize = 0;
    while k < n
        invariant
            0 <= k <= n,
            n == uniq@.len(),
            uv == uniq@.map_values(|s: String| s@),
            sorted_positions(order@, n as int, lt),
            r@.len() == k,
            forall|q: int| 0 <= q < k ==> (#[trigger] r@[q])@ == uv[order@[q] as int],
        decreases n - k,
    {
        r.push(owned(uniq[order[k]].as_str()));
        k = k + 1;
    }
    proof {
        let rv = r@.map_values(|s: String| s@);
        assert forall|p: int, q: int| 0 <= p < q < rv.len() implies seq_lt(
            #[trigger] rv[p],
            #[trigger] rv[q],
        ) by {
            assert(lt(order@[p] as int, order@[q] as int));
        }
        assert forall|p: int| 0 <= p < rv.len() implies tv.contains(#[trigger] rv[p]) by {
            assert(rv[p] == uv[order@[p] as int]);
            assert(tv.contains(uniq@[order@[p] as int]@));
        }
        assert forall|t: Seq<char>| #[trigger] tv.contains(t) implies rv.contains(t) by {
            let q = choose|q: int| 0 <= q < tv.len() && tv[q] == t;
            assert(uv.contains(tv[q]));
            let w = choose|w: int| 0 <= w < uv.len() && uv[w] == t;
            assert(order@.contains(w as usize));
            let p = choose|p: int| 0 <= p < order@.len() && order@[p] == w as usize;
            assert(rv[p] == t);
        }
    }
    r
}

// ---------------------------------------------------------------- dependencies

/// Index of the last module of `mods[..k]` that `file` belongs to, or -1.
pub open spec fn best_module(file: Seq<char>, mods: Seq<Seq<char>>, k: int) -> int
    decreases k,
{
    if k <= 0 {
        -1
    } else if file_matches_spec(file, mods[k - 1]) {
        k - 1
    } else {
        best_module(file, mods, k - 1)
    }
}

/// The module a node belongs to, or -1.
pub open spec fn node_module(n: Node, mods: Seq<Seq<char>>) -> int {
    if n.file is Some {
        best_module(n.file->0@, mods, mods.len() as int)
    } else {
        -1
    }
}

/// The module of an id: the last module that any node with that id belongs
/// to, or -1.
pub open spec fn id_module(nodes: Seq<Node>, mods: Seq<Seq<char>>, id: Seq<char>) -> int
    decreases nodes.len(),
{
    if nodes.len() == 0 {
        -1
    } else {
        let p = id_module(nodes.drop_last(), mods, id);
        let q = if nodes.last().id@ == id {
            node_module(nodes.last(), mods)
        } else {
            -1
        };
        if q > p {
            q
        } else {
            p
        }
    }
}

/// Edge kinds that make one module depend on another.
pub open spec fn relevant_kind(k: EdgeKind) -> bool {
    k == EdgeKind::Calls || k == EdgeKind::AwaitCalls || k == EdgeKind::Imports || k
        == EdgeKind::FromImports || k == EdgeKind::UsesType || k == EdgeKind::Declares || k
        == EdgeKind::Implements || k == EdgeKind::InheritsFrom || k == EdgeKind::Overrides
}

/// Edge `e` makes module `a` depend on another module `b`.
pub open spec fn edge_dep(nodes: Seq<Node>, mods: Seq<Seq<char>>, e: Edge, a: int, b: int) -> bool {
    &&& relevant_kind(e.kind)
    &&& id_module(nodes, mods, e.from@) == a
    &&& id_module(nodes, mods, e.to@) == b
    &&& a >= 0
    &&& b >= 0
    &&& a != b
}

/// Module `a` depends on module `b`.
pub open spec fn depends(nodes: Seq<Node>, edges: Seq<Edge>, mods: Seq<Seq<char>>, a: int, b: int) -> bool {
    exists|j: int| 0 <= j < edges.len() && edge_dep(nodes, mods, #[trigger] edges[j], a, b)
}

/// The modules among `0..k` that `a` depends on, in order.
pub open spec fn dep_list(nodes: Seq<Node>, edges: Seq<Edge>, mods: Seq<Seq<char>>, a: int, k: int) -> Seq<int>
    decreases k,
{
    if k <= 0 {
        Seq::empty()
    } else {
        let prev = dep_list(nodes, edges, mods, a, k - 1);
        if depends(nodes, edges, mods, a, k - 1) {
            prev.push(k - 1)
        } else {
            prev
        }
    }
}

/// The names of the modules at `ps`.
pub open spec fn names_at(mods: Seq<Seq<char>>, ps: Seq<int>) -> Seq<Seq<char>> {
    ps.map_values(|p: int| mods[p])
}

/// The module of the last matching entry of `mods[..k]`, by a downward scan.
fn find_module(file: &str, mods: &Vec<String>) -> (r: Option<usize>)
    ensures
        match r {
            Some(m) => m as int == best_module(file@, mods@.map_values(|s: String| s@), mods@.len() as int) && m < mods@.len(),
            None => best_module(file@, mods@.map_values(|s: String| s@), mods@.len() as int) == -1,
        },
{
    let ghost mv = mods@.map_values(|s: String| s@);
    let mut k: usize = mods.len();
    while k > 0
        invariant
            k <= mods@.len(),
            mv == mods@.map_values(|s: String| s@),
            best_module(file@, mv, mods@.len() as int) == best_module(file@, mv, k as int),
        decreases k,
    {
        if file_matches_module(file, mods[k - 1].as_str()) {
            return Some(k - 1);
        }
        k = k - 1;
    }
    None
}

/// The value stored for `k`, or -1.
pub open spec fn stored_or_none(m: Map<Seq<char>, usize>, k: Seq<char>) -> int {
    if m.contains_key(k) {
        m[k] as int
    } else {
        -1
    }
}

/// For each id, the module it belongs to.
fn id_modules(nodes: &Vec<Node>, mods: &Vec<String>) -> (r: StringHashMap<usize>)
    ensures
        forall|id: Seq<char>|
            #[trigger] stored_or_none(r@, id) == id_module(nodes@, mods@.map_values(|s: String| s@), id),
        forall|id: Seq<char>| r@.contains_key(id) ==> #[trigger] r@[id] < mods@.len(),
{
    let ghost mv = mods@.map_values(|s: String| s@);
    let mut r: StringHashMap<usize> = StringHashMap::new();
    let mut i: usize = 0;
    while i < nodes.len()
        invariant
            0 <= i <= nodes@.len(),
            mv == mods@.map_values(|s: String| s@),
            forall|id: Seq<char>|
                #[trigger] stored_or_none(r@, id) == id_module(nodes@.take(i as int), mv, id),
            forall|id: Seq<char>| r@.contains_key(id) ==> #[trigger] r@[id] < mods@.len(),
        decreases nodes@.len() - i,
    {
        let node = &nodes[i];
        let ghost pre = nodes@.take(i as int);
        let ghost cur = nodes@.take(i + 1);
        assert(cur.drop_last() =~= pre);
        assert(cur.last() == nodes@[i as int]);
        let q: Option<usize> = match &node.file {
            Some(f) => find_module(f.as_str(), mods),
            None => None,
        };
        let ghost before = r@;
        assert(q is Some ==> q->0 as int == node_module(nodes@[i as int], mv));
        assert(q is None ==> node_module(nodes@[i as int], mv) == -1);
        if let Some(qm) = q {
            let cur_best = r.get(node.id.as_str());
            let better = match cur_best {
                Some(c) => qm > *c,
                None => true,
            };
            if better {
                r.insert(owned(node.id.as_str()), qm);
            }
        }
        proof {
            assert forall|id: Seq<char>| #[trigger] stored_or_none(r@, id) == id_module(cur, mv, id) by {
                assert(id_module(cur, mv, id) == {
                    let p = id_module(pre, mv, id);
                    let qq = if nodes@[i as int].id@ == id {
                        node_module(nodes@[i as int], mv)
                    } else {
                        -1
                    };
                    if qq > p {
                        qq
                    } else {
                        p
                    }
                });
                lemma_id_module_lower(pre, mv, id);
                assert(stored_or_none(before, id) == id_module(pre, mv, id));
                if id != node.id@ {
                    assert(stored_or_none(r@, id) == stored_or_none(before, id));
                }
            }
        }
        i = i + 1;
    }
    assert(nodes@.take(nodes@.len() as int) =~= nodes@);
    r
}

/// An id's module is at least -1.
proof fn lemma_id_module_lower(nodes: Seq<Node>, mods: Seq<Seq<char>>, id: Seq<char>)
    ensures
        id_module(nodes, mods, id) >= -1,
    decreases nodes.len(),
{
    if nodes.len() > 0 {
        lemma_id_module_lower(nodes.drop_last(), mods, id);
    }
}

/// `mat` is the dependency matrix of the `n` modules.
pub open spec fn is_dep_matrix(mat: Seq<Vec<bool>>, n: int, dep: spec_fn(int, int) -> bool) -> bool {
    &&& mat.len() == n
    &&& forall|a: int| 0 <= a < n ==> (#[trigger] mat[a])@.len() == n
    &&& forall|a: int, b: int| 0 <= a < n && 0 <= b < n ==> (#[trigger] mat[a]@[b]) == dep(a, b)
}

/// Some edge before position `j` makes `a` depend on `b`.
pub open spec fn depends_before(nodes: Seq<Node>, edges: Seq<Edge>, mods: Seq<Seq<char>>, a: int, b: int, j: int) -> bool {
    exists|q: int| 0 <= q < j && edge_dep(nodes, mods, #[trigger] edges[q], a, b)
}

/// The dependency matrix of the modules.
fn dep_matrix(nodes: &Vec<Node>, edges: &Vec<Edge>, mods: &Vec<String>, idm: &StringHashMap<usize>) -> (mat: Vec<Vec<bool>>)
    requires
        forall|id: Seq<char>|
            #[trigger] stored_or_none(idm@, id) == id_module(nodes@, mods@.map_values(|s: String| s@), id),
        forall|id: Seq<char>| idm@.contains_key(id) ==> #[trigger] idm@[id] < mods@.len(),
    ensures
        is_dep_matrix(
            mat@,
            mods@.len() as int,
            |a: int, b: int| depends(nodes@, edges@, mods@.map_values(|s: String| s@), a, b),
        ),
{
    let ghost mv = mods@.map_values(|s: String| s@);
    let n = mods.len();
    let mut mat: Vec<Vec<bool>> = Vec::new();
    let mut a: usize = 0;
    while a < n
        invariant
            0 <= a <= n,
            mat@.len() == a,
            forall|x: int| 0 <= x < a ==> (#[trigger] mat@[x])@.len() == n,
            forall|x: int, y: int| 0 <= x < a && 0 <= y < n ==> !(#[trigger] mat@[x]@[y]),
        decreases n - a,
    {
        let mut row: Vec<bool> = Vec::new();
        let mut b: usize = 0;
        while b < n
            invariant
                0 <= b <= n,
                row@.len() == b,
                forall|y: int| 0 <= y < b ==> !#[trigger] row@[y],
            decreases n - b,
        {
            row.push(false);
            b = b + 1;
        }
        mat.push(row);
        a = a + 1;
    }
    let mut j: usize = 0;
    while j < edges.len()
        invariant
            0 <= j <= edges@.len(),
            n == mods@.len(),
            mv == mods@.map_values(|s: String| s@),
            forall|id: Seq<char>| #[trigger] stored_or_none(idm@, id) == id_module(nodes@, mv, id),
            forall|id: Seq<char>| idm@.contains_key(id) ==> #[trigger] idm@[id] < n,
            mat@.len() == n,
            forall|x: int| 0 <= x < n ==> (#[trigger] mat@[x])@.len() == n,
            forall|x: int, y: int|
                0 <= x < n && 0 <= y < n ==> (#[trigger] mat@[x]@[y]) == depends_before(
                    nodes@,
                    edges@,
                    mv,
                    x,
                    y,
                    j as int,
                ),
        decreases edges@.len() - j,
    {
        let e = &edges[j];
        let relevant = match e.kind {
            EdgeKind::Calls | EdgeKind::AwaitCalls | EdgeKind::Imports | EdgeKind::FromImports
            | EdgeKind::UsesType | EdgeKind::Declares | EdgeKind::Implements | EdgeKind::InheritsFrom
            | EdgeKind::Overrides => true,
            _ => false,
        };
        let fa = idm.get(e.from.as_str());
        let fb = idm.get(e.to.as_str());
        let ghost old_mat = mat@;
        let mut hit: Option<(usize, usize)> = None;
        if relevant {
            if let Some(x) = fa {
                if let Some(y) = fb {
                    if *x != *y {
                        hit = Some((*x, *y));
                    }
                }
            }
        }
        proof {
            assert(stored_or_none(idm@, e.from@) == id_module(nodes@, mv, e.from@));
            assert(stored_or_none(idm@, e.to@) == id_module(nodes@, mv, e.to@));
            lemma_id_module_lower(nodes@, mv, e.from@);
            lemma_id_module_lower(nodes@, mv, e.to@);
        }
        match hit {
            Some((x, y)) => {
                let mut row: Vec<bool> = Vec::new();
                std::mem::swap(&mut row, &mut mat[x]);
                row.set(y, true);
                mat.set(x, row);
                proof {
                    assert(edge_dep(nodes@, mv, edges@[j as int], x as int, y as int));
                    assert forall|p: int, q: int| 0 <= p < n && 0 <= q < n implies (#[trigger] mat@[p]@[q])
                        == depends_before(nodes@, edges@, mv, p, q, j + 1) by {
                        if p == x && q == y {
                            assert(edge_dep(nodes@, mv, edges@[j as int], p, q));
                        } else {
                            if p != x {
                                assert(mat@[p] == old_mat[p]);
                            }
                            assert(mat@[p]@[q] == old_mat[p]@[q]);
                            if depends_before(nodes@, edges@, mv, p, q, j + 1) {
                                let w = choose|w: int| 0 <= w < j + 1 && edge_dep(nodes@, mv, #[trigger] edges@[w], p, q);
                                assert(w < j);
                            }
                        }
                    }
                }
            },
            None => {
                proof {
                    assert(!edge_dep(nodes@, mv, edges@[j as int], 0, 0) || true);
                    assert forall|p: int, q: int| 0 <= p < n && 0 <= q < n implies (#[trigger] mat@[p]@[q])
                        == depends_before(nodes@, edges@, mv, p, q, j + 1) by {
                        if depends_before(nodes@, edges@, mv, p, q, j + 1) {
                            let w = choose|w: int| 0 <= w < j + 1 && edge_dep(nodes@, mv, #[trigger] edges@[w], p, q);
                            if w == j {
                                assert(relevant);
                            }
                            assert(w < j);
                        }
                    }
                }
            },
        }
        j = j + 1;
    }
    proof {
        assert forall|x: int, y: int| 0 <= x < n && 0 <= y < n implies (#[trigger] mat@[x]@[y]) == depends(
            nodes@,
            edges@,
            mv,
            x,
            y,
        ) by {
            assert(depends_before(nodes@, edges@, mv, x, y, edges@.len() as int) == depends(nodes@, edges@, mv, x, y));
        }
    }
    mat
}

// ---------------------------------------------------------------- ordering

/// How many `b < k` are set in `row` and not yet `done`.
pub open spec fn open_deps(row: Seq<bool>, done: Seq<bool>, k: int) -> nat
    decreases k,
{
    if k <= 0 {
        0
    } else {
        open_deps(row, done, k - 1) + (if row[k - 1] && !done[k - 1] {
            1nat
        } else {
            0nat
        })
    }
}

proof fn lemma_open_deps_update(row: Seq<bool>, done: Seq<bool>, m: int, k: int)
    requires
        0 <= m < done.len(),
        !done[m],
        k <= done.len(),
    ensures
        open_deps(row, done.update(m, true), k) + (if m < k && row[m] {
            1nat
        } else {
            0nat
        }) == open_deps(row, done, k),
    decreases k,
{
    if k > 0 {
        lemma_open_deps_update(row, done, m, k - 1);
    }
}

proof fn lemma_open_deps_zero(row: Seq<bool>, done: Seq<bool>, k: int)
    requires
        open_deps(row, done, k) == 0,
    ensures
        forall|b: int| 0 <= b < k && #[trigger] row[b] ==> done[b],
    decreases k,
{
    if k > 0 {
        lemma_open_deps_zero(row, done, k - 1);
    }
}

proof fn lemma_open_deps_pos(row: Seq<bool>, done: Seq<bool>, k: int)
    requires
        open_deps(row, done, k) > 0,
    ensures
        exists|b: int| 0 <= b < k && #[trigger] row[b] && !done[b],
    decreases k,
{
    if k > 0 {
        if !(row[k - 1] && !done[k - 1]) {
            lemma_open_deps_pos(row, done, k - 1);
        }
    }
}

/// The rows of a matrix of flags.
pub open spec fn rows_of(mat: Seq<Vec<bool>>) -> Seq<Seq<bool>> {
    mat.map_values(|r: Vec<bool>| r@)
}

/// The modules among `0..a` with no dependency left open by `done`, in
/// order.
pub open spec fn ready_upto(rows: Seq<Seq<bool>>, done: Seq<bool>, n: int, a: int) -> Seq<usize>
    decreases a,
{
    if a <= 0 {
        Seq::empty()
    } else {
        ready_upto(rows, done, n, a - 1) + if open_deps(rows[a - 1], done, n) == 0 {
            seq![(a - 1) as usize]
        } else {
            Seq::empty()
        }
    }
}

/// The modules among `0..d` that depend on `m` and have no dependency left
/// open by `done`, in order: those queued once `m` is placed.
pub open spec fn released_upto(rows: Seq<Seq<bool>>, done: Seq<bool>, m: int, n: int, d: int) -> Seq<usize>
    decreases d,
{
    if d <= 0 {
        Seq::empty()
    } else {
        released_upto(rows, done, m, n, d - 1) + if rows[d - 1][m] && open_deps(rows[d - 1], done, n) == 0 {
            seq![(d - 1) as usize]
        } else {
            Seq::empty()
        }
    }
}

/// First-in first-out Kahn placement from a queue state: take the module
/// at `head`; skip it if placed, else place it and queue the modules it
/// releases, in index order. `fuel` bounds the steps.
pub open spec fn kahn_run(
    rows: Seq<Seq<bool>>,
    n: int,
    queue: Seq<usize>,
    head: int,
    done: Seq<bool>,
    ordered: Seq<usize>,
    fuel: nat,
) -> Seq<usize>
    decreases fuel,
{
    if fuel == 0 || head < 0 || head >= queue.len() {
        ordered
    } else {
        let m = queue[head] as int;
        if done[m] {
            kahn_run(rows, n, queue, head + 1, done, ordered, (fuel - 1) as nat)
        } else {
            let placed = done.update(m, true);
            kahn_run(
                rows,
                n,
                queue + released_upto(rows, placed, m, n, n),
                head + 1,
                placed,
                ordered.push(m as usize),
                (fuel - 1) as nat,
            )
        }
    }
}

/// The order first-in first-out Kahn placement gives: the queue starts
/// with the modules that depend on nothing, in index order.
pub open spec fn kahn_order(rows: Seq<Seq<bool>>, n: int) -> Seq<usize> {
    let none = Seq::new(n as nat, |i: int| false);
    kahn_run(rows, n, ready_upto(rows, none, n, n), 0, none, Seq::empty(), ((n + 1) * (n + 1)) as nat)
}

proof fn lemma_ready_len(rows: Seq<Seq<bool>>, done: Seq<bool>, n: int, a: int)
    ensures
        ready_upto(rows, done, n, a).len() <= if a <= 0 { 0 } else { a },
    decreases a,
{
    if a > 0 {
        lemma_ready_len(rows, done, n, a - 1);
    }
}

proof fn lemma_released_len(rows: Seq<Seq<bool>>, done: Seq<bool>, m: int, n: int, d: int)
    ensures
        released_upto(rows, done, m, n, d).len() <= if d <= 0 { 0 } else { d },
    decreases d,
{
    if d > 0 {
        lemma_released_len(rows, done, m, n, d - 1);
    }
}

/// Kahn's algorithm over a dependency matrix: the modules in an order where
/// each comes after all it depends on, and which modules were placed.
fn kahn(mat: &Vec<Vec<bool>>, n: usize) -> (r: (Vec<usize>, Vec<bool>))
    requires
        mat@.len() == n,
        forall|a: int| 0 <= a < n ==> (#[trigger] mat@[a])@.len() == n,
    ensures
        r.1@.len() == n,
        r.0@.no_duplicates(),
        forall|i: int| 0 <= i < r.0@.len() ==> #[trigger] r.0@[i] < n,
        forall|b: int| 0 <= b < n ==> (#[trigger] r.1@[b] <==> r.0@.contains(b as usize)),
        forall|i: int, b: int|
            0 <= i < r.0@.len() && 0 <= b < n && #[trigger] mat@[r.0@[i] as int]@[b] ==> exists|j: int|
                0 <= j < i && #[trigger] r.0@[j] == b as usize,
        forall|m: int|
            0 <= m < n && !#[trigger] r.1@[m] ==> exists|b: int| 0 <= b < n && #[trigger] mat@[m]@[b] && !r.1@[b],
        r.0@ == kahn_order(rows_of(mat@), n as int),
{
    let ghost rows = rows_of(mat@);
    let ghost fuel_all: int = (n + 1) * (n + 1);
    let mut done: Vec<bool> = Vec::new();
    let mut remaining: Vec<usize> = Vec::new();
    let mut a: usize = 0;
    while a < n
        invariant
            0 <= a <= n,
            mat@.len() == n,
            forall|x: int| 0 <= x < n ==> (#[trigger] mat@[x])@.len() == n,
            done@.len() == a,
            forall|x: int| 0 <= x < a ==> !#[trigger] done@[x],
            remaining@.len() == a,
        decreases n - a,
    {
        done.push(false);
        remaining.push(0);
        a = a + 1;
    }
    let mut a: usize = 0;
    while a < n
        invariant
            0 <= a <= n,
            mat@.len() == n,
            forall|x: int| 0 <= x < n ==> (#[trigger] mat@[x])@.len() == n,
            done@.len() == n,
            forall|x: int| 0 <= x < n ==> !#[trigger] done@[x],
            remaining@.len() == n,
            forall|x: int| 0 <= x < a ==> #[trigger] remaining@[x] == open_deps(mat@[x]@, done@, n as int),
        decreases n - a,
    {
        let row = &mat[a];
        let mut c: usize = 0;
        let mut b: usize = 0;
        while b < n
            invariant
                0 <= b <= n,
                row@.len() == n,
                done@.len() == n,
                c == open_deps(row@, done@, b as int),
                c <= b,
            decreases n - b,
        {
            if row[b] && !done[b] {
                c = c + 1;
            }
            b = b + 1;
        }
        remaining.set(a, c);
        a = a + 1;
    }
    let mut queue: Vec<usize> = Vec::new();
    let mut a: usize = 0;
    proof {
        assert(done@ =~= Seq::new(n as nat, |i: int| false));
    }
    while a < n
        invariant
            0 <= a <= n,
            remaining@.len() == n,
            forall|q: int| 0 <= q < queue@.len() ==> #[trigger] queue@[q] < n && remaining@[queue@[q] as int] == 0,
            forall|x: int| 0 <= x < a && #[trigger] remaining@[x] == 0 ==> queue@.contains(x as usize),
            mat@.len() == n,
            rows == rows_of(mat@),
            done@ == Seq::new(n as nat, |i: int| false),
            forall|x: int| 0 <= x < n ==> #[trigger] remaining@[x] == open_deps(mat@[x]@, done@, n as int),
            queue@ == ready_upto(rows, done@, n as int, a as int),
        decreases n - a,
    {
        proof {
            assert(rows[a as int] == mat@[a as int]@);
        }
        let ghost old_q = queue@;
        if remaining[a] == 0 {
            queue.push(a);
            assert(queue@[queue@.len() - 1] == a);
        }
        proof {
            assert forall|x: int| 0 <= x < a + 1 && #[trigger] remaining@[x] == 0 implies queue@.contains(x as usize) by {
                if x < a {
                    assert(old_q.contains(x as usize));
                    let w = choose|w: int| 0 <= w < old_q.len() && old_q[w] == x as usize;
                    assert(queue@[w] == x as usize);
                } else {
                    assert(queue@[queue@.len() - 1] == a);
                }
            }
        }
        a = a + 1;
    }
    proof {
        lemma_count_set_zero(done@);
        lemma_ready_len(rows, done@, n as int, n as int);
        assert(fuel_all >= 0) by (nonlinear_arith)
            requires
                fuel_all == (n + 1) * (n + 1),
        ;
    }
    let mut ordered: Vec<usize> = Vec::new();
    let mut count: usize = 0;
    let mut head: usize = 0;
    while head < queue.len()
        invariant
            mat@.len() == n,
            forall|x: int| 0 <= x < n ==> (#[trigger] mat@[x])@.len() == n,
            done@.len() == n,
            remaining@.len() == n,
            0 <= head <= queue@.len(),
            count == count_set(done@),
            count == ordered@.len(),
            count <= n,
            forall|x: int| 0 <= x < n ==> #[trigger] remaining@[x] == open_deps(mat@[x]@, done@, n as int),
            forall|q: int| 0 <= q < queue@.len() ==> #[trigger] queue@[q] < n && remaining@[queue@[q] as int] == 0,
            forall|x: int|
                0 <= x < n && !done@[x] && #[trigger] remaining@[x] == 0 ==> exists|q: int|
                    head <= q < queue@.len() && #[trigger] queue@[q] == x as usize,
            ordered@.no_duplicates(),
            forall|i: int| 0 <= i < ordered@.len() ==> #[trigger] ordered@[i] < n,
            forall|b: int| 0 <= b < n ==> (#[trigger] done@[b] <==> ordered@.contains(b as usize)),
            forall|i: int, b: int|
                0 <= i < ordered@.len() && 0 <= b < n && #[trigger] mat@[ordered@[i] as int]@[b] ==> exists|j: int|
                    0 <= j < i && #[trigger] ordered@[j] == b as usize,
            rows == rows_of(mat@),
            fuel_all == (n + 1) * (n + 1),
            queue@.len() <= n + n * count,
            kahn_run(rows, n as int, queue@, head as int, done@, ordered@, (fuel_all - head) as nat) == kahn_order(rows, n as int),
        decreases n - count, queue@.len() - head,
    {
        proof {
            assert(n + n * count <= n + n * n) by (nonlinear_arith)
                requires
                    count <= n,
            ;
            assert(n + n * n < (n + 1) * (n + 1)) by (nonlinear_arith);
        }
        let ghost h0 = head as int;
        let ghost q0 = queue@;
        let ghost d0 = done@;
        let ghost o0 = ordered@;
        let m = queue[head];
        head = head + 1;
        if done[m] {
            continue;
        }
        // every dependency of m is placed
        proof {
            lemma_open_deps_zero(mat@[m as int]@, done@, n as int);
            lemma_count_set(done@, m as int);
        }
        let ghost old_done = done@;
        let ghost old_ordered = ordered@;
        done.set(m, true);
        ordered.push(m);
        count = count + 1;
        proof {
            assert forall|b: int| 0 <= b < n implies (#[trigger] done@[b] <==> ordered@.contains(b as usize)) by {
                if b == m {
                    assert(ordered@[ordered@.len() - 1] == m);
                } else {
                    if old_ordered.contains(b as usize) {
                        let w = choose|w: int| 0 <= w < old_ordered.len() && old_ordered[w] == b as usize;
                        assert(ordered@[w] == b as usize);
                    }
                    if ordered@.contains(b as usize) {
                        let w = choose|w: int| 0 <= w < ordered@.len() && ordered@[w] == b as usize;
                        assert(w < old_ordered.len());
                        assert(old_ordered[w] == b as usize);
                    }
                }
            }
            assert forall|i: int, b: int|
                0 <= i < ordered@.len() && 0 <= b < n && #[trigger] mat@[ordered@[i] as int]@[b] implies exists|j: int|
                    0 <= j < i && #[trigger] ordered@[j] == b as usize by {
                if i < old_ordered.len() {
                    assert(ordered@[i] == old_ordered[i]);
                    let j = choose|j: int| 0 <= j < i && #[trigger] old_ordered[j] == b as usize;
                    assert(ordered@[j] == b as usize);
                } else {
                    assert(old_done[b]);
                    let w = choose|w: int| 0 <= w < old_ordered.len() && old_ordered[w] == b as usize;
                    assert(ordered@[w] == b as usize);
                }
            }
            assert(ordered@.no_duplicates()) by {
                assert(!old_ordered.contains(m));
                assert forall|p: int, q: int| 0 <= p < q < ordered@.len() implies ordered@[p] != ordered@[q] by {
                    if q == ordered@.len() - 1 {
                        assert(ordered@[p] == old_ordered[p]);
                    } else {
                        assert(ordered@[p] == old_ordered[p] && ordered@[q] == old_ordered[q]);
                    }
                }
            }
        }
        // release the modules that depend on m
        let mut d: usize = 0;
        while d < n
            invariant
                mat@.len() == n,
                forall|x: int| 0 <= x < n ==> (#[trigger] mat@[x])@.len() == n,
                m < n,
                done@.len() == n,
                old_done.len() == n,
                done@ == old_done.update(m as int, true),
                !old_done[m as int],
                remaining@.len() == n,
                0 <= d <= n,
                0 <= head <= queue@.len(),
                forall|x: int| 0 <= x < d ==> #[trigger] remaining@[x] == open_deps(mat@[x]@, done@, n as int),
                forall|x: int| d <= x < n ==> #[trigger] remaining@[x] == open_deps(mat@[x]@, old_done, n as int),
                forall|q: int| 0 <= q < queue@.len() ==> #[trigger] queue@[q] < n && remaining@[queue@[q] as int] == 0,
                forall|x: int|
                    0 <= x < d && !done@[x] && #[trigger] remaining@[x] == 0 ==> exists|q: int|
                        head <= q < queue@.len() && #[trigger] queue@[q] == x as usize,
                forall|x: int|
                    d <= x < n && !old_done[x] && x != m && #[trigger] remaining@[x] == 0 ==> exists|q: int|
                        head <= q < queue@.len() && #[trigger] queue@[q] == x as usize,
                rows == rows_of(mat@),
                queue@ == q0 + released_upto(rows, done@, m as int, n as int, d as int),
            decreases n - d,
        {
            proof {
                assert(rows[d as int] == mat@[d as int]@);
            }
            proof {
                lemma_open_deps_update(mat@[d as int]@, old_done, m as int, n as int);
            }
            let ghost old_q = queue@;
            if mat[d][m] {
                if remaining[d] > 0 {
                    let v = remaining[d] - 1;
                    remaining.set(d, v);
                }
                if remaining[d] == 0 {
                    queue.push(d);
                }
            }
            proof {
                assert forall|x: int|
                    0 <= x < d + 1 && !done@[x] && #[trigger] remaining@[x] == 0 implies exists|q: int|
                        head <= q < queue@.len() && #[trigger] queue@[q] == x as usize by {
                    if x < d {
                        let w = choose|w: int| head <= w < old_q.len() && #[trigger] old_q[w] == x as usize;
                        assert(queue@[w] == x as usize);
                    } else {
                        if !mat@[d as int]@[m as int] {
                            let w = choose|w: int| head <= w < old_q.len() && #[trigger] old_q[w] == x as usize;
                            assert(queue@[w] == x as usize);
                        } else {
                            assert(queue@[queue@.len() - 1] == d);
                        }
                    }
                }
                assert forall|x: int|
                    d + 1 <= x < n && !old_done[x] && x != m && #[trigger] remaining@[x] == 0 implies exists|q: int|
                        head <= q < queue@.len() && #[trigger] queue@[q] == x as usize by {
                    let w = choose|w: int| head <= w < old_q.len() && #[trigger] old_q[w] == x as usize;
                    assert(queue@[w] == x as usize);
                }
            }
            d = d + 1;
        }
        proof {
            lemma_released_len(rows, done@, m as int, n as int, n as int);
            let c0 = (count - 1) as int;
            assert(q0.len() <= n + n * c0);
            assert(n + n * c0 + n == n + n * count) by (nonlinear_arith)
                requires
                    c0 + 1 == count,
            ;
        }
    }
    proof {
        assert forall|x: int| 0 <= x < n && !#[trigger] done@[x] implies exists|b: int|
            0 <= b < n && #[trigger] mat@[x]@[b] && !done@[b] by {
            if remaining@[x] == 0 {
                let w = choose|w: int| head <= w < queue@.len() && #[trigger] queue@[w] == x as usize;
            }
            lemma_open_deps_pos(mat@[x]@, done@, n as int);
        }
    }
    (ordered, done)
}

// ---------------------------------------------------------------- report

/// One step of the refactoring order.
pub struct RefactorStep {
    /// 1-based position in the order.
    pub step: usize,
    pub module: String,
    /// Twice the number of target modules this one depends on.
    pub score: usize,
    pub level: String,
    pub reason: String,
    /// The number of target modules this one depends on.
    pub in_degree: usize,
}

/// A module that could not be placed, with the unplaced modules it depends
/// on.
pub struct CycleModule {
    pub module: String,
    pub depends_on: Vec<String>,
}

/// The refactoring order of a set of modules.
pub struct RefactorOrder {
    pub order: Vec<RefactorStep>,
    pub cycles: Vec<CycleModule>,
    pub total_modules: usize,
    pub has_cycles: bool,
}

/// The reason shown for a step with these dependencies.
pub open spec fn reason_spec(deps: Seq<Seq<char>>) -> Seq<char> {
    if deps.len() == 0 {
        "No dependencies on other target modules"@
    } else {
        "Depends on "@ + join_spec(deps, ", "@)
    }
}

/// What a step shows of module `a` at position `i`.
pub open spec fn step_ok(s: RefactorStep, i: int, mods: Seq<Seq<char>>, a: int, deps: Seq<int>) -> bool {
    &&& s.step == i + 1
    &&& s.module@ == mods[a]
    &&& s.in_degree == deps.len()
    &&& s.score == 2 * deps.len()
    &&& s.level@ == risk_level_spec(s.score as nat)
    &&& s.reason@ == reason_spec(names_at(mods, deps))
}

/// The modules among `0..k` that `a` depends on and that are not placed.
pub open spec fn open_dep_list(
    nodes: Seq<Node>,
    edges: Seq<Edge>,
    mods: Seq<Seq<char>>,
    ord: Seq<usize>,
    a: int,
    k: int,
) -> Seq<int>
    decreases k,
{
    if k <= 0 {
        Seq::empty()
    } else {
        let prev = open_dep_list(nodes, edges, mods, ord, a, k - 1);
        if depends(nodes, edges, mods, a, k - 1) && !ord.contains((k - 1) as usize) {
            prev.push(k - 1)
        } else {
            prev
        }
    }
}

/// The position of name `t` in `mods`.
pub open spec fn index_of_name(mods: Seq<Seq<char>>, t: Seq<char>) -> int {
    choose|a: int| 0 <= a < mods.len() && mods[a] == t
}

/// The targets (in the given order, repeats kept) whose module was not
/// placed.
pub open spec fn unplaced_targets(targets: Seq<Seq<char>>, mods: Seq<Seq<char>>, ord: Seq<usize>) -> Seq<Seq<char>>
    decreases targets.len(),
{
    if targets.len() == 0 {
        Seq::empty()
    } else {
        let prev = unplaced_targets(targets.drop_last(), mods, ord);
        let t = targets.last();
        if !ord.contains(index_of_name(mods, t) as usize) {
            prev.push(t)
        } else {
            prev
        }
    }
}

/// The normalized names of the targets.
pub open spec fn normalized_targets(modules: Seq<String>) -> Seq<Seq<char>> {
    modules.map_values(|m: String| normalize_spec(m@))
}

/// The dependency matrix of the modules `mods`, row by row.
pub open spec fn dep_rows(nodes: Seq<Node>, edges: Seq<Edge>, mods: Seq<Seq<char>>) -> Seq<Seq<bool>> {
    Seq::new(mods.len(), |a: int| Seq::new(mods.len(), |b: int| depends(nodes, edges, mods, a, b)))
}

/// What `refactor_order` answers, for the sorted distinct target names
/// `mods` and the order `ord` that Kahn's algorithm places them in.
pub open spec fn refactor_ok(
    graph: CodeGraph,
    modules: Seq<String>,
    limit: usize,
    r: RefactorOrder,
    mods: Seq<Seq<char>>,
    ord: Seq<usize>,
) -> bool {
    let targets = normalized_targets(modules);
    let nodes = graph.nodes@;
    let edges = graph.edges@;
    let n = mods.len() as int;
    &&& module_table(mods, targets)
    &&& ord == kahn_order(dep_rows(nodes, edges, mods), n)
    &&& ord.no_duplicates()
    &&& forall|i: int| 0 <= i < ord.len() ==> #[trigger] ord[i] < n
    &&& forall|i: int, b: int|
        0 <= i < ord.len() && 0 <= b < n && #[trigger] depends(nodes, edges, mods, ord[i] as int, b)
            ==> exists|j: int| 0 <= j < i && #[trigger] ord[j] == b as usize
    &&& forall|m: int|
        0 <= m < n && !#[trigger] ord.contains(m as usize) ==> exists|b: int|
            0 <= b < n && depends(nodes, edges, mods, m, b) && !ord.contains(b as usize)
    &&& r.order@.len() == if ord.len() <= limit {
        ord.len() as int
    } else {
        limit as int
    }
    &&& forall|i: int|
        0 <= i < r.order@.len() ==> step_ok(
            #[trigger] r.order@[i],
            i,
            mods,
            ord[i] as int,
            dep_list(nodes, edges, mods, ord[i] as int, n),
        )
    &&& r.cycles@.len() == if unplaced_targets(targets, mods, ord).len() <= limit {
        unplaced_targets(targets, mods, ord).len() as int
    } else {
        limit as int
    }
    &&& forall|i: int|
        0 <= i < r.cycles@.len() ==> {
            let t = unplaced_targets(targets, mods, ord)[i];
            &&& (#[trigger] r.cycles@[i]).module@ == t
            &&& r.cycles@[i].depends_on@.map_values(|s: String| s@) == names_at(
                mods,
                open_dep_list(nodes, edges, mods, ord, index_of_name(mods, t), n),
            )
        }
    &&& r.has_cycles == (ord.len() != modules.len())
}

/// The refactoring order of `modules` over `graph`, as Kahn's algorithm
/// gives it on the dependency graph of the distinct target modules taken
/// in name order.
///
/// Each step's module comes after every target module it depends on; a
/// module left out depends on another module left out.
pub fn refactor_order(graph: &CodeGraph, modules: &[String], limit: usize) -> (r: RefactorOrder)
    requires
        modules@.len() <= usize::MAX / 2,
    ensures
        r.total_modules == modules@.len(),
        exists|mods: Seq<Seq<char>>, ord: Seq<usize>| #[trigger] refactor_ok(*graph, modules@, limit, r, mods, ord),
{
    let mut targets: Vec<String> = Vec::new();
    let mut i: usize = 0;
    while i < modules.len()
        invariant
            0 <= i <= modules@.len(),
            targets@.map_values(|s: String| s@) == normalized_targets(modules@.take(i as int)),
        decreases modules@.len() - i,
    {
        let ghost old_t = targets@.map_values(|s: String| s@);
        let nm = normalize_module_name(modules[i].as_str());
        targets.push(nm);
        assert(targets@.map_values(|s: String| s@) =~= old_t.push(nm@));
        assert(modules@.take(i + 1) =~= modules@.take(i as int).push(modules@[i as int]));
        assert(targets@.map_values(|s: String| s@) =~= normalized_targets(modules@.take(i + 1)));
        i = i + 1;
    }
    assert(modules@.take(modules@.len() as int) =~= modules@);
    let ghost tv = targets@.map_values(|s: String| s@);
    let mods = sorted_distinct(&targets);
    let ghost mv = mods@.map_values(|s: String| s@);
    let n = mods.len();
    let idm = id_modules(&graph.nodes, &mods);
    let mat = dep_matrix(&graph.nodes, &graph.edges, &mods, &idm);
    let (ordered, done) = kahn(&mat, n);
    let ghost ord = ordered@;
    let ghost dep = |a: int, b: int| depends(graph.nodes@, graph.edges@, mv, a, b);
    proof {
        lemma_names_distinct(mv);
        assert forall|i: int, b: int|
            0 <= i < ord.len() && 0 <= b < n && #[trigger] depends(graph.nodes@, graph.edges@, mv, ord[i] as int, b)
                implies exists|j: int| 0 <= j < i && #[trigger] ord[j] == b as usize by {
            assert(mat@[ord[i] as int]@[b]);
        }
        assert forall|m: int|
            0 <= m < n && !#[trigger] ord.contains(m as usize) implies exists|b: int|
                0 <= b < n && depends(graph.nodes@, graph.edges@, mv, m, b) && !ord.contains(b as usize) by {
            assert(!done@[m]);
            let b = choose|b: int| 0 <= b < n && #[trigger] mat@[m]@[b] && !done@[b];
            assert(depends(graph.nodes@, graph.edges@, mv, m, b));
        }
    }
    // the steps
    let take = if ordered.len() <= limit { ordered.len() } else { limit };
    let mut order: Vec<RefactorStep> = Vec::new();
    let mut k: usize = 0;
    while k < take
        invariant
            0 <= k <= take,
            take <= ordered@.len(),
            n == mods@.len(),
            n <= usize::MAX / 2,
            mv == mods@.map_values(|s: String| s@),
            is_dep_matrix(mat@, n as int, dep),
            dep == (|a: int, b: int| depends(graph.nodes@, graph.edges@, mv, a, b)),
            forall|i: int| 0 <= i < ordered@.len() ==> #[trigger] ordered@[i] < n,
            order@.len() == k,
            forall|i: int|
                0 <= i < k ==> step_ok(
                    #[trigger] order@[i],
                    i,
                    mv,
                    ordered@[i] as int,
                    dep_list(graph.nodes@, graph.edges@, mv, ordered@[i] as int, n as int),
                ),
        decreases take - k,
    {
        let a = ordered[k];
        let mut names: Vec<String> = Vec::new();
        let mut b: usize = 0;
        while b < n
            invariant
                0 <= b <= n,
                a < n,
                n == mods@.len(),
                mv == mods@.map_values(|s: String| s@),
                is_dep_matrix(mat@, n as int, dep),
                dep == (|a: int, b: int| depends(graph.nodes@, graph.edges@, mv, a, b)),
                names@.len() <= b,
                names@.map_values(|s: String| s@) == names_at(
                    mv,
                    dep_list(graph.nodes@, graph.edges@, mv, a as int, b as int),
                ),
            decreases n - b,
        {
            assert(mat@[a as int]@[b as int] == depends(graph.nodes@, graph.edges@, mv, a as int, b as int));
            let ghost old_n = names@.map_values(|s: String| s@);
            if mat[a][b] {
                names.push(owned(mods[b].as_str()));
                assert(names@.map_values(|s: String| s@) =~= old_n.push(mv[b as int]));
            }
            assert(names@.map_values(|s: String| s@) =~= names_at(
                mv,
                dep_list(graph.nodes@, graph.edges@, mv, a as int, b + 1),
            ));
            b = b + 1;
        }
        let deg = names.len();
        let score = 2 * deg;
        let reason = if deg == 0 {
            owned("No dependencies on other target modules")
        } else {
            let joined = join(&names, ", ");
            concat2("Depends on ", joined.as_str())
        };
        proof {
            reveal_strlit("No dependencies on other target modules");
            reveal_strlit("Depends on ");
            reveal_strlit(", ");
        }
        let level = risk_level(score);
        order.push(RefactorStep {
            step: k + 1,
            module: owned(mods[a].as_str()),
            score,
            level: owned(level),
            reason,
            in_degree: deg,
        });
        k = k + 1;
    }
    // the modules left out
    let mut cycles: Vec<CycleModule> = Vec::new();
    let mut t: usize = 0;
    while t < targets.len()
        invariant
            0 <= t <= targets@.len(),
            tv == targets@.map_values(|s: String| s@),
            n == mods@.len(),
            mv == mods@.map_values(|s: String| s@),
            module_table(mv, tv),
            forall|i: int, j: int| 0 <= i < j < mv.len() ==> #[trigger] mv[i] != #[trigger] mv[j],
            is_dep_matrix(mat@, n as int, dep),
            dep == (|a: int, b: int| depends(graph.nodes@, graph.edges@, mv, a, b)),
            done@.len() == n,
            forall|b: int| 0 <= b < n ==> (#[trigger] done@[b] <==> ordered@.contains(b as usize)),
            cycles@.len() == unplaced_targets(tv.take(t as int), mv, ordered@).len(),
            forall|i: int|
                0 <= i < cycles@.len() ==> {
                    let tt = unplaced_targets(tv.take(t as int), mv, ordered@)[i];
                    &&& (#[trigger] cycles@[i]).module@ == tt
                    &&& cycles@[i].depends_on@.map_values(|s: String| s@) == names_at(
                        mv,
                        open_dep_list(graph.nodes@, graph.edges@, mv, ordered@, index_of_name(mv, tt), n as int),
                    )
                },
        decreases targets@.len() - t,
    {
        let name = targets[t].as_str();
        let ghost pre = tv.take(t as int);
        let ghost cur = tv.take(t + 1);
        assert(cur.drop_last() =~= pre);
        assert(cur.last() == tv[t as int]);
        assert(tv.contains(name@));
        let a = position_of(&mods, name);
        proof {
            assert(index_of_name(mv, name@) == a as int) by {
                assert(mv[a as int] == name@);
                let c = index_of_name(mv, name@);
                assert(0 <= c < mv.len() && mv[c] == name@);
                if c < a {
                    assert(mv[c] != mv[a as int]);
                } else if a < c {
                    assert(mv[a as int] != mv[c]);
                }
            }
        }
        let ghost old_c = cycles@;
        if !done[a] {
            let mut deps: Vec<String> = Vec::new();
            let mut b: usize = 0;
            while b < n
                invariant
                    0 <= b <= n,
                    a < n,
                    n == mods@.len(),
                    mv == mods@.map_values(|s: String| s@),
                    is_dep_matrix(mat@, n as int, dep),
                    dep == (|a: int, b: int| depends(graph.nodes@, graph.edges@, mv, a, b)),
                    done@.len() == n,
                    forall|x: int| 0 <= x < n ==> (#[trigger] done@[x] <==> ordered@.contains(x as usize)),
                    deps@.map_values(|s: String| s@) == names_at(
                        mv,
                        open_dep_list(graph.nodes@, graph.edges@, mv, ordered@, a as int, b as int),
                    ),
                decreases n - b,
            {
                assert(mat@[a as int]@[b as int] == depends(graph.nodes@, graph.edges@, mv, a as int, b as int));
                let ghost old_d = deps@.map_values(|s: String| s@);
                if mat[a][b] && !done[b] {
                    deps.push(owned(mods[b].as_str()));
                    assert(deps@.map_values(|s: String| s@) =~= old_d.push(mv[b as int]));
                }
                assert(deps@.map_values(|s: String| s@) =~= names_at(
                    mv,
                    open_dep_list(graph.nodes@, graph.edges@, mv, ordered@, a as int, b + 1),
                ));
                b = b + 1;
            }
            cycles.push(CycleModule { module: owned(name), depends_on: deps });
        }
        proof {
            let up = unplaced_targets(pre, mv, ordered@);
            let uc = unplaced_targets(cur, mv, ordered@);
            if !done@[a as int] {
                assert(uc == up.push(name@));
                assert forall|i: int| 0 <= i < cycles@.len() implies {
                    let tt = uc[i];
                    &&& (#[trigger] cycles@[i]).module@ == tt
                    &&& cycles@[i].depends_on@.map_values(|s: String| s@) == names_at(
                        mv,
                        open_dep_list(graph.nodes@, graph.edges@, mv, ordered@, index_of_name(mv, tt), n as int),
                    )
                } by {
                    if i < up.len() {
                        assert(cycles@[i] == old_c[i]);
                    }
                }
            } else {
                assert(uc == up);
            }
        }
        t = t + 1;
    }
    assert(tv.take(tv.len() as int) =~= tv);
    let mut cycles = cycles;
    if cycles.len() > limit {
        cycles.truncate(limit);
    }
    let total = targets.len();
    let has_cycles = ordered.len() != total;
    let r = RefactorOrder { order, cycles, total_modules: total, has_cycles };
    proof {
        assert(targets@.len() == modules@.len());
        assert(tv == normalized_targets(modules@));
        assert(rows_of(mat@) =~= dep_rows(graph.nodes@, graph.edges@, mv)) by {
            assert forall|a: int| 0 <= a < n implies #[trigger] rows_of(mat@)[a] =~= dep_rows(graph.nodes@, graph.edges@, mv)[a] by {
                assert forall|b: int| 0 <= b < n implies rows_of(mat@)[a][b] == dep_rows(graph.nodes@, graph.edges@, mv)[a][b] by {
                    assert(mat@[a]@[b] == depends(graph.nodes@, graph.edges@, mv, a, b));
                }
            }
        }
        assert(refactor_ok(*graph, modules@, limit, r, mv, ordered@));
    }
    r
}

/// Strictly ordered names are distinct.
pub proof fn lemma_names_distinct(mods: Seq<Seq<char>>)
    requires
        forall|i: int, j: int| 0 <= i < j < mods.len() ==> seq_lt(#[trigger] mods[i], #[trigger] mods[j]),
    ensures
        forall|i: int, j: int| 0 <= i < j < mods.len() ==> #[trigger] mods[i] != #[trigger] mods[j],
{
    assert forall|i: int, j: int| 0 <= i < j < mods.len() implies #[trigger] mods[i] != #[trigger] mods[j] by {
        lemma_seq_lt_irreflexive(mods[i]);
    }
}

/// The position of `name` in `mods`, which holds it.
pub fn position_of(mods: &Vec<String>, name: &str) -> (r: usize)
    requires
        mods@.map_values(|s: String| s@).contains(name@),
    ensures
        r < mods@.len(),
        mods@[r as int]@ == name@,
{
    let ghost mv = mods@.map_values(|s: String| s@);
    let mut k: usize = 0;
    while k < mods.len()
        invariant
            0 <= k <= mods@.len(),
            mv == mods@.map_values(|s: String| s@),
            mv.contains(name@),
            forall|q: int| 0 <= q < k ==> mv[q] != name@,
        decreases mods@.len() - k,
    {
        if str_eq(mods[k].as_str(), name) {
            return k;
        }
        k = k + 1;
    }
    proof {
        let w = choose|w: int| 0 <= w < mv.len() && mv[w] == name@;
        assert(mv[w] != name@);
    }
    0
}

} // verus!
