//! Finding nodes by name, with edit-distance suggestions.

use vstd::prelude::*;
use crate::model::{CodeGraph, Node};
use crate::sorting::{sort_positions, sorted_positions, strict_total};
use crate::text::{
    chars_of, concat2, concat3, ends_with, is_ascii_digit, join, join_spec, owned, push_str,
    seq_ends_with, str_eq,
};

verus! {

// ---------------------------------------------------------------- distance

/// The smaller of two numbers.
pub open spec fn min2(x: nat, y: nat) -> nat {
    if x <= y {
        x
    } else {
        y
    }
}

/// Edit distance (insertions, deletions, substitutions) between the first
/// `i` characters of `a` and the first `j` characters of `b`.
pub open spec fn lev(a: Seq<char>, b: Seq<char>, i: nat, j: nat) -> nat
    decreases i + j,
{
    if i == 0 {
        j
    } else if j == 0 {
        i
    } else {
        let cost: nat = if a[i - 1] == b[j - 1] {
            0
        } else {
            1
        };
        min2(
            min2(lev(a, b, (i - 1) as nat, j) + 1, lev(a, b, i, (j - 1) as nat) + 1),
            lev(a, b, (i - 1) as nat, (j - 1) as nat) + cost,
        )
    }
}

/// The edit distance between two character sequences.
pub open spec fn distance(a: Seq<char>, b: Seq<char>) -> nat {
    lev(a, b, a.len(), b.len())
}

/// The distance is at most the longer length.
pub proof fn lemma_lev_bound(a: Seq<char>, b: Seq<char>, i: nat, j: nat)
    ensures
        lev(a, b, i, j) <= if i <= j {
            j
        } else {
            i
        },
    decreases i + j,
{
    if i > 0 && j > 0 {
        lemma_lev_bound(a, b, (i - 1) as nat, (j - 1) as nat);
    }
}

proof fn lemma_lev_symmetric(a: Seq<char>, b: Seq<char>, i: nat, j: nat)
    ensures
        lev(a, b, i, j) == lev(b, a, j, i),
    decreases i + j,
{
    if i > 0 && j > 0 {
        lemma_lev_symmetric(a, b, (i - 1) as nat, j);
        lemma_lev_symmetric(a, b, i, (j - 1) as nat);
        lemma_lev_symmetric(a, b, (i - 1) as nat, (j - 1) as nat);
    }
}

proof fn lemma_lev_lower(a: Seq<char>, b: Seq<char>, i: nat, j: nat)
    ensures
        lev(a, b, i, j) >= if i <= j {
            j - i
        } else {
            i - j
        },
    decreases i + j,
{
    if i > 0 && j > 0 {
        lemma_lev_lower(a, b, (i - 1) as nat, j);
        lemma_lev_lower(a, b, i, (j - 1) as nat);
        lemma_lev_lower(a, b, (i - 1) as nat, (j - 1) as nat);
    }
}

proof fn lemma_lev_zero(a: Seq<char>, b: Seq<char>, i: nat, j: nat)
    requires
        i <= a.len(),
        j <= b.len(),
    ensures
        lev(a, b, i, j) == 0 <==> (i == j && a.take(i as int) == b.take(j as int)),
    decreases i + j,
{
    if i > 0 && j > 0 {
        lemma_lev_zero(a, b, (i - 1) as nat, (j - 1) as nat);
        lemma_lev_lower(a, b, (i - 1) as nat, j);
        lemma_lev_lower(a, b, i, (j - 1) as nat);
        if i == j && a.take(i as int) == b.take(j as int) {
            assert(a[i - 1] == a.take(i as int)[i - 1]);
            assert(b[j - 1] == b.take(j as int)[j - 1]);
            assert(a.take(i - 1) =~= a.take(i as int).take(i - 1));
            assert(b.take(j - 1) =~= b.take(j as int).take(j - 1));
        }
        if lev(a, b, i, j) == 0 {
            assert(a[i - 1] == b[j - 1]);
            assert(a.take(i as int) =~= a.take(i - 1).push(a[i - 1]));
            assert(b.take(j as int) =~= b.take(j - 1).push(b[j - 1]));
        }
    } else if i == 0 && j == 0 {
        assert(a.take(0) =~= b.take(0));
    }
}

/// Laws of the edit distance: a text is at distance 0 from itself and
/// only from itself, the distance is symmetric, the distance to the empty
/// text is the length, and the distance lies between the difference of the
/// lengths and the longer length.
pub proof fn lemma_distance_laws(a: Seq<char>, b: Seq<char>)
    ensures
        distance(a, a) == 0,
        distance(a, b) == distance(b, a),
        distance(a, Seq::empty()) == a.len(),
        distance(a, b) >= if a.len() <= b.len() {
            b.len() - a.len()
        } else {
            a.len() - b.len()
        },
        distance(a, b) <= if a.len() <= b.len() {
            b.len()
        } else {
            a.len()
        },
        distance(a, b) == 0 <==> a == b,
{
    lemma_lev_zero(a, a, a.len(), a.len());
    lemma_lev_symmetric(a, b, a.len(), b.len());
    lemma_lev_lower(a, b, a.len(), b.len());
    lemma_lev_bound(a, b, a.len(), b.len());
    lemma_lev_zero(a, b, a.len(), b.len());
    assert(a.take(a.len() as int) =~= a);
    assert(b.take(b.len() as int) =~= b);
}

/// The edit distance between `a` and `b`, counted in characters.
pub fn levenshtein(a: &str, b: &str) -> (r: usize)
    requires
        a@.len() < usize::MAX,
        b@.len() < usize::MAX,
    ensures
        r == distance(a@, b@),
{
    let av = chars_of(a);
    let bv = chars_of(b);
    let n = av.len();
    let m = bv.len();
    let mut prev: Vec<usize> = Vec::new();
    let mut j: usize = 0;
    while j <= m
        invariant
            0 <= j <= m + 1,
            m < usize::MAX,
            prev@.len() == j,
            forall|k: int| 0 <= k < j ==> #[trigger] prev@[k] == k,
        decreases m + 1 - j,
    {
        prev.push(j);
        j = j + 1;
    }
    let mut curr: Vec<usize> = Vec::new();
    j = 0;
    while j <= m
        invariant
            0 <= j <= m + 1,
            m < usize::MAX,
            curr@.len() == j,
        decreases m + 1 - j,
    {
        curr.push(0);
        j = j + 1;
    }
    let mut i: usize = 1;
    while i <= n
        invariant
            1 <= i <= n + 1,
            n == av@.len(),
            m == bv@.len(),
            av@ == a@,
            bv@ == b@,
            n < usize::MAX,
            m < usize::MAX,
            prev@.len() == m + 1,
            curr@.len() == m + 1,
            forall|k: int| 0 <= k <= m ==> #[trigger] prev@[k] == lev(a@, b@, (i - 1) as nat, k as nat),
        decreases n + 1 - i,
    {
        curr.set(0, i);
        let mut jj: usize = 1;
        while jj <= m
            invariant
                1 <= i <= n,
                1 <= jj <= m + 1,
                n == av@.len(),
                m == bv@.len(),
                av@ == a@,
                bv@ == b@,
                n < usize::MAX,
                m < usize::MAX,
                prev@.len() == m + 1,
                curr@.len() == m + 1,
                forall|k: int|
                    0 <= k <= m ==> #[trigger] prev@[k] == lev(a@, b@, (i - 1) as nat, k as nat),
                forall|k: int| 0 <= k < jj ==> #[trigger] curr@[k] == lev(a@, b@, i as nat, k as nat),
            decreases m + 1 - jj,
        {
            proof {
                lemma_lev_bound(a@, b@, (i - 1) as nat, jj as nat);
                lemma_lev_bound(a@, b@, i as nat, (jj - 1) as nat);
                lemma_lev_bound(a@, b@, (i - 1) as nat, (jj - 1) as nat);
            }
            let cost: usize = if av[i - 1] == bv[jj - 1] {
                0
            } else {
                1
            };
            let up = prev[jj];
            let left = curr[jj - 1];
            let diag = prev[jj - 1];
            let near = if up <= left {
                up
            } else {
                left
            };
            let step = near + 1;
            let via_diag = diag + cost;
            let v = if step <= via_diag {
                step
            } else {
                via_diag
            };
            curr.set(jj, v);
            jj = jj + 1;
        }
        std::mem::swap(&mut prev, &mut curr);
        i = i + 1;
    }
    prev[m]
}

// ---------------------------------------------------------------- suggestions

/// Candidates ordered by distance, ties kept in input order.
pub open spec fn by_distance(ds: Seq<usize>) -> spec_fn(int, int) -> bool {
    |i: int, j: int| ds[i] < ds[j] || (ds[i] == ds[j] && i < j)
}

/// The largest distance a suggestion may have, exclusive: the query's byte
/// length, or 5 when that is smaller.
pub open spec fn suggestion_cutoff(query: &str) -> nat {
    if query.len() >= 5 {
        query.len() as nat
    } else {
        5
    }
}

/// The suggestion lines for the first `limit` candidates of `order` whose
/// distance is under the cutoff.
pub open spec fn suggestion_lines(
    cands: Seq<Seq<char>>,
    ds: Seq<usize>,
    order: Seq<usize>,
    limit: nat,
    cutoff: nat,
) -> Seq<Seq<char>>
    decreases order.len(),
{
    let head = order.take(if limit <= order.len() {
        limit as int
    } else {
        order.len() as int
    });
    if head.len() == 0 {
        Seq::empty()
    } else {
        let prev = suggestion_lines(cands, ds, head.drop_last(), limit, cutoff);
        let p = head.last() as int;
        if ds[p] < cutoff {
            prev.push("  • "@ + cands[p])
        } else {
            prev
        }
    }
}

/// The text of a suggestion block: empty when there is no suggestion.
pub open spec fn suggestion_text(lines: Seq<Seq<char>>) -> Seq<char> {
    if lines.len() == 0 {
        Seq::empty()
    } else {
        "\nDid you mean?\n"@ + join_spec(lines, "\n"@)
    }
}

/// `out` is the suggestion block for `query` among `cands`: the `limit`
/// nearest candidates (stable in input order on ties) whose distance is
/// under the cutoff.
pub open spec fn is_suggestion(query: &str, cands: Seq<Seq<char>>, limit: nat, out: Seq<char>) -> bool {
    let ds = Seq::new(cands.len(), |k: int| distance(query@, cands[k]) as usize);
    exists|order: Seq<usize>|
        sorted_positions(order, cands.len() as int, by_distance(ds)) && out == suggestion_text(
            suggestion_lines(cands, ds, order, limit, suggestion_cutoff(query)),
        )
}

/// "Did you mean?" suggestions: the `limit` candidates nearest to `query`.
pub fn suggest(query: &str, candidates: &[&str], limit: usize) -> (r: String)
    requires
        query@.len() < usize::MAX,
        forall|k: int| 0 <= k < candidates@.len() ==> (#[trigger] candidates@[k])@.len() < usize::MAX,
    ensures
        is_suggestion(query, candidates@.map_values(|c: &str| c@), limit as nat, r@),
{
    let ghost cands = candidates@.map_values(|c: &str| c@);
    let n = candidates.len();
    let mut ds: Vec<usize> = Vec::new();
    let mut k: usize = 0;
    while k < n
        invariant
            0 <= k <= n,
            n == candidates@.len(),
            cands == candidates@.map_values(|c: &str| c@),
            query@.len() < usize::MAX,
            forall|q: int| 0 <= q < candidates@.len() ==> (#[trigger] candidates@[q])@.len() < usize::MAX,
            ds@.len() == k,
            forall|q: int| 0 <= q < k ==> #[trigger] ds@[q] == distance(query@, cands[q]),
        decreases n - k,
    {
        let d = levenshtein(query, candidates[k]);
        ds.push(d);
        k = k + 1;
    }
    let ghost dv = Seq::new(cands.len(), |q: int| distance(query@, cands[q]) as usize);
    assert(ds@ =~= dv);
    let ghost lt = by_distance(ds@);
    let before = |x: usize, y: usize| -> (b: bool)
        requires
            x < ds@.len(),
            y < ds@.len(),
        ensures
            b == (ds@[x as int] < ds@[y as int] || (ds@[x as int] == ds@[y as int] && x < y)),
        { ds[x] < ds[y] || (ds[x] == ds[y] && x < y) };
    let order = sort_positions(n, &before, Ghost(lt));
    let cutoff: usize = if query.len() >= 5 {
        query.len()
    } else {
        5
    };
    let take = if limit <= n {
        limit
    } else {
        n
    };
    let mut lines: Vec<String> = Vec::new();
    let mut t: usize = 0;
    proof {
        reveal_strlit("  • ");
    }
    while t < take
        invariant
            0 <= t <= take,
            take <= n,
            take == (if limit <= n { limit } else { n }),
            n == order@.len(),
            n == ds@.len(),
            n == candidates@.len(),
            cands == candidates@.map_values(|c: &str| c@),
            forall|q: int| 0 <= q < order@.len() ==> (#[trigger] order@[q]) < n,
            lines@.map_values(|s: String| s@) == suggestion_lines(
                cands,
                ds@,
                order@.take(t as int),
                limit as nat,
                cutoff as nat,
            ),
        decreases take - t,
    {
        let p = order[t];
        let ghost pre = order@.take(t as int);
        let ghost cur = order@.take(t + 1);
        assert(cur.take(cur.len() as int) =~= cur);
        assert(cur.drop_last() =~= pre);
        assert(pre.take(pre.len() as int) =~= pre);
        if ds[p] < cutoff {
            let line = concat2("  • ", candidates[p]);
            lines.push(line);
        }
        assert(lines@.map_values(|s: String| s@) =~= suggestion_lines(
            cands,
            ds@,
            cur,
            limit as nat,
            cutoff as nat,
        ));
        t = t + 1;
    }
    assert(order@.take(take as int) =~= order@.take(take as int).take(take as int));
    proof {
        lemma_suggestion_lines_take(cands, ds@, order@, limit as nat, cutoff as nat);
    }
    let ghost want = suggestion_lines(cands, dv, order@, limit as nat, suggestion_cutoff(query));
    assert(cutoff as nat == suggestion_cutoff(query));
    assert(lines@.map_values(|s: String| s@) == want);
    let r = if lines.len() == 0 {
        String::new()
    } else {
        let body = join(&lines, "\n");
        proof {
            reveal_strlit("\nDid you mean?\n");
            reveal_strlit("\n");
        }
        concat2("\nDid you mean?\n", body.as_str())
    };
    assert(sorted_positions(order@, cands.len() as int, by_distance(dv)) && r@ == suggestion_text(want));
    r
}

/// The lines of a whole order are those of its first `limit` entries.
proof fn lemma_suggestion_lines_take(
    cands: Seq<Seq<char>>,
    ds: Seq<usize>,
    order: Seq<usize>,
    limit: nat,
    cutoff: nat,
)
    ensures
        suggestion_lines(cands, ds, order, limit, cutoff) == suggestion_lines(
            cands,
            ds,
            order.take(if limit <= order.len() {
                limit as int
            } else {
                order.len() as int
            }),
            limit,
            cutoff,
        ),
{
    let h = if limit <= order.len() {
        limit as int
    } else {
        order.len() as int
    };
    assert(order.take(h).take(h) =~= order.take(h));
}

} // verus!

verus! {

// ---------------------------------------------------------------- lookup

/// `id` is `name` followed by one `#` or ASCII digit.
pub open spec fn strips_to(id: Seq<char>, name: Seq<char>) -> bool {
    &&& id.len() > 0
    &&& (id.last() == '#' || is_ascii_digit(id.last()))
    &&& id.drop_last() == name
}

/// The matching rule of each stage of the lookup: 0 matches ids and
/// qualified names, 1 short names, 2 qualified-name suffixes `.name`.
pub open spec fn stage_match(stage: nat, n: Node, name: Seq<char>) -> bool {
    if stage == 0 {
        n.id@ == name || strips_to(n.id@, name) || n.qualified_name@ == name
    } else if stage == 1 {
        n.name@ == name
    } else {
        seq_ends_with(n.qualified_name@, seq!['.'] + name)
    }
}

/// Positions, in order, of the nodes that a stage matches.
pub open spec fn stage_positions(nodes: Seq<Node>, name: Seq<char>, stage: nat) -> Seq<int>
    decreases nodes.len(),
{
    if nodes.len() == 0 {
        Seq::empty()
    } else {
        let prev = stage_positions(nodes.drop_last(), name, stage);
        if stage_match(stage, nodes.last(), name) {
            prev.push(nodes.len() - 1)
        } else {
            prev
        }
    }
}

/// Stage positions lie within the nodes.
pub proof fn lemma_stage_positions_bound(nodes: Seq<Node>, name: Seq<char>, stage: nat)
    ensures
        forall|k: int|
            0 <= k < stage_positions(nodes, name, stage).len() ==> 0 <= #[trigger] stage_positions(
                nodes,
                name,
                stage,
            )[k] < nodes.len(),
    decreases nodes.len(),
{
    if nodes.len() > 0 {
        lemma_stage_positions_bound(nodes.drop_last(), name, stage);
        let sp = stage_positions(nodes.drop_last(), name, stage);
        let sc = stage_positions(nodes, name, stage);
        assert forall|k: int| 0 <= k < sc.len() implies 0 <= #[trigger] sc[k] < nodes.len() by {
            if k < sp.len() {
                assert(sc[k] == sp[k]);
            }
        }
    }
}

/// The positions `find_nodes` answers with: those of the first stage that
/// matches anything.
pub open spec fn found_positions(nodes: Seq<Node>, name: Seq<char>) -> Seq<int> {
    let exact = stage_positions(nodes, name, 0);
    let by_name = stage_positions(nodes, name, 1);
    if exact.len() > 0 {
        exact
    } else if by_name.len() > 0 {
        by_name
    } else {
        stage_positions(nodes, name, 2)
    }
}

/// `r` holds, in order, the nodes at positions `ps`.
pub open spec fn refs_at(r: Seq<&Node>, nodes: Seq<Node>, ps: Seq<int>) -> bool {
    &&& r.len() == ps.len()
    &&& forall|k: int| 0 <= k < r.len() ==> 0 <= #[trigger] ps[k] < nodes.len()
    &&& forall|k: int| 0 <= k < r.len() ==> *(#[trigger] r[k]) == nodes[ps[k]]
}

/// Whether a node matches a stage.
fn matches_stage(n: &Node, name: &str, suffix: &str, stage: u8) -> (r: bool)
    requires
        suffix@ == seq!['.'] + name@,
    ensures
        r == stage_match(stage as nat, *n, name@),
{
    if stage == 0 {
        if str_eq(n.id.as_str(), name) || str_eq(n.qualified_name.as_str(), name) {
            return true;
        }
        let cs = chars_of(n.id.as_str());
        let len = cs.len();
        if len == 0 {
            return false;
        }
        let last = cs[len - 1];
        if !(last == '#' || ('0' <= last && last <= '9')) {
            return false;
        }
        let base = crate::text::string_from_range(cs.as_slice(), 0, len - 1);
        assert(cs@.subrange(0, len - 1) =~= cs@.drop_last());
        str_eq(base.as_str(), name)
    } else if stage == 1 {
        str_eq(n.name.as_str(), name)
    } else {
        ends_with(n.qualified_name.as_str(), suffix)
    }
}

/// The nodes that a stage matches, in graph order.
fn stage_nodes<'a>(nodes: &'a Vec<Node>, name: &str, suffix: &str, stage: u8) -> (r: Vec<&'a Node>)
    requires
        suffix@ == seq!['.'] + name@,
    ensures
        refs_at(r@, nodes@, stage_positions(nodes@, name@, stage as nat)),
{
    let mut r: Vec<&'a Node> = Vec::new();
    let mut i: usize = 0;
    while i < nodes.len()
        invariant
            0 <= i <= nodes@.len(),
            suffix@ == seq!['.'] + name@,
            refs_at(r@, nodes@, stage_positions(nodes@.take(i as int), name@, stage as nat)),
        decreases nodes@.len() - i,
    {
        let ghost pre = nodes@.take(i as int);
        let ghost cur = nodes@.take(i + 1);
        assert(cur.drop_last() =~= pre);
        assert(cur.last() == nodes@[i as int]);
        let hit = matches_stage(&nodes[i], name, suffix, stage);
        let ghost old_r = r@;
        if hit {
            r.push(&nodes[i]);
        }
        proof {
            let sp = stage_positions(pre, name@, stage as nat);
            let sc = stage_positions(cur, name@, stage as nat);
            lemma_stage_positions_bound(pre, name@, stage as nat);
            if hit {
                assert(sc == sp.push(i as int));
                assert forall|k: int| 0 <= k < r@.len() implies *(#[trigger] r@[k]) == nodes@[sc[k]] by {
                    if k < sp.len() {
                        assert(r@[k] == old_r[k]);
                    }
                }
            } else {
                assert(sc == sp);
            }
        }
        i = i + 1;
    }
    assert(nodes@.take(nodes@.len() as int) =~= nodes@);
    r
}

/// Nodes named `name`: by id (also with one trailing `#` or digit
/// stripped) or qualified name; else by short name; else by qualified-name
/// suffix `.name`.
pub fn find_nodes<'a>(graph: &'a CodeGraph, name: &str) -> (r: Vec<&'a Node>)
    ensures
        refs_at(r@, graph.nodes@, found_positions(graph.nodes@, name@)),
{
    let suffix = concat2(".", name);
    proof {
        reveal_strlit(".");
        assert(suffix@ =~= seq!['.'] + name@);
    }
    let exact = stage_nodes(&graph.nodes, name, suffix.as_str(), 0);
    if exact.len() > 0 {
        return exact;
    }
    let by_name = stage_nodes(&graph.nodes, name, suffix.as_str(), 1);
    if by_name.len() > 0 {
        return by_name;
    }
    stage_nodes(&graph.nodes, name, suffix.as_str(), 2)
}

/// Why a node could not be picked by name.
pub enum NodeLookupError {
    /// No node matched; the message ends with suggestions.
    NotFound(String),
    /// More than one node matched; the message lists their qualified names.
    Ambiguous(String),
}

/// The qualified names of the nodes at `ps`.
pub open spec fn qualified_names_at(nodes: Seq<Node>, ps: Seq<int>) -> Seq<Seq<char>> {
    ps.map_values(|p: int| nodes[p].qualified_name@)
}

/// The error for a lookup of `name` that did not find exactly one node:
/// none found (with suggestions among the node names), or several (listed
/// by qualified name).
pub open spec fn lookup_error_ok(nodes: Seq<Node>, name: &str, label: Seq<char>, e: NodeLookupError) -> bool {
    let found = found_positions(nodes, name@);
    let head = label + " `"@ + name@ + "`"@;
    match e {
        NodeLookupError::NotFound(m) => found.len() == 0 && exists|s: Seq<char>|
            is_suggestion(name, nodes.map_values(|n: Node| n.name@), 3, s) && m@ == head + " not found"@ + s,
        NodeLookupError::Ambiguous(m) => found.len() > 1 && m@ == head + " is ambiguous, matches: "@ + join_spec(
            qualified_names_at(nodes, found),
            ", "@,
        ),
    }
}

/// The one node named `name`, or an error that says why there is none.
pub fn require_unique_node<'a>(graph: &'a CodeGraph, name: &str, label: &str) -> (r: Result<
    &'a Node,
    NodeLookupError,
>)
    requires
        name@.len() < usize::MAX,
        forall|k: int| 0 <= k < graph.nodes@.len() ==> (#[trigger] graph.nodes@[k]).name@.len() < usize::MAX,
    ensures
        match r {
            Ok(n) => found_positions(graph.nodes@, name@).len() == 1 && *n == graph.nodes@[found_positions(graph.nodes@, name@)[0]],
            Err(e) => lookup_error_ok(graph.nodes@, name, label@, e),
        },
{
    let matches = find_nodes(graph, name);
    let head = concat3(label, " `", name);
    let head = concat2(head.as_str(), "`");
    if matches.len() == 0 {
        let mut names: Vec<&str> = Vec::new();
        let mut i: usize = 0;
        while i < graph.nodes.len()
            invariant
                0 <= i <= graph.nodes@.len(),
                names@.len() == i,
                forall|k: int| 0 <= k < i ==> (#[trigger] names@[k])@ == graph.nodes@[k].name@,
            decreases graph.nodes@.len() - i,
        {
            names.push(graph.nodes[i].name.as_str());
            i = i + 1;
        }
        assert(names@.map_values(|c: &str| c@) =~= graph.nodes@.map_values(|n: Node| n.name@));
        let s = suggest(name, names.as_slice(), 3);
        let mut m = concat2(head.as_str(), " not found");
        push_str(&mut m, s.as_str());
        proof {
            reveal_strlit(" `");
            reveal_strlit("`");
            reveal_strlit(" not found");
        }
        return Err(NodeLookupError::NotFound(m));
    }
    if matches.len() > 1 {
        let ghost found = found_positions(graph.nodes@, name@);
        let mut qnames: Vec<String> = Vec::new();
        let mut i: usize = 0;
        while i < matches.len()
            invariant
                0 <= i <= matches@.len(),
                found == found_positions(graph.nodes@, name@),
                refs_at(matches@, graph.nodes@, found),
                qnames@.len() == i,
                forall|k: int|
                    0 <= k < i ==> (#[trigger] qnames@[k])@ == graph.nodes@[found[k]].qualified_name@,
            decreases matches@.len() - i,
        {
            qnames.push(owned(matches[i].qualified_name.as_str()));
            i = i + 1;
        }
        assert(qnames@.map_values(|s: String| s@) =~= qualified_names_at(graph.nodes@, found));
        let joined = join(&qnames, ", ");
        let mut m = concat2(head.as_str(), " is ambiguous, matches: ");
        push_str(&mut m, joined.as_str());
        proof {
            reveal_strlit(" `");
            reveal_strlit("`");
            reveal_strlit(" is ambiguous, matches: ");
            reveal_strlit(", ");
        }
        return Err(NodeLookupError::Ambiguous(m));
    }
    Ok(matches[0])
}

/// The positions of the nodes that a stage matches, in order.
fn stage_position_list(nodes: &Vec<Node>, name: &str, suffix: &str, stage: u8) -> (r: Vec<usize>)
    requires
        suffix@ == seq!['.'] + name@,
    ensures
        r@.map_values(|p: usize| p as int) == stage_positions(nodes@, name@, stage as nat),
{
    let mut r: Vec<usize> = Vec::new();
    let mut i: usize = 0;
    while i < nodes.len()
        invariant
            0 <= i <= nodes@.len(),
            suffix@ == seq!['.'] + name@,
            r@.map_values(|p: usize| p as int) == stage_positions(nodes@.take(i as int), name@, stage as nat),
        decreases nodes@.len() - i,
    {
        let ghost pre = nodes@.take(i as int);
        let ghost cur = nodes@.take(i + 1);
        assert(cur.drop_last() =~= pre);
        assert(cur.last() == nodes@[i as int]);
        let ghost old_r = r@.map_values(|p: usize| p as int);
        if matches_stage(&nodes[i], name, suffix, stage) {
            r.push(i);
            assert(r@.map_values(|p: usize| p as int) =~= old_r.push(i as int));
        }
        i = i + 1;
    }
    assert(nodes@.take(nodes@.len() as int) =~= nodes@);
    r
}

/// The positions of the nodes that `find_nodes` answers with.
pub fn find_positions(graph: &CodeGraph, name: &str) -> (r: Vec<usize>)
    ensures
        r@.map_values(|p: usize| p as int) == found_positions(graph.nodes@, name@),
        forall|k: int| 0 <= k < r@.len() ==> #[trigger] r@[k] < graph.nodes@.len(),
{
    let suffix = concat2(".", name);
    proof {
        reveal_strlit(".");
        assert(suffix@ =~= seq!['.'] + name@);
        lemma_stage_positions_bound(graph.nodes@, name@, 0);
        lemma_stage_positions_bound(graph.nodes@, name@, 1);
        lemma_stage_positions_bound(graph.nodes@, name@, 2);
    }
    let exact = stage_position_list(&graph.nodes, name, suffix.as_str(), 0);
    let r = if exact.len() > 0 {
        exact
    } else {
        let by_name = stage_position_list(&graph.nodes, name, suffix.as_str(), 1);
        if by_name.len() > 0 {
            by_name
        } else {
            stage_position_list(&graph.nodes, name, suffix.as_str(), 2)
        }
    };
    proof {
        assert forall|k: int| 0 <= k < r@.len() implies #[trigger] r@[k] < graph.nodes@.len() by {
            assert(r@.map_values(|p: usize| p as int)[k] == r@[k] as int);
        }
    }
    r
}

} // verus!
