//! Query commands: impact of a change, call traces, symbol listings and
//! searches.

use vstd::prelude::*;
use crate::analyze::refactor_order::{module_table, sorted_distinct};
use crate::model::{CodeGraph, Edge, EdgeKind, Node};
use crate::query::filter::{SymbolFilter, calls_among, collect_calls, description_spec, filter_matches, incoming_calls};
use crate::query::find::{NodeLookupError, find_positions, found_positions, lookup_error_ok, require_unique_node};
use crate::query::index::{QueryIndex, last_with_id, lemma_positions_at, positions_at, total_weight};
use crate::query::traversal::{WalkStep, opt_view, step_ok, walk, walk_complete};
use crate::model::views;
use crate::text::{concat3, decimal, decimal_string, owned, str_eq};
use crate::sorting::{sort_positions, sorted_positions};
use crate::analyze::deps::larger_first;

verus! {

// ---------------------------------------------------------------- impact

/// A file that calls the symbol, with the distinct names of its callers.
pub struct FileImpact {
    pub file: String,
    /// The number of distinct caller names in the file.
    pub count: usize,
    /// The first five caller names, sorted.
    pub symbols: Vec<String>,
}

/// A direct call of the symbol: the call edge and the caller.
pub struct CallSite {
    pub edge: usize,
    pub caller: usize,
}

/// What changing a symbol affects.
pub struct ImpactReport {
    /// Position of the symbol.
    pub root: usize,
    pub callers: Vec<WalkStep>,
    pub dependents: Vec<WalkStep>,
    pub dependencies: Vec<WalkStep>,
    pub files_affected: Vec<FileImpact>,
    pub call_sites: Vec<CallSite>,
    pub change_hints: Vec<String>,
}

/// The callers, as (file, name), of the call edges at `ps` whose caller is
/// a node with a file.
pub open spec fn caller_files(nodes: Seq<Node>, edges: Seq<Edge>, ps: Seq<usize>) -> Seq<(Seq<char>, Seq<char>)>
    decreases ps.len(),
{
    if ps.len() == 0 {
        Seq::empty()
    } else {
        let prev = caller_files(nodes, edges, ps.drop_last());
        let i = last_with_id(nodes, edges[ps.last() as int].from@);
        if 0 <= i < nodes.len() && nodes[i].file is Some {
            prev.push((nodes[i].file->0@, nodes[i].name@))
        } else {
            prev
        }
    }
}

/// The caller names in file `f`.
pub open spec fn names_in(recs: Seq<(Seq<char>, Seq<char>)>, f: Seq<char>) -> Seq<Seq<char>>
    decreases recs.len(),
{
    if recs.len() == 0 {
        Seq::empty()
    } else {
        let prev = names_in(recs.drop_last(), f);
        if recs.last().0 == f {
            prev.push(recs.last().1)
        } else {
            prev
        }
    }
}

/// The call sites of the call edges at `ps` whose caller is a node.
pub open spec fn call_sites_of(nodes: Seq<Node>, edges: Seq<Edge>, ps: Seq<usize>) -> Seq<(usize, usize)>
    decreases ps.len(),
{
    if ps.len() == 0 {
        Seq::empty()
    } else {
        let prev = call_sites_of(nodes, edges, ps.drop_last());
        let i = last_with_id(nodes, edges[ps.last() as int].from@);
        if i >= 0 {
            prev.push((ps.last(), i as usize))
        } else {
            prev
        }
    }
}

/// Some of the call edges at `ps` has the method call style.
pub open spec fn any_method_call(edges: Seq<Edge>, ps: Seq<usize>) -> bool {
    exists|k: int| 0 <= k < ps.len() && edges[#[trigger] ps[k] as int].call_style is Some && edges[ps[k] as int].call_style->0@ == "method"@
}

/// The advice given for a symbol whose direct calls are at `calls`, over
/// `files` distinct caller files.
pub open spec fn change_hints_spec(n: Node, edges: Seq<Edge>, calls: Seq<usize>, files: nat) -> Seq<Seq<char>> {
    if calls.len() == 0 {
        seq!["Safe to remove — no callers found"@]
    } else {
        seq![
            if files >= 3 {
                "High: changes propagate to "@ + decimal(files) + " files"@
            } else {
                "Low: contained change ("@ + decimal(files) + " file(s))"@
            },
        ] + (if n.visibility is Some && n.visibility->0@ == "public"@ {
            seq!["Consider deprecation period — symbol is public and has callers"@]
        } else {
            Seq::empty()
        }) + (if any_method_call(edges, calls) {
            seq!["Check class hierarchy for breaking changes — method call style detected"@]
        } else {
            Seq::empty()
        })
    }
}

/// The files of `recs`, each once, in first-occurrence order.
pub open spec fn record_files(recs: Seq<(Seq<char>, Seq<char>)>) -> Seq<Seq<char>>
    decreases recs.len(),
{
    if recs.len() == 0 {
        Seq::empty()
    } else {
        let prev = record_files(recs.drop_last());
        if prev.contains(recs.last().0) {
            prev
        } else {
            prev.push(recs.last().0)
        }
    }
}

/// The entry of a file: its distinct caller names, sorted, counted, and
/// the first five of them.
pub open spec fn file_impact_ok(f: FileImpact, recs: Seq<(Seq<char>, Seq<char>)>) -> bool {
    names_summary_ok(f.count as nat, views(f.symbols@), names_in(recs, f.file@))
}

/// `count` is the number of distinct `names`, and `shown` the first five of
/// them in sorted order.
pub open spec fn names_summary_ok(count: nat, shown: Seq<Seq<char>>, names: Seq<Seq<char>>) -> bool {
    exists|all: Seq<Seq<char>>|
        #[trigger] module_table(all, names) && count == all.len() && shown == all.take(
            if all.len() <= 5 { all.len() as int } else { 5 },
        )
}

/// What `impact` answers for the symbol at position `root`.
pub open spec fn impact_ok(graph: CodeGraph, depth: usize, limit: usize, root: int, r: ImpactReport) -> bool {
    let nodes = graph.nodes@;
    let edges = graph.edges@;
    let id = nodes[root].id@;
    let calls = incoming_calls(edges, id);
    let recs = caller_files(nodes, edges, calls);
    let fa = r.files_affected@;
    &&& r.root == root
    &&& forall|k: int| 0 <= k < r.callers@.len() ==> step_ok(nodes, edges, r.callers@, k, id, false, Some("calls"@), depth)
    &&& forall|k: int| 0 <= k < r.dependencies@.len() ==> step_ok(nodes, edges, r.dependencies@, k, id, true, None, depth)
    &&& forall|k: int| 0 <= k < r.dependents@.len() ==> step_ok(nodes, edges, r.dependents@, k, id, false, None, depth)
    &&& walk_complete(nodes, edges, r.callers@, id, false, Some("calls"@), depth, limit)
    &&& walk_complete(nodes, edges, r.dependencies@, id, true, None, depth, limit)
    &&& walk_complete(nodes, edges, r.dependents@, id, false, None, depth, limit)
    &&& r.call_sites@.map_values(|c: CallSite| (c.edge, c.caller)) == call_sites_of(nodes, edges, calls)
    &&& fa.map_values(|f: FileImpact| f.file@).no_duplicates()
    &&& fa.len() == record_files(recs).len()
    &&& forall|f: Seq<char>| #[trigger] record_files(recs).contains(f) ==> fa.map_values(|x: FileImpact| x.file@).contains(f)
    &&& forall|k: int| 0 <= k < fa.len() ==> file_impact_ok(#[trigger] fa[k], recs)
    &&& forall|i: int, j: int| 0 <= i < j < fa.len() ==> (#[trigger] fa[i]).count >= (#[trigger] fa[j]).count
    &&& views(r.change_hints@) == change_hints_spec(nodes[root], edges, calls, fa.len() as nat)
}

/// The files and caller names of the direct calls at `calls`, grouped by
/// file in first-occurrence order.
fn group_callers(index: &QueryIndex, calls: &Vec<usize>) -> (r: (Vec<String>, Vec<Vec<String>>))
    requires
        index.wf(),
        forall|k: int| 0 <= k < calls@.len() ==> #[trigger] calls@[k] < index.edge_seq().len(),
    ensures
        ({
            let recs = caller_files(index.node_seq(), index.edge_seq(), calls@);
            &&& views(r.0@) == record_files(recs)
            &&& r.1@.len() == r.0@.len()
            &&& forall|g: int| 0 <= g < r.0@.len() ==> views((#[trigger] r.1@[g])@) == names_in(recs, r.0@[g]@)
        }),
{
    let graph = index.graph();
    let ghost nodes = graph.nodes@;
    let ghost edges = graph.edges@;
    let mut files: Vec<String> = Vec::new();
    let mut names: Vec<Vec<String>> = Vec::new();
    let mut k: usize = 0;
    while k < calls.len()
        invariant
            index.wf(),
            nodes == index.node_seq(),
            edges == index.edge_seq(),
            graph.nodes@ == nodes,
            graph.edges@ == edges,
            forall|q: int| 0 <= q < calls@.len() ==> #[trigger] calls@[q] < edges.len(),
            0 <= k <= calls@.len(),
            views(files@) == record_files(caller_files(nodes, edges, calls@.take(k as int))),
            names@.len() == files@.len(),
            forall|g: int| 0 <= g < files@.len() ==> views((#[trigger] names@[g])@) == names_in(
                caller_files(nodes, edges, calls@.take(k as int)),
                files@[g]@,
            ),
        decreases calls@.len() - k,
    {
        let ghost pre = calls@.take(k as int);
        let ghost cur = calls@.take(k + 1);
        assert(cur.drop_last() =~= pre);
        assert(cur.last() == calls@[k as int]);
        let ghost rp = caller_files(nodes, edges, pre);
        let e = &graph.edges[calls[k]];
        let ghost old_f = views(files@);
        let ghost old_n = names@;
        match index.node_index(e.from.as_str()) {
            Some(i) => {
                let n = &graph.nodes[i];
                match &n.file {
                    Some(f) => {
                        let ghost rec = (f@, n.name@);
                        let ghost rc = rp.push(rec);
                        assert(caller_files(nodes, edges, cur) == rc);
                        assert(rc.drop_last() =~= rp);
                        // find the group
                        let mut g: usize = 0;
                        let mut found = false;
                        while g < files.len()
                            invariant_except_break
                                !found,
                            invariant
                                0 <= g <= files@.len(),
                                forall|q: int| 0 <= q < g ==> (#[trigger] files@[q])@ != f@,
                            ensures
                                found ==> g < files@.len() && files@[g as int]@ == f@,
                                !found ==> forall|q: int| 0 <= q < files@.len() ==> (#[trigger] files@[q])@ != f@,
                            decreases files@.len() - g,
                        {
                            if str_eq(files[g].as_str(), f.as_str()) {
                                found = true;
                                break;
                            }
                            g = g + 1;
                        }
                        if found {
                            let mut list: Vec<String> = Vec::new();
                            std::mem::swap(&mut list, &mut names[g]);
                            list.push(owned(n.name.as_str()));
                            names.set(g, list);
                            proof {
                                assert(old_f.contains(f@)) by {
                                    assert(old_f[g as int] == f@);
                                }
                                assert(record_files(rc) == record_files(rp));
                                lemma_record_files_distinct(rp);
                                assert forall|gg: int| 0 <= gg < files@.len() implies views((#[trigger] names@[gg])@) == names_in(rc, files@[gg]@) by {
                                    if gg != g {
                                        assert(names@[gg] == old_n[gg]);
                                        assert(old_f[gg] != old_f[g as int]);
                                    } else {
                                        assert(views(names@[gg]@) =~= views(old_n[gg]@).push(n.name@));
                                    }
                                }
                            }
                        } else {
                            files.push(owned(f.as_str()));
                            let mut list: Vec<String> = Vec::new();
                            list.push(owned(n.name.as_str()));
                            names.push(list);
                            proof {
                                assert(!old_f.contains(f@)) by {
                                    if old_f.contains(f@) {
                                        let w = choose|w: int| 0 <= w < old_f.len() && old_f[w] == f@;
                                        assert(files@[w]@ == f@);
                                    }
                                }
                                assert(views(files@) =~= old_f.push(f@));
                                assert forall|gg: int| 0 <= gg < files@.len() implies views((#[trigger] names@[gg])@) == names_in(rc, files@[gg]@) by {
                                    if gg < old_f.len() {
                                        assert(names@[gg] == old_n[gg]);
                                        assert(files@[gg]@ != f@) by {
                                            assert(old_f[gg] == files@[gg]@);
                                        }
                                    } else {
                                        assert(names_in(rp, f@).len() == 0) by {
                                            lemma_names_in_absent(rp, f@);
                                        }
                                        assert(views(names@[gg]@) =~= seq![n.name@]);
                                        assert(names_in(rp, f@) =~= Seq::<Seq<char>>::empty());
                                    }
                                }
                            }
                        }
                    },
                    None => {
                        assert(caller_files(nodes, edges, cur) == rp);
                    },
                }
            },
            None => {
                assert(caller_files(nodes, edges, cur) == rp);
            },
        }
        k = k + 1;
    }
    assert(calls@.take(calls@.len() as int) =~= calls@);
    (files, names)
}

/// The files of the records are distinct.
proof fn lemma_record_files_distinct(recs: Seq<(Seq<char>, Seq<char>)>)
    ensures
        record_files(recs).no_duplicates(),
    decreases recs.len(),
{
    if recs.len() > 0 {
        lemma_record_files_distinct(recs.drop_last());
        let prev = record_files(recs.drop_last());
        if !prev.contains(recs.last().0) {
            let cur = prev.push(recs.last().0);
            assert forall|i: int, j: int| 0 <= i < j < cur.len() implies cur[i] != cur[j] by {
                if j == prev.len() {
                    assert(cur[i] == prev[i]);
                } else {
                    assert(cur[i] == prev[i] && cur[j] == prev[j]);
                }
            }
        }
    }
}

/// A file that no record names has no names.
proof fn lemma_names_in_absent(recs: Seq<(Seq<char>, Seq<char>)>, f: Seq<char>)
    requires
        !record_files(recs).contains(f),
    ensures
        names_in(recs, f).len() == 0,
    decreases recs.len(),
{
    if recs.len() > 0 {
        let prev = record_files(recs.drop_last());
        assert(!prev.contains(f)) by {
            if prev.contains(f) {
                let w = choose|w: int| 0 <= w < prev.len() && prev[w] == f;
                if prev.contains(recs.last().0) {
                    assert(record_files(recs)[w] == f);
                } else {
                    assert(record_files(recs)[w] == f);
                }
            }
        }
        lemma_names_in_absent(recs.drop_last(), f);
        if recs.last().0 == f {
            if prev.contains(recs.last().0) {
            } else {
                assert(record_files(recs)[prev.len() as int] == f);
            }
        }
    }
}

/// What changing the symbol named `name` affects: its callers, dependents
/// and dependencies (walks of `depth` levels, `limit` nodes), the files
/// that call it directly, the direct call sites, and advice.
pub fn impact(graph: &CodeGraph, name: &str, depth: usize, limit: usize) -> (r: Result<ImpactReport, NodeLookupError>)
    requires
        2 * total_weight(graph.edges@) <= usize::MAX,
        name@.len() < usize::MAX,
        forall|k: int| 0 <= k < graph.nodes@.len() ==> (#[trigger] graph.nodes@[k]).name@.len() < usize::MAX,
    ensures
        match r {
            Ok(rep) => found_positions(graph.nodes@, name@).len() == 1 && impact_ok(
                *graph,
                depth,
                limit,
                found_positions(graph.nodes@, name@)[0],
                rep,
            ),
            Err(e) => lookup_error_ok(graph.nodes@, name, "symbol"@, e),
        },
        r is Ok <==> found_positions(graph.nodes@, name@).len() == 1,
{
    let index = QueryIndex::new(graph);
    let ghost nodes = graph.nodes@;
    let ghost edges = graph.edges@;
    let pos = find_positions(graph, name);
    if pos.len() != 1 {
        proof {
            reveal_strlit("symbol");
        }
        return match require_unique_node(graph, name, "symbol") {
            Err(e) => Err(e),
            Ok(_) => Err(NodeLookupError::NotFound(String::new())),
        };
    }
    let root = pos[0];
    assert(pos@.map_values(|p: usize| p as int)[0] == root as int);
    let node = &graph.nodes[root];
    let id = node.id.as_str();
    proof {
        reveal_strlit("calls");
    }
    let callers = walk(&index, id, false, Some("calls"), depth, limit);
    let dependencies = walk(&index, id, true, None, depth, limit);
    let dependents = walk(&index, id, false, None, depth, limit);
    let incoming = index.edges(id, false);
    let n_edges = graph.edges.len();
    proof {
        lemma_positions_at(edges, id@, false);
    }
    let calls = collect_calls(&graph.edges, incoming);
    // call sites
    let mut sites: Vec<CallSite> = Vec::new();
    let mut k: usize = 0;
    while k < calls.len()
        invariant
            index.wf(),
            index.node_seq() == nodes,
            index.edge_seq() == edges,
            graph.edges@ == edges,
            forall|q: int| 0 <= q < calls@.len() ==> #[trigger] calls@[q] < edges.len(),
            0 <= k <= calls@.len(),
            sites@.map_values(|c: CallSite| (c.edge, c.caller)) == call_sites_of(nodes, edges, calls@.take(k as int)),
        decreases calls@.len() - k,
    {
        assert(calls@.take(k + 1).drop_last() =~= calls@.take(k as int));
        let ghost old_s = sites@.map_values(|c: CallSite| (c.edge, c.caller));
        match index.node_index(graph.edges[calls[k]].from.as_str()) {
            Some(i) => {
                sites.push(CallSite { edge: calls[k], caller: i });
                assert(sites@.map_values(|c: CallSite| (c.edge, c.caller)) =~= old_s.push((calls@[k as int], i)));
            },
            None => {},
        }
        k = k + 1;
    }
    assert(calls@.take(calls@.len() as int) =~= calls@);
    // files affected
    let (files, names) = group_callers(&index, &calls);
    let ghost recs = caller_files(nodes, edges, calls@);
    let nf = files.len();
    let mut counts: Vec<usize> = Vec::new();
    let mut shown: Vec<Vec<String>> = Vec::new();
    let mut g: usize = 0;
    while g < nf
        invariant
            0 <= g <= nf,
            nf == files@.len(),
            names@.len() == nf,
            forall|q: int| 0 <= q < nf ==> views((#[trigger] names@[q])@) == names_in(recs, files@[q]@),
            counts@.len() == g,
            shown@.len() == g,
            forall|q: int| 0 <= q < g ==> #[trigger] names_summary_ok(counts@[q] as nat, views(shown@[q]@), names_in(recs, files@[q]@)),
        decreases nf - g,
    {
        let all = sorted_distinct(&names[g]);
        let take = if all.len() <= 5 { all.len() } else { 5 };
        let mut first: Vec<String> = Vec::new();
        let mut q: usize = 0;
        while q < take
            invariant
                0 <= q <= take,
                take <= all@.len(),
                first@.len() == q,
                forall|x: int| 0 <= x < q ==> (#[trigger] first@[x])@ == all@[x]@,
            decreases take - q,
        {
            first.push(owned(all[q].as_str()));
            q = q + 1;
        }
        proof {
            assert(views(first@) =~= views(all@).take(take as int));
            assert(module_table(views(all@), names_in(recs, files@[g as int]@)));
            assert(names_summary_ok(all@.len() as nat, views(first@), names_in(recs, files@[g as int]@)));
        }
        counts.push(all.len());
        shown.push(first);
        g = g + 1;
    }
    let ghost lt = larger_first(counts@);
    let before = |x: usize, y: usize| -> (b: bool)
        requires
            x < counts@.len(),
            y < counts@.len(),
        ensures
            b == (counts@[x as int] > counts@[y as int] || (counts@[x as int] == counts@[y as int] && x < y)),
        { counts[x] > counts[y] || (counts[x] == counts[y] && x < y) };
    let order = sort_positions(nf, &before, Ghost(lt));
    let mut fa: Vec<FileImpact> = Vec::new();
    let mut k: usize = 0;
    while k < nf
        invariant
            0 <= k <= nf,
            nf == files@.len(),
            counts@.len() == nf,
            shown@.len() == nf,
            sorted_positions(order@, nf as int, lt),
            fa@.len() == k,
            forall|q: int| 0 <= q < k ==> {
                let o = order@[q] as int;
                &&& (#[trigger] fa@[q]).file@ == files@[o]@
                &&& fa@[q].count == counts@[o]
                &&& views(fa@[q].symbols@) == views(shown@[o]@)
            },
        decreases nf - k,
    {
        let o = order[k];
        let mut sym: Vec<String> = Vec::new();
        let mut q: usize = 0;
        while q < shown[o].len()
            invariant
                o < shown@.len(),
                0 <= q <= shown@[o as int]@.len(),
                sym@.len() == q,
                forall|x: int| 0 <= x < q ==> (#[trigger] sym@[x])@ == shown@[o as int]@[x]@,
            decreases shown@[o as int]@.len() - q,
        {
            sym.push(owned(shown[o][q].as_str()));
            q = q + 1;
        }
        assert(views(sym@) =~= views(shown@[o as int]@));
        fa.push(FileImpact { file: owned(files[o].as_str()), count: counts[o], symbols: sym });
        k = k + 1;
    }
    // advice
    let mut hints: Vec<String> = Vec::new();
    proof {
        reveal_strlit("Safe to remove — no callers found");
        reveal_strlit("High: changes propagate to ");
        reveal_strlit(" files");
        reveal_strlit("Low: contained change (");
        reveal_strlit(" file(s))");
        reveal_strlit("public");
        reveal_strlit("Consider deprecation period — symbol is public and has callers");
        reveal_strlit("method");
        reveal_strlit("Check class hierarchy for breaking changes — method call style detected");
    }
    if calls.len() == 0 {
        hints.push(owned("Safe to remove — no callers found"));
        assert(views(hints@) =~= change_hints_spec(nodes[root as int], edges, calls@, fa@.len() as nat));
    } else {
        let digits = decimal_string(nf);
        let first = if nf >= 3 {
            concat3("High: changes propagate to ", digits.as_str(), " files")
        } else {
            concat3("Low: contained change (", digits.as_str(), " file(s))")
        };
        hints.push(first);
        let public = match &node.visibility {
            Some(v) => str_eq(v.as_str(), "public"),
            None => false,
        };
        if public {
            hints.push(owned("Consider deprecation period — symbol is public and has callers"));
        }
        let mut method = false;
        let mut q: usize = 0;
        while q < calls.len()
            invariant
                0 <= q <= calls@.len(),
                forall|x: int| 0 <= x < calls@.len() ==> #[trigger] calls@[x] < edges.len(),
                graph.edges@ == edges,
                method == exists|x: int| 0 <= x < q && edges[#[trigger] calls@[x] as int].call_style is Some
                    && edges[calls@[x] as int].call_style->0@ == "method"@,
            decreases calls@.len() - q,
        {
            let is_method = match &graph.edges[calls[q]].call_style {
                Some(cs) => str_eq(cs.as_str(), "method"),
                None => false,
            };
            if is_method {
                method = true;
            }
            q = q + 1;
        }
        if method {
            hints.push(owned("Check class hierarchy for breaking changes — method call style detected"));
        }
        assert(views(hints@) =~= change_hints_spec(nodes[root as int], edges, calls@, fa@.len() as nat));
    }
    let rep = ImpactReport {
        root,
        callers,
        dependents,
        dependencies,
        files_affected: fa,
        call_sites: sites,
        change_hints: hints,
    };
    proof {
        let fav = rep.files_affected@;
        let fn_ = fav.map_values(|f: FileImpact| f.file@);
        lemma_record_files_distinct(recs);
        assert forall|i: int, j: int| 0 <= i < j < fn_.len() implies fn_[i] != fn_[j] by {
            assert(order@[i] != order@[j]);
            assert(views(files@)[order@[i] as int] != views(files@)[order@[j] as int]);
        }
        assert forall|f: Seq<char>| #[trigger] record_files(recs).contains(f) implies fn_.contains(f) by {
            let w = choose|w: int| 0 <= w < views(files@).len() && views(files@)[w] == f;
            assert(order@.contains(w as usize));
            let p = choose|p: int| 0 <= p < order@.len() && order@[p] == w as usize;
            assert(fn_[p] == f);
        }
        assert forall|k: int| 0 <= k < fav.len() implies file_impact_ok(#[trigger] fav[k], recs) by {
            let o = order@[k] as int;
            assert(names_summary_ok(counts@[o] as nat, views(shown@[o]@), names_in(recs, files@[o]@)));
        }
        assert forall|i: int, j: int| 0 <= i < j < fav.len() implies (#[trigger] fav[i]).count >= (#[trigger] fav[j]).count by {
            assert(lt(order@[i] as int, order@[j] as int));
        }
        assert(impact_ok(*graph, depth, limit, root as int, rep));
    }
    Ok(rep)
}

// ---------------------------------------------------------------- trace

/// Which way a trace follows calls.
#[derive(Clone, Copy, Debug, PartialEq, Eq, Structural)]
pub enum TraceDirection {
    Up,
    Down,
    Both,
}

/// The callers (upstream) and callees (downstream) of a symbol.
pub struct TraceReport {
    /// Position of the symbol.
    pub root: usize,
    pub direction: TraceDirection,
    pub depth: usize,
    pub upstream: Vec<WalkStep>,
    pub downstream: Vec<WalkStep>,
}

/// Follow the calls into (up) and out of (down) the symbol named `name`,
/// `depth` levels deep, at most `limit` nodes each way.
pub fn trace(graph: &CodeGraph, name: &str, direction: TraceDirection, depth: usize, limit: usize) -> (r: Result<TraceReport, NodeLookupError>)
    requires
        2 * total_weight(graph.edges@) <= usize::MAX,
        name@.len() < usize::MAX,
        forall|k: int| 0 <= k < graph.nodes@.len() ==> (#[trigger] graph.nodes@[k]).name@.len() < usize::MAX,
    ensures
        match r {
            Ok(t) => {
                let found = found_positions(graph.nodes@, name@);
                let id = graph.nodes@[found[0]].id@;
                &&& found.len() == 1
                &&& t.root == found[0]
                &&& t.direction == direction
                &&& t.depth == depth
                &&& (direction == TraceDirection::Down ==> t.upstream@.len() == 0)
                &&& (direction == TraceDirection::Up ==> t.downstream@.len() == 0)
                &&& forall|k: int| 0 <= k < t.upstream@.len() ==> step_ok(graph.nodes@, graph.edges@, t.upstream@, k, id, false, Some("calls"@), depth)
                &&& forall|k: int| 0 <= k < t.downstream@.len() ==> step_ok(graph.nodes@, graph.edges@, t.downstream@, k, id, true, Some("calls"@), depth)
            },
            Err(e) => lookup_error_ok(graph.nodes@, name, "symbol"@, e),
        },
{
    let index = QueryIndex::new(graph);
    let pos = find_positions(graph, name);
    proof {
        reveal_strlit("symbol");
        reveal_strlit("calls");
    }
    if pos.len() != 1 {
        return match require_unique_node(graph, name, "symbol") {
            Err(e) => Err(e),
            Ok(_) => Err(NodeLookupError::NotFound(String::new())),
        };
    }
    let root = pos[0];
    assert(pos@.map_values(|p: usize| p as int)[0] == root as int);
    let id = graph.nodes[root].id.as_str();
    let up = match direction {
        TraceDirection::Down => Vec::new(),
        _ => walk(&index, id, false, Some("calls"), depth, limit),
    };
    let down = match direction {
        TraceDirection::Up => Vec::new(),
        _ => walk(&index, id, true, Some("calls"), depth, limit),
    };
    Ok(TraceReport { root, direction, depth, upstream: up, downstream: down })
}

// ---------------------------------------------------------------- symbols

/// A node of the wanted kind: any node when no kind is given.
pub open spec fn node_kind_ok(n: Node, kind: Option<Seq<char>>) -> bool {
    kind is None || crate::model::node_kind_str(n.kind) == kind->0
}

/// Positions of the nodes among the first `k` of the wanted kind that pass
/// the filter.
pub open spec fn listed_symbols(nodes: Seq<Node>, edges: Seq<Edge>, kind: Option<Seq<char>>, f: SymbolFilter, k: int) -> Seq<int>
    decreases k,
{
    if k <= 0 {
        Seq::empty()
    } else {
        let prev = listed_symbols(nodes, edges, kind, f, k - 1);
        if node_kind_ok(nodes[k - 1], kind) && filter_matches(f, nodes[k - 1], nodes, edges) {
            prev.push(k - 1)
        } else {
            prev
        }
    }
}

/// Symbols listed by kind and filter.
pub struct SymbolList {
    /// Positions of the listed nodes.
    pub items: Vec<usize>,
    pub applied_filters: Vec<String>,
}

/// The first `limit` nodes, in graph order, of the wanted kind that pass
/// `filter`, with the filter's description.
pub fn symbols(graph: &CodeGraph, kind: Option<&str>, limit: usize, filter: SymbolFilter) -> (r: SymbolList)
    requires
        2 * total_weight(graph.edges@) <= usize::MAX,
    ensures
        ({
            let all = listed_symbols(graph.nodes@, graph.edges@, opt_view(kind), filter, graph.nodes@.len() as int);
            &&& r.items@.map_values(|p: usize| p as int) == all.take(if all.len() <= limit { all.len() as int } else { limit as int })
            &&& views(r.applied_filters@) == description_spec(filter)
        }),
{
    let index = QueryIndex::new(graph);
    let ghost nodes = graph.nodes@;
    let ghost edges = graph.edges@;
    let mut items: Vec<usize> = Vec::new();
    let mut i: usize = 0;
    while i < graph.nodes.len() && items.len() < limit
        invariant
            index.wf(),
            index.node_seq() == nodes,
            index.edge_seq() == edges,
            graph.nodes@ == nodes,
            0 <= i <= nodes.len(),
            items@.map_values(|p: usize| p as int) == listed_symbols(nodes, edges, opt_view(kind), filter, i as int),
            items@.len() <= limit,
        decreases nodes.len() - i,
    {
        let node = &graph.nodes[i];
        let kind_ok = match kind {
            Some(k) => str_eq(node.kind.as_str(), k),
            None => true,
        };
        let ghost old_items = items@.map_values(|p: usize| p as int);
        if kind_ok && filter.matches(node, &index) {
            items.push(i);
            assert(items@.map_values(|p: usize| p as int) =~= old_items.push(i as int));
        }
        i = i + 1;
    }
    proof {
        lemma_listed_prefix(nodes, edges, opt_view(kind), filter, i as int, nodes.len() as int);
    }
    let applied_filters = filter.description();
    assert(views(applied_filters@) =~= applied_filters@.map_values(|s: String| s@));
    SymbolList { items, applied_filters }
}

/// The listing of a prefix is a prefix of the listing.
proof fn lemma_listed_prefix(nodes: Seq<Node>, edges: Seq<Edge>, kind: Option<Seq<char>>, f: SymbolFilter, i: int, n: int)
    requires
        0 <= i <= n,
    ensures
        listed_symbols(nodes, edges, kind, f, i).len() <= listed_symbols(nodes, edges, kind, f, n).len(),
        listed_symbols(nodes, edges, kind, f, i) == listed_symbols(nodes, edges, kind, f, n).take(
            listed_symbols(nodes, edges, kind, f, i).len() as int,
        ),
    decreases n - i,
{
    if i < n {
        lemma_listed_prefix(nodes, edges, kind, f, i + 1, n);
        let a = listed_symbols(nodes, edges, kind, f, i);
        let b = listed_symbols(nodes, edges, kind, f, i + 1);
        let all = listed_symbols(nodes, edges, kind, f, n);
        assert(b.take(a.len() as int) =~= a);
        assert(all.take(b.len() as int).take(a.len() as int) =~= all.take(a.len() as int));
    } else {
        let all = listed_symbols(nodes, edges, kind, f, n);
        assert(all.take(all.len() as int) =~= all);
    }
}

// ---------------------------------------------------------------- risk

/// The risk score of a change: twice the direct callers (at most 20), four
/// times the affected files (at most 10), 20 for a public symbol; at most
/// 100.
pub open spec fn risk_score_spec(callers: nat, files: nat, visibility: Option<Seq<char>>) -> nat {
    let vis: nat = if visibility is Some && (visibility->0 == "public"@ || visibility->0 == "pub"@) {
        20
    } else {
        0
    };
    let c: nat = if callers <= 20 { callers } else { 20 };
    let f: nat = if files <= 10 { files } else { 10 };
    let total = c * 2 + f * 4 + vis;
    if total <= 100 {
        total
    } else {
        100
    }
}

/// Laws of the risk score: a public (or `pub`) symbol scores exactly 20
/// more than the same symbol with no or another visibility; with no callers
/// and no files a non-public symbol scores 0; the score never falls as
/// callers or files grow, and never passes 100.
pub proof fn lemma_risk_score_laws(callers: nat, files: nat, other: Option<Seq<char>>, more_callers: nat, more_files: nat)
    requires
        other is None || (other->0 != "public"@ && other->0 != "pub"@),
        callers <= more_callers,
        files <= more_files,
    ensures
        risk_score_spec(callers, files, Some("public"@)) == risk_score_spec(callers, files, other) + 20,
        risk_score_spec(callers, files, Some("pub"@)) == risk_score_spec(callers, files, other) + 20,
        risk_score_spec(0, 0, other) == 0,
        risk_score_spec(callers, files, other) <= risk_score_spec(more_callers, more_files, other),
        risk_score_spec(callers, files, Some("public"@)) <= 100,
{
}

/// The risk score of a change.
pub fn risk_score(callers: usize, files: usize, visibility: Option<&str>) -> (r: usize)
    ensures
        r == risk_score_spec(callers as nat, files as nat, opt_view(visibility)),
{
    proof {
        reveal_strlit("public");
        reveal_strlit("pub");
    }
    let vis: usize = match visibility {
        Some(v) => if str_eq(v, "public") || str_eq(v, "pub") {
            20
        } else {
            0
        },
        None => 0,
    };
    let c = if callers <= 20 { callers } else { 20 };
    let f = if files <= 10 { files } else { 10 };
    let total = c * 2 + f * 4 + vis;
    if total <= 100 {
        total
    } else {
        100
    }
}

/// The level of a risk score.
pub open spec fn risk_label(score: nat) -> Seq<char> {
    if score <= 19 {
        "low"@
    } else if score <= 49 {
        "medium"@
    } else if score <= 79 {
        "high"@
    } else {
        "critical"@
    }
}

/// The level of a risk score.
pub fn risk_level(score: usize) -> (r: &'static str)
    ensures
        r@ == risk_label(score as nat),
{
    proof {
        reveal_strlit("low");
        reveal_strlit("medium");
        reveal_strlit("high");
        reveal_strlit("critical");
    }
    if score <= 19 {
        "low"
    } else if score <= 49 {
        "medium"
    } else if score <= 79 {
        "high"
    } else {
        "critical"
    }
}

/// How risky a change to a symbol is.
pub struct RiskReport {
    /// Position of the symbol.
    pub root: usize,
    pub score: usize,
    pub level: String,
    pub direct_callers: usize,
    pub affected_files: usize,
    pub dependents: Vec<WalkStep>,
    pub dependencies: Vec<WalkStep>,
}

/// The risk of changing the symbol named `name`, from its direct callers,
/// the files they lie in and its visibility, with its dependents and
/// dependencies (walks of `depth` levels, `limit` nodes).
pub fn risk(graph: &CodeGraph, name: &str, depth: usize, limit: usize) -> (r: Result<RiskReport, NodeLookupError>)
    requires
        2 * total_weight(graph.edges@) <= usize::MAX,
        name@.len() < usize::MAX,
        forall|k: int| 0 <= k < graph.nodes@.len() ==> (#[trigger] graph.nodes@[k]).name@.len() < usize::MAX,
    ensures
        match r {
            Ok(rk) => {
                let found = found_positions(graph.nodes@, name@);
                let n = graph.nodes@[found[0]];
                let calls = incoming_calls(graph.edges@, n.id@);
                let files = record_files(caller_files(graph.nodes@, graph.edges@, calls)).len();
                &&& found.len() == 1
                &&& rk.root == found[0]
                &&& rk.direct_callers == calls.len()
                &&& rk.affected_files == files
                &&& rk.score == risk_score_spec(calls.len(), files, match n.visibility { Some(v) => Some(v@), None => None })
                &&& rk.level@ == risk_label(rk.score as nat)
                &&& forall|k: int| 0 <= k < rk.dependencies@.len() ==> step_ok(graph.nodes@, graph.edges@, rk.dependencies@, k, n.id@, true, None, depth)
                &&& forall|k: int| 0 <= k < rk.dependents@.len() ==> step_ok(graph.nodes@, graph.edges@, rk.dependents@, k, n.id@, false, None, depth)
            },
            Err(e) => lookup_error_ok(graph.nodes@, name, "symbol"@, e),
        },
{
    let index = QueryIndex::new(graph);
    let ghost edges = graph.edges@;
    let pos = find_positions(graph, name);
    proof {
        reveal_strlit("symbol");
    }
    if pos.len() != 1 {
        return match require_unique_node(graph, name, "symbol") {
            Err(e) => Err(e),
            Ok(_) => Err(NodeLookupError::NotFound(String::new())),
        };
    }
    let root = pos[0];
    assert(pos@.map_values(|p: usize| p as int)[0] == root as int);
    let node = &graph.nodes[root];
    let id = node.id.as_str();
    let incoming = index.edges(id, false);
    let n_edges = graph.edges.len();
    proof {
        lemma_positions_at(edges, id@, false);
    }
    let calls = collect_calls(&graph.edges, incoming);
    let (files, _names) = group_callers(&index, &calls);
    let vis: Option<&str> = match &node.visibility {
        Some(v) => Some(v.as_str()),
        None => None,
    };
    let score = risk_score(calls.len(), files.len(), vis);
    let level = owned(risk_level(score));
    let dependencies = walk(&index, id, true, None, depth, limit);
    let dependents = walk(&index, id, false, None, depth, limit);
    assert(views(files@).len() == files@.len());
    Ok(RiskReport {
        root,
        score,
        level,
        direct_callers: calls.len(),
        affected_files: files.len(),
        dependents,
        dependencies,
    })
}

// ---------------------------------------------------------------- source

/// Lines `start..end` of a text's lines, joined by line feeds, where
/// `start` is the 1-based first line less one and `end` the last line
/// capped at the number of lines; none when that is empty.
pub open spec fn snippet_spec(content: Seq<char>, start_line: usize, end_line: usize) -> Option<Seq<Seq<char>>> {
    let ls = crate::text::lines_spec(content);
    let start: int = if start_line >= 1 { start_line - 1 } else { 0 };
    let end: int = if end_line <= ls.len() { end_line as int } else { ls.len() as int };
    if start < end {
        Some(ls.subrange(start, end))
    } else {
        None
    }
}

/// The lines of `content` that a node's range covers.
pub fn source_lines(content: &str, start_line: usize, end_line: usize) -> (r: Option<Vec<String>>)
    ensures
        match r {
            Some(v) => snippet_spec(content@, start_line, end_line) == Some(views(v@)),
            None => snippet_spec(content@, start_line, end_line) is None,
        },
{
    let ls = crate::text::lines(content);
    let start = if start_line >= 1 { start_line - 1 } else { 0 };
    let end = if end_line <= ls.len() { end_line } else { ls.len() };
    if start >= end {
        return None;
    }
    let mut v: Vec<String> = Vec::new();
    let mut i = start;
    while i < end
        invariant
            start <= i <= end,
            end <= ls@.len(),
            v@.len() == i - start,
            forall|k: int| 0 <= k < v@.len() ==> (#[trigger] v@[k])@ == ls@[start + k]@,
        decreases end - i,
    {
        v.push(owned(ls[i].as_str()));
        i = i + 1;
    }
    assert(views(v@) =~= views(ls@).subrange(start as int, end as int));
    assert(views(ls@) == ls@.map_values(|x: String| x@));
    Some(v)
}

} // verus!
