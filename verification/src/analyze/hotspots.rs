//! Change hotspots from a `git log --name-only` listing: how often each
//! file changed, by how many authors, when last, and which files change
//! together.

use vstd::prelude::*;
use vstd::hash_map::StringHashMap;
use crate::analyze::refactor_order::{strip_trail};
use crate::model::{occurrences, views};
use crate::query::filter::distinct_count;
use crate::sorting::{
    lemma_seq_lt_irreflexive, lemma_seq_lt_total, lemma_seq_lt_transitive, seq_lt, sort_positions,
    sorted_positions, str_lt,
};
use crate::text::{
    chars_of, is_blank, lines, lines_spec, owned, replace_char, replace_char_spec, seq_starts_with,
    split_on, split_on_spec, starts_with, str_eq, string_from_range, trim, trim_spec, concat2,
};

verus! {

// ---------------------------------------------------------------- parsing

/// The line that starts each commit of the listing.
pub open spec fn commit_marker() -> Seq<char> {
    "__COMMIT__\n"@
}

/// A listed path relative to the project root: an absolute path under the
/// root loses the root and its `/`; other paths are kept. Backslashes
/// become `/`.
pub open spec fn git_path(p: Seq<char>, root: Seq<char>) -> Seq<char> {
    let r = strip_trail(root, '/');
    let rel = if p.len() > 0 && p[0] == '/' && r.len() > 0 {
        if p == r {
            Seq::<char>::empty()
        } else if seq_starts_with(p, r + "/"@) {
            p.skip(r.len() + 1int)
        } else {
            p
        }
    } else {
        p
    };
    replace_char_spec(rel, '\\', '/')
}

/// The blocks of the listing that describe a commit: not blank, with at
/// least a hash line.
pub open spec fn commit_blocks(blocks: Seq<Seq<char>>) -> Seq<Seq<char>>
    decreases blocks.len(),
{
    if blocks.len() == 0 {
        Seq::empty()
    } else {
        let prev = commit_blocks(blocks.drop_last());
        let b = blocks.last();
        if trim_spec(b).len() > 0 && lines_spec(b).len() > 0 {
            prev.push(b)
        } else {
            prev
        }
    }
}

/// The trimmed line `k` of a block, or nothing.
pub open spec fn block_line(b: Seq<char>, k: int) -> Seq<char> {
    if lines_spec(b).len() > k {
        trim_spec(lines_spec(b)[k])
    } else {
        Seq::empty()
    }
}

/// The changed paths that lines `k..` of a block list, in order.
pub open spec fn listed_paths(ls: Seq<Seq<char>>, root: Seq<char>) -> Seq<Seq<char>>
    decreases ls.len(),
{
    if ls.len() == 0 {
        Seq::empty()
    } else {
        let prev = listed_paths(ls.drop_last(), root);
        let t = trim_spec(ls.last());
        if t.len() > 0 && git_path(t, root).len() > 0 {
            prev.push(git_path(t, root))
        } else {
            prev
        }
    }
}

/// A commit of the listing: author, date and changed paths.
pub open spec fn parse_commit(b: Seq<char>, root: Seq<char>) -> (Seq<char>, Seq<char>, Seq<Seq<char>>) {
    let ls = lines_spec(b);
    (block_line(b, 1), block_line(b, 2), listed_paths(if ls.len() > 3 { ls.skip(3) } else { Seq::empty() }, root))
}

/// The commits of a listing.
pub open spec fn commits_of(log: Seq<char>, root: Seq<char>) -> Seq<(Seq<char>, Seq<char>, Seq<Seq<char>>)> {
    commit_blocks(split_on_spec(log, commit_marker())).map_values(
        |b: Seq<char>| parse_commit(b, root),
    )
}

/// A commit read from the listing.
pub struct Commit {
    pub author: String,
    pub date: String,
    pub files: Vec<String>,
}

/// The view of a commit.
pub open spec fn commit_view(c: Commit) -> (Seq<char>, Seq<char>, Seq<Seq<char>>) {
    (c.author@, c.date@, c.files@.map_values(|s: String| s@))
}

/// The root-relative form of a listed path.
fn relative_path(p: &str, root: &str) -> (r: String)
    ensures
        r@ == git_path(p@, root@),
{
    let rc = chars_of(root);
    let mut hi: usize = rc.len();
    assert(rc@.subrange(0, rc@.len() as int) =~= rc@);
    while hi > 0 && rc[hi - 1] == '/'
        invariant
            hi <= rc@.len(),
            rc@ == root@,
            strip_trail(root@, '/') == strip_trail(rc@.subrange(0, hi as int), '/'),
        decreases hi,
    {
        assert(rc@.subrange(0, hi as int).drop_last() =~= rc@.subrange(0, hi - 1));
        hi = hi - 1;
    }
    let r = string_from_range(rc.as_slice(), 0, hi);
    assert(strip_trail(root@, '/') == r@);
    let pc = chars_of(p);
    let absolute = pc.len() > 0 && pc[0] == '/' && hi > 0;
    let rel = if absolute {
        let with_slash = concat2(r.as_str(), "/");
        proof {
            reveal_strlit("/");
        }
        if str_eq(p, r.as_str()) {
            String::new()
        } else if starts_with(p, with_slash.as_str()) {
            let k = hi + 1;
            assert(r@.len() == hi);
            string_from_range(pc.as_slice(), k, pc.len())
        } else {
            owned(p)
        }
    } else {
        owned(p)
    };
    assert(pc@ == p@);
    assert(absolute && !(p@ == r@) && seq_starts_with(p@, r@ + "/"@) ==> rel@ =~= p@.skip(r@.len() + 1int));
    replace_char(rel.as_str(), '\\', '/')
}

/// The changed paths that a block's lines list.
fn listed(ls: &Vec<String>, from: usize, root: &str) -> (r: Vec<String>)
    requires
        from <= ls@.len(),
    ensures
        r@.map_values(|s: String| s@) == listed_paths(
            ls@.map_values(|s: String| s@).skip(from as int),
            root@,
        ),
{
    let ghost lv = ls@.map_values(|s: String| s@).skip(from as int);
    let mut r: Vec<String> = Vec::new();
    let mut k: usize = from;
    while k < ls.len()
        invariant
            from <= k <= ls@.len(),
            lv == ls@.map_values(|s: String| s@).skip(from as int),
            r@.map_values(|s: String| s@) == listed_paths(lv.take(k - from), root@),
        decreases ls@.len() - k,
    {
        let ghost pre = lv.take(k - from);
        let ghost cur = lv.take(k + 1 - from);
        assert(cur.drop_last() =~= pre);
        assert(cur.last() == ls@[k as int]@);
        let ghost old_r = r@.map_values(|s: String| s@);
        let t = trim(ls[k].as_str());
        if t.as_str().unicode_len() > 0 {
            let g = relative_path(t.as_str(), root);
            if g.as_str().unicode_len() > 0 {
                r.push(g);
                assert(r@.map_values(|s: String| s@) =~= old_r.push(git_path(t@, root@)));
            }
        }
        k = k + 1;
    }
    assert(lv.take(ls@.len() - from) =~= lv);
    r
}

/// The trimmed line `k`, or an empty text.
fn line_or_empty(ls: &Vec<String>, k: usize) -> (r: String)
    ensures
        r@ == (if ls@.len() > k {
            trim_spec(ls@[k as int]@)
        } else {
            Seq::empty()
        }),
{
    if ls.len() > k {
        trim(ls[k].as_str())
    } else {
        String::new()
    }
}

/// Read the commits of a `git log --format=__COMMIT__%n%H%n%aN%n%cs
/// --name-only` listing; paths are made relative to `root`.
pub fn parse_git_log(log: &str, root: &str) -> (r: Vec<Commit>)
    ensures
        r@.map_values(|c: Commit| commit_view(c)) == commits_of(log@, root@),
{
    proof {
        reveal_strlit("__COMMIT__\n");
    }
    let blocks = split_on(log, "__COMMIT__\n");
    let ghost bv = blocks@.map_values(|s: String| s@);
    let mut r: Vec<Commit> = Vec::new();
    let mut i: usize = 0;
    while i < blocks.len()
        invariant
            0 <= i <= blocks@.len(),
            bv == blocks@.map_values(|s: String| s@),
            bv == split_on_spec(log@, commit_marker()),
            r@.map_values(|c: Commit| commit_view(c)) == commit_blocks(bv.take(i as int)).map_values(
                |b: Seq<char>| parse_commit(b, root@),
            ),
        decreases blocks@.len() - i,
    {
        let ghost pre = bv.take(i as int);
        let ghost cur = bv.take(i + 1);
        assert(cur.drop_last() =~= pre);
        assert(cur.last() == blocks@[i as int]@);
        let ghost old_r = r@.map_values(|c: Commit| commit_view(c));
        let b = blocks[i].as_str();
        if !is_blank(b) {
            let ls = lines(b);
            if ls.len() > 0 {
                let author = line_or_empty(&ls, 1);
                let date = line_or_empty(&ls, 2);
                let files = if ls.len() > 3 {
                    listed(&ls, 3, root)
                } else {
                    Vec::new()
                };
                let ghost lsv = ls@.map_values(|s: String| s@);
                proof {
                    if lsv.len() <= 3 {
                        assert(files@.map_values(|s: String| s@) =~= listed_paths(Seq::<Seq<char>>::empty(), root@));
                    }
                }
                let c = Commit { author, date, files };
                assert(commit_view(c) == parse_commit(b@, root@));
                r.push(c);
                assert(r@.map_values(|c: Commit| commit_view(c)) =~= old_r.push(parse_commit(b@, root@)));
            }
        }
        assert(commit_blocks(cur).map_values(|b: Seq<char>| parse_commit(b, root@))
            =~= r@.map_values(|c: Commit| commit_view(c)));
        i = i + 1;
    }
    assert(bv.take(bv.len() as int) =~= bv);
    r
}

// ---------------------------------------------------------------- per file

/// Every changed path with its commit's author and date, in listing order.
pub open spec fn flat_changes(cs: Seq<(Seq<char>, Seq<char>, Seq<Seq<char>>)>) -> Seq<(Seq<char>, Seq<char>, Seq<char>)>
    decreases cs.len(),
{
    if cs.len() == 0 {
        Seq::empty()
    } else {
        let c = cs.last();
        flat_changes(cs.drop_last()) + c.2.map_values(|p: Seq<char>| (c.0, c.1, p))
    }
}

/// How many changes touch `f`.
pub open spec fn change_count(fl: Seq<(Seq<char>, Seq<char>, Seq<char>)>, f: Seq<char>) -> nat
    decreases fl.len(),
{
    if fl.len() == 0 {
        0
    } else {
        change_count(fl.drop_last(), f) + (if fl.last().2 == f {
            1nat
        } else {
            0nat
        })
    }
}

/// The non-empty authors of the changes to `f`, in order.
pub open spec fn change_authors(fl: Seq<(Seq<char>, Seq<char>, Seq<char>)>, f: Seq<char>) -> Seq<Seq<char>>
    decreases fl.len(),
{
    if fl.len() == 0 {
        Seq::empty()
    } else {
        let prev = change_authors(fl.drop_last(), f);
        if fl.last().2 == f && fl.last().0.len() > 0 {
            prev.push(fl.last().0)
        } else {
            prev
        }
    }
}

/// The latest date among the changes to `f`, by text order.
pub open spec fn last_change(fl: Seq<(Seq<char>, Seq<char>, Seq<char>)>, f: Seq<char>) -> Option<Seq<char>>
    decreases fl.len(),
{
    if fl.len() == 0 {
        None
    } else {
        let prev = last_change(fl.drop_last(), f);
        let d = fl.last().1;
        if fl.last().2 != f {
            prev
        } else {
            match prev {
                Some(cur) => if seq_lt(cur, d) {
                    Some(d)
                } else {
                    prev
                },
                None => Some(d),
            }
        }
    }
}

/// The changed files, each once.
pub open spec fn changed(fl: Seq<(Seq<char>, Seq<char>, Seq<char>)>, f: Seq<char>) -> bool {
    exists|k: int| 0 <= k < fl.len() && (#[trigger] fl[k]).2 == f
}

/// No change touches `f`: no count, no author, no date.
proof fn lemma_unchanged(fl: Seq<(Seq<char>, Seq<char>, Seq<char>)>, f: Seq<char>)
    ensures
        !changed(fl, f) ==> change_count(fl, f) == 0 && change_authors(fl, f).len() == 0 && last_change(fl, f) is None,
    decreases fl.len(),
{
    if fl.len() > 0 {
        lemma_unchanged(fl.drop_last(), f);
        if !changed(fl, f) {
            assert(!changed(fl.drop_last(), f)) by {
                if changed(fl.drop_last(), f) {
                    let w = choose|w: int| 0 <= w < fl.drop_last().len() && (#[trigger] fl.drop_last()[w]).2 == f;
                    assert(fl[w] == fl.drop_last()[w]);
                }
            }
            assert(fl[fl.len() - 1].2 != f);
        }
    }
}

/// Whether `v` holds the text `t`.
fn contains_text(v: &Vec<String>, t: &str) -> (r: bool)
    ensures
        r == v@.map_values(|s: String| s@).contains(t@),
{
    let mut k: usize = 0;
    while k < v.len()
        invariant
            0 <= k <= v@.len(),
            forall|q: int| 0 <= q < k ==> v@[q]@ != t@,
        decreases v@.len() - k,
    {
        if str_eq(v[k].as_str(), t) {
            assert(v@.map_values(|s: String| s@)[k as int] == t@);
            return true;
        }
        k = k + 1;
    }
    false
}

/// Statistics of one file.
pub struct FileStats {
    pub file: String,
    pub commits: usize,
    pub authors: usize,
    pub last_commit: Option<String>,
}

/// The view of an optional text.
pub open spec fn opt_text(o: Option<String>) -> Option<Seq<char>> {
    match o {
        Some(s) => Some(s@),
        None => None,
    }
}

/// What the statistics of `f` are after the changes `fl`.
pub open spec fn stats_ok(st: FileStats, fl: Seq<(Seq<char>, Seq<char>, Seq<char>)>) -> bool {
    &&& st.commits == change_count(fl, st.file@)
    &&& st.authors == distinct_count(change_authors(fl, st.file@))
    &&& opt_text(st.last_commit) == last_change(fl, st.file@)
}

/// The statistics of every changed file, each file once.
fn file_stats(commits: &Vec<Commit>) -> (r: Vec<FileStats>)
    ensures
        ({
            let fl = flat_changes(commits@.map_values(|c: Commit| commit_view(c)));
            &&& r@.map_values(|s: FileStats| s.file@).no_duplicates()
            &&& forall|k: int| 0 <= k < r@.len() ==> stats_ok(#[trigger] r@[k], fl) && changed(fl, r@[k].file@)
            &&& forall|f: Seq<char>| #[trigger] changed(fl, f) ==> r@.map_values(|s: FileStats| s.file@).contains(f)
        }),
{
    // the flat list of changes
    let ghost cv = commits@.map_values(|c: Commit| commit_view(c));
    let mut flat: Vec<(String, String, String)> = Vec::new();
    let mut c: usize = 0;
    while c < commits.len()
        invariant
            0 <= c <= commits@.len(),
            cv == commits@.map_values(|c: Commit| commit_view(c)),
            flat@.map_values(|t: (String, String, String)| (t.0@, t.1@, t.2@)) == flat_changes(cv.take(c as int)),
        decreases commits@.len() - c,
    {
        let cm = &commits[c];
        let ghost base = flat@.map_values(|t: (String, String, String)| (t.0@, t.1@, t.2@));
        let ghost cvv = commit_view(*cm);
        let mut k: usize = 0;
        while k < cm.files.len()
            invariant
                0 <= k <= cm.files@.len(),
                cvv == commit_view(*cm),
                flat@.map_values(|t: (String, String, String)| (t.0@, t.1@, t.2@)) == base + cvv.2.take(k as int).map_values(
                    |p: Seq<char>| (cvv.0, cvv.1, p),
                ),
            decreases cm.files@.len() - k,
        {
            let ghost before = flat@.map_values(|t: (String, String, String)| (t.0@, t.1@, t.2@));
            flat.push((owned(cm.author.as_str()), owned(cm.date.as_str()), owned(cm.files[k].as_str())));
            assert(flat@.map_values(|t: (String, String, String)| (t.0@, t.1@, t.2@)) =~= before.push((cvv.0, cvv.1, cvv.2[k as int])));
            assert(cvv.2.take(k + 1).map_values(|p: Seq<char>| (cvv.0, cvv.1, p)) =~= cvv.2.take(k as int).map_values(
                |p: Seq<char>| (cvv.0, cvv.1, p),
            ).push((cvv.0, cvv.1, cvv.2[k as int])));
            k = k + 1;
        }
        assert(cvv.2.take(cvv.2.len() as int) =~= cvv.2);
        assert(cv.take(c + 1).drop_last() =~= cv.take(c as int));
        assert(cv.take(c + 1).last() == cvv);
        c = c + 1;
    }
    assert(cv.take(cv.len() as int) =~= cv);
    let ghost fl = flat_changes(cv);
    // one pass over the changes
    let mut idx: StringHashMap<usize> = StringHashMap::new();
    let mut r: Vec<FileStats> = Vec::new();
    let mut authors: Vec<Vec<String>> = Vec::new();
    let mut i: usize = 0;
    while i < flat.len()
        invariant
            0 <= i <= flat@.len(),
            fl == flat@.map_values(|t: (String, String, String)| (t.0@, t.1@, t.2@)),
            authors@.len() == r@.len(),
            r@.map_values(|s: FileStats| s.file@).no_duplicates(),
            forall|k: int| 0 <= k < r@.len() ==> stats_ok(#[trigger] r@[k], fl.take(i as int)) && changed(fl.take(i as int), r@[k].file@),
            forall|k: int| 0 <= k < r@.len() ==> (#[trigger] r@[k]).commits <= i,
            forall|k: int| 0 <= k < r@.len() ==> views((#[trigger] authors@[k])@).no_duplicates(),
            forall|k: int| 0 <= k < r@.len() ==> (#[trigger] authors@[k])@.len() == r@[k].authors,
            forall|k: int, a: Seq<char>| 0 <= k < r@.len() ==> (#[trigger] views(authors@[k]@).contains(a)
                <==> change_authors(fl.take(i as int), r@[k].file@).contains(a)),
            forall|f: Seq<char>| #[trigger] idx@.contains_key(f) ==> idx@[f] < r@.len() && r@[idx@[f] as int].file@ == f,
            forall|k: int| 0 <= k < r@.len() ==> #[trigger] idx@.contains_key(r@[k].file@),
            forall|f: Seq<char>| #[trigger] changed(fl.take(i as int), f) ==> idx@.contains_key(f),
        decreases flat@.len() - i,
    {
        let ghost pre = fl.take(i as int);
        let ghost cur = fl.take(i + 1);
        assert(cur.drop_last() =~= pre);
        let entry = &flat[i];
        let ghost e = (entry.0@, entry.1@, entry.2@);
        assert(cur.last() == e);
        let path = entry.2.as_str();
        let ghost old_r = r@;
        let ghost old_a = authors@;
        let ghost old_idx = idx@;
        proof {
            lemma_unchanged(pre, path@);
        }
        let t: usize = match idx.get(path) {
            Some(t) => *t,
            None => {
                r.push(FileStats { file: owned(path), commits: 0, authors: 0, last_commit: None });
                authors.push(Vec::new());
                idx.insert(owned(path), r.len() - 1);
                proof {
                    assert(!old_r.map_values(|s: FileStats| s.file@).contains(path@)) by {
                        if old_r.map_values(|s: FileStats| s.file@).contains(path@) {
                            let w = choose|w: int| 0 <= w < old_r.len() && old_r[w].file@ == path@;
                            assert(old_idx.contains_key(old_r[w].file@));
                        }
                    }
                    assert(r@.map_values(|s: FileStats| s.file@) =~= old_r.map_values(|s: FileStats| s.file@).push(path@));
                    lemma_push_distinct(old_r.map_values(|s: FileStats| s.file@), path@);
                    assert(views(authors@[r@.len() - 1]@) =~= Seq::<Seq<char>>::empty());
                }
                r.len() - 1
            },
        };
        let ghost mid_r = r@;
        let ghost mid_a = authors@;
        assert(r@[t as int].file@ == path@);
        assert(stats_ok(r@[t as int], pre));
        assert(mid_r.map_values(|s: FileStats| s.file@).no_duplicates());
        assert(views(mid_a[t as int]@).len() == mid_r[t as int].authors);
        assert(views(mid_a[t as int]@).no_duplicates());
        assert(forall|a: Seq<char>| views(mid_a[t as int]@).contains(a) <==> change_authors(pre, path@).contains(a));
        assert(forall|k: int| 0 <= k < mid_r.len() && k != t ==> mid_r[k].file@ != path@) by {
            assert forall|k: int| 0 <= k < mid_r.len() && k != t implies mid_r[k].file@ != path@ by {
                let fns = mid_r.map_values(|s: FileStats| s.file@);
                assert(fns[k] != fns[t as int]);
            }
        }
        let commits = r[t].commits + 1;
        let author = entry.0.as_str();
        let date = entry.1.as_str();
        let mut alist: Vec<String> = Vec::new();
        std::mem::swap(&mut alist, &mut authors[t]);
        let ghost old_list = alist@.map_values(|s: String| s@);
        if author.unicode_len() > 0 && !contains_text(&alist, author) {
            alist.push(owned(author));
            assert(alist@.map_values(|s: String| s@) =~= old_list.push(author@));
        }
        let acount = alist.len();
        authors.set(t, alist);
        let last = match &r[t].last_commit {
            Some(cur) => if str_lt(cur.as_str(), date) {
                Some(owned(date))
            } else {
                Some(owned(cur.as_str()))
            },
            None => Some(owned(date)),
        };
        r.set(t, FileStats { file: owned(path), commits, authors: acount, last_commit: last });
        proof {
            assert(r@.map_values(|s: FileStats| s.file@) =~= mid_r.map_values(|s: FileStats| s.file@));
            assert forall|k: int| 0 <= k < r@.len() implies stats_ok(#[trigger] r@[k], cur) && changed(cur, r@[k].file@) by {
                if k == t {
                    assert(cur[i as int].2 == path@);
                    assert(change_count(cur, path@) == change_count(pre, path@) + 1);
                    let pa = change_authors(pre, path@);
                    let ca = change_authors(cur, path@);
                    let ol = views(mid_a[t as int]@);
                    if author@.len() > 0 {
                        assert(ca == pa.push(author@));
                        assert(ol.contains(author@) == pa.contains(author@));
                        assert(ca.drop_last() =~= pa);
                        assert(ca.last() == author@);
                        assert(distinct_count(ca) == distinct_count(pa) + (if pa.contains(author@) { 0nat } else { 1nat }));
                    } else {
                        assert(ca == pa);
                    }
                    assert(r@[k].authors == distinct_count(ca));
                    assert(opt_text(r@[k].last_commit) == last_change(cur, path@));
                    assert(stats_ok(r@[k], cur));
                } else {
                    assert(r@[k] == mid_r[k]);
                    assert(mid_r[k].file@ != path@);
                    if k < old_r.len() {
                        assert(mid_r[k] == old_r[k]);
                    }
                    let w = choose|w: int| 0 <= w < pre.len() && (#[trigger] pre[w]).2 == r@[k].file@;
                    assert(cur[w] == pre[w]);
                }
            }
            assert forall|k: int, a: Seq<char>| 0 <= k < r@.len() implies (#[trigger] views(authors@[k]@).contains(a)
                <==> change_authors(cur, r@[k].file@).contains(a)) by {
                if k != t {
                    assert(authors@[k] == mid_a[k]);
                    assert(r@[k] == mid_r[k]);
                    if k < old_r.len() {
                        assert(mid_r[k] == old_r[k]);
                        assert(mid_a[k] == old_a[k]);
                    }
                } else {
                    let pa = change_authors(pre, path@);
                    let ca = change_authors(cur, path@);
                    let nl = views(authors@[k]@);
                    if author@.len() > 0 {
                        assert(ca == pa.push(author@));
                        if nl.contains(a) && a != author@ {
                            let w = choose|w: int| 0 <= w < nl.len() && nl[w] == a;
                            if w < old_list.len() {
                                assert(old_list[w] == a);
                            }
                        }
                        if ca.contains(a) && a != author@ {
                            let w = choose|w: int| 0 <= w < ca.len() && ca[w] == a;
                            assert(pa[w] == a);
                        }
                        if old_list.contains(a) {
                            let w = choose|w: int| 0 <= w < old_list.len() && old_list[w] == a;
                            assert(nl[w] == a);
                        }
                        if pa.contains(a) {
                            let w = choose|w: int| 0 <= w < pa.len() && pa[w] == a;
                            assert(ca[w] == a);
                        }
                        if a == author@ {
                            if !old_list.contains(a) {
                                assert(nl[nl.len() - 1] == a);
                            }
                            assert(ca[ca.len() - 1] == a);
                        }
                    } else {
                        assert(ca == pa);
                        assert(nl == old_list);
                    }
                }
            }
            assert forall|k: int| 0 <= k < r@.len() implies views((#[trigger] authors@[k])@).no_duplicates() by {
                if k != t {
                    assert(authors@[k] == mid_a[k]);
                    if k < old_r.len() {
                        assert(mid_a[k] == old_a[k]);
                    }
                }
            }
            assert forall|k: int| 0 <= k < r@.len() implies (#[trigger] authors@[k])@.len() == r@[k].authors by {
                if k != t {
                    assert(authors@[k] == mid_a[k]);
                    assert(r@[k] == mid_r[k]);
                    if k < old_r.len() {
                        assert(mid_a[k] == old_a[k]);
                        assert(mid_r[k] == old_r[k]);
                    }
                }
            }
            assert forall|k: int| 0 <= k < r@.len() implies (#[trigger] r@[k]).commits <= i + 1 by {
                if k != t {
                    assert(r@[k] == mid_r[k]);
                    if k < old_r.len() {
                        assert(mid_r[k] == old_r[k]);
                    }
                }
            }
            assert forall|f: Seq<char>| #[trigger] changed(cur, f) implies idx@.contains_key(f) by {
                let w = choose|w: int| 0 <= w < cur.len() && (#[trigger] cur[w]).2 == f;
                if w < pre.len() {
                    assert(pre[w] == cur[w]);
                    assert(changed(pre, f));
                }
            }
            assert forall|k: int| 0 <= k < r@.len() implies #[trigger] idx@.contains_key(r@[k].file@) by {
                if k < old_r.len() {
                    assert(r@[k].file@ == old_r[k].file@) by {
                        if k == t {
                        } else {
                            assert(r@[k] == mid_r[k] && mid_r[k] == old_r[k]);
                        }
                    }
                }
            }
            assert forall|f: Seq<char>| #[trigger] idx@.contains_key(f) implies idx@[f] < r@.len() && r@[idx@[f] as int].file@ == f by {
                if f != path@ {
                    assert(old_idx.contains_key(f));
                    let q = idx@[f] as int;
                    if q == t {
                    } else {
                        assert(r@[q] == mid_r[q]);
                        assert(mid_r[q] == old_r[q]);
                    }
                }
            }
        }
        i = i + 1;
    }
    proof {
        assert(fl.take(fl.len() as int) =~= fl);
        assert forall|f: Seq<char>| #[trigger] changed(fl, f) implies r@.map_values(|s: FileStats| s.file@).contains(f) by {
            assert(idx@.contains_key(f));
            let q = idx@[f] as int;
            assert(r@.map_values(|s: FileStats| s.file@)[q] == f);
        }
    }
    r
}

/// Appending a new value keeps a sequence free of repeats.
proof fn lemma_push_distinct(s: Seq<Seq<char>>, x: Seq<char>)
    requires
        s.no_duplicates(),
        !s.contains(x),
    ensures
        s.push(x).no_duplicates(),
{
    let t = s.push(x);
    assert forall|i: int, j: int| 0 <= i < j < t.len() implies t[i] != t[j] by {
        if j == s.len() {
            assert(t[i] == s[i]);
        } else {
            assert(t[i] == s[i] && t[j] == s[j]);
        }
    }
}

// ---------------------------------------------------------------- change pairs

/// How many commits change both `a` and `b`.
pub open spec fn cochange_count(cs: Seq<(Seq<char>, Seq<char>, Seq<Seq<char>>)>, a: Seq<char>, b: Seq<char>) -> nat
    decreases cs.len(),
{
    if cs.len() == 0 {
        0
    } else {
        cochange_count(cs.drop_last(), a, b) + (if cs.last().2.contains(a) && cs.last().2.contains(b) {
            1nat
        } else {
            0nat
        })
    }
}

/// The stored count for `k`, or 0.
pub open spec fn count_for(m: Map<Seq<char>, usize>, k: Seq<char>) -> nat {
    if m.contains_key(k) {
        m[k] as nat
    } else {
        0
    }
}

/// The distinct values of `v`, in first-occurrence order.
fn distinct_texts(v: &Vec<String>) -> (r: Vec<String>)
    ensures
        views(r@).no_duplicates(),
        forall|x: Seq<char>| #[trigger] views(r@).contains(x) <==> views(v@).contains(x),
{
    let mut r: Vec<String> = Vec::new();
    let mut i: usize = 0;
    while i < v.len()
        invariant
            0 <= i <= v@.len(),
            views(r@).no_duplicates(),
            forall|x: Seq<char>| #[trigger] views(r@).contains(x) <==> views(v@.take(i as int)).contains(x),
        decreases v@.len() - i,
    {
        let ghost old_r = views(r@);
        let ghost pre = views(v@.take(i as int));
        let ghost cur = views(v@.take(i + 1));
        assert(cur =~= pre.push(v@[i as int]@));
        if !contains_text(&r, v[i].as_str()) {
            r.push(owned(v[i].as_str()));
            assert(views(r@) =~= old_r.push(v@[i as int]@));
            proof {
                lemma_push_distinct(old_r, v@[i as int]@);
            }
        }
        proof {
            assert forall|x: Seq<char>| #[trigger] views(r@).contains(x) <==> cur.contains(x) by {
                if cur.contains(x) && x != v@[i as int]@ {
                    let w = choose|w: int| 0 <= w < cur.len() && cur[w] == x;
                    assert(pre[w] == x);
                }
                if pre.contains(x) {
                    let w = choose|w: int| 0 <= w < pre.len() && pre[w] == x;
                    assert(cur[w] == x);
                }
                if views(r@).contains(x) && x != v@[i as int]@ {
                    let w = choose|w: int| 0 <= w < views(r@).len() && views(r@)[w] == x;
                    assert(old_r[w] == x);
                }
                if old_r.contains(x) {
                    let w = choose|w: int| 0 <= w < old_r.len() && old_r[w] == x;
                    assert(views(r@)[w] == x);
                }
                if x == v@[i as int]@ {
                    assert(cur[i as int] == x);
                    if !old_r.contains(x) {
                        assert(views(r@)[old_r.len() as int] == x);
                    }
                }
            }
        }
        i = i + 1;
    }
    assert(v@.take(v@.len() as int) =~= v@);
    r
}

/// A file of a commit is among the changed files.
proof fn lemma_commit_file_changed(cs: Seq<(Seq<char>, Seq<char>, Seq<Seq<char>>)>, c: int, f: Seq<char>)
    requires
        0 <= c < cs.len(),
        cs[c].2.contains(f),
    ensures
        changed(flat_changes(cs), f),
    decreases cs.len(),
{
    let fl = flat_changes(cs);
    let prev = flat_changes(cs.drop_last());
    let last = cs.last();
    if c < cs.len() - 1 {
        lemma_commit_file_changed(cs.drop_last(), c, f);
        let w = choose|w: int| 0 <= w < prev.len() && (#[trigger] prev[w]).2 == f;
        assert(fl[w] == prev[w]);
    } else {
        let k = choose|k: int| 0 <= k < last.2.len() && last.2[k] == f;
        assert(fl[prev.len() + k] == (last.0, last.1, last.2[k]));
    }
}

/// The stored count of `y` for `a`, after the pairs of commit `d` among
/// the first `p` of its files (and, for `x = d[p]`, the first `q`).
pub open spec fn pair_step(base: nat, x0: Seq<char>, y: Seq<char>, d: Seq<Seq<char>>, p: int, q: int) -> nat {
    base + (if seq_lt(x0, y) && d.take(p).contains(x0) && d.contains(y) {
        1nat
    } else {
        0nat
    })
}

/// For each file of `names` (`a`), how many commits change it together
/// with each file `y` that sorts after it, and the positions of those `y`.
fn cochange_table(commits: &Vec<Commit>, names: &Vec<String>) -> (r: (Vec<StringHashMap<usize>>, Vec<Vec<usize>>))
    requires
        views(names@).no_duplicates(),
        forall|c: int, f: Seq<char>|
            0 <= c < commits@.len() && #[trigger] commit_view(commits@[c]).2.contains(f) ==> views(names@).contains(f),
    ensures
        r.0@.len() == names@.len(),
        r.1@.len() == names@.len(),
        forall|a: int, y: Seq<char>|
            0 <= a < names@.len() ==> #[trigger] count_for(r.0@[a]@, y) == if seq_lt(names@[a]@, y) {
                cochange_count(commits@.map_values(|c: Commit| commit_view(c)), names@[a]@, y)
            } else {
                0
            },
        forall|a: int| 0 <= a < names@.len() ==> (#[trigger] r.1@[a])@.no_duplicates(),
        forall|a: int, b: int| 0 <= a < names@.len() && 0 <= b < names@.len() ==> (#[trigger] r.1@[a]@.contains(b as usize)
            <==> count_for(r.0@[a]@, names@[b]@) > 0),
        forall|a: int, k: int| 0 <= a < names@.len() && 0 <= k < r.1@[a]@.len() ==> #[trigger] r.1@[a]@[k] < names@.len(),
{
    let ghost cv = commits@.map_values(|c: Commit| commit_view(c));
    let ghost nv = views(names@);
    let n = names.len();
    let mut idx: StringHashMap<usize> = StringHashMap::new();
    let mut co: Vec<StringHashMap<usize>> = Vec::new();
    let mut partners: Vec<Vec<usize>> = Vec::new();
    let mut a: usize = 0;
    while a < n
        invariant
            0 <= a <= n,
            n == names@.len(),
            nv == views(names@),
            nv.no_duplicates(),
            co@.len() == a,
            partners@.len() == a,
            forall|x: int, y: Seq<char>| 0 <= x < a ==> #[trigger] count_for(co@[x]@, y) == 0,
            forall|x: int| 0 <= x < a ==> (#[trigger] partners@[x])@.len() == 0,
            forall|f: Seq<char>| #[trigger] idx@.contains_key(f) ==> idx@[f] < a && nv[idx@[f] as int] == f,
            forall|x: int| 0 <= x < a ==> #[trigger] idx@.contains_key(nv[x]),
        decreases n - a,
    {
        let ghost old_idx = idx@;
        idx.insert(owned(names[a].as_str()), a);
        co.push(StringHashMap::new());
        partners.push(Vec::new());
        proof {
            assert forall|f: Seq<char>| #[trigger] idx@.contains_key(f) implies idx@[f] < a + 1 && nv[idx@[f] as int] == f by {
                if f != nv[a as int] {
                    assert(old_idx.contains_key(f));
                }
            }
            assert forall|x: int| 0 <= x < a + 1 implies #[trigger] idx@.contains_key(nv[x]) by {
                if x < a {
                    assert(old_idx.contains_key(nv[x]));
                }
            }
        }
        a = a + 1;
    }
    proof {
        assert forall|f: Seq<char>| nv.contains(f) implies idx@.contains_key(f) && nv[idx@[f] as int] == f by {
            let w = choose|w: int| 0 <= w < nv.len() && nv[w] == f;
            assert(idx@.contains_key(nv[w]));
        }
    }
    let mut c: usize = 0;
    while c < commits.len()
        invariant
            0 <= c <= commits@.len(),
            cv == commits@.map_values(|c: Commit| commit_view(c)),
            n == names@.len(),
            nv == views(names@),
            nv.no_duplicates(),
            forall|cc: int, f: Seq<char>|
                0 <= cc < commits@.len() && #[trigger] commit_view(commits@[cc]).2.contains(f) ==> nv.contains(f),
            forall|f: Seq<char>| #[trigger] idx@.contains_key(f) ==> idx@[f] < n && nv[idx@[f] as int] == f,
            forall|f: Seq<char>| nv.contains(f) ==> #[trigger] idx@.contains_key(f),
            co@.len() == n,
            partners@.len() == n,
            forall|x: int, y: Seq<char>|
                0 <= x < n ==> #[trigger] count_for(co@[x]@, y) == if seq_lt(nv[x], y) {
                    cochange_count(cv.take(c as int), nv[x], y)
                } else {
                    0
                },
            forall|x: int, y: Seq<char>| 0 <= x < n ==> #[trigger] count_for(co@[x]@, y) <= c,
            forall|x: int| 0 <= x < n ==> (#[trigger] partners@[x])@.no_duplicates(),
            forall|x: int, b: int| 0 <= x < n && 0 <= b < n ==> (#[trigger] partners@[x]@.contains(b as usize)
                <==> count_for(co@[x]@, nv[b]) > 0),
            forall|x: int, k: int| 0 <= x < n && 0 <= k < partners@[x]@.len() ==> #[trigger] partners@[x]@[k] < n,
        decreases commits@.len() - c,
    {
        let d = distinct_texts(&commits[c].files);
        let ghost dv = views(d@);
        let ghost files = commit_view(commits@[c as int]).2;
        assert(files == views(commits@[c as int].files@));
        assert(forall|f: Seq<char>| #[trigger] dv.contains(f) <==> files.contains(f));
        let ghost pre = cv.take(c as int);
        let ghost cur = cv.take(c + 1);
        assert(cur.drop_last() =~= pre);
        assert(cur.last() == cv[c as int]);
        let ghost co0 = co@;
        let mut p: usize = 0;
        while p < d.len()
            invariant
                0 <= p <= d@.len(),
                c < commits@.len(),
                dv == views(d@),
                dv.no_duplicates(),
                forall|f: Seq<char>| #[trigger] dv.contains(f) ==> nv.contains(f),
                n == names@.len(),
                nv == views(names@),
                forall|f: Seq<char>| #[trigger] idx@.contains_key(f) ==> idx@[f] < n && nv[idx@[f] as int] == f,
                forall|f: Seq<char>| nv.contains(f) ==> #[trigger] idx@.contains_key(f),
                co@.len() == n,
                partners@.len() == n,
                co0.len() == n,
                forall|x: int, y: Seq<char>|
                    0 <= x < n ==> #[trigger] count_for(co@[x]@, y) == pair_step(count_for(co0[x]@, y), nv[x], y, dv, p as int, 0),
                forall|x: int, y: Seq<char>| 0 <= x < n ==> count_for(co0[x]@, y) <= c,
                c < commits@.len(),
                commits@.len() <= usize::MAX,
                nv.no_duplicates(),
                forall|x: int| 0 <= x < n ==> (#[trigger] partners@[x])@.no_duplicates(),
                forall|x: int, b: int| 0 <= x < n && 0 <= b < n ==> (#[trigger] partners@[x]@.contains(b as usize)
                    <==> count_for(co@[x]@, nv[b]) > 0),
                forall|x: int, k: int| 0 <= x < n && 0 <= k < partners@[x]@.len() ==> #[trigger] partners@[x]@[k] < n,
            decreases d@.len() - p,
        {
            let x = d[p].as_str();
            assert(dv.contains(x@)) by {
                assert(dv[p as int] == x@);
            }
            let ax: usize = match idx.get(x) {
                Some(v) => *v,
                None => 0,
            };
            assert(idx@.contains_key(x@));
            assert(nv[ax as int] == x@);
            proof {
                let tp = dv.take(p as int);
                assert(!tp.contains(x@)) by {
                    if tp.contains(x@) {
                        let w = choose|w: int| 0 <= w < tp.len() && tp[w] == x@;
                        assert(dv[w] == dv[p as int]);
                    }
                }
                assert forall|y: Seq<char>| #[trigger] count_for(co@[ax as int]@, y) <= c by {
                    assert(count_for(co@[ax as int]@, y) == pair_step(count_for(co0[ax as int]@, y), nv[ax as int], y, dv, p as int, 0));
                }
            }
            let ghost co1 = co@;
            let mut q: usize = 0;
            while q < d.len()
                invariant
                    0 <= p < d@.len(),
                    0 <= q <= d@.len(),
                    dv == views(d@),
                    dv.no_duplicates(),
                    x@ == dv[p as int],
                    ax < n,
                    nv[ax as int] == x@,
                    forall|f: Seq<char>| #[trigger] dv.contains(f) ==> nv.contains(f),
                    n == names@.len(),
                    nv == views(names@),
                    forall|f: Seq<char>| #[trigger] idx@.contains_key(f) ==> idx@[f] < n && nv[idx@[f] as int] == f,
                    forall|f: Seq<char>| nv.contains(f) ==> #[trigger] idx@.contains_key(f),
                    co@.len() == n,
                    partners@.len() == n,
                    co1.len() == n,
                    forall|xx: int, y: Seq<char>|
                        0 <= xx < n ==> #[trigger] count_for(co@[xx]@, y) == count_for(co1[xx]@, y) + (if xx == ax && seq_lt(x@, y)
                            && dv.take(q as int).contains(y) {
                            1nat
                        } else {
                            0nat
                        }),
                    forall|y: Seq<char>| #[trigger] count_for(co1[ax as int]@, y) <= c,
                    c < commits@.len(),
                    commits@.len() <= usize::MAX,
                    nv.no_duplicates(),
                    forall|xx: int| 0 <= xx < n ==> (#[trigger] partners@[xx])@.no_duplicates(),
                    forall|xx: int, b: int| 0 <= xx < n && 0 <= b < n ==> (#[trigger] partners@[xx]@.contains(b as usize)
                        <==> count_for(co@[xx]@, nv[b]) > 0),
                    forall|xx: int, k: int| 0 <= xx < n && 0 <= k < partners@[xx]@.len() ==> #[trigger] partners@[xx]@[k] < n,
                decreases d@.len() - q,
            {
                let y = d[q].as_str();
                let ghost co2 = co@;
                let ghost pa2 = partners@;
                if str_lt(x, y) {
                    assert(dv.contains(y@)) by {
                        assert(dv[q as int] == y@);
                    }
                    assert(idx@.contains_key(y@));
                    let by_idx: usize = match idx.get(y) {
                        Some(v) => *v,
                        None => 0,
                    };
                    let mut m: StringHashMap<usize> = StringHashMap::new();
                    std::mem::swap(&mut m, &mut co[ax]);
                    let old_count: usize = match m.get(y) {
                        Some(v) => *v,
                        None => 0,
                    };
                    assert(old_count == count_for(co2[ax as int]@, y@));
                    assert(nv[by_idx as int] == y@);
                    assert(count_for(co2[ax as int]@, y@) == count_for(co1[ax as int]@, y@) + (if seq_lt(x@, y@) && dv.take(q as int).contains(y@) { 1nat } else { 0nat }));
                    assert(!dv.take(q as int).contains(y@)) by {
                        if dv.take(q as int).contains(y@) {
                            let w = choose|w: int| 0 <= w < q && dv.take(q as int)[w] == y@;
                            assert(dv[w] == dv[q as int]);
                        }
                    }
                    m.insert(owned(y), old_count + 1);
                    co.set(ax, m);
                    if old_count == 0 {
                        let mut list: Vec<usize> = Vec::new();
                        std::mem::swap(&mut list, &mut partners[ax]);
                        let ghost old_list = list@;
                        assert(old_list == pa2[ax as int]@);
                        assert(!old_list.contains(by_idx)) by {
                            assert(nv[by_idx as int] == y@);
                            assert(pa2[ax as int]@.contains((by_idx as int) as usize) <==> count_for(co2[ax as int]@, nv[by_idx as int]) > 0);
                        }
                        list.push(by_idx);
                        partners.set(ax, list);
                        proof {
                            assert forall|i: int, j: int| 0 <= i < j < partners@[ax as int]@.len() implies partners@[ax as int]@[i]
                                != partners@[ax as int]@[j] by {
                                if j == old_list.len() {
                                    assert(partners@[ax as int]@[i] == old_list[i]);
                                } else {
                                    assert(partners@[ax as int]@[i] == old_list[i] && partners@[ax as int]@[j] == old_list[j]);
                                }
                            }
                        }
                    }
                    proof {
                        assert forall|xx: int, b: int| 0 <= xx < n && 0 <= b < n implies (#[trigger] partners@[xx]@.contains(b as usize)
                            <==> count_for(co@[xx]@, nv[b]) > 0) by {
                            if xx != ax {
                                assert(partners@[xx] == pa2[xx]);
                                assert(co@[xx] == co2[xx]);
                            } else {
                                if nv[b] != y@ {
                                    assert(count_for(co@[xx]@, nv[b]) == count_for(co2[xx]@, nv[b]));
                                    if old_count == 0 {
                                        assert(b != by_idx);
                                        let nl = partners@[xx]@;
                                        let ol = pa2[xx]@;
                                        if nl.contains(b as usize) {
                                            let w = choose|w: int| 0 <= w < nl.len() && nl[w] == b as usize;
                                            assert(ol[w] == b as usize);
                                        }
                                        if ol.contains(b as usize) {
                                            let w = choose|w: int| 0 <= w < ol.len() && ol[w] == b as usize;
                                            assert(nl[w] == b as usize);
                                        }
                                    }
                                } else {
                                    assert(b == by_idx) by {
                                        if b != by_idx {
                                            let nvv = nv;
                                            assert(nvv[b] == nvv[by_idx as int]);
                                        }
                                    }
                                    if old_count == 0 {
                                        assert(partners@[xx]@[partners@[xx]@.len() - 1] == by_idx);
                                    }
                                }
                            }
                        }
                        assert forall|xx: int, k: int| 0 <= xx < n && 0 <= k < partners@[xx]@.len() implies #[trigger] partners@[xx]@[k] < n by {
                            if xx != ax {
                                assert(partners@[xx] == pa2[xx]);
                            } else if k < pa2[xx]@.len() {
                                assert(partners@[xx]@[k] == pa2[xx]@[k]);
                            }
                        }
                        assert forall|xx: int| 0 <= xx < n implies (#[trigger] partners@[xx])@.no_duplicates() by {
                            if xx != ax {
                                assert(partners@[xx] == pa2[xx]);
                            }
                        }
                    }
                }
                proof {
                    let tq = dv.take(q as int);
                    let tq1 = dv.take(q + 1);
                    assert(tq1 =~= tq.push(y@));
                    assert forall|xx: int, yy: Seq<char>| 0 <= xx < n implies #[trigger] count_for(co@[xx]@, yy) == count_for(co1[xx]@, yy) + (if xx == ax && seq_lt(x@, yy)
                        && tq1.contains(yy) {
                        1nat
                    } else {
                        0nat
                    }) by {
                        if tq1.contains(yy) && yy != y@ {
                            let w = choose|w: int| 0 <= w < tq1.len() && tq1[w] == yy;
                            assert(tq[w] == yy);
                        }
                        if tq.contains(yy) {
                            let w = choose|w: int| 0 <= w < tq.len() && tq[w] == yy;
                            assert(tq1[w] == yy);
                        }
                        if xx != ax || !seq_lt(x@, y@) {
                            assert(co@[xx] == co2[xx]);
                        } else if yy != y@ {
                            assert(count_for(co@[xx]@, yy) == count_for(co2[xx]@, yy));
                        }
                        assert(tq1[q as int] == y@);
                    }
                }
                q = q + 1;
            }
            proof {
                assert(dv.take(d@.len() as int) =~= dv);
                let tp = dv.take(p as int);
                let tp1 = dv.take(p + 1);
                assert(tp1 =~= tp.push(x@));
                assert(!tp.contains(x@)) by {
                    if tp.contains(x@) {
                        let w = choose|w: int| 0 <= w < tp.len() && tp[w] == x@;
                        assert(dv[w] == dv[p as int]);
                    }
                }
                assert forall|xx: int, y: Seq<char>|
                    0 <= xx < n implies #[trigger] count_for(co@[xx]@, y) == pair_step(count_for(co0[xx]@, y), nv[xx], y, dv, p + 1, 0) by {
                    if tp1.contains(nv[xx]) && nv[xx] != x@ {
                        let w = choose|w: int| 0 <= w < tp1.len() && tp1[w] == nv[xx];
                        assert(tp[w] == nv[xx]);
                    }
                    if tp.contains(nv[xx]) {
                        let w = choose|w: int| 0 <= w < tp.len() && tp[w] == nv[xx];
                        assert(tp1[w] == nv[xx]);
                    }
                    if xx != ax {
                        assert(nv[xx] != x@) by {
                            let nvv = nv;
                            assert(nvv[xx] != nvv[ax as int]);
                        }
                    } else {
                        assert(tp1[p as int] == x@);
                    }
                }
            }
            p = p + 1;
        }
        proof {
            assert(dv.take(d@.len() as int) =~= dv);
            assert forall|x: int, y: Seq<char>|
                0 <= x < n implies #[trigger] count_for(co@[x]@, y) == if seq_lt(nv[x], y) {
                    cochange_count(cur, nv[x], y)
                } else {
                    0
                } by {
                assert(files.contains(nv[x]) == dv.contains(nv[x]));
                assert(files.contains(y) == dv.contains(y));
                assert(count_for(co0[x]@, y) == if seq_lt(nv[x], y) { cochange_count(pre, nv[x], y) } else { 0 });
            }
        }
        c = c + 1;
    }
    assert(cv.take(cv.len() as int) =~= cv);
    (co, partners)
}

// ---------------------------------------------------------------- report

/// Two files that change together, and how often.
pub struct CochangeEntry {
    pub left: String,
    pub right: String,
    pub count: usize,
}

/// What `hotspots` finds.
pub struct HotspotsReport {
    pub hotspots: Vec<FileStats>,
    pub cochange: Vec<CochangeEntry>,
    pub total_files: usize,
    pub total_commits: usize,
    pub period: String,
    /// Why nothing could be read, when `git log` did not run.
    pub warning: Option<String>,
}

/// The warning for a failed `git log`, from what it wrote to standard
/// error.
pub open spec fn log_failure_text(stderr: Seq<char>) -> Seq<char> {
    let t = trim_spec(stderr);
    if t.len() == 0 {
        "git log failed"@
    } else {
        "git log failed: "@ + t
    }
}

/// The warning for a failed `git log`.
pub fn log_failure_warning(stderr: &str) -> (r: String)
    ensures
        r@ == log_failure_text(stderr@),
{
    let t = trim(stderr);
    if t.unicode_len() == 0 {
        owned("git log failed")
    } else {
        concat2("git log failed: ", t.as_str())
    }
}

/// The warning for a `git log` that could not be started.
pub fn log_spawn_warning(err: &str) -> (r: String)
    ensures
        r@ == "failed to execute git log: "@ + err@,
{
    concat2("failed to execute git log: ", err)
}

/// An empty report for `period` that carries a warning.
pub fn hotspots_warning(period: &str, warning: String) -> (r: HotspotsReport)
    ensures
        r.hotspots@.len() == 0,
        r.cochange@.len() == 0,
        r.total_files == 0,
        r.total_commits == 0,
        r.period@ == period@,
        r.warning == Some(warning),
{
    HotspotsReport {
        hotspots: Vec::new(),
        cochange: Vec::new(),
        total_files: 0,
        total_commits: 0,
        period: owned(period),
        warning: Some(warning),
    }
}

/// Hotspot order: more changes first, then by name.
pub open spec fn hot_before(c1: nat, f1: Seq<char>, c2: nat, f2: Seq<char>) -> bool {
    c1 > c2 || (c1 == c2 && seq_lt(f1, f2))
}

/// Pair order: more shared commits first, then by the names.
pub open spec fn pair_before(c1: nat, l1: Seq<char>, r1: Seq<char>, c2: nat, l2: Seq<char>, r2: Seq<char>) -> bool {
    c1 > c2 || (c1 == c2 && (seq_lt(l1, l2) || (l1 == l2 && seq_lt(r1, r2))))
}

/// The commits that change at least one file.
pub open spec fn commits_with_files(cs: Seq<(Seq<char>, Seq<char>, Seq<Seq<char>>)>) -> nat
    decreases cs.len(),
{
    if cs.len() == 0 {
        0
    } else {
        commits_with_files(cs.drop_last()) + (if cs.last().2.len() > 0 {
            1nat
        } else {
            0nat
        })
    }
}

/// What `hotspots` answers for the commits `cs`.
pub open spec fn hotspots_ok(cs: Seq<(Seq<char>, Seq<char>, Seq<Seq<char>>)>, limit: usize, r: HotspotsReport) -> bool {
    let fl = flat_changes(cs);
    let hs = r.hotspots@;
    let co = r.cochange@;
    &&& hs.map_values(|s: FileStats| s.file@).no_duplicates()
    &&& forall|k: int| 0 <= k < hs.len() ==> stats_ok(#[trigger] hs[k], fl) && changed(fl, hs[k].file@)
    &&& forall|i: int, j: int|
        0 <= i < j < hs.len() ==> hot_before(
            (#[trigger] hs[i]).commits as nat,
            hs[i].file@,
            (#[trigger] hs[j]).commits as nat,
            hs[j].file@,
        )
    &&& hs.len() <= limit
    &&& forall|f: Seq<char>|
        #[trigger] changed(fl, f) && !hs.map_values(|s: FileStats| s.file@).contains(f) ==> hs.len() == limit && (hs.len()
            == 0 || hot_before(hs.last().commits as nat, hs.last().file@, change_count(fl, f), f))
    &&& exists|all: Seq<Seq<char>>|
        all.no_duplicates() && (forall|f: Seq<char>| #[trigger] all.contains(f) <==> changed(fl, f))
            && r.total_files == all.len()
    &&& r.total_commits == commits_with_files(cs)
    &&& forall|k: int|
        0 <= k < co.len() ==> {
            let e = #[trigger] co[k];
            &&& seq_lt(e.left@, e.right@)
            &&& e.count == cochange_count(cs, e.left@, e.right@)
            &&& e.count > 0
        }
    &&& forall|i: int, j: int|
        0 <= i < j < co.len() ==> pair_before(
            (#[trigger] co[i]).count as nat,
            co[i].left@,
            co[i].right@,
            (#[trigger] co[j]).count as nat,
            co[j].left@,
            co[j].right@,
        )
    &&& co.len() <= limit
    &&& forall|a: Seq<char>, b: Seq<char>|
        seq_lt(a, b) && #[trigger] cochange_count(cs, a, b) > 0 && !(exists|k: int|
            0 <= k < co.len() && co[k].left@ == a && co[k].right@ == b) ==> co.len() == limit && (co.len() == 0
            || pair_before(co.last().count as nat, co.last().left@, co.last().right@, cochange_count(cs, a, b), a, b))
}

/// Change hotspots from a `git log --name-only` listing (see
/// `parse_git_log`): the `limit` most changed files and the `limit` pairs
/// of files most often changed together, with the number of files and of
/// commits that change files. The period is `since`, or `all time`.
pub fn hotspots(log: &str, root: &str, limit: usize, since: Option<&str>) -> (r: HotspotsReport)
    ensures
        hotspots_ok(commits_of(log@, root@), limit, r),
        r.warning is None,
        r.period@ == match since {
            Some(s) => s@,
            None => "all time"@,
        },
{
    let commits = parse_git_log(log, root);
    let ghost cv = commits@.map_values(|c: Commit| commit_view(c));
    let ghost fl = flat_changes(cv);
    let stats = file_stats(&commits);
    // commits with files
    let mut total_commits: usize = 0;
    let mut c: usize = 0;
    while c < commits.len()
        invariant
            0 <= c <= commits@.len(),
            cv == commits@.map_values(|c: Commit| commit_view(c)),
            total_commits == commits_with_files(cv.take(c as int)),
            total_commits <= c,
        decreases commits@.len() - c,
    {
        assert(cv.take(c + 1).drop_last() =~= cv.take(c as int));
        assert(cv.take(c + 1).last() == cv[c as int]);
        if commits[c].files.len() > 0 {
            total_commits = total_commits + 1;
        }
        c = c + 1;
    }
    assert(cv.take(cv.len() as int) =~= cv);
    // hotspots
    let n = stats.len();
    let ghost fnames = stats@.map_values(|s: FileStats| s.file@);
    let mut counts: Vec<usize> = Vec::new();
    let mut names: Vec<String> = Vec::new();
    let mut k: usize = 0;
    while k < n
        invariant
            0 <= k <= n,
            n == stats@.len(),
            counts@.len() == k,
            names@.len() == k,
            forall|q: int| 0 <= q < k ==> #[trigger] counts@[q] == stats@[q].commits,
            forall|q: int| 0 <= q < k ==> (#[trigger] names@[q])@ == stats@[q].file@,
        decreases n - k,
    {
        counts.push(stats[k].commits);
        names.push(owned(stats[k].file.as_str()));
        k = k + 1;
    }
    assert(views(names@) =~= fnames);
    let ghost lt = |i: int, j: int| hot_before(counts@[i] as nat, names@[i]@, counts@[j] as nat, names@[j]@);
    proof {
        assert forall|i: int| 0 <= i < n implies !#[trigger] lt(i, i) by {
            lemma_seq_lt_irreflexive(names@[i]@);
        }
        assert forall|i: int, j: int| 0 <= i < n && 0 <= j < n && i != j implies #[trigger] lt(i, j) || #[trigger] lt(j, i) by {
            assert(fnames[i] != fnames[j]);
            lemma_seq_lt_total(names@[i]@, names@[j]@);
        }
        assert forall|i: int, j: int, q: int|
            0 <= i < n && 0 <= j < n && 0 <= q < n && #[trigger] lt(i, j) && #[trigger] lt(j, q) implies lt(i, q) by {
            if counts@[i] == counts@[j] && counts@[j] == counts@[q] {
                lemma_seq_lt_transitive(names@[i]@, names@[j]@, names@[q]@);
            }
        }
    }
    let before = |x: usize, y: usize| -> (b: bool)
        requires
            x < counts@.len(),
            y < counts@.len(),
            names@.len() == counts@.len(),
        ensures
            b == hot_before(counts@[x as int] as nat, names@[x as int]@, counts@[y as int] as nat, names@[y as int]@),
        { counts[x] > counts[y] || (counts[x] == counts[y] && str_lt(names[x].as_str(), names[y].as_str())) };
    let order = sort_positions(n, &before, Ghost(lt));
    let take = if limit < n { limit } else { n };
    let mut hs: Vec<FileStats> = Vec::new();
    let mut k: usize = 0;
    while k < take
        invariant
            0 <= k <= take,
            take <= n,
            n == stats@.len(),
            sorted_positions(order@, n as int, lt),
            hs@.len() == k,
            forall|q: int|
                0 <= q < k ==> {
                    let s = stats@[order@[q] as int];
                    &&& (#[trigger] hs@[q]).file@ == s.file@
                    &&& hs@[q].commits == s.commits
                    &&& hs@[q].authors == s.authors
                    &&& opt_text(hs@[q].last_commit) == opt_text(s.last_commit)
                },
        decreases take - k,
    {
        let s = &stats[order[k]];
        let last = match &s.last_commit {
            Some(d) => Some(owned(d.as_str())),
            None => None,
        };
        hs.push(FileStats { file: owned(s.file.as_str()), commits: s.commits, authors: s.authors, last_commit: last });
        k = k + 1;
    }
    // pairs of files changed together
    proof {
        assert forall|cc: int, f: Seq<char>|
            0 <= cc < commits@.len() && #[trigger] commit_view(commits@[cc]).2.contains(f) implies views(names@).contains(f) by {
            assert(cv[cc] == commit_view(commits@[cc]));
            lemma_commit_file_changed(cv, cc, f);
        }
    }
    let (co, partners) = cochange_table(&commits, &names);
    let ghost nv = views(names@);
    let mut pl: Vec<usize> = Vec::new();
    let mut pr: Vec<usize> = Vec::new();
    let mut pc: Vec<usize> = Vec::new();
    let mut a: usize = 0;
    while a < n
        invariant
            0 <= a <= n,
            n == names@.len(),
            nv == views(names@),
            co@.len() == n,
            partners@.len() == n,
            forall|x: int| 0 <= x < n ==> (#[trigger] partners@[x])@.no_duplicates(),
            forall|x: int, b: int| 0 <= x < n && 0 <= b < n ==> (#[trigger] partners@[x]@.contains(b as usize)
                <==> count_for(co@[x]@, nv[b]) > 0),
            forall|x: int, k: int| 0 <= x < n && 0 <= k < partners@[x]@.len() ==> #[trigger] partners@[x]@[k] < n,
            pl@.len() == pr@.len(),
            pl@.len() == pc@.len(),
            forall|q: int| 0 <= q < pl@.len() ==> #[trigger] pl@[q] < a && pr@[q] < n,
            forall|q: int| 0 <= q < pl@.len() ==> #[trigger] pc@[q] == count_for(co@[pl@[q] as int]@, nv[pr@[q] as int]),
            forall|q: int| 0 <= q < pl@.len() ==> #[trigger] pc@[q] > 0,
            forall|x: int, b: int| 0 <= x < a && 0 <= b < n && #[trigger] count_for(co@[x]@, nv[b]) > 0 ==> exists|q: int|
                0 <= q < pl@.len() && #[trigger] pl@[q] == x && pr@[q] == b,
            forall|q1: int, q2: int| 0 <= q1 < q2 < pl@.len() ==> #[trigger] pl@[q1] != #[trigger] pl@[q2] || pr@[q1] != pr@[q2],
        decreases n - a,
    {
        let list = &partners[a];
        let ghost base = pl@.len();
        assert(forall|q: int| 0 <= q < pl@.len() ==> #[trigger] pl@[q] < a + 1 && pr@[q] < n);
        let mut k: usize = 0;
        while k < list.len()
            invariant
                0 <= a < n,
                n == names@.len(),
                nv == views(names@),
                co@.len() == n,
                list@ == partners@[a as int]@,
                list@.no_duplicates(),
                forall|kk: int| 0 <= kk < list@.len() ==> #[trigger] list@[kk] < n,
                forall|b: int| 0 <= b < n ==> (#[trigger] list@.contains(b as usize) <==> count_for(co@[a as int]@, nv[b]) > 0),
                0 <= k <= list@.len(),
                pl@.len() == pr@.len(),
                pl@.len() == pc@.len(),
                pl@.len() == base + k,
                forall|q: int| 0 <= q < pl@.len() ==> #[trigger] pl@[q] < a + 1 && pr@[q] < n,
                forall|q: int| base <= q < pl@.len() ==> #[trigger] pl@[q] == a && pr@[q] == list@[q - base],
                forall|q: int| 0 <= q < base ==> #[trigger] pl@[q] < a,
                forall|q: int| 0 <= q < pl@.len() ==> #[trigger] pc@[q] == count_for(co@[pl@[q] as int]@, nv[pr@[q] as int]),
                forall|q: int| 0 <= q < pl@.len() ==> #[trigger] pc@[q] > 0,
                forall|x: int, b: int| 0 <= x < a && 0 <= b < n && #[trigger] count_for(co@[x]@, nv[b]) > 0 ==> exists|q: int|
                    0 <= q < pl@.len() && #[trigger] pl@[q] == x && pr@[q] == b,
                forall|q1: int, q2: int| 0 <= q1 < q2 < pl@.len() ==> #[trigger] pl@[q1] != #[trigger] pl@[q2] || pr@[q1] != pr@[q2],
            decreases list@.len() - k,
        {
            let b = list[k];
            assert(list@.contains(b)) by {
                assert(list@[k as int] == b);
            }
            assert(list@.contains((b as int) as usize));
            let cnt: usize = match co[a].get(names[b].as_str()) {
                Some(v) => *v,
                None => 0,
            };
            let ghost opl = pl@;
            let ghost opr = pr@;
            let ghost opc = pc@;
            pl.push(a);
            pr.push(b);
            pc.push(cnt);
            proof {
                assert forall|q1: int, q2: int| 0 <= q1 < q2 < pl@.len() implies #[trigger] pl@[q1] != #[trigger] pl@[q2] || pr@[q1] != pr@[q2] by {
                    if q2 == opl.len() {
                        if q1 >= base {
                            assert(pl@[q1] == opl[q1] && pr@[q1] == opr[q1]);
                            assert(opl[q1] == a);
                            assert(pr@[q1] == list@[q1 - base]);
                            assert(list@[q1 - base] != list@[k as int]);
                        } else {
                            assert(pl@[q1] == opl[q1]);
                        }
                    } else {
                        assert(pl@[q1] == opl[q1] && pl@[q2] == opl[q2] && pr@[q1] == opr[q1] && pr@[q2] == opr[q2]);
                    }
                }
                assert forall|x: int, bb: int| 0 <= x < a && 0 <= bb < n && #[trigger] count_for(co@[x]@, nv[bb]) > 0 implies exists|q: int|
                    0 <= q < pl@.len() && #[trigger] pl@[q] == x && pr@[q] == bb by {
                    let q = choose|q: int| 0 <= q < opl.len() && #[trigger] opl[q] == x && opr[q] == bb;
                    assert(pl@[q] == x && pr@[q] == bb);
                }
            }
            k = k + 1;
        }
        proof {
            assert forall|x: int, b: int| 0 <= x < a + 1 && 0 <= b < n && #[trigger] count_for(co@[x]@, nv[b]) > 0 implies exists|q: int|
                0 <= q < pl@.len() && #[trigger] pl@[q] == x && pr@[q] == b by {
                if x == a {
                    assert(list@.contains(b as usize));
                    let kk = choose|kk: int| 0 <= kk < list@.len() && list@[kk] == b as usize;
                    assert(pl@.len() == base + list@.len());
                    assert(pl@[base + kk] == a);
                    assert(pr@[base + kk] == list@[kk]);
                }
            }
        }
        a = a + 1;
    }
    let m = pl.len();
    let ghost lt2 = |i: int, j: int| pair_before(
        pc@[i] as nat,
        nv[pl@[i] as int],
        nv[pr@[i] as int],
        pc@[j] as nat,
        nv[pl@[j] as int],
        nv[pr@[j] as int],
    );
    proof {
        assert forall|i: int| 0 <= i < m implies !#[trigger] lt2(i, i) by {
            lemma_seq_lt_irreflexive(nv[pl@[i] as int]);
            lemma_seq_lt_irreflexive(nv[pr@[i] as int]);
        }
        assert forall|i: int, j: int| 0 <= i < m && 0 <= j < m && i != j implies #[trigger] lt2(i, j) || #[trigger] lt2(j, i) by {
            lemma_seq_lt_total(nv[pl@[i] as int], nv[pl@[j] as int]);
            lemma_seq_lt_total(nv[pr@[i] as int], nv[pr@[j] as int]);
            if i < j {
                assert(pl@[i] != pl@[j] || pr@[i] != pr@[j]);
            } else {
                assert(pl@[j] != pl@[i] || pr@[j] != pr@[i]);
            }
            if pl@[i] != pl@[j] {
                assert(nv[pl@[i] as int] != nv[pl@[j] as int]);
            } else {
                assert(nv[pr@[i] as int] != nv[pr@[j] as int]);
            }
        }
        assert forall|i: int, j: int, q: int|
            0 <= i < m && 0 <= j < m && 0 <= q < m && #[trigger] lt2(i, j) && #[trigger] lt2(j, q) implies lt2(i, q) by {
            if pc@[i] == pc@[j] && pc@[j] == pc@[q] {
                if seq_lt(nv[pl@[i] as int], nv[pl@[j] as int]) && seq_lt(nv[pl@[j] as int], nv[pl@[q] as int]) {
                    lemma_seq_lt_transitive(nv[pl@[i] as int], nv[pl@[j] as int], nv[pl@[q] as int]);
                }
                if seq_lt(nv[pr@[i] as int], nv[pr@[j] as int]) && seq_lt(nv[pr@[j] as int], nv[pr@[q] as int]) {
                    lemma_seq_lt_transitive(nv[pr@[i] as int], nv[pr@[j] as int], nv[pr@[q] as int]);
                }
            }
        }
    }
    let before2 = |x: usize, y: usize| -> (b: bool)
        requires
            x < pc@.len(),
            y < pc@.len(),
            pl@.len() == pc@.len(),
            pr@.len() == pc@.len(),
            forall|q: int| 0 <= q < pl@.len() ==> #[trigger] pl@[q] < names@.len() && pr@[q] < names@.len(),
        ensures
            b == pair_before(
                pc@[x as int] as nat,
                names@[pl@[x as int] as int]@,
                names@[pr@[x as int] as int]@,
                pc@[y as int] as nat,
                names@[pl@[y as int] as int]@,
                names@[pr@[y as int] as int]@,
            ),
        {
            let lx = names[pl[x]].as_str();
            let ly = names[pl[y]].as_str();
            let rx = names[pr[x]].as_str();
            let ry = names[pr[y]].as_str();
            pc[x] > pc[y] || (pc[x] == pc[y] && (str_lt(lx, ly) || (str_eq(lx, ly) && str_lt(rx, ry))))
        };
    let order2 = sort_positions(m, &before2, Ghost(lt2));
    let take2 = if limit < m { limit } else { m };
    let mut cochange: Vec<CochangeEntry> = Vec::new();
    let mut k: usize = 0;
    while k < take2
        invariant
            0 <= k <= take2,
            take2 <= m,
            m == pl@.len(),
            pl@.len() == pr@.len(),
            pl@.len() == pc@.len(),
            n == names@.len(),
            nv == views(names@),
            forall|q: int| 0 <= q < pl@.len() ==> #[trigger] pl@[q] < n && pr@[q] < n,
            sorted_positions(order2@, m as int, lt2),
            cochange@.len() == k,
            forall|q: int|
                0 <= q < k ==> {
                    let o = order2@[q] as int;
                    &&& (#[trigger] cochange@[q]).left@ == nv[pl@[o] as int]
                    &&& cochange@[q].right@ == nv[pr@[o] as int]
                    &&& cochange@[q].count == pc@[o]
                },
        decreases take2 - k,
    {
        let o = order2[k];
        cochange.push(CochangeEntry { left: owned(names[pl[o]].as_str()), right: owned(names[pr[o]].as_str()), count: pc[o] });
        k = k + 1;
    }
    let period = match since {
        Some(s) => owned(s),
        None => owned("all time"),
    };
    proof {
        reveal_strlit("all time");
    }
    let r = HotspotsReport { hotspots: hs, cochange, total_files: n, total_commits, period, warning: None };
    proof {
        let hs = r.hotspots@;
        let cov = r.cochange@;
        // hotspots
        let hn = hs.map_values(|s: FileStats| s.file@);
        assert forall|i: int, j: int| 0 <= i < j < hs.len() implies #[trigger] hn[i] != #[trigger] hn[j] by {
            assert(order@[i] != order@[j]);
            assert(fnames[order@[i] as int] != fnames[order@[j] as int]);
        }
        assert(hn.no_duplicates());
        assert forall|q: int| 0 <= q < hs.len() implies stats_ok(#[trigger] hs[q], fl) && changed(fl, hs[q].file@) by {
            assert(stats_ok(stats@[order@[q] as int], fl));
        }
        assert forall|i: int, j: int| 0 <= i < j < hs.len() implies hot_before(
            (#[trigger] hs[i]).commits as nat,
            hs[i].file@,
            (#[trigger] hs[j]).commits as nat,
            hs[j].file@,
        ) by {
            assert(lt(order@[i] as int, order@[j] as int));
        }
        assert forall|f: Seq<char>|
            #[trigger] changed(fl, f) && !hs.map_values(|s: FileStats| s.file@).contains(f) implies hs.len() == limit && (hs.len()
                == 0 || hot_before(hs.last().commits as nat, hs.last().file@, change_count(fl, f), f)) by {
            assert(fnames.contains(f));
            let i = choose|i: int| 0 <= i < fnames.len() && fnames[i] == f;
            assert(order@.contains(i as usize));
            let p = choose|p: int| 0 <= p < order@.len() && order@[p] == i as usize;
            if p < take {
                assert(hs.map_values(|s: FileStats| s.file@)[p] == f);
            }
            assert(stats_ok(stats@[i], fl));
            if hs.len() > 0 {
                assert(lt(order@[take - 1] as int, order@[p] as int));
                assert(hs.last() == hs[take - 1]);
            }
        }
        assert(fnames.no_duplicates() && (forall|f: Seq<char>| #[trigger] fnames.contains(f) <==> changed(fl, f))
            && r.total_files == fnames.len()) by {
            assert forall|f: Seq<char>| #[trigger] fnames.contains(f) implies changed(fl, f) by {
                let i = choose|i: int| 0 <= i < fnames.len() && fnames[i] == f;
            }
        }
        // pairs
        assert forall|q: int| 0 <= q < cov.len() implies {
            let e = #[trigger] cov[q];
            &&& seq_lt(e.left@, e.right@)
            &&& e.count == cochange_count(cv, e.left@, e.right@)
            &&& e.count > 0
        } by {
            let o = order2@[q] as int;
            assert(pc@[o] == count_for(co@[pl@[o] as int]@, nv[pr@[o] as int]));
        }
        assert forall|i: int, j: int| 0 <= i < j < cov.len() implies pair_before(
            (#[trigger] cov[i]).count as nat,
            cov[i].left@,
            cov[i].right@,
            (#[trigger] cov[j]).count as nat,
            cov[j].left@,
            cov[j].right@,
        ) by {
            assert(lt2(order2@[i] as int, order2@[j] as int));
        }
        assert forall|a: Seq<char>, b: Seq<char>|
            seq_lt(a, b) && #[trigger] cochange_count(cv, a, b) > 0 && !(exists|k: int|
                0 <= k < cov.len() && cov[k].left@ == a && cov[k].right@ == b) implies cov.len() == limit && (cov.len() == 0
                || pair_before(cov.last().count as nat, cov.last().left@, cov.last().right@, cochange_count(cv, a, b), a, b)) by {
            let c = lemma_cochange_witness(cv, a, b);
            lemma_commit_file_changed(cv, c, a);
            lemma_commit_file_changed(cv, c, b);
            assert(fnames.contains(a) && fnames.contains(b));
            let ia = choose|i: int| 0 <= i < fnames.len() && fnames[i] == a;
            let ib = choose|i: int| 0 <= i < fnames.len() && fnames[i] == b;
            assert(nv[ia] == a && nv[ib] == b);
            assert(count_for(co@[ia]@, nv[ib]) == cochange_count(cv, a, b));
            let q = choose|q: int| 0 <= q < pl@.len() && #[trigger] pl@[q] == ia && pr@[q] == ib;
            assert(order2@.contains(q as usize));
            let p = choose|p: int| 0 <= p < order2@.len() && order2@[p] == q as usize;
            if p < take2 {
                assert(cov[p].left@ == a && cov[p].right@ == b);
            }
            if cov.len() > 0 {
                assert(lt2(order2@[take2 - 1] as int, order2@[p] as int));
                assert(cov.last() == cov[take2 - 1]);
            }
        }
    }
    r
}

/// A commit that changes both files, when some commit does.
proof fn lemma_cochange_witness(cs: Seq<(Seq<char>, Seq<char>, Seq<Seq<char>>)>, a: Seq<char>, b: Seq<char>) -> (c: int)
    requires
        cochange_count(cs, a, b) > 0,
    ensures
        0 <= c < cs.len(),
        cs[c].2.contains(a),
        cs[c].2.contains(b),
    decreases cs.len(),
{
    if cs.last().2.contains(a) && cs.last().2.contains(b) {
        cs.len() - 1
    } else {
        let c = lemma_cochange_witness(cs.drop_last(), a, b);
        assert(cs[c] == cs.drop_last()[c]);
        c
    }
}

} // verus!
