//! Source-text helpers of the indexer: metrics, visibility, module names,
//! line numbers and block extents.

use vstd::prelude::*;
use vstd::string::*;
use vstd::utf8::*;
use crate::analyzer::syntax::{Constant, ExprKind, Stmt};
use crate::model::Location;
use crate::text::{
    push_char,
    chars_eq, chars_of, char_is_white, count_lead_white, is_blank, join, join_spec,
    lead_white, lines, lines_spec, owned, split_char, split_spec, starts_with, string_from_range,
    str_eq, trim, trim_spec, trim_start_spec, seq_starts_with, seq_ends_with, ends_with,
};

verus! {

// ---------------------------------------------------------------- metrics

/// Number of lines that are not blank.
pub open spec fn count_non_empty(ls: Seq<Seq<char>>) -> nat
    decreases ls.len(),
{
    if ls.len() == 0 {
        0
    } else {
        count_non_empty(ls.drop_last()) + (if trim_spec(ls.last()).len() > 0 { 1nat } else { 0nat })
    }
}

/// Number of lines that, once trimmed, start with `#`.
pub open spec fn count_comments(ls: Seq<Seq<char>>) -> nat
    decreases ls.len(),
{
    if ls.len() == 0 {
        0
    } else {
        count_comments(ls.drop_last()) + (if trim_spec(ls.last()).len() > 0 && trim_spec(
            ls.last(),
        )[0] == '#' { 1nat } else { 0nat })
    }
}

/// The metrics of a source text, by name: `comments`, `lines`, `non_empty`.
pub open spec fn file_metrics_spec(m: Seq<(String, usize)>, source: Seq<char>) -> bool {
    let ls = lines_spec(source);
    &&& m.len() == 3
    &&& m[0].0@ == "comments"@ && m[0].1 == count_comments(ls)
    &&& m[1].0@ == "lines"@ && m[1].1 == ls.len()
    &&& m[2].0@ == "non_empty"@ && m[2].1 == count_non_empty(ls)
}

proof fn lemma_counts_le(ls: Seq<Seq<char>>)
    ensures
        count_comments(ls) <= count_non_empty(ls) <= ls.len(),
    decreases ls.len(),
{
    if ls.len() > 0 {
        lemma_counts_le(ls.drop_last());
    }
}

/// Count lines, non-empty lines and comment lines of a source text.
pub fn file_metrics(source: &str) -> (m: Vec<(String, usize)>)
    ensures
        file_metrics_spec(m@, source@),
{
    let ls = lines(source);
    let ghost lv = ls@.map_values(|x: String| x@);
    let mut non_empty: usize = 0;
    let mut comments: usize = 0;
    let mut i: usize = 0;
    while i < ls.len()
        invariant
            0 <= i <= ls.len(),
            lv == ls@.map_values(|x: String| x@),
            non_empty == count_non_empty(lv.subrange(0, i as int)),
            comments == count_comments(lv.subrange(0, i as int)),
            non_empty <= i,
        decreases ls.len() - i,
    {
        let t = trim(ls[i].as_str());
        let tv = chars_of(t.as_str());
        proof {
            let pre = lv.subrange(0, i as int);
            let post = lv.subrange(0, i + 1);
            assert(post.drop_last() =~= pre);
            assert(post.last() == ls@[i as int]@);
            lemma_counts_le(pre);
        }
        if tv.len() > 0 {
            non_empty = non_empty + 1;
            if tv[0] == '#' {
                comments = comments + 1;
            }
        }
        i = i + 1;
    }
    assert(lv.subrange(0, ls.len() as int) =~= lv);
    let mut m: Vec<(String, usize)> = Vec::new();
    m.push((owned("comments"), comments));
    m.push((owned("lines"), ls.len()));
    m.push((owned("non_empty"), non_empty));
    m
}

/// The value of a named metric, if present.
pub fn metric(m: &Vec<(String, usize)>, key: &str) -> (r: Option<usize>)
    ensures
        match r {
            Some(v) => exists|i: int| 0 <= i < m.len() && m@[i].0@ == key@ && m@[i].1 == v && forall|
                j: int,
            | 0 <= j < i ==> m@[j].0@ != key@,
            None => forall|i: int| 0 <= i < m.len() ==> m@[i].0@ != key@,
        },
{
    let mut i: usize = 0;
    while i < m.len()
        invariant
            0 <= i <= m.len(),
            forall|j: int| 0 <= j < i ==> m@[j].0@ != key@,
        decreases m.len() - i,
    {
        if str_eq(m[i].0.as_str(), key) {
            return Some(m[i].1);
        }
        i = i + 1;
    }
    None
}

// ---------------------------------------------------------------- docstring

/// The docstring of a body: its first statement when that is a string
/// literal expression.
pub open spec fn docstring_spec(body: Seq<Stmt>) -> Option<Seq<char>> {
    if body.len() > 0 {
        match body[0] {
            Stmt::Expr(e) => match e.node {
                ExprKind::Constant(Constant::Str(s)) => Some(s@),
                _ => None,
            },
            _ => None,
        }
    } else {
        None
    }
}

/// Extract the docstring from the first statement of a function or class
/// body.
pub fn docstring(body: &[Stmt]) -> (r: Option<String>)
    ensures
        match r {
            Some(s) => docstring_spec(body@) == Some(s@),
            None => docstring_spec(body@) is None,
        },
{
    if body.len() == 0 {
        return None;
    }
    match &body[0] {
        Stmt::Expr(e) => match &e.node {
            ExprKind::Constant(Constant::Str(s)) => Some(owned(s.as_str())),
            _ => None,
        },
        _ => None,
    }
}

// ---------------------------------------------------------------- visibility

/// Python visibility by naming convention: dunder names are public,
/// `__x` is name-mangled, `_x` is private, anything else public.
pub open spec fn visibility_spec(name: Seq<char>) -> Option<Seq<char>> {
    if seq_starts_with(name, "__"@) && seq_ends_with(name, "__"@) {
        None
    } else if seq_starts_with(name, "__"@) {
        Some("mangled"@)
    } else if seq_starts_with(name, "_"@) {
        Some("private"@)
    } else {
        None
    }
}

/// Python visibility: `_` prefix = private, `__` prefix = name-mangled,
/// else public (`None`).
pub fn visibility(name: &str) -> (r: Option<String>)
    ensures
        match r {
            Some(s) => visibility_spec(name@) == Some(s@),
            None => visibility_spec(name@) is None,
        },
{
    if starts_with(name, "__") && ends_with(name, "__") {
        None
    } else if starts_with(name, "__") {
        Some(owned("mangled"))
    } else if starts_with(name, "_") {
        Some(owned("private"))
    } else {
        None
    }
}

// ---------------------------------------------------------------- module names

/// A path piece that names a directory or file (not empty, not `.`).
pub open spec fn is_normal_piece(c: Seq<char>) -> bool {
    c.len() > 0 && c != seq!['.']
}

/// The components of a `/`-separated path: the root `/` when the path is
/// absolute, then its pieces without empty and `.` pieces.
pub open spec fn path_components(p: Seq<char>) -> Seq<Seq<char>> {
    let normal = split_spec(p, '/').filter(|c: Seq<char>| is_normal_piece(c));
    if p.len() > 0 && p[0] == '/' {
        seq![seq!['/']] + normal
    } else {
        normal
    }
}

/// The components of `file` after those of `root`, when `root` is a
/// prefix; otherwise all components of `file` (`Path::strip_prefix`).
pub open spec fn strip_components(file: Seq<Seq<char>>, root: Seq<Seq<char>>) -> Seq<Seq<char>> {
    if root.is_prefix_of(file) {
        file.subrange(root.len() as int, file.len() as int)
    } else {
        file
    }
}

/// Position of the last `.` in `s`, or -1.
pub open spec fn last_dot(s: Seq<char>) -> int
    decreases s.len(),
{
    if s.len() == 0 {
        -1
    } else if s.last() == '.' {
        s.len() - 1
    } else {
        last_dot(s.drop_last())
    }
}

proof fn lemma_last_dot_bound(s: Seq<char>)
    ensures
        -1 <= last_dot(s) < s.len(),
    decreases s.len(),
{
    if s.len() > 0 && s.last() != '.' {
        lemma_last_dot_bound(s.drop_last());
    }
}

/// A file name without its extension (`Path::file_stem`).
pub open spec fn stem(c: Seq<char>) -> Seq<char> {
    if c == ".."@ {
        c
    } else if last_dot(c) > 0 {
        c.subrange(0, last_dot(c))
    } else {
        c
    }
}

/// The dotted Python module path of a file relative to a project root.
pub open spec fn module_name_spec(file: Seq<char>, root: Seq<char>) -> Seq<char> {
    let comps = strip_components(path_components(file), path_components(root));
    let named = if comps.len() > 0 && comps.last() != seq!['/'] {
        comps.drop_last().push(stem(comps.last()))
    } else {
        comps
    };
    let effective = if named.len() > 1 && named.last() == "__init__"@ {
        named.drop_last()
    } else {
        named
    };
    join_spec(effective, seq!['.'])
}

/// Components of a path.
fn components(p: &str) -> (r: Vec<String>)
    ensures
        r@.map_values(|x: String| x@) == path_components(p@),
{
    let pieces = split_char(p, '/');
    let ghost pv = pieces@.map_values(|x: String| x@);
    let pc = chars_of(p);
    let mut r: Vec<String> = Vec::new();
    let rooted = pc.len() > 0 && pc[0] == '/';
    if rooted {
        let mut slash = String::new();
        push_char(&mut slash, '/');
        r.push(slash);
    }
    let ghost base = r@.map_values(|x: String| x@);
    assert(base == (if rooted { seq![seq!['/']] } else { Seq::<Seq<char>>::empty() })) by {
        if rooted {
            assert(base =~= seq![seq!['/']]);
        } else {
            assert(base =~= Seq::<Seq<char>>::empty());
        }
    }
    let mut i: usize = 0;
    while i < pieces.len()
        invariant
            0 <= i <= pieces.len(),
            pv == pieces@.map_values(|x: String| x@),
            r@.map_values(|x: String| x@) == base + pv.subrange(0, i as int).filter(
                |c: Seq<char>| is_normal_piece(c),
            ),
        decreases pieces.len() - i,
    {
        let pcs = chars_of(pieces[i].as_str());
        let normal = pcs.len() > 0 && !(pcs.len() == 1 && pcs[0] == '.');
        proof {
            let pre = pv.subrange(0, i as int);
            assert(pv.subrange(0, i + 1) =~= pre.push(pv[i as int]));
            reveal(Seq::filter);
            assert(pre.push(pv[i as int]).drop_last() =~= pre);
            assert(normal == is_normal_piece(pv[i as int])) by {
                if pcs.len() == 1 {
                    assert(pcs@ =~= seq!['.'] <==> pcs@[0] == '.');
                }
            }
        }
        if normal {
            let ghost old_r = r@;
            r.push(owned(pieces[i].as_str()));
            assert(r@.map_values(|x: String| x@) =~= old_r.map_values(|x: String| x@).push(pv[i as int]));
        }
        i = i + 1;
    }
    assert(pv.subrange(0, pieces.len() as int) =~= pv);
    r
}

/// Position of the last `.` in a character slice.
fn find_last_dot(c: &[char]) -> (r: Option<usize>)
    ensures
        match r {
            Some(d) => d == last_dot(c@),
            None => last_dot(c@) == -1,
        },
{
    let mut j: usize = c.len();
    assert(c@.subrange(0, c.len() as int) =~= c@);
    while j > 0
        invariant
            0 <= j <= c.len(),
            last_dot(c@) == last_dot(c@.subrange(0, j as int)),
        decreases j,
    {
        let ghost pre = c@.subrange(0, j as int);
        if c[j - 1] == '.' {
            assert(pre.last() == '.');
            return Some(j - 1);
        }
        assert(pre.drop_last() =~= c@.subrange(0, j - 1));
        j = j - 1;
    }
    assert(c@.subrange(0, 0) =~= Seq::<char>::empty());
    None
}

/// The dotted module path of a Python file relative to a project root.
///
/// - `/project/pkg/module.py` → `pkg.module`
/// - `/project/pkg/__init__.py` → `pkg`
pub fn module_name(file_path: &str, project_root: &str) -> (r: String)
    ensures
        r@ == module_name_spec(file_path@, project_root@),
{
    let fc = components(file_path);
    let rc = components(project_root);
    let ghost fv = fc@.map_values(|x: String| x@);
    let ghost rv = rc@.map_values(|x: String| x@);
    // Component-wise prefix test.
    let mut is_prefix = rc.len() <= fc.len();
    let mut k: usize = 0;
    while is_prefix && k < rc.len()
        invariant
            rc.len() <= fc.len() || !is_prefix,
            0 <= k <= rc.len(),
            is_prefix ==> forall|j: int| 0 <= j < k ==> rv[j] == fv[j],
            !is_prefix ==> !rv.is_prefix_of(fv),
            fv == fc@.map_values(|x: String| x@),
            rv == rc@.map_values(|x: String| x@),
        decreases rc.len() - k, (if is_prefix { 1int } else { 0int }),
    {
        if !str_eq(rc[k].as_str(), fc[k].as_str()) {
            assert(rv[k as int] != fv[k as int]);
            is_prefix = false;
        } else {
            k = k + 1;
        }
    }
    proof {
        if is_prefix {
            assert(rv.is_prefix_of(fv)) by {
                assert(rv =~= fv.subrange(0, rv.len() as int));
            }
        }
    }
    let start = if is_prefix {
        rc.len()
    } else {
        0
    };
    let mut comps: Vec<String> = Vec::new();
    let mut i = start;
    while i < fc.len()
        invariant
            start <= i <= fc.len(),
            fv == fc@.map_values(|x: String| x@),
            comps@.map_values(|x: String| x@) == fv.subrange(start as int, i as int),
        decreases fc.len() - i,
    {
        let ghost old_c = comps@;
        comps.push(owned(fc[i].as_str()));
        assert(comps@.map_values(|x: String| x@) =~= old_c.map_values(|x: String| x@).push(fv[i as int]));
        assert(fv.subrange(start as int, i + 1) =~= fv.subrange(start as int, i as int).push(fv[i as int]));
        i = i + 1;
    }
    let ghost cv = strip_components(fv, rv);
    assert(comps@.map_values(|x: String| x@) =~= cv);
    // Drop the extension of the last component.
    let n = comps.len();
    if n > 0 {
        let lastc = chars_of(comps[n - 1].as_str());
        let is_root = lastc.len() == 1 && lastc[0] == '/';
        let is_dotdot = lastc.len() == 2 && lastc[0] == '.' && lastc[1] == '.';
        proof {
            assert(is_root == (lastc@ == seq!['/'])) by {
                if lastc.len() == 1 {
                    assert(lastc@ =~= seq!['/'] <==> lastc@[0] == '/');
                }
            }
            reveal_strlit("..");
            assert(is_dotdot == (lastc@ == ".."@)) by {
                if lastc.len() == 2 {
                    assert(lastc@ =~= ".."@ <==> (lastc@[0] == '.' && lastc@[1] == '.'));
                }
            }
        }
        if !is_root {
            let dot = find_last_dot(lastc.as_slice());
            let d: usize = match dot {
                Some(d) => d,
                None => 0,
            };
            proof {
                lemma_last_dot_bound(lastc@);
            }
            if !is_dotdot && d > 0 {
                let s = string_from_range(lastc.as_slice(), 0, d);
                let ghost old_c = comps@;
                comps.pop();
                comps.push(s);
                assert(comps@.map_values(|x: String| x@) =~= old_c.map_values(|x: String| x@).drop_last().push(stem(cv.last())));
            } else {
                assert(stem(cv.last()) == cv.last());
            }
        }
    }
    let ghost named = if cv.len() > 0 && cv.last() != seq!['/'] {
        cv.drop_last().push(stem(cv.last()))
    } else {
        cv
    };
    assert(comps@.map_values(|x: String| x@) == named);
    // A package's `__init__` names the package itself.
    let m = comps.len();
    if m > 1 {
        let lastc = chars_of(comps[m - 1].as_str());
        let init: Vec<char> = chars_of("__init__");
        if chars_eq(lastc.as_slice(), init.as_slice()) {
            let ghost old_c = comps@;
            comps.pop();
            assert(comps@.map_values(|x: String| x@) =~= old_c.map_values(|x: String| x@).drop_last());
        }
    }
    let ghost named_v = comps@.map_values(|x: String| x@);
    let r = join(&comps, ".");
    proof {
        reveal_strlit(".");
        assert("."@ =~= seq!['.']);
    }
    r
}

// ---------------------------------------------------------------- lines

/// Number of line-feed bytes among the first `n` bytes of `b`.
pub open spec fn count_newlines(b: Seq<u8>, n: int) -> nat
    decreases n,
{
    if n <= 0 {
        0
    } else {
        count_newlines(b, n - 1) + (if b[n - 1] == 10u8 { 1nat } else { 0nat })
    }
}

/// The 1-based line holding byte `offset` of `source` (offsets past the
/// end count as the end).
pub open spec fn offset_line_spec(source: Seq<char>, offset: int) -> int {
    let b = encode_utf8(source);
    let bounded = if offset < b.len() { offset } else { b.len() as int };
    count_newlines(b, bounded) + 1int
}

proof fn lemma_count_newlines_le(b: Seq<u8>, n: int)
    requires
        0 <= n,
    ensures
        count_newlines(b, n) <= n,
    decreases n,
{
    if n > 0 {
        lemma_count_newlines_le(b, n - 1);
    }
}

proof fn lemma_count_newlines_mono(b: Seq<u8>, m: int, n: int)
    requires
        0 <= m <= n,
    ensures
        count_newlines(b, m) <= count_newlines(b, n),
    decreases n - m,
{
    if m < n {
        lemma_count_newlines_mono(b, m, n - 1);
    }
}

/// Line numbers start at 1, never pass the line of the end of the text,
/// and do not decrease as the offset grows.
pub proof fn lemma_offset_line_laws(source: Seq<char>, x: int, y: int)
    requires
        0 <= x <= y,
    ensures
        1 <= offset_line_spec(source, x) <= offset_line_spec(source, y),
        offset_line_spec(source, y) <= offset_line_spec(source, encode_utf8(source).len() as int),
{
    let b = encode_utf8(source);
    let bx = if x < b.len() { x } else { b.len() as int };
    let by = if y < b.len() { y } else { b.len() as int };
    lemma_count_newlines_mono(b, bx, by);
    lemma_count_newlines_mono(b, by, b.len() as int);
}

/// Number of line feeds among the first `n` bytes.
fn newlines_before(b: &[u8], n: usize) -> (r: usize)
    requires
        n <= b.len(),
    ensures
        r == count_newlines(b@, n as int),
{
    let mut c: usize = 0;
    let mut i: usize = 0;
    while i < n
        invariant
            0 <= i <= n <= b.len(),
            c == count_newlines(b@, i as int),
        decreases n - i,
    {
        proof {
            lemma_count_newlines_le(b@, i as int);
        }
        if b[i] == 10u8 {
            c = c + 1;
        }
        i = i + 1;
    }
    c
}

/// The 1-based line number of a byte offset into `source`.
pub fn offset_line(source: &str, offset: usize) -> (r: usize)
    requires
        source.spec_bytes().len() < usize::MAX,
        offset >= source.spec_bytes().len() || is_char_boundary(source.spec_bytes(), offset as int),
    ensures
        r == offset_line_spec(source@, offset as int),
{
    let b = source.as_bytes();
    let bounded = if offset < b.len() {
        offset
    } else {
        b.len()
    };
    let c = newlines_before(b, bounded);
    proof {
        lemma_count_newlines_le(b@, bounded as int);
    }
    c + 1
}

/// Bytes `p` occur in `s` at position `i`.
pub open spec fn bytes_occur_at(s: Seq<u8>, p: Seq<u8>, i: int) -> bool {
    0 <= i && i + p.len() <= s.len() && s.subrange(i, i + p.len()) == p
}

fn bytes_match_at(s: &[u8], p: &[u8], i: usize) -> (r: bool)
    ensures
        r == bytes_occur_at(s@, p@, i as int),
{
    if i > s.len() || p.len() > s.len() - i {
        return false;
    }
    let mut k: usize = 0;
    while k < p.len()
        invariant
            i + p.len() <= s.len(),
            0 <= k <= p.len(),
            forall|j: int| 0 <= j < k ==> s@[i + j] == p@[j],
        decreases p.len() - k,
    {
        if s[i + k] != p[k] {
            assert(s@.subrange(i as int, i + p.len())[k as int] != p@[k as int]);
            return false;
        }
        k = k + 1;
    }
    assert(s@.subrange(i as int, i + p.len()) =~= p@);
    true
}

/// `i` is the first position where `p` occurs in `b`.
pub open spec fn is_first_occurrence(b: Seq<u8>, p: Seq<u8>, i: int) -> bool {
    bytes_occur_at(b, p, i) && forall|j: int| 0 <= j < i ==> !#[trigger] bytes_occur_at(b, p, j)
}

/// The first position where `p` occurs in `b` (meaningful when it occurs).
pub open spec fn first_occurrence(b: Seq<u8>, p: Seq<u8>) -> int {
    choose|i: int| is_first_occurrence(b, p, i)
}

/// The line of the first occurrence of `needle` in `source`, or 0.
pub open spec fn find_line_spec(source: Seq<char>, needle: Seq<char>) -> int {
    let b = encode_utf8(source);
    let p = encode_utf8(needle);
    if exists|i: int| #[trigger] bytes_occur_at(b, p, i) {
        count_newlines(b, first_occurrence(b, p)) + 1int
    } else {
        0
    }
}

/// Line number (1-based) of the first occurrence of `needle` in `source`,
/// or 0 if it does not occur.
pub fn find_line(source: &str, needle: &str) -> (r: usize)
    requires
        source.spec_bytes().len() < usize::MAX,
    ensures
        r == find_line_spec(source@, needle@),
{
    let b = source.as_bytes();
    let p = needle.as_bytes();
    let ghost bs = b@;
    let ghost ps = p@;
    if p.len() > b.len() {
        assert(!exists|i: int| #[trigger] bytes_occur_at(bs, ps, i));
        return 0;
    }
    let last = b.len() - p.len();
    let mut i: usize = 0;
    while i <= last
        invariant
            last == b.len() - p.len(),
            b.len() < usize::MAX,
            bs == b@,
            ps == p@,
            bs == encode_utf8(source@),
            ps == encode_utf8(needle@),
            0 <= i <= last + 1,
            forall|j: int| 0 <= j < i ==> !#[trigger] bytes_occur_at(b@, p@, j),
        decreases last + 1 - i,
    {
        if bytes_match_at(b, p, i) {
            let c = newlines_before(b, i);
            proof {
                lemma_count_newlines_le(b@, i as int);
                assert(bytes_occur_at(bs, ps, i as int));
                assert(forall|j: int| 0 <= j < i ==> !#[trigger] bytes_occur_at(bs, ps, j));
                assert(is_first_occurrence(bs, ps, i as int));
                let first = first_occurrence(bs, ps);
                assert(is_first_occurrence(bs, ps, first));
                if first < i {
                    assert(!bytes_occur_at(bs, ps, first));
                } else if first > i {
                    assert(!bytes_occur_at(bs, ps, i as int));
                }
                assert(first == i);
                assert(bs == encode_utf8(source@));
                assert(ps == encode_utf8(needle@));
                assert(exists|k: int| #[trigger] bytes_occur_at(bs, ps, k));
                assert(c + 1 == count_newlines(bs, first) + 1int);
            }
            return c + 1;
        }
        i = i + 1;
    }
    assert(!exists|k: int| #[trigger] bytes_occur_at(bs, ps, k)) by {
        if exists|k: int| #[trigger] bytes_occur_at(bs, ps, k) {
            let k = choose|k: int| #[trigger] bytes_occur_at(bs, ps, k);
            assert(k <= last);
        }
    }
    0
}

// ---------------------------------------------------------------- blocks

/// Byte length of the leading white space of a line.
pub open spec fn indent_spec(line: Seq<char>) -> int {
    encode_utf8(line).len() - encode_utf8(trim_start_spec(line)).len()
}

proof fn lemma_encode_suffix_len(s: Seq<char>, k: int)
    requires
        0 <= k <= s.len(),
    ensures
        encode_utf8(s.subrange(k, s.len() as int)).len() <= encode_utf8(s).len(),
    decreases k,
{
    if k > 0 {
        assert(s.drop_first().subrange(k - 1, s.drop_first().len() as int) =~= s.subrange(
            k,
            s.len() as int,
        ));
        lemma_encode_suffix_len(s.drop_first(), k - 1);
    } else {
        assert(s.subrange(0, s.len() as int) =~= s);
    }
}

/// Count leading white space (in bytes) of a line.
fn indent_level(line: &str) -> (r: usize)
    ensures
        r == indent_spec(line@),
{
    let v = chars_of(line);
    let k = count_lead_white(v.as_slice());
    proof {
        crate::text::lemma_lead_white_le(line@);
    }
    let rest = string_from_range(v.as_slice(), k, v.len());
    proof {
        lemma_encode_suffix_len(line@, k as int);
    }
    let total = line.as_bytes().len();
    let trimmed = rest.as_str().as_bytes().len();
    total - trimmed
}

/// The scan of `find_block_end`: from line `i` on, skip blank lines, stop at
/// the first line indented no deeper than `base`, and record the last line
/// of the body seen so far in `end`.
pub open spec fn block_scan(ls: Seq<Seq<char>>, base: int, i: int, end: int) -> int
    decreases ls.len() - i,
{
    if i < 0 || i >= ls.len() {
        end
    } else if trim_spec(ls[i]).len() == 0 {
        block_scan(ls, base, i + 1, end)
    } else if indent_spec(ls[i]) <= base {
        end
    } else {
        block_scan(ls, base, i + 1, i + 1)
    }
}

/// The last line of the block starting at `start_line`.
pub open spec fn block_end_spec(source: Seq<char>, start_line: int) -> int {
    let ls = lines_spec(source);
    if start_line == 0 || start_line > ls.len() {
        ls.len() as int
    } else {
        block_scan(ls, indent_spec(ls[start_line - 1]), start_line, start_line)
    }
}

/// Given a start line (1-based), find the last line of its block by
/// tracking Python indentation: the block ends before the first non-blank
/// line indented no deeper than the start line.
pub fn find_block_end(source: &str, start_line: usize) -> (r: usize)
    ensures
        r == block_end_spec(source@, start_line as int),
{
    let ls = lines(source);
    let ghost lv = ls@.map_values(|x: String| x@);
    if start_line == 0 || start_line > ls.len() {
        return ls.len();
    }
    let start_idx = start_line - 1;
    let start_indent = indent_level(ls[start_idx].as_str());
    let mut end_line = start_line;
    let mut i = start_idx + 1;
    let ghost base = indent_spec(lv[start_idx as int]);
    assert(lv[start_idx as int] == ls@[start_idx as int]@);
    let mut done = false;
    while i < ls.len() && !done
        invariant
            lv == ls@.map_values(|x: String| x@),
            start_line <= i <= ls.len(),
            start_line <= end_line <= i,
            start_indent == base,
            block_scan(lv, base, start_line as int, start_line as int) == block_scan(
                lv,
                base,
                i as int,
                end_line as int,
            ),
            done ==> block_scan(lv, base, i as int, end_line as int) == end_line,
        decreases ls.len() - i, (if done { 0int } else { 1int }),
    {
        assert(lv[i as int] == ls@[i as int]@);
        if is_blank(ls[i].as_str()) {
            i = i + 1;
        } else {
            let indent = indent_level(ls[i].as_str());
            if indent <= start_indent {
                done = true;
            } else {
                end_line = i + 1;
                i = i + 1;
            }
        }
    }
    end_line
}

/// A location in `file` at the line of byte `offset` of `source`.
pub fn location(file: &str, source: &str, offset: usize) -> (r: Location)
    requires
        source.spec_bytes().len() < usize::MAX,
        offset >= source.spec_bytes().len() || is_char_boundary(source.spec_bytes(), offset as int),
    ensures
        r.file@ == file@,
        r.line == offset_line_spec(source@, offset as int),
{
    Location { file: owned(file), line: offset_line(source, offset) }
}

} // verus!
