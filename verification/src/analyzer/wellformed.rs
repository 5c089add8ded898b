//! Whether parsed files can be indexed: every offset of their syntax trees
//! falls on a character boundary of their text, and the graph's node count
//! fits in memory. Indexing under these checks never reads text at an
//! offset inside a character.

use vstd::prelude::*;
use vstd::string::*;
use crate::analyzer::index::{
    FileSource, SourceFile, index_nodes, index_project, indexed, lemma_index_nodes_mono, source_ok,
};
use crate::analyzer::syntax::{Expr, ExprKind, Stmt};
use crate::analyzer::visitors::{
    body_ok, class_members, expr_ok, extract_name_spec, lemma_class_members_mono,
    lemma_module_nodes_mono, lemma_name_targets_mono, lemma_named_decorators_mono, member_nodes,
    module_nodes, name_targets, named_decorators, offset_ok, stmt_nodes, stmt_ok,
};
use crate::model::CodeGraph;

verus! {

// ---------------------------------------------------------------- offsets

fn offset_fits(source: &str, off: usize) -> (r: bool)
    ensures
        r == offset_ok(source.spec_bytes(), off),
{
    let n = source.as_bytes().len();
    off >= n || source.is_char_boundary(off)
}

fn exprs_fit(v: &Vec<Expr>, source: &str) -> (r: bool)
    ensures
        r == (forall|i: int| 0 <= i < v@.len() ==> expr_ok(#[trigger] v@[i], source.spec_bytes())),
    decreases v@, v@.len(),
{
    let mut i: usize = 0;
    while i < v.len()
        invariant
            i <= v@.len(),
            forall|j: int| 0 <= j < i ==> expr_ok(#[trigger] v@[j], source.spec_bytes()),
        decreases v@.len() - i,
    {
        if !expr_fits(&v[i], source) {
            return false;
        }
        i = i + 1;
    }
    true
}

fn opt_exprs_fit(v: &Vec<Option<Expr>>, source: &str) -> (r: bool)
    ensures
        r == (forall|i: int|
            0 <= i < v@.len() && v@[i] is Some ==> expr_ok(#[trigger] v@[i]->0, source.spec_bytes())),
    decreases v@, v@.len(),
{
    let mut i: usize = 0;
    while i < v.len()
        invariant
            i <= v@.len(),
            forall|j: int|
                0 <= j < i && v@[j] is Some ==> expr_ok(#[trigger] v@[j]->0, source.spec_bytes()),
        decreases v@.len() - i,
    {
        match &v[i] {
            Some(x) => {
                assert(decreases_to!(v@ => v@[i as int]));
                if !expr_fits(x, source) {
                    return false;
                }
            },
            None => {},
        }
        i = i + 1;
    }
    true
}

fn expr_fits(e: &Expr, source: &str) -> (r: bool)
    ensures
        r == expr_ok(*e, source.spec_bytes()),
    decreases e, 0int,
{
    if !offset_fits(source, e.start) {
        return false;
    }
    match &e.node {
        ExprKind::Attribute { value, .. } => expr_fits(value, source),
        ExprKind::Call { func, args, keywords } => expr_fits(func, source) && exprs_fit(args, source)
            && exprs_fit(keywords, source),
        ExprKind::BinOp { left, right, .. } => expr_fits(left, source) && expr_fits(right, source),
        ExprKind::UnaryOp { operand } => expr_fits(operand, source),
        ExprKind::BoolOp { values } => exprs_fit(values, source),
        ExprKind::Compare { left, comparators } => expr_fits(left, source) && exprs_fit(
            comparators,
            source,
        ),
        ExprKind::IfExp { test, body, orelse } => expr_fits(test, source) && expr_fits(body, source)
            && expr_fits(orelse, source),
        ExprKind::Subscript { value, slice } => expr_fits(value, source) && expr_fits(slice, source),
        ExprKind::ListComp { elt } => expr_fits(elt, source),
        ExprKind::Dict { keys, values } => opt_exprs_fit(keys, source) && exprs_fit(values, source),
        ExprKind::Starred { value } => expr_fits(value, source),
        _ => true,
    }
}

fn stmts_fit(v: &Vec<Stmt>, source: &str) -> (r: bool)
    ensures
        r == body_ok(v@, source.spec_bytes()),
    decreases v@, v@.len(),
{
    let mut i: usize = 0;
    while i < v.len()
        invariant
            i <= v@.len(),
            forall|j: int| 0 <= j < i ==> stmt_ok(#[trigger] v@[j], source.spec_bytes()),
        decreases v@.len() - i,
    {
        if !stmt_fits(&v[i], source) {
            return false;
        }
        i = i + 1;
    }
    true
}

fn handlers_fit(h: &Vec<Vec<Stmt>>, source: &str) -> (r: bool)
    ensures
        r == (forall|j: int, i: int|
            0 <= j < h@.len() && 0 <= i < h@[j]@.len() ==> stmt_ok(
                #[trigger] h@[j]@[i],
                source.spec_bytes(),
            )),
    decreases h@, h@.len(),
{
    let mut j: usize = 0;
    while j < h.len()
        invariant
            j <= h@.len(),
            forall|q: int, i: int|
                0 <= q < j && 0 <= i < h@[q]@.len() ==> stmt_ok(#[trigger] h@[q]@[i], source.spec_bytes()),
        decreases h@.len() - j,
    {
        assert(decreases_to!(h@ => h@[j as int]));
        if !stmts_fit(&h[j], source) {
            return false;
        }
        j = j + 1;
    }
    true
}

fn stmt_fits(s: &Stmt, source: &str) -> (r: bool)
    ensures
        r == stmt_ok(*s, source.spec_bytes()),
    decreases s, 0int,
{
    match s {
        Stmt::FunctionDef(fd) => offset_fits(source, fd.start) && exprs_fit(&fd.decorators, source)
            && stmts_fit(&fd.body, source),
        Stmt::AsyncFunctionDef(fd) => offset_fits(source, fd.start) && exprs_fit(&fd.decorators, source)
            && stmts_fit(&fd.body, source),
        Stmt::ClassDef(cd) => offset_fits(source, cd.start) && exprs_fit(&cd.bases, source) && stmts_fit(
            &cd.body,
            source,
        ),
        Stmt::Import { start, .. } => offset_fits(source, *start),
        Stmt::ImportFrom { start, .. } => offset_fits(source, *start),
        Stmt::Assign { start, value, .. } => offset_fits(source, *start) && expr_fits(value, source),
        Stmt::AnnAssign { start, .. } => offset_fits(source, *start),
        Stmt::Expr(e) => expr_fits(e, source),
        Stmt::Return(v) => match v {
            Some(x) => expr_fits(x, source),
            None => true,
        },
        Stmt::If { test, body, orelse } => expr_fits(test, source) && stmts_fit(body, source) && stmts_fit(
            orelse,
            source,
        ),
        Stmt::For { body } => stmts_fit(body, source),
        Stmt::While { test, body } => expr_fits(test, source) && stmts_fit(body, source),
        Stmt::With { body } => stmts_fit(body, source),
        Stmt::Try { body, handlers, finalbody } => stmts_fit(body, source) && handlers_fit(handlers, source)
            && stmts_fit(finalbody, source),
        Stmt::Other => true,
    }
}

// ---------------------------------------------------------------- counts

fn named_decorator_count(decs: &Vec<Expr>) -> (r: usize)
    ensures
        r == named_decorators(decs@, decs@.len() as int),
{
    let mut c: usize = 0;
    let mut i: usize = 0;
    while i < decs.len()
        invariant
            i <= decs@.len(),
            c == named_decorators(decs@, i as int),
            c <= i,
        decreases decs@.len() - i,
    {
        let named = match &decs[i].node {
            ExprKind::Name(_) => true,
            ExprKind::Attribute { .. } => true,
            ExprKind::Call { func, .. } => has_name(func),
            _ => false,
        };
        assert(named == (extract_name_spec(decs@[i as int]) is Some));
        if named {
            c = c + 1;
        }
        i = i + 1;
    }
    c
}

fn has_name(e: &Expr) -> (r: bool)
    ensures
        r == (extract_name_spec(*e) is Some),
    decreases e,
{
    match &e.node {
        ExprKind::Name(_) => true,
        ExprKind::Attribute { .. } => true,
        ExprKind::Call { func, .. } => has_name(func),
        _ => false,
    }
}

fn name_target_count(ts: &Vec<Expr>) -> (r: usize)
    ensures
        r == name_targets(ts@, ts@.len() as int),
{
    let mut c: usize = 0;
    let mut i: usize = 0;
    while i < ts.len()
        invariant
            i <= ts@.len(),
            c == name_targets(ts@, i as int),
            c <= i,
        decreases ts@.len() - i,
    {
        let is_name = match &ts[i].node {
            ExprKind::Name(_) => true,
            _ => false,
        };
        if is_name {
            c = c + 1;
        }
        i = i + 1;
    }
    c
}

fn member_count(s: &Stmt) -> (r: usize)
    ensures
        r == member_nodes(*s),
{
    match s {
        Stmt::FunctionDef(_) => 1,
        Stmt::Assign { targets, .. } => name_target_count(targets),
        Stmt::AnnAssign { target, .. } => match &target.node {
            ExprKind::Name(_) => 1,
            _ => 0,
        },
        _ => 0,
    }
}

fn class_member_count(body: &Vec<Stmt>) -> (r: Option<usize>)
    ensures
        match r {
            Some(n) => n == class_members(body@, body@.len() as int),
            None => class_members(body@, body@.len() as int) > usize::MAX,
        },
{
    let mut c: usize = 0;
    let mut i: usize = 0;
    while i < body.len()
        invariant
            i <= body@.len(),
            c == class_members(body@, i as int),
        decreases body@.len() - i,
    {
        match c.checked_add(member_count(&body[i])) {
            Some(n) => {
                c = n;
            },
            None => {
                proof {
                    lemma_class_members_mono(body@, i + 1, body@.len() as int);
                }
                return None;
            },
        }
        i = i + 1;
    }
    Some(c)
}

fn stmt_node_count(s: &Stmt) -> (r: Option<usize>)
    ensures
        match r {
            Some(n) => n == stmt_nodes(*s),
            None => stmt_nodes(*s) > usize::MAX,
        },
{
    match s {
        Stmt::FunctionDef(fd) => named_decorator_count(&fd.decorators).checked_add(1),
        Stmt::AsyncFunctionDef(fd) => named_decorator_count(&fd.decorators).checked_add(1),
        Stmt::ClassDef(cd) => match class_member_count(&cd.body) {
            Some(n) => n.checked_add(1),
            None => None,
        },
        Stmt::Import { names, .. } => Some(names.len()),
        Stmt::ImportFrom { names, .. } => Some(names.len()),
        Stmt::Assign { targets, .. } => Some(name_target_count(targets)),
        Stmt::AnnAssign { target, .. } => match &target.node {
            ExprKind::Name(_) => Some(1),
            _ => Some(0),
        },
        _ => Some(0),
    }
}

fn module_node_count(body: &Vec<Stmt>) -> (r: Option<usize>)
    ensures
        match r {
            Some(n) => n == module_nodes(body@, body@.len() as int),
            None => module_nodes(body@, body@.len() as int) > usize::MAX,
        },
{
    let mut c: usize = 0;
    let mut i: usize = 0;
    while i < body.len()
        invariant
            i <= body@.len(),
            c == module_nodes(body@, i as int),
        decreases body@.len() - i,
    {
        let step = stmt_node_count(&body[i]);
        let next = match step {
            Some(k) => c.checked_add(k),
            None => None,
        };
        match next {
            Some(n) => {
                c = n;
            },
            None => {
                proof {
                    lemma_module_nodes_mono(body@, i + 1, body@.len() as int);
                }
                return None;
            },
        }
        i = i + 1;
    }
    Some(c)
}

// ---------------------------------------------------------------- files

/// Whether parsed files can be indexed: each syntax tree fits its text,
/// and the graph's nodes (one for the project, then those of the files)
/// can be counted in a `usize`.
pub open spec fn indexable(files: Seq<SourceFile>) -> bool {
    &&& forall|i: int| 0 <= i < files.len() ==> source_ok(#[trigger] files[i])
    &&& 1 + index_nodes(files, files.len() as int) <= usize::MAX
}

fn files_fit(files: &Vec<SourceFile>) -> (r: bool)
    ensures
        r == indexable(files@),
{
    let mut total: usize = 1;
    let mut i: usize = 0;
    while i < files.len()
        invariant
            i <= files@.len(),
            total == 1 + index_nodes(files@, i as int),
            forall|j: int| 0 <= j < i ==> source_ok(#[trigger] files@[j]),
        decreases files@.len() - i,
    {
        match &files[i].content {
            FileSource::Parsed { source, module } => {
                let n = source.as_str().as_bytes().len();
                if n == usize::MAX || !stmts_fit(&module.body, source.as_str()) {
                    return false;
                }
                let count = module_node_count(&module.body);
                let next = match count {
                    Some(k) => match k.checked_add(2) {
                        Some(k2) => total.checked_add(k2),
                        None => None,
                    },
                    None => None,
                };
                match next {
                    Some(t) => {
                        total = t;
                    },
                    None => {
                        proof {
                            lemma_index_nodes_mono(files@, i + 1, files@.len() as int);
                        }
                        return false;
                    },
                }
            },
            _ => {},
        }
        i = i + 1;
    }
    true
}

/// Index parsed files when they can be indexed (see `indexable`); nothing
/// otherwise.
pub fn index_checked(root: &str, files: &Vec<SourceFile>, generated_at_ms: u128) -> (r: Option<
    CodeGraph,
>)
    ensures
        r is Some <==> indexable(files@),
        r matches Some(g) ==> indexed(root@, files@, generated_at_ms, g),
{
    if files_fit(files) {
        Some(index_project(root, files, generated_at_ms))
    } else {
        None
    }
}

} // verus!
