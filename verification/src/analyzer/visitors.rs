//! Walk a Python syntax tree and add its symbols, declarations and calls
//! to a graph builder.

use vstd::prelude::*;
use vstd::string::*;
use crate::analyzer::builder::{opt_view, Builder, PendingEdge};
use crate::analyzer::helpers::{
    docstring, file_metrics, file_metrics_spec, find_block_end, location, module_name,
    offset_line, offset_line_spec, visibility,
};
use crate::analyzer::syntax::{
    Alias, Arguments, BinOperator, ClassDef, Constant, Expr, ExprKind, FunctionDef, Param, PyModule,
    Stmt,
};
use crate::model::{EdgeKind, Location, Node, NodeKind};
use crate::semantic::strip_root;
use crate::text::{concat2, concat3, join, join_spec, lines, lines_spec, owned, push_str, str_eq};

verus! {

// ---------------------------------------------------------------- offsets

/// Whether a byte offset of `b` is at a character boundary or at/past the end.
pub open spec fn offset_ok(b: Seq<u8>, off: usize) -> bool {
    off >= b.len() || vstd::utf8::is_char_boundary(b, off as int)
}

/// Whether every offset in an expression can be used with source bytes `b`.
pub open spec fn expr_ok(e: Expr, b: Seq<u8>) -> bool
    decreases e,
{
    offset_ok(b, e.start) && match e.node {
        ExprKind::Attribute { value, .. } => expr_ok(*value, b),
        ExprKind::Call { func, args, keywords } => expr_ok(*func, b) && (forall|i: int|
            0 <= i < args@.len() ==> expr_ok(#[trigger] args@[i], b)) && (forall|i: int|
            0 <= i < keywords@.len() ==> expr_ok(#[trigger] keywords@[i], b)),
        ExprKind::BinOp { left, right, .. } => expr_ok(*left, b) && expr_ok(*right, b),
        ExprKind::UnaryOp { operand } => expr_ok(*operand, b),
        ExprKind::BoolOp { values } => forall|i: int|
            0 <= i < values@.len() ==> expr_ok(#[trigger] values@[i], b),
        ExprKind::Compare { left, comparators } => expr_ok(*left, b) && forall|i: int|
            0 <= i < comparators@.len() ==> expr_ok(#[trigger] comparators@[i], b),
        ExprKind::IfExp { test, body, orelse } => expr_ok(*test, b) && expr_ok(*body, b) && expr_ok(
            *orelse,
            b,
        ),
        ExprKind::Subscript { value, slice } => expr_ok(*value, b) && expr_ok(*slice, b),
        ExprKind::ListComp { elt } => expr_ok(*elt, b),
        ExprKind::Dict { keys, values } => (forall|i: int|
            0 <= i < keys@.len() && keys@[i] is Some ==> expr_ok(#[trigger] keys@[i]->0, b))
            && forall|i: int| 0 <= i < values@.len() ==> expr_ok(#[trigger] values@[i], b),
        ExprKind::Starred { value } => expr_ok(*value, b),
        _ => true,
    }
}

/// Whether every offset in a statement can be used with source bytes `b`.
pub open spec fn stmt_ok(s: Stmt, b: Seq<u8>) -> bool
    decreases s,
{
    match s {
        Stmt::FunctionDef(fd) => offset_ok(b, fd.start) && (forall|i: int|
            0 <= i < fd.decorators@.len() ==> expr_ok(#[trigger] fd.decorators@[i], b)) && forall|
            i: int,
        | 0 <= i < fd.body@.len() ==> stmt_ok(#[trigger] fd.body@[i], b),
        Stmt::AsyncFunctionDef(fd) => offset_ok(b, fd.start) && (forall|i: int|
            0 <= i < fd.decorators@.len() ==> expr_ok(#[trigger] fd.decorators@[i], b)) && forall|
            i: int,
        | 0 <= i < fd.body@.len() ==> stmt_ok(#[trigger] fd.body@[i], b),
        Stmt::ClassDef(cd) => offset_ok(b, cd.start) && (forall|i: int|
            0 <= i < cd.bases@.len() ==> expr_ok(#[trigger] cd.bases@[i], b)) && forall|i: int|
            0 <= i < cd.body@.len() ==> stmt_ok(#[trigger] cd.body@[i], b),
        Stmt::Import { start, .. } => offset_ok(b, start),
        Stmt::ImportFrom { start, .. } => offset_ok(b, start),
        Stmt::Assign { start, value, .. } => offset_ok(b, start) && expr_ok(value, b),
        Stmt::AnnAssign { start, .. } => offset_ok(b, start),
        Stmt::Expr(e) => expr_ok(e, b),
        Stmt::Return(v) => v matches Some(x) ==> expr_ok(x, b),
        Stmt::If { test, body, orelse } => expr_ok(test, b) && (forall|i: int|
            0 <= i < body@.len() ==> stmt_ok(#[trigger] body@[i], b)) && forall|i: int|
            0 <= i < orelse@.len() ==> stmt_ok(#[trigger] orelse@[i], b),
        Stmt::For { body } => forall|i: int| 0 <= i < body@.len() ==> stmt_ok(#[trigger] body@[i], b),
        Stmt::While { test, body } => expr_ok(test, b) && forall|i: int|
            0 <= i < body@.len() ==> stmt_ok(#[trigger] body@[i], b),
        Stmt::With { body } => forall|i: int| 0 <= i < body@.len() ==> stmt_ok(#[trigger] body@[i], b),
        Stmt::Try { body, handlers, finalbody } => (forall|i: int|
            0 <= i < body@.len() ==> stmt_ok(#[trigger] body@[i], b)) && (forall|j: int, i: int|
            0 <= j < handlers@.len() && 0 <= i < handlers@[j]@.len() ==> stmt_ok(
                #[trigger] handlers@[j]@[i],
                b,
            )) && forall|i: int| 0 <= i < finalbody@.len() ==> stmt_ok(#[trigger] finalbody@[i], b),
        Stmt::Other => true,
    }
}

/// Whether every offset in a list of statements can be used with `b`.
pub open spec fn body_ok(v: Seq<Stmt>, b: Seq<u8>) -> bool {
    forall|i: int| 0 <= i < v.len() ==> stmt_ok(#[trigger] v[i], b)
}

// ---------------------------------------------------------------- names and text

/// The name an expression stands for as a callee, base or decorator: a
/// name, the attribute of an attribute access, or the callee of a call.
pub open spec fn extract_name_spec(e: Expr) -> Option<Seq<char>>
    decreases e,
{
    match e.node {
        ExprKind::Name(n) => Some(n@),
        ExprKind::Attribute { attr, .. } => Some(attr@),
        ExprKind::Call { func, .. } => extract_name_spec(*func),
        _ => None,
    }
}

fn extract_name(e: &Expr) -> (r: Option<String>)
    ensures
        opt_view(r) == extract_name_spec(*e),
    decreases e,
{
    match &e.node {
        ExprKind::Name(n) => Some(owned(n.as_str())),
        ExprKind::Attribute { attr, .. } => Some(owned(attr.as_str())),
        ExprKind::Call { func, .. } => extract_name(func),
        _ => None,
    }
}

/// The source-like text of an expression, as a signature shows it; `?`
/// for the forms it does not render.
pub open spec fn expr_text(e: Expr) -> Seq<char>
    decreases e, 0int,
{
    match e.node {
        ExprKind::Name(n) => n@,
        ExprKind::Constant(c) => match c {
            Constant::Str(s) => "\""@ + s@ + "\""@,
            Constant::Int(n) => n@,
            Constant::Float(f) => f@,
            Constant::Bool(b) => if b {
                "true"@
            } else {
                "false"@
            },
            Constant::NoneValue => "None"@,
            Constant::Ellipsis => "..."@,
            Constant::Other => "?"@,
        },
        ExprKind::Attribute { value, attr } => expr_text(*value) + "."@ + attr@,
        ExprKind::Subscript { value, slice } => expr_text(*value) + "["@ + expr_text(*slice) + "]"@,
        ExprKind::Tuple { elts } => "("@ + join_spec(texts_prefix(elts@, elts@.len() as int), ", "@)
            + ")"@,
        ExprKind::List { elts } => "["@ + join_spec(texts_prefix(elts@, elts@.len() as int), ", "@)
            + "]"@,
        ExprKind::BinOp { left, op, right } => expr_text(*left) + " "@ + (if op
            == BinOperator::BitOr {
            "|"@
        } else {
            "?"@
        }) + " "@ + expr_text(*right),
        ExprKind::UnaryOp { operand } => "?"@ + expr_text(*operand),
        _ => "?"@,
    }
}

/// The texts of the first `k` expressions of `v`.
pub open spec fn texts_prefix(v: Seq<Expr>, k: int) -> Seq<Seq<char>>
    decreases v, k,
{
    if k <= 0 || k > v.len() {
        Seq::empty()
    } else {
        texts_prefix(v, k - 1).push(expr_text(v[k - 1]))
    }
}

fn exprs_to_strings(v: &Vec<Expr>) -> (r: Vec<String>)
    ensures
        r@.map_values(|x: String| x@) == texts_prefix(v@, v@.len() as int),
    decreases v@, v@.len(),
{
    let mut r: Vec<String> = Vec::new();
    let mut i: usize = 0;
    while i < v.len()
        invariant
            i <= v@.len(),
            r@.map_values(|x: String| x@) == texts_prefix(v@, i as int),
        decreases v@.len() - i,
    {
        let t = expr_to_string(&v[i]);
        let ghost before = r@.map_values(|x: String| x@);
        r.push(t);
        assert(r@.map_values(|x: String| x@) =~= before.push(expr_text(v@[i as int])));
        i = i + 1;
    }
    r
}

fn expr_to_string(e: &Expr) -> (r: String)
    ensures
        r@ == expr_text(*e),
    decreases e, 0int,
{
    proof {
        reveal_strlit("\"");
        reveal_strlit("true");
        reveal_strlit("false");
        reveal_strlit("None");
        reveal_strlit("...");
        reveal_strlit("?");
        reveal_strlit(".");
        reveal_strlit("[");
        reveal_strlit("]");
        reveal_strlit("(");
        reveal_strlit(")");
        reveal_strlit(", ");
        reveal_strlit(" ");
        reveal_strlit("|");
    }
    match &e.node {
        ExprKind::Name(n) => owned(n.as_str()),
        ExprKind::Constant(c) => match c {
            Constant::Str(s) => concat3("\"", s.as_str(), "\""),
            Constant::Int(n) => owned(n.as_str()),
            Constant::Float(f) => owned(f.as_str()),
            Constant::Bool(b) => if *b {
                owned("true")
            } else {
                owned("false")
            },
            Constant::NoneValue => owned("None"),
            Constant::Ellipsis => owned("..."),
            Constant::Other => owned("?"),
        },
        ExprKind::Attribute { value, attr } => {
            let v = expr_to_string(value);
            concat3(v.as_str(), ".", attr.as_str())
        },
        ExprKind::Subscript { value, slice } => {
            let v = expr_to_string(value);
            let s = expr_to_string(slice);
            let mut r = concat3(v.as_str(), "[", s.as_str());
            push_str(&mut r, "]");
            r
        },
        ExprKind::Tuple { elts } => {
            let items = exprs_to_strings(elts);
            let j = join(&items, ", ");
            concat3("(", j.as_str(), ")")
        },
        ExprKind::List { elts } => {
            let items = exprs_to_strings(elts);
            let j = join(&items, ", ");
            concat3("[", j.as_str(), "]")
        },
        ExprKind::BinOp { left, op, right } => {
            let l = expr_to_string(left);
            let rt = expr_to_string(right);
            let o = if *op == BinOperator::BitOr {
                "|"
            } else {
                "?"
            };
            let mut r = concat3(l.as_str(), " ", o);
            push_str(&mut r, " ");
            push_str(&mut r, rt.as_str());
            r
        },
        ExprKind::UnaryOp { operand } => {
            let o = expr_to_string(operand);
            concat2("?", o.as_str())
        },
        _ => owned("?"),
    }
}

// ---------------------------------------------------------------- signatures

/// A parameter as a signature shows it: `name`, then `: annotation` and
/// ` = default` when present.
pub open spec fn arg_text(p: Param) -> Seq<char> {
    p.name@ + (match p.annotation {
        Some(a) => ": "@ + expr_text(a),
        None => Seq::empty(),
    }) + (match p.default {
        Some(d) => " = "@ + expr_text(d),
        None => Seq::empty(),
    })
}

/// The texts of a list of parameters.
pub open spec fn params_text(ps: Seq<Param>) -> Seq<Seq<char>> {
    ps.map_values(|p: Param| arg_text(p))
}

/// The parts of a parameter list: positional-only parameters, `/` when
/// both kinds of positional parameters are present, the other positional
/// parameters, `*args`, keyword-only parameters and `**kwargs`.
pub open spec fn signature_parts(a: Arguments) -> Seq<Seq<char>> {
    params_text(a.posonlyargs@) + (if a.posonlyargs@.len() > 0 && a.args@.len() > 0 {
        seq!["/"@]
    } else {
        Seq::empty()
    }) + params_text(a.args@) + (match a.vararg {
        Some(v) => seq!["*"@ + v@],
        None => Seq::empty(),
    }) + params_text(a.kwonlyargs@) + (match a.kwarg {
        Some(k) => seq!["**"@ + k@],
        None => Seq::empty(),
    })
}

/// A function's signature: `def name(parts)` and ` -> return type` when the
/// return type is annotated.
pub open spec fn signature_text(name: Seq<char>, a: Arguments, return_type: Option<Expr>) -> Seq<char> {
    "def "@ + name + "("@ + join_spec(signature_parts(a), ", "@) + ")"@ + (match return_type {
        Some(r) => " -> "@ + expr_text(r),
        None => Seq::empty(),
    })
}

fn fmt_arg(p: &Param) -> (r: String)
    ensures
        r@ == arg_text(*p),
{
    proof {
        reveal_strlit(": ");
        reveal_strlit(" = ");
    }
    let mut s = owned(p.name.as_str());
    match &p.annotation {
        Some(a) => {
            let t = expr_to_string(a);
            push_str(&mut s, ": ");
            push_str(&mut s, t.as_str());
        },
        None => {},
    }
    match &p.default {
        Some(d) => {
            let t = expr_to_string(d);
            push_str(&mut s, " = ");
            push_str(&mut s, t.as_str());
        },
        None => {},
    }
    s
}

fn push_params(parts: &mut Vec<String>, ps: &Vec<Param>)
    ensures
        final(parts)@.map_values(|x: String| x@) == old(parts)@.map_values(|x: String| x@)
            + params_text(ps@),
{
    let ghost start = parts@.map_values(|x: String| x@);
    let mut i: usize = 0;
    while i < ps.len()
        invariant
            i <= ps@.len(),
            parts@.map_values(|x: String| x@) == start + params_text(ps@.take(i as int)),
        decreases ps@.len() - i,
    {
        let ghost before = parts@.map_values(|x: String| x@);
        parts.push(fmt_arg(&ps[i]));
        assert(params_text(ps@.take(i + 1)) =~= params_text(ps@.take(i as int)).push(
            arg_text(ps@[i as int]),
        ));
        assert(parts@.map_values(|x: String| x@) =~= before.push(arg_text(ps@[i as int])));
        i = i + 1;
    }
    assert(ps@.take(ps@.len() as int) =~= ps@);
}

/// Build the signature text of a function from its parameters and return
/// annotation.
fn build_signature(name: &str, args: &Arguments, return_type: &Option<Expr>) -> (r: String)
    ensures
        r@ == signature_text(name@, *args, *return_type),
{
    proof {
        reveal_strlit("/");
        reveal_strlit("*");
        reveal_strlit("**");
        reveal_strlit("def ");
        reveal_strlit("(");
        reveal_strlit(")");
        reveal_strlit(", ");
        reveal_strlit(" -> ");
    }
    let mut parts: Vec<String> = Vec::new();
    assert(parts@.map_values(|x: String| x@) =~= Seq::<Seq<char>>::empty());
    push_params(&mut parts, &args.posonlyargs);
    if args.posonlyargs.len() > 0 && args.args.len() > 0 {
        let ghost before = parts@.map_values(|x: String| x@);
        parts.push(owned("/"));
        assert(parts@.map_values(|x: String| x@) =~= before + seq!["/"@]);
    }
    push_params(&mut parts, &args.args);
    match &args.vararg {
        Some(v) => {
            let ghost before = parts@.map_values(|x: String| x@);
            parts.push(concat2("*", v.as_str()));
            assert(parts@.map_values(|x: String| x@) =~= before + seq!["*"@ + v@]);
        },
        None => {},
    }
    push_params(&mut parts, &args.kwonlyargs);
    match &args.kwarg {
        Some(k) => {
            let ghost before = parts@.map_values(|x: String| x@);
            parts.push(concat2("**", k.as_str()));
            assert(parts@.map_values(|x: String| x@) =~= before + seq!["**"@ + k@]);
        },
        None => {},
    }
    assert(parts@.map_values(|x: String| x@) =~= signature_parts(*args));
    let joined = join(&parts, ", ");
    let mut sig = concat3("def ", name, "(");
    push_str(&mut sig, joined.as_str());
    push_str(&mut sig, ")");
    match return_type {
        Some(ret) => {
            let t = expr_to_string(ret);
            push_str(&mut sig, " -> ");
            push_str(&mut sig, t.as_str());
        },
        None => {},
    }
    sig
}

// ---------------------------------------------------------------- calls

/// A call found in the code: the callee's name, the byte offset of the
/// call, and its style (`direct` or `method`).
pub type CallSite = (Seq<char>, usize, Seq<char>);

/// The name and style of a callee: a plain name is a direct call, an
/// attribute a method call; other callees are `?`.
pub open spec fn callee(func: Expr) -> (Seq<char>, Seq<char>) {
    match func.node {
        ExprKind::Name(n) => (n@, "direct"@),
        ExprKind::Attribute { attr, .. } => (attr@, "method"@),
        _ => ("?"@, "direct"@),
    }
}

/// The calls of an expression, in the order the indexer visits them: a
/// call, then the calls in its arguments and keyword values; otherwise the
/// calls of the sub-expressions, left to right.
pub open spec fn expr_calls(e: Expr) -> Seq<CallSite>
    decreases e, 0int,
{
    match e.node {
        ExprKind::Call { func, args, keywords } => seq![
            (callee(*func).0, e.start, callee(*func).1),
        ] + calls_prefix(args@, args@.len() as int) + calls_prefix(
            keywords@,
            keywords@.len() as int,
        ),
        ExprKind::Attribute { value, .. } => expr_calls(*value),
        ExprKind::BinOp { left, right, .. } => expr_calls(*left) + expr_calls(*right),
        ExprKind::UnaryOp { operand } => expr_calls(*operand),
        ExprKind::BoolOp { values } => calls_prefix(values@, values@.len() as int),
        ExprKind::Compare { left, comparators } => expr_calls(*left) + calls_prefix(
            comparators@,
            comparators@.len() as int,
        ),
        ExprKind::IfExp { test, body, orelse } => expr_calls(*test) + expr_calls(*body) + expr_calls(
            *orelse,
        ),
        ExprKind::Subscript { value, slice } => expr_calls(*value) + expr_calls(*slice),
        ExprKind::ListComp { elt } => expr_calls(*elt),
        ExprKind::Dict { keys, values } => dict_calls(
            e.node,
            if keys@.len() < values@.len() {
                keys@.len() as int
            } else {
                values@.len() as int
            },
        ),
        ExprKind::Starred { value } => expr_calls(*value),
        _ => Seq::empty(),
    }
}

/// The calls of the first `k` expressions of `v`.
pub open spec fn calls_prefix(v: Seq<Expr>, k: int) -> Seq<CallSite>
    decreases v, k,
{
    if k <= 0 || k > v.len() {
        Seq::empty()
    } else {
        calls_prefix(v, k - 1) + expr_calls(v[k - 1])
    }
}

/// The calls of the first `k` entries of a dictionary display: each key,
/// then its value.
pub open spec fn dict_calls(d: ExprKind, k: int) -> Seq<CallSite>
    decreases d, k,
{
    match d {
        ExprKind::Dict { keys, values } => if k <= 0 || k > keys@.len() || k > values@.len() {
            Seq::empty()
        } else {
            dict_calls(d, k - 1) + (match keys@[k - 1] {
                Some(x) => expr_calls(x),
                None => Seq::empty(),
            }) + expr_calls(values@[k - 1])
        },
        _ => Seq::empty(),
    }
}

/// The calls of a statement that a function body visit finds: in
/// expression statements, assigned values, returned values, and in the
/// tests and bodies of `if`, `for`, `while`, `with` and `try`.
pub open spec fn stmt_calls(s: Stmt) -> Seq<CallSite>
    decreases s, 0int,
{
    match s {
        Stmt::Expr(x) => expr_calls(x),
        Stmt::Assign { value, .. } => expr_calls(value),
        Stmt::Return(v) => match v {
            Some(x) => expr_calls(x),
            None => Seq::empty(),
        },
        Stmt::If { test, body, orelse } => expr_calls(test) + body_calls(body@, body@.len() as int)
            + body_calls(orelse@, orelse@.len() as int),
        Stmt::For { body } => body_calls(body@, body@.len() as int),
        Stmt::While { test, body } => expr_calls(test) + body_calls(body@, body@.len() as int),
        Stmt::With { body } => body_calls(body@, body@.len() as int),
        Stmt::Try { body, handlers, finalbody } => body_calls(body@, body@.len() as int)
            + handlers_calls(handlers@, handlers@.len() as int) + body_calls(
            finalbody@,
            finalbody@.len() as int,
        ),
        _ => Seq::empty(),
    }
}

/// The calls of the first `k` statements of a body.
pub open spec fn body_calls(v: Seq<Stmt>, k: int) -> Seq<CallSite>
    decreases v, k,
{
    if k <= 0 || k > v.len() {
        Seq::empty()
    } else {
        body_calls(v, k - 1) + stmt_calls(v[k - 1])
    }
}

/// The calls of the first `k` exception handlers.
pub open spec fn handlers_calls(hs: Seq<Vec<Stmt>>, k: int) -> Seq<CallSite>
    decreases hs, k,
{
    if k <= 0 || k > hs.len() {
        Seq::empty()
    } else {
        handlers_calls(hs, k - 1) + body_calls(hs[k - 1]@, hs[k - 1]@.len() as int)
    }
}

/// A pending edge that records call `c` from `caller`, located in `file`.
pub open spec fn is_call_pending(
    p: PendingEdge,
    caller: Seq<char>,
    c: CallSite,
    file: Seq<char>,
    source: Seq<char>,
) -> bool {
    &&& p.from@ == caller
    &&& p.to_name@ == c.0
    &&& p.kind == EdgeKind::Calls
    &&& p.location matches Some(l) && l.file@ == file && l.line == offset_line_spec(
        source,
        c.1 as int,
    )
    &&& p.call_style matches Some(st) && st@ == c.2
}

/// `after` is `before` followed by one pending call edge per call of
/// `calls`, in order.
pub open spec fn calls_recorded(
    before: Seq<PendingEdge>,
    after: Seq<PendingEdge>,
    caller: Seq<char>,
    calls: Seq<CallSite>,
    file: Seq<char>,
    source: Seq<char>,
) -> bool {
    &&& after.len() == before.len() + calls.len()
    &&& forall|j: int| 0 <= j < before.len() ==> after[j] == before[j]
    &&& forall|k: int|
        0 <= k < calls.len() ==> is_call_pending(
            #[trigger] after[before.len() + k],
            caller,
            calls[k],
            file,
            source,
        )
}

proof fn lemma_calls_recorded_trans(
    a: Seq<PendingEdge>,
    b: Seq<PendingEdge>,
    c: Seq<PendingEdge>,
    caller: Seq<char>,
    c1: Seq<CallSite>,
    c2: Seq<CallSite>,
    file: Seq<char>,
    source: Seq<char>,
)
    requires
        calls_recorded(a, b, caller, c1, file, source),
        calls_recorded(b, c, caller, c2, file, source),
    ensures
        calls_recorded(a, c, caller, c1 + c2, file, source),
{
    let cc = c1 + c2;
    assert forall|k: int| 0 <= k < cc.len() implies is_call_pending(
        #[trigger] c[a.len() + k],
        caller,
        cc[k],
        file,
        source,
    ) by {
        if k < c1.len() {
            assert(c[a.len() + k] == b[a.len() + k]);
        } else {
            assert(c[b.len() + (k - c1.len())] == c[a.len() + k]);
        }
    }
}

proof fn lemma_calls_recorded_refl(
    a: Seq<PendingEdge>,
    caller: Seq<char>,
    file: Seq<char>,
    source: Seq<char>,
)
    ensures
        calls_recorded(a, a, caller, Seq::empty(), file, source),
{
}

/// Each call of `calls` has a pending call edge from `caller` in `pend`.
#[verifier::opaque]
pub open spec fn calls_pending_in(
    pend: Seq<PendingEdge>,
    caller: Seq<char>,
    calls: Seq<CallSite>,
    file: Seq<char>,
    source: Seq<char>,
) -> bool {
    forall|k: int| 0 <= k < calls.len() ==> #[trigger] call_pending_at(pend, caller, calls[k], file, source)
}

/// Call `c` has a pending call edge from `caller` in `pend`.
pub open spec fn call_pending_at(pend: Seq<PendingEdge>, caller: Seq<char>, c: CallSite, file: Seq<char>, source: Seq<char>) -> bool {
    exists|j: int| 0 <= j < pend.len() && is_call_pending(#[trigger] pend[j], caller, c, file, source)
}

proof fn lemma_calls_pending_grow(
    p1: Seq<PendingEdge>,
    p2: Seq<PendingEdge>,
    caller: Seq<char>,
    calls: Seq<CallSite>,
    file: Seq<char>,
    source: Seq<char>,
)
    requires
        calls_pending_in(p1, caller, calls, file, source),
        p1.len() <= p2.len(),
        p2.take(p1.len() as int) == p1,
    ensures
        calls_pending_in(p2, caller, calls, file, source),
{
    reveal(calls_pending_in);
    assert forall|k: int| 0 <= k < calls.len() implies #[trigger] call_pending_at(p2, caller, calls[k], file, source) by {
        assert(call_pending_at(p1, caller, calls[k], file, source));
        let j = choose|j: int| 0 <= j < p1.len() && is_call_pending(#[trigger] p1[j], caller, calls[k], file, source);
        assert(p2.take(p1.len() as int)[j] == p2[j]);
    }
}

/// The frame of a call visit: only the pending edges change.
pub open spec fn pending_only(before: Builder, after: Builder) -> bool {
    &&& after.wf()
    &&& after.view_nodes() == before.view_nodes()
    &&& after.view_edges() == before.view_edges()
    &&& after.view_warnings() == before.view_warnings()
}

fn visit_exprs_calls(builder: &mut Builder, v: &Vec<Expr>, source: &str, file: &str, caller_id: &str)
    requires
        old(builder).wf(),
        source.spec_bytes().len() < usize::MAX,
        forall|i: int| 0 <= i < v@.len() ==> expr_ok(#[trigger] v@[i], source.spec_bytes()),
    ensures
        pending_only(*old(builder), *final(builder)),
        calls_recorded(
            old(builder).view_pending(),
            final(builder).view_pending(),
            caller_id@,
            calls_prefix(v@, v@.len() as int),
            file@,
            source@,
        ),
    decreases v@, v@.len(),
{
    let ghost b0 = *builder;
    let mut i: usize = 0;
    proof {
        lemma_calls_recorded_refl(b0.view_pending(), caller_id@, file@, source@);
    }
    while i < v.len()
        invariant
            i <= v@.len(),
            source.spec_bytes().len() < usize::MAX,
            forall|j: int| 0 <= j < v@.len() ==> expr_ok(#[trigger] v@[j], source.spec_bytes()),
            pending_only(b0, *builder),
            calls_recorded(
                b0.view_pending(),
                builder.view_pending(),
                caller_id@,
                calls_prefix(v@, i as int),
                file@,
                source@,
            ),
        decreases v@.len() - i,
    {
        let ghost mid = *builder;
        visit_expr_calls(builder, &v[i], source, file, caller_id);
        proof {
            lemma_calls_recorded_trans(
                b0.view_pending(),
                mid.view_pending(),
                builder.view_pending(),
                caller_id@,
                calls_prefix(v@, i as int),
                expr_calls(v@[i as int]),
                file@,
                source@,
            );
        }
        i = i + 1;
    }
}

/// Add a pending call edge from `caller_id` for every call in `e`.
fn visit_expr_calls(builder: &mut Builder, e: &Expr, source: &str, file: &str, caller_id: &str)
    requires
        old(builder).wf(),
        source.spec_bytes().len() < usize::MAX,
        expr_ok(*e, source.spec_bytes()),
    ensures
        pending_only(*old(builder), *final(builder)),
        calls_recorded(
            old(builder).view_pending(),
            final(builder).view_pending(),
            caller_id@,
            expr_calls(*e),
            file@,
            source@,
        ),
    decreases e, 0int,
{
    let ghost b0 = *builder;
    proof {
        lemma_calls_recorded_refl(b0.view_pending(), caller_id@, file@, source@);
        reveal_strlit("direct");
        reveal_strlit("method");
        reveal_strlit("?");
    }
    match &e.node {
        ExprKind::Call { func, args, keywords } => {
            let loc = location(file, source, e.start);
            match &func.node {
                ExprKind::Name(n) => {
                    builder.add_pending(caller_id, n.as_str(), EdgeKind::Calls, Some(loc), Some("direct"));
                },
                ExprKind::Attribute { attr, .. } => {
                    builder.add_pending(caller_id, attr.as_str(), EdgeKind::Calls, Some(loc), Some("method"));
                },
                _ => {
                    builder.add_pending(caller_id, "?", EdgeKind::Calls, Some(loc), Some("direct"));
                },
            }
            let ghost head = seq![(callee(**func).0, e.start, callee(**func).1)];
            assert(calls_recorded(b0.view_pending(), builder.view_pending(), caller_id@, head, file@, source@)) by {
                assert(builder.view_pending()[b0.view_pending().len() as int] == builder.view_pending().last());
            }
            let ghost b1 = *builder;
            visit_exprs_calls(builder, args, source, file, caller_id);
            proof {
                lemma_calls_recorded_trans(b0.view_pending(), b1.view_pending(), builder.view_pending(), caller_id@, head, calls_prefix(args@, args@.len() as int), file@, source@);
            }
            let ghost b2 = *builder;
            visit_exprs_calls(builder, keywords, source, file, caller_id);
            proof {
                lemma_calls_recorded_trans(b0.view_pending(), b2.view_pending(), builder.view_pending(), caller_id@, head + calls_prefix(args@, args@.len() as int), calls_prefix(keywords@, keywords@.len() as int), file@, source@);
            }
        },
        ExprKind::Attribute { value, .. } => {
            visit_expr_calls(builder, value, source, file, caller_id);
        },
        ExprKind::BinOp { left, right, .. } => {
            visit_expr_calls(builder, left, source, file, caller_id);
            let ghost b1 = *builder;
            visit_expr_calls(builder, right, source, file, caller_id);
            proof {
                lemma_calls_recorded_trans(b0.view_pending(), b1.view_pending(), builder.view_pending(), caller_id@, expr_calls(**left), expr_calls(**right), file@, source@);
            }
        },
        ExprKind::UnaryOp { operand } => {
            visit_expr_calls(builder, operand, source, file, caller_id);
        },
        ExprKind::BoolOp { values } => {
            visit_exprs_calls(builder, values, source, file, caller_id);
        },
        ExprKind::Compare { left, comparators } => {
            visit_expr_calls(builder, left, source, file, caller_id);
            let ghost b1 = *builder;
            visit_exprs_calls(builder, comparators, source, file, caller_id);
            proof {
                lemma_calls_recorded_trans(b0.view_pending(), b1.view_pending(), builder.view_pending(), caller_id@, expr_calls(**left), calls_prefix(comparators@, comparators@.len() as int), file@, source@);
            }
        },
        ExprKind::IfExp { test, body, orelse } => {
            visit_expr_calls(builder, test, source, file, caller_id);
            let ghost b1 = *builder;
            visit_expr_calls(builder, body, source, file, caller_id);
            proof {
                lemma_calls_recorded_trans(b0.view_pending(), b1.view_pending(), builder.view_pending(), caller_id@, expr_calls(**test), expr_calls(**body), file@, source@);
            }
            let ghost b2 = *builder;
            visit_expr_calls(builder, orelse, source, file, caller_id);
            proof {
                lemma_calls_recorded_trans(b0.view_pending(), b2.view_pending(), builder.view_pending(), caller_id@, expr_calls(**test) + expr_calls(**body), expr_calls(**orelse), file@, source@);
            }
        },
        ExprKind::Subscript { value, slice } => {
            visit_expr_calls(builder, value, source, file, caller_id);
            let ghost b1 = *builder;
            visit_expr_calls(builder, slice, source, file, caller_id);
            proof {
                lemma_calls_recorded_trans(b0.view_pending(), b1.view_pending(), builder.view_pending(), caller_id@, expr_calls(**value), expr_calls(**slice), file@, source@);
            }
        },
        ExprKind::ListComp { elt } => {
            visit_expr_calls(builder, elt, source, file, caller_id);
        },
        ExprKind::Dict { keys, values } => {
            let n: usize = if keys.len() < values.len() {
                keys.len()
            } else {
                values.len()
            };
            let mut i: usize = 0;
            while i < n
                invariant
                    e.node == (ExprKind::Dict { keys: *keys, values: *values }),
                    n <= keys@.len() && n <= values@.len(),
                    i <= n,
                    source.spec_bytes().len() < usize::MAX,
                    expr_ok(*e, source.spec_bytes()),
                    pending_only(b0, *builder),
                    calls_recorded(b0.view_pending(), builder.view_pending(), caller_id@, dict_calls(e.node, i as int), file@, source@),
                decreases n - i,
            {
                let ghost b1 = *builder;
                match &keys[i] {
                    Some(k) => {
                        visit_expr_calls(builder, k, source, file, caller_id);
                    },
                    None => {
                        proof {
                            lemma_calls_recorded_refl(b1.view_pending(), caller_id@, file@, source@);
                        }
                    },
                }
                let ghost kc = match keys@[i as int] {
                    Some(x) => expr_calls(x),
                    None => Seq::<CallSite>::empty(),
                };
                let ghost b2 = *builder;
                visit_expr_calls(builder, &values[i], source, file, caller_id);
                proof {
                    lemma_calls_recorded_trans(b0.view_pending(), b1.view_pending(), b2.view_pending(), caller_id@, dict_calls(e.node, i as int), kc, file@, source@);
                    lemma_calls_recorded_trans(b0.view_pending(), b2.view_pending(), builder.view_pending(), caller_id@, dict_calls(e.node, i as int) + kc, expr_calls(values@[i as int]), file@, source@);
                }
                i = i + 1;
            }
        },
        ExprKind::Starred { value } => {
            visit_expr_calls(builder, value, source, file, caller_id);
        },
        _ => {},
    }
}

/// Add a pending call edge from `caller_id` for every call that a visit
/// of the function body `body` finds.
fn visit_body_calls(builder: &mut Builder, body: &Vec<Stmt>, source: &str, file: &str, caller_id: &str)
    requires
        old(builder).wf(),
        source.spec_bytes().len() < usize::MAX,
        body_ok(body@, source.spec_bytes()),
    ensures
        pending_only(*old(builder), *final(builder)),
        calls_recorded(
            old(builder).view_pending(),
            final(builder).view_pending(),
            caller_id@,
            body_calls(body@, body@.len() as int),
            file@,
            source@,
        ),
    decreases body@, body@.len(),
{
    let ghost b0 = *builder;
    let mut i: usize = 0;
    proof {
        lemma_calls_recorded_refl(b0.view_pending(), caller_id@, file@, source@);
    }
    while i < body.len()
        invariant
            i <= body@.len(),
            source.spec_bytes().len() < usize::MAX,
            body_ok(body@, source.spec_bytes()),
            pending_only(b0, *builder),
            calls_recorded(
                b0.view_pending(),
                builder.view_pending(),
                caller_id@,
                body_calls(body@, i as int),
                file@,
                source@,
            ),
        decreases body@.len() - i,
    {
        let ghost mid = *builder;
        visit_stmt_calls(builder, &body[i], source, file, caller_id);
        proof {
            lemma_calls_recorded_trans(
                b0.view_pending(),
                mid.view_pending(),
                builder.view_pending(),
                caller_id@,
                body_calls(body@, i as int),
                stmt_calls(body@[i as int]),
                file@,
                source@,
            );
        }
        i = i + 1;
    }
}

fn visit_stmt_calls(builder: &mut Builder, s: &Stmt, source: &str, file: &str, caller_id: &str)
    requires
        old(builder).wf(),
        source.spec_bytes().len() < usize::MAX,
        stmt_ok(*s, source.spec_bytes()),
    ensures
        pending_only(*old(builder), *final(builder)),
        calls_recorded(
            old(builder).view_pending(),
            final(builder).view_pending(),
            caller_id@,
            stmt_calls(*s),
            file@,
            source@,
        ),
    decreases s, 0int,
{
    let ghost b0 = *builder;
    proof {
        lemma_calls_recorded_refl(b0.view_pending(), caller_id@, file@, source@);
    }
    match s {
        Stmt::Expr(x) => {
            visit_expr_calls(builder, x, source, file, caller_id);
        },
        Stmt::Assign { value, .. } => {
            visit_expr_calls(builder, value, source, file, caller_id);
        },
        Stmt::Return(v) => {
            match v {
                Some(x) => {
                    visit_expr_calls(builder, x, source, file, caller_id);
                },
                None => {},
            }
        },
        Stmt::If { test, body, orelse } => {
            visit_expr_calls(builder, test, source, file, caller_id);
            let ghost b1 = *builder;
            visit_body_calls(builder, body, source, file, caller_id);
            proof {
                lemma_calls_recorded_trans(b0.view_pending(), b1.view_pending(), builder.view_pending(), caller_id@, expr_calls(*test), body_calls(body@, body@.len() as int), file@, source@);
            }
            let ghost b2 = *builder;
            visit_body_calls(builder, orelse, source, file, caller_id);
            proof {
                lemma_calls_recorded_trans(b0.view_pending(), b2.view_pending(), builder.view_pending(), caller_id@, expr_calls(*test) + body_calls(body@, body@.len() as int), body_calls(orelse@, orelse@.len() as int), file@, source@);
            }
        },
        Stmt::For { body } => {
            visit_body_calls(builder, body, source, file, caller_id);
        },
        Stmt::While { test, body } => {
            visit_expr_calls(builder, test, source, file, caller_id);
            let ghost b1 = *builder;
            visit_body_calls(builder, body, source, file, caller_id);
            proof {
                lemma_calls_recorded_trans(b0.view_pending(), b1.view_pending(), builder.view_pending(), caller_id@, expr_calls(*test), body_calls(body@, body@.len() as int), file@, source@);
            }
        },
        Stmt::With { body } => {
            visit_body_calls(builder, body, source, file, caller_id);
        },
        Stmt::Try { body, handlers, finalbody } => {
            visit_body_calls(builder, body, source, file, caller_id);
            let ghost b1 = *builder;
            let mut j: usize = 0;
            proof {
                lemma_calls_recorded_refl(b1.view_pending(), caller_id@, file@, source@);
            }
            assert(forall|jj: int, i: int|
                0 <= jj < handlers@.len() && 0 <= i < handlers@[jj]@.len() ==> stmt_ok(
                    #[trigger] handlers@[jj]@[i],
                    source.spec_bytes(),
                ));
            while j < handlers.len()
                invariant
                    *s == (Stmt::Try { body: *body, handlers: *handlers, finalbody: *finalbody }),
                    j <= handlers@.len(),
                    source.spec_bytes().len() < usize::MAX,
                    forall|jj: int, i: int|
                        0 <= jj < handlers@.len() && 0 <= i < handlers@[jj]@.len() ==> stmt_ok(
                            #[trigger] handlers@[jj]@[i],
                            source.spec_bytes(),
                        ),
                    pending_only(b1, *builder),
                    calls_recorded(b1.view_pending(), builder.view_pending(), caller_id@, handlers_calls(handlers@, j as int), file@, source@),
                decreases handlers@.len() - j,
            {
                let ghost mid = *builder;
                assert(body_ok(handlers@[j as int]@, source.spec_bytes())) by {
                    assert forall|i: int| 0 <= i < handlers@[j as int]@.len() implies stmt_ok(
                        #[trigger] handlers@[j as int]@[i],
                        source.spec_bytes(),
                    ) by {
                    }
                }
                proof {
                    let hj = handlers@[j as int];
                    assert(decreases_to!(*s => (*s)->handlers));
                    assert((*s)->handlers == *handlers);
                    assert(decreases_to!(*handlers => handlers@));
                    assert(decreases_to!(handlers@ => hj));
                    assert(decreases_to!(hj => hj@));
                    assert(decreases_to!(*s => hj@));
                }
                visit_body_calls(builder, &handlers[j], source, file, caller_id);
                proof {
                    lemma_calls_recorded_trans(b1.view_pending(), mid.view_pending(), builder.view_pending(), caller_id@, handlers_calls(handlers@, j as int), body_calls(handlers@[j as int]@, handlers@[j as int]@.len() as int), file@, source@);
                }
                j = j + 1;
            }
            proof {
                lemma_calls_recorded_trans(b0.view_pending(), b1.view_pending(), builder.view_pending(), caller_id@, body_calls(body@, body@.len() as int), handlers_calls(handlers@, handlers@.len() as int), file@, source@);
            }
            let ghost b2 = *builder;
            visit_body_calls(builder, finalbody, source, file, caller_id);
            proof {
                lemma_calls_recorded_trans(b0.view_pending(), b2.view_pending(), builder.view_pending(), caller_id@, body_calls(body@, body@.len() as int) + handlers_calls(handlers@, handlers@.len() as int), body_calls(finalbody@, finalbody@.len() as int), file@, source@);
            }
        },
        _ => {},
    }
}

// ---------------------------------------------------------------- declarations

/// The number of the first `k` decorators that have a name.
pub open spec fn named_decorators(decs: Seq<Expr>, k: int) -> nat
    decreases k,
{
    if k <= 0 || k > decs.len() {
        0
    } else {
        named_decorators(decs, k - 1) + if extract_name_spec(decs[k - 1]) is Some {
            1nat
        } else {
            0nat
        }
    }
}

/// The number of the first `k` assignment targets that are plain names.
pub open spec fn name_targets(ts: Seq<Expr>, k: int) -> nat
    decreases k,
{
    if k <= 0 || k > ts.len() {
        0
    } else {
        name_targets(ts, k - 1) + if ts[k - 1].node is Name {
            1nat
        } else {
            0nat
        }
    }
}

/// The nodes a statement of a class body declares: a method for a `def`,
/// a field per named target of an assignment.
pub open spec fn member_nodes(s: Stmt) -> nat {
    match s {
        Stmt::FunctionDef(_) => 1,
        Stmt::Assign { targets, .. } => name_targets(targets@, targets@.len() as int),
        Stmt::AnnAssign { target, .. } => if target.node is Name {
            1
        } else {
            0
        },
        _ => 0,
    }
}

/// The nodes the first `k` statements of a class body declare.
pub open spec fn class_members(body: Seq<Stmt>, k: int) -> nat
    decreases k,
{
    if k <= 0 || k > body.len() {
        0
    } else {
        class_members(body, k - 1) + member_nodes(body[k - 1])
    }
}

/// The nodes a module-level statement declares: a function with its named
/// decorators, a class with its members, one import per imported name, a
/// variable per named assignment target.
pub open spec fn stmt_nodes(s: Stmt) -> nat {
    match s {
        Stmt::FunctionDef(fd) => 1 + named_decorators(fd.decorators@, fd.decorators@.len() as int),
        Stmt::AsyncFunctionDef(fd) => 1 + named_decorators(
            fd.decorators@,
            fd.decorators@.len() as int,
        ),
        Stmt::ClassDef(cd) => 1 + class_members(cd.body@, cd.body@.len() as int),
        Stmt::Import { names, .. } => names@.len(),
        Stmt::ImportFrom { names, .. } => names@.len(),
        Stmt::Assign { targets, .. } => name_targets(targets@, targets@.len() as int),
        Stmt::AnnAssign { target, .. } => if target.node is Name {
            1
        } else {
            0
        },
        _ => 0,
    }
}

/// The nodes the first `k` statements of a module declare.
pub open spec fn module_nodes(body: Seq<Stmt>, k: int) -> nat
    decreases k,
{
    if k <= 0 || k > body.len() {
        0
    } else {
        module_nodes(body, k - 1) + stmt_nodes(body[k - 1])
    }
}

/// `after` is `before` with `n` more nodes and `e` more edges appended,
/// pending edges appended, and the same warnings.
pub open spec fn grown(before: Builder, after: Builder, n: nat, e: nat) -> bool {
    &&& after.wf()
    &&& after.view_nodes().len() == before.view_nodes().len() + n
    &&& after.view_nodes().take(before.view_nodes().len() as int) == before.view_nodes()
    &&& after.view_edges().len() == before.view_edges().len() + e
    &&& after.view_edges().take(before.view_edges().len() as int) == before.view_edges()
    &&& after.view_pending().len() >= before.view_pending().len()
    &&& after.view_pending().take(before.view_pending().len() as int) == before.view_pending()
    &&& after.view_warnings() == before.view_warnings()
}

proof fn lemma_grown_trans(a: Builder, b: Builder, c: Builder, n1: nat, e1: nat, n2: nat, e2: nat)
    requires
        grown(a, b, n1, e1),
        grown(b, c, n2, e2),
    ensures
        grown(a, c, n1 + n2, e1 + e2),
{
    assert(c.view_nodes().take(a.view_nodes().len() as int) =~= c.view_nodes().take(
        b.view_nodes().len() as int,
    ).take(a.view_nodes().len() as int));
    assert(c.view_edges().take(a.view_edges().len() as int) =~= c.view_edges().take(
        b.view_edges().len() as int,
    ).take(a.view_edges().len() as int));
    assert(c.view_pending().take(a.view_pending().len() as int) =~= c.view_pending().take(
        b.view_pending().len() as int,
    ).take(a.view_pending().len() as int));
}

proof fn lemma_grown_refl(a: Builder)
    requires
        a.wf(),
    ensures
        grown(a, a, 0, 0),
{
    assert(a.view_nodes().take(a.view_nodes().len() as int) =~= a.view_nodes());
    assert(a.view_edges().take(a.view_edges().len() as int) =~= a.view_edges());
    assert(a.view_pending().take(a.view_pending().len() as int) =~= a.view_pending());
}

proof fn lemma_calls_grown(
    a: Builder,
    b: Builder,
    caller: Seq<char>,
    calls: Seq<CallSite>,
    file: Seq<char>,
    source: Seq<char>,
)
    requires
        a.wf(),
        pending_only(a, b),
        calls_recorded(a.view_pending(), b.view_pending(), caller, calls, file, source),
    ensures
        grown(a, b, 0, 0),
{
    lemma_grown_refl(a);
    assert(b.view_pending().take(a.view_pending().len() as int) =~= a.view_pending());
}

fn opt_str(o: &Option<String>) -> (r: Option<&str>)
    ensures
        match r {
            Some(x) => o is Some && x@ == o->0@,
            None => o is None,
        },
{
    match o {
        Some(x) => Some(x.as_str()),
        None => None,
    }
}

/// Add a node of `file` and return its id.
fn add_decl(
    builder: &mut Builder,
    kind: NodeKind,
    name: &str,
    qname: &str,
    file: &str,
    start_line: usize,
    end_line: usize,
    vis: &Option<String>,
    sig: Option<&str>,
    docs: &Option<String>,
) -> (id: String)
    requires
        old(builder).wf(),
        old(builder).view_nodes().len() < usize::MAX,
    ensures
        grown(*old(builder), *final(builder), 1, 0),
        final(builder).view_pending() == old(builder).view_pending(),
        ({
            let n = final(builder).view_nodes().last();
            &&& n.id@ == id@
            &&& n.kind == kind
            &&& n.name@ == name@
            &&& n.qualified_name@ == qname@
            &&& opt_view(n.file) == Some(file@)
            &&& opt_view(n.signature) == (match sig {
                Some(x) => Some(x@),
                None => None,
            })
            &&& opt_view(n.docs) == opt_view(*docs)
        }),
{
    let ghost b0 = *builder;
    let id = builder.add_node(
        kind,
        name,
        qname,
        Some(file),
        start_line,
        end_line,
        opt_str(vis),
        sig,
        opt_str(docs),
    );
    proof {
        assert(builder.view_nodes().take(b0.view_nodes().len() as int) =~= b0.view_nodes());
        assert(builder.view_edges().take(b0.view_edges().len() as int) =~= b0.view_edges());
        assert(builder.view_pending().take(b0.view_pending().len() as int) =~= b0.view_pending());
    }
    id
}

/// Add an edge from `from` to `to`.
fn link(builder: &mut Builder, from: &str, to: &str, kind: EdgeKind)
    requires
        old(builder).wf(),
    ensures
        grown(*old(builder), *final(builder), 0, 1),
        final(builder).view_pending() == old(builder).view_pending(),
        ({
            let e = final(builder).view_edges().last();
            &&& e.from@ == from@
            &&& e.to@ == to@
            &&& e.kind == kind
        }),
{
    let ghost b0 = *builder;
    builder.edge(from, to, kind, None, None, None);
    proof {
        assert(builder.view_nodes().take(b0.view_nodes().len() as int) =~= b0.view_nodes());
        assert(builder.view_edges().take(b0.view_edges().len() as int) =~= b0.view_edges());
        assert(builder.view_pending().take(b0.view_pending().len() as int) =~= b0.view_pending());
    }
}

/// Register a pending edge from `from` to the symbol named `to_name`.
fn pend(builder: &mut Builder, from: &str, to_name: &str, kind: EdgeKind, loc: Location)
    requires
        old(builder).wf(),
    ensures
        grown(*old(builder), *final(builder), 0, 0),
        final(builder).view_pending().len() == old(builder).view_pending().len() + 1,
        ({
            let p = final(builder).view_pending().last();
            &&& p.from@ == from@
            &&& p.to_name@ == to_name@
            &&& p.kind == kind
            &&& p.location == Some(loc)
            &&& p.call_style is None
        }),
{
    let ghost b0 = *builder;
    builder.add_pending(from, to_name, kind, Some(loc), None);
    proof {
        assert(builder.view_nodes().take(b0.view_nodes().len() as int) =~= b0.view_nodes());
        assert(builder.view_edges().take(b0.view_edges().len() as int) =~= b0.view_edges());
        assert(builder.view_pending().take(b0.view_pending().len() as int) =~= b0.view_pending());
    }
}

/// Add a decorator node, declared by `target_id`, for each decorator that
/// has a name; its qualified name is `parent_qname.@name`.
fn visit_decorators(
    builder: &mut Builder,
    decs: &Vec<Expr>,
    source: &str,
    file: &str,
    parent_qname: &str,
    target_id: &str,
)
    requires
        old(builder).wf(),
        source.spec_bytes().len() < usize::MAX,
        forall|i: int| 0 <= i < decs@.len() ==> expr_ok(#[trigger] decs@[i], source.spec_bytes()),
        old(builder).view_nodes().len() + named_decorators(decs@, decs@.len() as int) <= usize::MAX,
    ensures
        grown(
            *old(builder),
            *final(builder),
            named_decorators(decs@, decs@.len() as int),
            named_decorators(decs@, decs@.len() as int),
        ),
        final(builder).view_pending() == old(builder).view_pending(),
{
    let ghost b0 = *builder;
    proof {
        lemma_grown_refl(b0);
        lemma_named_decorators_mono(decs@, 0, decs@.len() as int);
    }
    let mut i: usize = 0;
    while i < decs.len()
        invariant
            i <= decs@.len(),
            source.spec_bytes().len() < usize::MAX,
            forall|j: int| 0 <= j < decs@.len() ==> expr_ok(#[trigger] decs@[j], source.spec_bytes()),
            b0.view_nodes().len() + named_decorators(decs@, decs@.len() as int) <= usize::MAX,
            grown(b0, *builder, named_decorators(decs@, i as int), named_decorators(decs@, i as int)),
            builder.view_pending() == b0.view_pending(),
        decreases decs@.len() - i,
    {
        proof {
            lemma_named_decorators_mono(decs@, i + 1, decs@.len() as int);
        }
        let ghost mid = *builder;
        match extract_name(&decs[i]) {
            Some(dec_name) => {
                let qname = concat3(parent_qname, ".@", dec_name.as_str());
                let line = offset_line(source, decs[i].start);
                let id = add_decl(
                    builder,
                    NodeKind::Decorator,
                    dec_name.as_str(),
                    qname.as_str(),
                    file,
                    line,
                    line,
                    &None,
                    None,
                    &None,
                );
                let ghost m2 = *builder;
                link(builder, target_id, id.as_str(), EdgeKind::Declares);
                proof {
                    lemma_grown_trans(mid, m2, *builder, 1, 0, 0, 1);
                    lemma_grown_trans(b0, mid, *builder, named_decorators(decs@, i as int), named_decorators(decs@, i as int), 1, 1);
                }
            },
            None => {},
        }
        i = i + 1;
    }
}

pub(crate) proof fn lemma_named_decorators_mono(decs: Seq<Expr>, i: int, j: int)
    requires
        0 <= i <= j <= decs.len(),
    ensures
        named_decorators(decs, i) <= named_decorators(decs, j),
    decreases j - i,
{
    if i < j {
        lemma_named_decorators_mono(decs, i, j - 1);
    }
}

/// The kind of a method: given by its first decorator that is the plain
/// name `classmethod`, `staticmethod` or `property` (from decorator `i`
/// on); otherwise a plain method.
pub open spec fn method_kind_from(decs: Seq<Expr>, i: int) -> NodeKind
    decreases decs.len() - i,
{
    if i < 0 || i >= decs.len() {
        NodeKind::Method
    } else {
        match decs[i].node {
            ExprKind::Name(n) => if n@ == "classmethod"@ {
                NodeKind::ClassMethod
            } else if n@ == "staticmethod"@ {
                NodeKind::StaticMethod
            } else if n@ == "property"@ {
                NodeKind::Property
            } else {
                method_kind_from(decs, i + 1)
            },
            _ => method_kind_from(decs, i + 1),
        }
    }
}

fn classify_method(fd: &FunctionDef) -> (k: NodeKind)
    ensures
        k == method_kind_from(fd.decorators@, 0),
{
    let mut i: usize = 0;
    while i < fd.decorators.len()
        invariant
            i <= fd.decorators@.len(),
            method_kind_from(fd.decorators@, 0) == method_kind_from(fd.decorators@, i as int),
        decreases fd.decorators@.len() - i,
    {
        match &fd.decorators[i].node {
            ExprKind::Name(n) => {
                proof {
                    reveal_strlit("classmethod");
                    reveal_strlit("staticmethod");
                    reveal_strlit("property");
                }
                if str_eq(n.as_str(), "classmethod") {
                    return NodeKind::ClassMethod;
                } else if str_eq(n.as_str(), "staticmethod") {
                    return NodeKind::StaticMethod;
                } else if str_eq(n.as_str(), "property") {
                    return NodeKind::Property;
                }
            },
            _ => {},
        }
        i = i + 1;
    }
    NodeKind::Method
}

/// Whether a function definition's offsets can be used with `b`.
pub open spec fn def_ok(fd: FunctionDef, b: Seq<u8>) -> bool {
    &&& offset_ok(b, fd.start)
    &&& forall|i: int| 0 <= i < fd.decorators@.len() ==> expr_ok(#[trigger] fd.decorators@[i], b)
    &&& forall|i: int| 0 <= i < fd.body@.len() ==> stmt_ok(#[trigger] fd.body@[i], b)
}

/// The node a function definition declares: its kind, name, qualified
/// name under `parent`, signature and docstring.
pub open spec fn is_def_node(n: Node, fd: FunctionDef, kind: NodeKind, parent: Seq<char>) -> bool {
    &&& n.kind == kind
    &&& n.name@ == fd.name@
    &&& n.qualified_name@ == parent + "."@ + fd.name@
    &&& opt_view(n.signature) == Some(signature_text(fd.name@, fd.args, fd.return_type))
    &&& opt_view(n.docs) == crate::analyzer::helpers::docstring_spec(fd.body@)
}

/// Add the node of a function definition, an edge `edge_kind` to it from
/// `parent_id`, and its calls; with `with_decorators`, also its named
/// decorators. Returns the node's id.
fn visit_def(
    builder: &mut Builder,
    fd: &FunctionDef,
    kind: NodeKind,
    source: &str,
    file: &str,
    parent_qname: &str,
    parent_id: &str,
    edge_kind: EdgeKind,
    with_decorators: bool,
) -> (id: String)
    requires
        old(builder).wf(),
        source.spec_bytes().len() < usize::MAX,
        def_ok(*fd, source.spec_bytes()),
        old(builder).view_nodes().len() + 1 + (if with_decorators {
            named_decorators(fd.decorators@, fd.decorators@.len() as int)
        } else {
            0
        }) <= usize::MAX,
    ensures
        ({
            let nd = if with_decorators {
                named_decorators(fd.decorators@, fd.decorators@.len() as int)
            } else {
                0
            };
            &&& grown(*old(builder), *final(builder), 1 + nd, 1 + nd)
            &&& is_def_node(
                final(builder).view_nodes()[old(builder).view_nodes().len() as int],
                *fd,
                kind,
                parent_qname@,
            )
            &&& final(builder).view_nodes()[old(builder).view_nodes().len() as int].id@ == id@
            &&& calls_pending_in(final(builder).view_pending(), id@, body_calls(fd.body@, fd.body@.len() as int), file@, source@)
        }),
{
    let ghost b0 = *builder;
    proof {
        reveal_strlit(".");
    }
    let name = fd.name.as_str();
    let qname = concat3(parent_qname, ".", name);
    let sig = build_signature(name, &fd.args, &fd.return_type);
    let docs = docstring(fd.body.as_slice());
    let vis = visibility(name);
    let start_line = offset_line(source, fd.start);
    let end_line = find_block_end(source, start_line);
    let id = add_decl(
        builder,
        kind,
        name,
        qname.as_str(),
        file,
        start_line,
        end_line,
        &vis,
        Some(sig.as_str()),
        &docs,
    );
    let ghost b1 = *builder;
    assert(b1.view_nodes()[b0.view_nodes().len() as int] == b1.view_nodes().last());
    link(builder, parent_id, id.as_str(), edge_kind);
    let ghost b2 = *builder;
    visit_body_calls(builder, &fd.body, source, file, id.as_str());
    proof {
        let calls = body_calls(fd.body@, fd.body@.len() as int);
        let p2 = b2.view_pending();
        let p3 = builder.view_pending();
        assert(calls_pending_in(p3, id@, calls, file@, source@)) by {
            reveal(calls_pending_in);
            assert forall|k: int| 0 <= k < calls.len() implies #[trigger] call_pending_at(p3, id@, calls[k], file@, source@) by {
                assert(is_call_pending(p3[p2.len() + k], id@, calls[k], file@, source@));
            }
        }
    }
    proof {
        lemma_calls_grown(
            b2,
            *builder,
            id@,
            body_calls(fd.body@, fd.body@.len() as int),
            file@,
            source@,
        );
        lemma_grown_trans(b0, b1, b2, 1, 0, 0, 1);
        lemma_grown_trans(b0, b2, *builder, 1, 1, 0, 0);
    }
    if with_decorators {
        let ghost b3 = *builder;
        visit_decorators(builder, &fd.decorators, source, file, qname.as_str(), id.as_str());
        assert(builder.view_pending() == b3.view_pending());
        proof {
            let nd = named_decorators(fd.decorators@, fd.decorators@.len() as int);
            lemma_grown_trans(b0, b3, *builder, 1, 1, nd, nd);
        }
    }
    proof {
        assert(builder.view_nodes()[b0.view_nodes().len() as int] == builder.view_nodes().take(
            b1.view_nodes().len() as int,
        )[b0.view_nodes().len() as int]);
    }
    id
}

/// Add a node of kind `kind` for each assignment target that is a plain
/// name, qualified under `parent_qname`, with an edge `edge_kind` from
/// `parent_id`.
fn visit_targets(
    builder: &mut Builder,
    targets: &Vec<Expr>,
    start: usize,
    kind: NodeKind,
    edge_kind: EdgeKind,
    source: &str,
    file: &str,
    parent_qname: &str,
    parent_id: &str,
)
    requires
        old(builder).wf(),
        source.spec_bytes().len() < usize::MAX,
        offset_ok(source.spec_bytes(), start),
        old(builder).view_nodes().len() + name_targets(targets@, targets@.len() as int) <= usize::MAX,
    ensures
        grown(
            *old(builder),
            *final(builder),
            name_targets(targets@, targets@.len() as int),
            name_targets(targets@, targets@.len() as int),
        ),
        final(builder).view_pending() == old(builder).view_pending(),
{
    let ghost b0 = *builder;
    proof {
        lemma_grown_refl(b0);
        lemma_name_targets_mono(targets@, 0, targets@.len() as int);
        reveal_strlit(".");
    }
    let mut i: usize = 0;
    while i < targets.len()
        invariant
            i <= targets@.len(),
            source.spec_bytes().len() < usize::MAX,
            offset_ok(source.spec_bytes(), start),
            b0.view_nodes().len() + name_targets(targets@, targets@.len() as int) <= usize::MAX,
            grown(b0, *builder, name_targets(targets@, i as int), name_targets(targets@, i as int)),
            builder.view_pending() == b0.view_pending(),
        decreases targets@.len() - i,
    {
        proof {
            lemma_name_targets_mono(targets@, i + 1, targets@.len() as int);
        }
        let ghost mid = *builder;
        match &targets[i].node {
            ExprKind::Name(n) => {
                let qname = concat3(parent_qname, ".", n.as_str());
                let line = offset_line(source, start);
                let vis = visibility(n.as_str());
                let id = add_decl(
                    builder,
                    kind,
                    n.as_str(),
                    qname.as_str(),
                    file,
                    line,
                    line,
                    &vis,
                    None,
                    &None,
                );
                let ghost m2 = *builder;
                link(builder, parent_id, id.as_str(), edge_kind);
                proof {
                    lemma_grown_trans(mid, m2, *builder, 1, 0, 0, 1);
                    lemma_grown_trans(b0, mid, *builder, name_targets(targets@, i as int), name_targets(targets@, i as int), 1, 1);
                }
            },
            _ => {},
        }
        i = i + 1;
    }
}

pub(crate) proof fn lemma_name_targets_mono(ts: Seq<Expr>, i: int, j: int)
    requires
        0 <= i <= j <= ts.len(),
    ensures
        name_targets(ts, i) <= name_targets(ts, j),
    decreases j - i,
{
    if i < j {
        lemma_name_targets_mono(ts, i, j - 1);
    }
}

/// The name an import binds: its alias, or the imported name.
pub open spec fn import_name(a: Alias) -> Seq<char> {
    match a.asname {
        Some(x) => x@,
        None => a.name@,
    }
}

/// The dotted name an import refers to: `module.name`, or the name alone
/// when there is no module.
pub open spec fn full_import(module: Option<String>, a: Alias) -> Seq<char> {
    match module {
        Some(m) => if m@.len() > 0 {
            m@ + "."@ + a.name@
        } else {
            a.name@
        },
        None => a.name@,
    }
}

/// Add an import node per imported name (qualified as
/// `parent_qname.import.name`), declared by the module, with a pending
/// import edge to the full dotted name.
fn visit_import(
    builder: &mut Builder,
    module: &Option<String>,
    names: &Vec<Alias>,
    start: usize,
    source: &str,
    file: &str,
    parent_qname: &str,
    module_id: &str,
)
    requires
        old(builder).wf(),
        source.spec_bytes().len() < usize::MAX,
        offset_ok(source.spec_bytes(), start),
        old(builder).view_nodes().len() + names@.len() <= usize::MAX,
    ensures
        grown(*old(builder), *final(builder), names@.len(), names@.len()),
        final(builder).view_pending().len() == old(builder).view_pending().len() + names@.len(),
        forall|k: int|
            0 <= k < names@.len() ==> {
                let n = #[trigger] final(builder).view_nodes()[old(builder).view_nodes().len() + k];
                &&& n.kind == NodeKind::Import
                &&& n.name@ == import_name(names@[k])
                &&& n.qualified_name@ == parent_qname@ + ".import."@ + import_name(names@[k])
            },
        forall|k: int|
            0 <= k < names@.len() ==> {
                let p = #[trigger] final(builder).view_pending()[old(builder).view_pending().len() + k];
                &&& p.kind == EdgeKind::Imports
                &&& p.to_name@ == full_import(*module, names@[k])
            },
{
    let ghost b0 = *builder;
    let ghost n0 = b0.view_nodes().len();
    let ghost p0 = b0.view_pending().len();
    proof {
        lemma_grown_refl(b0);
        reveal_strlit(".");
        reveal_strlit(".import.");
        reveal_strlit("");
    }
    let prefix: &str = match module {
        Some(m) => m.as_str(),
        None => "",
    };
    let mut i: usize = 0;
    while i < names.len()
        invariant
            i <= names@.len(),
            source.spec_bytes().len() < usize::MAX,
            offset_ok(source.spec_bytes(), start),
            n0 == b0.view_nodes().len(),
            p0 == b0.view_pending().len(),
            n0 + names@.len() <= usize::MAX,
            prefix@ == (match *module {
                Some(m) => m@,
                None => Seq::<char>::empty(),
            }),
            grown(b0, *builder, i as nat, i as nat),
            builder.view_pending().len() == p0 + i,
            forall|k: int|
                0 <= k < i ==> {
                    let n = #[trigger] builder.view_nodes()[n0 + k];
                    &&& n.kind == NodeKind::Import
                    &&& n.name@ == import_name(names@[k])
                    &&& n.qualified_name@ == parent_qname@ + ".import."@ + import_name(names@[k])
                },
            forall|k: int|
                0 <= k < i ==> {
                    let p = #[trigger] builder.view_pending()[p0 + k];
                    &&& p.kind == EdgeKind::Imports
                    &&& p.to_name@ == full_import(*module, names@[k])
                },
        decreases names@.len() - i,
    {
        let alias = &names[i];
        let bound: &str = match &alias.asname {
            Some(a) => a.as_str(),
            None => alias.name.as_str(),
        };
        let full = if prefix.unicode_len() == 0 {
            owned(alias.name.as_str())
        } else {
            concat3(prefix, ".", alias.name.as_str())
        };
        let qname = concat3(parent_qname, ".import.", bound);
        let line = offset_line(source, start);
        let ghost mid = *builder;
        let id = add_decl(builder, NodeKind::Import, bound, qname.as_str(), file, line, line, &None, None, &None);
        let ghost m2 = *builder;
        link(builder, module_id, id.as_str(), EdgeKind::Declares);
        let ghost m3 = *builder;
        let loc = location(file, source, start);
        pend(builder, id.as_str(), full.as_str(), EdgeKind::Imports, loc);
        proof {
            lemma_grown_trans(mid, m2, m3, 1, 0, 0, 1);
            lemma_grown_trans(mid, m3, *builder, 1, 1, 0, 0);
            lemma_grown_trans(b0, mid, *builder, i as nat, i as nat, 1, 1);
            assert forall|k: int| 0 <= k < i + 1 implies {
                let n = #[trigger] builder.view_nodes()[n0 + k];
                &&& n.kind == NodeKind::Import
                &&& n.name@ == import_name(names@[k])
                &&& n.qualified_name@ == parent_qname@ + ".import."@ + import_name(names@[k])
            } by {
                if k < i {
                    assert(builder.view_nodes()[n0 + k] == builder.view_nodes().take(
                        mid.view_nodes().len() as int,
                    )[n0 + k]);
                    assert(mid.view_nodes()[n0 + k] == builder.view_nodes()[n0 + k]);
                } else {
                    assert(builder.view_nodes()[n0 + k] == builder.view_nodes().take(
                        m2.view_nodes().len() as int,
                    )[n0 + k]);
                }
            }
            assert forall|k: int| 0 <= k < i + 1 implies {
                let p = #[trigger] builder.view_pending()[p0 + k];
                &&& p.kind == EdgeKind::Imports
                &&& p.to_name@ == full_import(*module, names@[k])
            } by {
                if k < i {
                    assert(builder.view_pending()[p0 + k] == builder.view_pending().take(
                        m3.view_pending().len() as int,
                    )[p0 + k]);
                    assert(m3.view_pending() == mid.view_pending());
                }
            }
        }
        i = i + 1;
    }
}

/// Add a node of kind `kind` for an annotated assignment whose target is a
/// plain name, with an edge `edge_kind` from `parent_id`.
fn visit_ann_target(
    builder: &mut Builder,
    target: &Expr,
    start: usize,
    kind: NodeKind,
    edge_kind: EdgeKind,
    source: &str,
    file: &str,
    parent_qname: &str,
    parent_id: &str,
)
    requires
        old(builder).wf(),
        source.spec_bytes().len() < usize::MAX,
        offset_ok(source.spec_bytes(), start),
        old(builder).view_nodes().len() + (if target.node is Name {
            1int
        } else {
            0int
        }) <= usize::MAX,
    ensures
        ({
            let k: nat = if target.node is Name {
                1
            } else {
                0
            };
            &&& grown(*old(builder), *final(builder), k, k)
            &&& final(builder).view_pending() == old(builder).view_pending()
        }),
{
    let ghost b0 = *builder;
    proof {
        lemma_grown_refl(b0);
        reveal_strlit(".");
    }
    match &target.node {
        ExprKind::Name(n) => {
            let qname = concat3(parent_qname, ".", n.as_str());
            let line = offset_line(source, start);
            let vis = visibility(n.as_str());
            let id = add_decl(builder, kind, n.as_str(), qname.as_str(), file, line, line, &vis, None, &None);
            let ghost b1 = *builder;
            link(builder, parent_id, id.as_str(), edge_kind);
            proof {
                lemma_grown_trans(b0, b1, *builder, 1, 0, 0, 1);
            }
        },
        _ => {},
    }
}

/// Whether a class definition's offsets can be used with `b`.
pub open spec fn class_ok(cd: ClassDef, b: Seq<u8>) -> bool {
    &&& offset_ok(b, cd.start)
    &&& forall|i: int| 0 <= i < cd.bases@.len() ==> expr_ok(#[trigger] cd.bases@[i], b)
    &&& forall|i: int| 0 <= i < cd.body@.len() ==> stmt_ok(#[trigger] cd.body@[i], b)
}

pub(crate) proof fn lemma_class_members_mono(body: Seq<Stmt>, i: int, j: int)
    requires
        0 <= i <= j <= body.len(),
    ensures
        class_members(body, i) <= class_members(body, j),
    decreases j - i,
{
    if i < j {
        lemma_class_members_mono(body, i, j - 1);
    }
}

/// Add a class node declared by the module, a pending inheritance edge per
/// named base class, and its members: methods (with their kind from their
/// decorators) and fields.
fn visit_class(
    builder: &mut Builder,
    cd: &ClassDef,
    source: &str,
    file: &str,
    parent_qname: &str,
    module_id: &str,
)
    requires
        old(builder).wf(),
        source.spec_bytes().len() < usize::MAX,
        class_ok(*cd, source.spec_bytes()),
        old(builder).view_nodes().len() + 1 + class_members(cd.body@, cd.body@.len() as int)
            <= usize::MAX,
    ensures
        ({
            let m = class_members(cd.body@, cd.body@.len() as int);
            let n = final(builder).view_nodes()[old(builder).view_nodes().len() as int];
            &&& grown(*old(builder), *final(builder), 1 + m, 1 + m)
            &&& n.kind == NodeKind::Class
            &&& n.name@ == cd.name@
            &&& n.qualified_name@ == parent_qname@ + "."@ + cd.name@
        }),
{
    let ghost b0 = *builder;
    proof {
        reveal_strlit(".");
        lemma_class_members_mono(cd.body@, 0, cd.body@.len() as int);
    }
    let name = cd.name.as_str();
    let qname = concat3(parent_qname, ".", name);
    let docs = docstring(cd.body.as_slice());
    let vis = visibility(name);
    let start_line = offset_line(source, cd.start);
    let end_line = find_block_end(source, start_line);
    let class_id = add_decl(
        builder,
        NodeKind::Class,
        name,
        qname.as_str(),
        file,
        start_line,
        end_line,
        &vis,
        None,
        &docs,
    );
    let ghost b1 = *builder;
    assert(b1.view_nodes()[b0.view_nodes().len() as int] == b1.view_nodes().last());
    link(builder, module_id, class_id.as_str(), EdgeKind::Declares);
    proof {
        lemma_grown_trans(b0, b1, *builder, 1, 0, 0, 1);
    }
    // Inheritance
    let ghost b2 = *builder;
    proof {
        lemma_grown_refl(b2);
    }
    let mut i: usize = 0;
    while i < cd.bases.len()
        invariant
            i <= cd.bases@.len(),
            source.spec_bytes().len() < usize::MAX,
            class_ok(*cd, source.spec_bytes()),
            grown(b2, *builder, 0, 0),
        decreases cd.bases@.len() - i,
    {
        let ghost mid = *builder;
        match extract_name(&cd.bases[i]) {
            Some(base_name) => {
                let loc = location(file, source, cd.bases[i].start);
                pend(builder, class_id.as_str(), base_name.as_str(), EdgeKind::InheritsFrom, loc);
                proof {
                    lemma_grown_trans(b2, mid, *builder, 0, 0, 0, 0);
                }
            },
            None => {},
        }
        i = i + 1;
    }
    proof {
        lemma_grown_trans(b0, b2, *builder, 1, 1, 0, 0);
    }
    // Methods and fields
    let ghost b3 = *builder;
    proof {
        lemma_grown_refl(b3);
    }
    let mut j: usize = 0;
    while j < cd.body.len()
        invariant
            j <= cd.body@.len(),
            source.spec_bytes().len() < usize::MAX,
            class_ok(*cd, source.spec_bytes()),
            b3.view_nodes().len() + class_members(cd.body@, cd.body@.len() as int) <= usize::MAX,
            grown(b3, *builder, class_members(cd.body@, j as int), class_members(cd.body@, j as int)),
        decreases cd.body@.len() - j,
    {
        proof {
            lemma_class_members_mono(cd.body@, j + 1, cd.body@.len() as int);
        }
        let ghost mid = *builder;
        assert(stmt_ok(cd.body@[j as int], source.spec_bytes()));
        match &cd.body[j] {
            Stmt::FunctionDef(fd) => {
                let kind = classify_method(fd);
                let _ = visit_def(
                    builder,
                    fd,
                    kind,
                    source,
                    file,
                    qname.as_str(),
                    class_id.as_str(),
                    EdgeKind::HasMethod,
                    false,
                );
            },
            Stmt::Assign { start, targets, .. } => {
                visit_targets(
                    builder,
                    targets,
                    *start,
                    NodeKind::Field,
                    EdgeKind::HasField,
                    source,
                    file,
                    qname.as_str(),
                    class_id.as_str(),
                );
            },
            Stmt::AnnAssign { start, target } => {
                visit_ann_target(
                    builder,
                    target,
                    *start,
                    NodeKind::Field,
                    EdgeKind::HasField,
                    source,
                    file,
                    qname.as_str(),
                    class_id.as_str(),
                );
            },
            _ => {
                proof {
                    lemma_grown_refl(mid);
                }
            },
        }
        proof {
            let c = member_nodes(cd.body@[j as int]);
            lemma_grown_trans(b3, mid, *builder, class_members(cd.body@, j as int), class_members(cd.body@, j as int), c, c);
        }
        j = j + 1;
    }
    proof {
        let m = class_members(cd.body@, cd.body@.len() as int);
        lemma_grown_trans(b0, b3, *builder, 1, 1, m, m);
        assert(builder.view_nodes()[b0.view_nodes().len() as int] == builder.view_nodes().take(
            b1.view_nodes().len() as int,
        )[b0.view_nodes().len() as int]);
    }
}

pub(crate) proof fn lemma_decl_counts(s: Stmt)
    ensures
        stmt_nodes(s) == 0 ==> forall|n: Node, p: Seq<char>| #[trigger] decl_node_ok(s, n, p),
        stmt_nodes(s) == 0 ==> forall|n: Node, pend: Seq<PendingEdge>, f: Seq<char>, src: Seq<char>|
            #[trigger] decl_calls_ok(s, n, pend, f, src),
{
}

/// For a function statement, every call in its body has a pending call
/// edge from the function's node `n` in `pend`.
pub open spec fn decl_calls_ok(s: Stmt, n: Node, pend: Seq<PendingEdge>, file: Seq<char>, source: Seq<char>) -> bool {
    match s {
        Stmt::FunctionDef(fd) => calls_pending_in(pend, n.id@, body_calls(fd.body@, fd.body@.len() as int), file, source),
        Stmt::AsyncFunctionDef(fd) => calls_pending_in(pend, n.id@, body_calls(fd.body@, fd.body@.len() as int), file, source),
        _ => true,
    }
}

proof fn lemma_decl_calls_grow(s: Stmt, n: Node, p1: Seq<PendingEdge>, p2: Seq<PendingEdge>, file: Seq<char>, source: Seq<char>)
    requires
        decl_calls_ok(s, n, p1, file, source),
        p1.len() <= p2.len(),
        p2.take(p1.len() as int) == p1,
    ensures
        decl_calls_ok(s, n, p2, file, source),
{
    match s {
        Stmt::FunctionDef(fd) => {
            lemma_calls_pending_grow(p1, p2, n.id@, body_calls(fd.body@, fd.body@.len() as int), file, source);
        },
        Stmt::AsyncFunctionDef(fd) => {
            lemma_calls_pending_grow(p1, p2, n.id@, body_calls(fd.body@, fd.body@.len() as int), file, source);
        },
        _ => {},
    }
}

/// The first `upto` statements of a module body were laid out from node
/// position `o`: each function or class statement's node is named under
/// `parent`, and each function's calls are pending from its node.
#[verifier::opaque]
pub open spec fn body_laid(
    body: Seq<Stmt>,
    nodes: Seq<Node>,
    pend: Seq<PendingEdge>,
    o: int,
    upto: int,
    parent: Seq<char>,
    file: Seq<char>,
    source: Seq<char>,
) -> bool {
    forall|t: int|
        0 <= t < upto ==> {
            &&& decl_node_ok(#[trigger] body[t], nodes[o + module_nodes(body, t)], parent)
            &&& decl_calls_ok(body[t], nodes[o + module_nodes(body, t)], pend, file, source)
        }
}

proof fn lemma_body_laid_start(body: Seq<Stmt>, nodes: Seq<Node>, pend: Seq<PendingEdge>, o: int, parent: Seq<char>, file: Seq<char>, source: Seq<char>)
    ensures
        body_laid(body, nodes, pend, o, 0, parent, file, source),
{
    reveal(body_laid);
}

/// A laid-out body stays laid out as nodes and pending edges are appended.
pub(crate) proof fn lemma_body_laid_grow(
    body: Seq<Stmt>,
    n1: Seq<Node>,
    p1: Seq<PendingEdge>,
    n2: Seq<Node>,
    p2: Seq<PendingEdge>,
    o: int,
    parent: Seq<char>,
    file: Seq<char>,
    source: Seq<char>,
)
    requires
        body_laid(body, n1, p1, o, body.len() as int, parent, file, source),
        0 <= o,
        o + module_nodes(body, body.len() as int) <= n1.len() <= n2.len(),
        forall|k: int| 0 <= k < n1.len() ==> n2[k] == n1[k],
        p1.len() <= p2.len(),
        p2.take(p1.len() as int) == p1,
    ensures
        body_laid(body, n2, p2, o, body.len() as int, parent, file, source),
{
    reveal(body_laid);
    assert forall|t: int| 0 <= t < body.len() implies {
        &&& decl_node_ok(#[trigger] body[t], n2[o + module_nodes(body, t)], parent)
        &&& decl_calls_ok(body[t], n2[o + module_nodes(body, t)], p2, file, source)
    } by {
        lemma_decl_counts(body[t]);
        if stmt_nodes(body[t]) > 0 {
            lemma_module_nodes_mono(body, t + 1, body.len() as int);
            assert(n2[o + module_nodes(body, t)] == n1[o + module_nodes(body, t)]);
            lemma_decl_calls_grow(body[t], n1[o + module_nodes(body, t)], p1, p2, file, source);
        }
    }
}

/// One more statement laid out: the earlier ones keep their nodes and
/// pending calls as the builder grows.
proof fn lemma_body_laid_step(
    body: Seq<Stmt>,
    mid: Builder,
    now: Builder,
    o: int,
    i: int,
    parent: Seq<char>,
    file: Seq<char>,
    source: Seq<char>,
)
    requires
        0 <= i < body.len(),
        0 <= o,
        body_laid(body, mid.view_nodes(), mid.view_pending(), o, i, parent, file, source),
        mid.view_nodes().len() == o + module_nodes(body, i),
        grown(mid, now, stmt_nodes(body[i]), stmt_nodes(body[i])),
        decl_node_ok(body[i], now.view_nodes()[mid.view_nodes().len() as int], parent),
        decl_calls_ok(body[i], now.view_nodes()[mid.view_nodes().len() as int], now.view_pending(), file, source),
    ensures
        body_laid(body, now.view_nodes(), now.view_pending(), o, i + 1, parent, file, source),
{
    reveal(body_laid);
    assert forall|t: int| 0 <= t < i + 1 implies {
        &&& decl_node_ok(#[trigger] body[t], now.view_nodes()[o + module_nodes(body, t)], parent)
        &&& decl_calls_ok(body[t], now.view_nodes()[o + module_nodes(body, t)], now.view_pending(), file, source)
    } by {
        if t < i {
            lemma_module_nodes_mono(body, t + 1, i);
            lemma_decl_counts(body[t]);
            if stmt_nodes(body[t]) > 0 {
                assert(now.view_nodes()[o + module_nodes(body, t)] == now.view_nodes().take(mid.view_nodes().len() as int)[o
                    + module_nodes(body, t)]);
                lemma_decl_calls_grow(
                    body[t],
                    mid.view_nodes()[o + module_nodes(body, t)],
                    mid.view_pending(),
                    now.view_pending(),
                    file,
                    source,
                );
            }
        }
    }
}

/// The node a statement declares first, if it declares a function or a
/// class: its kind, name and qualified name under `parent` (and, for a
/// function, its signature and docstring).
pub open spec fn decl_node_ok(s: Stmt, n: Node, parent: Seq<char>) -> bool {
    match s {
        Stmt::FunctionDef(fd) => is_def_node(n, fd, NodeKind::Function, parent),
        Stmt::AsyncFunctionDef(fd) => is_def_node(n, fd, NodeKind::AsyncFunction, parent),
        Stmt::ClassDef(cd) => n.kind == NodeKind::Class && n.name@ == cd.name@ && n.qualified_name@ == parent + "."@ + cd.name@,
        _ => true,
    }
}

/// Add the declarations of a module-level statement to the builder.
fn visit_stmt(
    builder: &mut Builder,
    s: &Stmt,
    source: &str,
    file: &str,
    parent_qname: &str,
    module_id: &str,
)
    requires
        old(builder).wf(),
        source.spec_bytes().len() < usize::MAX,
        stmt_ok(*s, source.spec_bytes()),
        old(builder).view_nodes().len() + stmt_nodes(*s) <= usize::MAX,
    ensures
        grown(*old(builder), *final(builder), stmt_nodes(*s), stmt_nodes(*s)),
        decl_node_ok(*s, final(builder).view_nodes()[old(builder).view_nodes().len() as int], parent_qname@),
        decl_calls_ok(
            *s,
            final(builder).view_nodes()[old(builder).view_nodes().len() as int],
            final(builder).view_pending(),
            file@,
            source@,
        ),
{
    let ghost b0 = *builder;
    match s {
        Stmt::FunctionDef(fd) => {
            let _ = visit_def(
                builder,
                fd,
                NodeKind::Function,
                source,
                file,
                parent_qname,
                module_id,
                EdgeKind::Declares,
                true,
            );
        },
        Stmt::AsyncFunctionDef(fd) => {
            let _ = visit_def(
                builder,
                fd,
                NodeKind::AsyncFunction,
                source,
                file,
                parent_qname,
                module_id,
                EdgeKind::Declares,
                true,
            );
        },
        Stmt::ClassDef(cd) => {
            visit_class(builder, cd, source, file, parent_qname, module_id);
        },
        Stmt::Import { start, names } => {
            let none: Option<String> = None;
            visit_import(builder, &none, names, *start, source, file, parent_qname, module_id);
        },
        Stmt::ImportFrom { start, module, names } => {
            visit_import(builder, module, names, *start, source, file, parent_qname, module_id);
        },
        Stmt::Assign { start, targets, .. } => {
            visit_targets(
                builder,
                targets,
                *start,
                NodeKind::Variable,
                EdgeKind::Declares,
                source,
                file,
                parent_qname,
                module_id,
            );
        },
        Stmt::AnnAssign { start, target } => {
            visit_ann_target(
                builder,
                target,
                *start,
                NodeKind::Variable,
                EdgeKind::Declares,
                source,
                file,
                parent_qname,
                module_id,
            );
        },
        _ => {
            proof {
                lemma_grown_refl(b0);
            }
        },
    }
}

/// The name of a file node: the path relative to the project root, or the
/// path itself when it is not under the root.
pub open spec fn file_label(file_path: Seq<char>, root: Seq<char>) -> Seq<char> {
    match crate::semantic::strip_root_spec(root, file_path) {
        Some(r) => r,
        None => file_path,
    }
}

pub(crate) proof fn lemma_module_nodes_mono(body: Seq<Stmt>, i: int, j: int)
    requires
        0 <= i <= j <= body.len(),
    ensures
        module_nodes(body, i) <= module_nodes(body, j),
    decreases j - i,
{
    if i < j {
        lemma_module_nodes_mono(body, i, j - 1);
    }
}

/// Add a file's nodes and edges to the builder: a file node (with the
/// file's metrics) and a module node linked by a module-file edge, then
/// the declarations of each top-level statement, and the calls, imports
/// and base classes they reference as pending edges.
pub fn visit_file(
    builder: &mut Builder,
    module: &PyModule,
    source: &str,
    file_path: &str,
    project_root: &str,
)
    requires
        old(builder).wf(),
        source.spec_bytes().len() < usize::MAX,
        body_ok(module.body@, source.spec_bytes()),
        old(builder).view_nodes().len() + 2 + module_nodes(module.body@, module.body@.len() as int)
            <= usize::MAX,
    ensures
        ({
            let n0 = old(builder).view_nodes().len() as int;
            let m = module_nodes(module.body@, module.body@.len() as int);
            let f = final(builder).view_nodes()[n0];
            let md = final(builder).view_nodes()[n0 + 1];
            &&& grown(*old(builder), *final(builder), 2 + m, 1 + m)
            &&& f.kind == NodeKind::File
            &&& f.name@ == file_label(file_path@, project_root@)
            &&& f.qualified_name@ == file_label(file_path@, project_root@)
            &&& f.range == Some(crate::model::Range { start_line: 1, end_line: lines_spec(source@).len() as usize })
            &&& file_metrics_spec(f.metrics@, source@)
            &&& md.kind == NodeKind::Module
            &&& md.name@ == crate::analyzer::helpers::module_name_spec(file_path@, project_root@)
            &&& md.qualified_name@ == crate::analyzer::helpers::module_name_spec(file_path@, project_root@)
            &&& final(builder).view_edges()[old(builder).view_edges().len() as int].kind
                == EdgeKind::ModuleFile
            &&& final(builder).view_edges()[old(builder).view_edges().len() as int].from@ == f.id@
            &&& final(builder).view_edges()[old(builder).view_edges().len() as int].to@ == md.id@
            &&& body_laid(
                module.body@,
                final(builder).view_nodes(),
                final(builder).view_pending(),
                n0 + 2,
                module.body@.len() as int,
                crate::analyzer::helpers::module_name_spec(file_path@, project_root@),
                file_label(file_path@, project_root@),
                source@,
            )
        }),
{
    let ghost b0 = *builder;
    let ghost n0 = b0.view_nodes().len() as int;
    let module_qname = module_name(file_path, project_root);
    let file_str = match strip_root(project_root, file_path) {
        Some(r) => r,
        None => owned(file_path),
    };
    let total_lines = lines(source).len();
    let file_id = builder.add_node(
        NodeKind::File,
        file_str.as_str(),
        file_str.as_str(),
        Some(file_str.as_str()),
        1,
        total_lines,
        None,
        None,
        None,
    );
    let module_id = builder.add_node(
        NodeKind::Module,
        module_qname.as_str(),
        module_qname.as_str(),
        Some(file_str.as_str()),
        1,
        total_lines,
        None,
        None,
        None,
    );
    let ghost b1 = *builder;
    builder.edge(file_id.as_str(), module_id.as_str(), EdgeKind::ModuleFile, None, None, None);
    let idx = builder.node_count() - 2;
    builder.set_metrics(idx, file_metrics(source));
    let ghost b2 = *builder;
    proof {
        assert(b1.view_nodes().drop_last()[n0] == b1.view_nodes()[n0]);
        assert(b2.view_nodes().take(b0.view_nodes().len() as int) =~= b0.view_nodes());
        assert(b2.view_edges().take(b0.view_edges().len() as int) =~= b0.view_edges());
        assert(b2.view_pending().take(b0.view_pending().len() as int) =~= b0.view_pending());
        assert(grown(b0, b2, 2, 1));
        lemma_grown_refl(b2);
        lemma_body_laid_start(module.body@, b2.view_nodes(), b2.view_pending(), n0 + 2, module_qname@, file_str@, source@);
        lemma_module_nodes_mono(module.body@, 0, module.body@.len() as int);
    }
    let mut i: usize = 0;
    while i < module.body.len()
        invariant
            i <= module.body@.len(),
            source.spec_bytes().len() < usize::MAX,
            body_ok(module.body@, source.spec_bytes()),
            b2.view_nodes().len() + module_nodes(module.body@, module.body@.len() as int) <= usize::MAX,
            grown(b2, *builder, module_nodes(module.body@, i as int), module_nodes(module.body@, i as int)),
            b2.view_nodes().len() == n0 + 2,
            module_qname@ == crate::analyzer::helpers::module_name_spec(file_path@, project_root@),
            file_str@ == file_label(file_path@, project_root@),
            body_laid(module.body@, builder.view_nodes(), builder.view_pending(), n0 + 2, i as int, module_qname@, file_str@, source@),
        decreases module.body@.len() - i,
    {
        proof {
            lemma_module_nodes_mono(module.body@, i + 1, module.body@.len() as int);
        }
        let ghost mid = *builder;
        visit_stmt(builder, &module.body[i], source, file_str.as_str(), module_qname.as_str(), module_id.as_str());
        proof {
            let c = stmt_nodes(module.body@[i as int]);
            lemma_grown_trans(b2, mid, *builder, module_nodes(module.body@, i as int), module_nodes(module.body@, i as int), c, c);
            lemma_body_laid_step(module.body@, mid, *builder, n0 + 2, i as int, module_qname@, file_str@, source@);
        }
        i = i + 1;
    }
    proof {
        let m = module_nodes(module.body@, module.body@.len() as int);
        lemma_grown_trans(b0, b2, *builder, 2, 1, m, m);
        assert(builder.view_nodes()[n0] == builder.view_nodes().take(b2.view_nodes().len() as int)[n0]);
        assert(builder.view_nodes()[n0 + 1] == builder.view_nodes().take(b2.view_nodes().len() as int)[n0 + 1]);
        assert(builder.view_edges()[b0.view_edges().len() as int] == builder.view_edges().take(b2.view_edges().len() as int)[b0.view_edges().len() as int]);
    }
}

} // verus!
