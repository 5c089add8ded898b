//! The parts of a Python syntax tree that the indexer reads.
//!
//! Offsets (`start`) are byte offsets into the source text.

use vstd::prelude::*;

verus! {

/// A Python module: its top-level statements.
#[derive(Debug)]
pub struct PyModule {
    pub body: Vec<Stmt>,
}

/// A literal value.
#[derive(Clone, Debug)]
pub enum Constant {
    Str(String),
    /// An integer, as written by the parser.
    Int(String),
    /// A floating-point number, as rendered by its display form.
    Float(String),
    Bool(bool),
    NoneValue,
    Ellipsis,
    Other,
}

/// Binary operators: only `|` is told apart.
#[derive(Clone, Copy, Debug, PartialEq, Eq, Structural)]
pub enum BinOperator {
    BitOr,
    Other,
}

/// An expression with the byte offset where it starts.
#[derive(Debug)]
pub struct Expr {
    pub start: usize,
    pub node: ExprKind,
}

/// The expression forms the indexer reads.
#[derive(Debug)]
pub enum ExprKind {
    Name(String),
    Constant(Constant),
    Attribute { value: Box<Expr>, attr: String },
    Call { func: Box<Expr>, args: Vec<Expr>, keywords: Vec<Expr> },
    BinOp { left: Box<Expr>, op: BinOperator, right: Box<Expr> },
    UnaryOp { operand: Box<Expr> },
    BoolOp { values: Vec<Expr> },
    Compare { left: Box<Expr>, comparators: Vec<Expr> },
    IfExp { test: Box<Expr>, body: Box<Expr>, orelse: Box<Expr> },
    Subscript { value: Box<Expr>, slice: Box<Expr> },
    ListComp { elt: Box<Expr> },
    Dict { keys: Vec<Option<Expr>>, values: Vec<Expr> },
    Starred { value: Box<Expr> },
    Tuple { elts: Vec<Expr> },
    List { elts: Vec<Expr> },
    Other,
}

/// A parameter with its annotation and default value.
#[derive(Debug)]
pub struct Param {
    pub name: String,
    pub annotation: Option<Expr>,
    pub default: Option<Expr>,
}

/// The parameters of a function.
#[derive(Debug)]
pub struct Arguments {
    pub posonlyargs: Vec<Param>,
    pub args: Vec<Param>,
    pub vararg: Option<String>,
    pub kwonlyargs: Vec<Param>,
    pub kwarg: Option<String>,
}

/// A `def` or `async def`.
#[derive(Debug)]
pub struct FunctionDef {
    pub start: usize,
    pub name: String,
    pub args: Arguments,
    pub return_type: Option<Expr>,
    pub body: Vec<Stmt>,
    pub decorators: Vec<Expr>,
}

/// A `class`.
#[derive(Debug)]
pub struct ClassDef {
    pub start: usize,
    pub name: String,
    pub bases: Vec<Expr>,
    pub body: Vec<Stmt>,
}

/// `name` or `name as asname` in an import.
#[derive(Clone, Debug)]
pub struct Alias {
    pub name: String,
    pub asname: Option<String>,
}

/// The statement forms the indexer reads.
#[derive(Debug)]
pub enum Stmt {
    FunctionDef(FunctionDef),
    AsyncFunctionDef(FunctionDef),
    ClassDef(ClassDef),
    Import { start: usize, names: Vec<Alias> },
    ImportFrom { start: usize, module: Option<String>, names: Vec<Alias> },
    Assign { start: usize, targets: Vec<Expr>, value: Expr },
    AnnAssign { start: usize, target: Expr },
    Expr(Expr),
    Return(Option<Expr>),
    If { test: Expr, body: Vec<Stmt>, orelse: Vec<Stmt> },
    For { body: Vec<Stmt> },
    While { test: Expr, body: Vec<Stmt> },
    With { body: Vec<Stmt> },
    Try { body: Vec<Stmt>, handlers: Vec<Vec<Stmt>>, finalbody: Vec<Stmt> },
    Other,
}

} // verus!
