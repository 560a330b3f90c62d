//! The statements the engine runs, as plain data. A front end parses its
//! own syntax into these; the planner and the executor read nothing else.

use vstd::prelude::*;

use crate::encoding::{Val, Value};
use crate::strings::owned;

verus! {

/// The type of a column.
#[derive(Clone, Copy, Debug, PartialEq, Eq, Structural)]
pub enum TypeName {
    Int,
    Float,
    Text,
    Bytes,
    Bool,
}

impl TypeName {
    /// The word for the type.
    pub open spec fn word(self) -> Seq<char> {
        match self {
            TypeName::Int => "int"@,
            TypeName::Float => "float"@,
            TypeName::Text => "text"@,
            TypeName::Bytes => "bytes"@,
            TypeName::Bool => "bool"@,
        }
    }

    pub fn as_str(self) -> (r: &'static str)
        ensures
            r@ == self.word(),
    {
        match self {
            TypeName::Int => "int",
            TypeName::Float => "float",
            TypeName::Text => "text",
            TypeName::Bytes => "bytes",
            TypeName::Bool => "bool",
        }
    }
}

#[derive(Clone, Copy, Debug, PartialEq, Eq, Structural)]
pub enum BinaryOp {
    And,
    Or,
    Eq,
    NotEq,
    Lt,
    LtEq,
    Gt,
    GtEq,
    Add,
    Sub,
    Mul,
    Div,
    Mod,
}

impl BinaryOp {
    /// How the operator is written.
    pub open spec fn sign(self) -> Seq<char> {
        match self {
            BinaryOp::And => "and"@,
            BinaryOp::Or => "or"@,
            BinaryOp::Eq => "="@,
            BinaryOp::NotEq => "!="@,
            BinaryOp::Lt => "<"@,
            BinaryOp::LtEq => "<="@,
            BinaryOp::Gt => ">"@,
            BinaryOp::GtEq => ">="@,
            BinaryOp::Add => "+"@,
            BinaryOp::Sub => "-"@,
            BinaryOp::Mul => "*"@,
            BinaryOp::Div => "/"@,
            BinaryOp::Mod => "%"@,
        }
    }

    pub fn as_str(self) -> (r: &'static str)
        ensures
            r@ == self.sign(),
    {
        match self {
            BinaryOp::And => "and",
            BinaryOp::Or => "or",
            BinaryOp::Eq => "=",
            BinaryOp::NotEq => "!=",
            BinaryOp::Lt => "<",
            BinaryOp::LtEq => "<=",
            BinaryOp::Gt => ">",
            BinaryOp::GtEq => ">=",
            BinaryOp::Add => "+",
            BinaryOp::Sub => "-",
            BinaryOp::Mul => "*",
            BinaryOp::Div => "/",
            BinaryOp::Mod => "%",
        }
    }
}

#[derive(Clone, Copy, Debug, PartialEq, Eq, Structural)]
pub enum UnaryOp {
    Neg,
    Not,
}

/// A column, with or without the table it belongs to.
#[derive(Debug)]
pub struct ColumnRef {
    pub table: Option<String>,
    pub column: String,
}

/// A column reference as text.
pub struct Name {
    pub table: Option<Seq<char>>,
    pub column: Seq<char>,
}

/// The text behind an optional string.
pub open spec fn opt_text(s: Option<String>) -> Option<Seq<char>> {
    match s {
        Some(t) => Some(t@),
        None => None,
    }
}

impl View for ColumnRef {
    type V = Name;

    open spec fn view(&self) -> Name {
        Name { table: opt_text(self.table), column: self.column@ }
    }
}

impl ColumnRef {
    /// A reference without a table.
    pub fn plain(column: &str) -> (r: ColumnRef)
        ensures
            r@ == (Name { table: None, column: column@ }),
    {
        ColumnRef { table: None, column: owned(column) }
    }

    pub fn duplicate(&self) -> (r: ColumnRef)
        ensures
            r@ == self@,
    {
        ColumnRef {
            table: match &self.table {
                Some(t) => Some(owned(t.as_str())),
                None => None,
            },
            column: owned(self.column.as_str()),
        }
    }
}

#[derive(Debug)]
pub enum Expr {
    Literal(Value),
    Column(ColumnRef),
    Unary(UnaryOp, Box<Expr>),
    Binary(Box<Expr>, BinaryOp, Box<Expr>),
}

/// What an expression says.
pub enum Term {
    Literal(Val),
    Column(Name),
    Unary(UnaryOp, Box<Term>),
    Binary(Box<Term>, BinaryOp, Box<Term>),
}

impl Expr {
    pub open spec fn term(self) -> Term
        decreases self,
    {
        match self {
            Expr::Literal(v) => Term::Literal(v@),
            Expr::Column(c) => Term::Column(c@),
            Expr::Unary(op, e) => Term::Unary(op, Box::new(e.term())),
            Expr::Binary(l, op, r) => Term::Binary(Box::new(l.term()), op, Box::new(r.term())),
        }
    }

    pub fn duplicate(&self) -> (r: Expr)
        ensures
            r@ == self@,
        decreases self,
    {
        match self {
            Expr::Literal(v) => Expr::Literal(v.duplicate()),
            Expr::Column(c) => Expr::Column(c.duplicate()),
            Expr::Unary(op, e) => Expr::Unary(*op, Box::new(e.duplicate())),
            Expr::Binary(l, op, r) => Expr::Binary(
                Box::new(l.duplicate()),
                *op,
                Box::new(r.duplicate()),
            ),
        }
    }
}

impl View for Expr {
    type V = Term;

    open spec fn view(&self) -> Term {
        self.term()
    }
}

/// What an optional condition says.
pub open spec fn opt_term(e: Option<Expr>) -> Option<Term> {
    match e {
        Some(x) => Some(x@),
        None => None,
    }
}

/// The same for a borrowed condition.
pub open spec fn ref_term(e: Option<&Expr>) -> Option<Term> {
    match e {
        Some(x) => Some(x@),
        None => None,
    }
}

#[derive(Clone, Copy, Debug, PartialEq, Eq, Structural)]
pub enum Direction {
    Asc,
    Desc,
}

#[derive(Clone, Copy, Debug, PartialEq, Eq, Structural)]
pub enum JoinKind {
    Inner,
    Left,
}

#[derive(Debug)]
pub struct Join {
    pub kind: JoinKind,
    pub table: String,
    pub on: Expr,
}

/// A point in history to read from.
#[derive(Clone, Copy, Debug, PartialEq, Eq, Structural)]
pub enum AsOf {
    Commit(u64),
    Time(u64),
}

#[derive(Debug)]
pub struct Get {
    pub table: String,
    pub joins: Vec<Join>,
    pub filter: Option<Expr>,
    pub order: Option<(ColumnRef, Direction)>,
    pub limit: Option<u64>,
    pub projection: Option<Vec<ColumnRef>>,
    pub as_of: Option<AsOf>,
}

#[derive(Debug)]
pub struct Assign {
    pub column: String,
    pub expr: Expr,
}

#[derive(Debug)]
pub struct ColumnDef {
    pub name: String,
    pub ty: TypeName,
    pub nullable: bool,
    pub key: bool,
    pub index: bool,
    pub default: Option<Value>,
}

#[derive(Debug)]
pub struct TableDef {
    pub name: String,
    pub columns: Vec<ColumnDef>,
}

#[derive(Debug)]
pub enum Statement {
    TableDef(TableDef),
    DropTable { name: String },
    Put { table: String, rows: Vec<Vec<(String, Expr)>> },
    Get(Get),
    Update { table: String, filter: Option<Expr>, assigns: Vec<Assign> },
    Del { table: String, filter: Option<Expr> },
    IndexDef { table: String, column: String },
    ShowTables,
    Explain(Box<Statement>),
    Branch { name: String, at: Option<u64> },
    Switch { name: String },
    Merge { name: String },
    DropBranch { name: String },
    ShowBranches,
    Log,
    Gc { keep: u64 },
    Begin,
    Commit,
    Rollback,
}

} // verus!
