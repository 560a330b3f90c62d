//! Expressions and literals as text, for plans and for messages.

use vstd::prelude::*;

use crate::ast::{BinaryOp, ColumnRef, Expr, Name, Term, UnaryOp};
use crate::encoding::{Val, Value};
use crate::strings::{join2, join3, owned};
use crate::value_ops::{render, rendered, Floats, Shown};

verus! {

/// Text between quotes: a quote or a backslash inside gets a backslash.
pub open spec fn quoted(s: Seq<char>) -> Seq<char>
    decreases s.len(),
{
    if s.len() == 0 {
        Seq::empty()
    } else if s.last() == '"' || s.last() == '\\' {
        quoted(s.drop_last()).push('\\').push(s.last())
    } else {
        quoted(s.drop_last()).push(s.last())
    }
}

/// A value as it would be written in a statement.
pub open spec fn literal_shown(v: Val, f: Shown) -> Seq<char> {
    match v {
        Val::Text(s) => "\""@ + quoted(s) + "\""@,
        _ => rendered(v, f),
    }
}

/// A column as it would be written in a statement.
pub open spec fn name_shown(n: Name) -> Seq<char> {
    match n.table {
        Some(t) => t + "."@ + n.column,
        None => n.column,
    }
}

/// An expression as it would be written in a statement; what stands inside
/// another operator is put in parentheses.
pub open spec fn expr_shown(t: Term, f: Shown) -> Seq<char>
    decreases t, 0int,
{
    match t {
        Term::Literal(v) => literal_shown(v, f),
        Term::Column(n) => name_shown(n),
        Term::Unary(op, e) => (if op is Neg {
            "-"@
        } else {
            "not "@
        }) + inner_shown(*e, f),
        Term::Binary(l, op, r) => inner_shown(*l, f) + " "@ + op.sign() + (" "@ + inner_shown(
            *r,
            f,
        )),
    }
}

pub open spec fn inner_shown(t: Term, f: Shown) -> Seq<char>
    decreases t, 1int,
{
    match t {
        Term::Binary(_, _, _) => "("@ + expr_shown(t, f) + ")"@,
        _ => expr_shown(t, f),
    }
}

fn quote(s: &str) -> (r: String)
    ensures
        r@ == quoted(s@),
{
    let mut out = String::new();
    let len: usize = s.unicode_len();
    proof {
        assert(out@ =~= quoted(s@.take(0)));
    }
    for i in 0..len
        invariant
            len == s@.len(),
            out@ == quoted(s@.take(i as int)),
    {
        let c: char = s.get_char(i);
        proof {
            assert(s@.take(i as int + 1).drop_last() =~= s@.take(i as int));
        }
        if c == '"' || c == '\\' {
            out.push('\\');
        }
        out.push(c);
    }
    proof {
        assert(s@.take(len as int) =~= s@);
    }
    out
}

/// A value as it would be written in a statement.
pub fn literal<M: Fn(BinaryOp, u64, u64) -> u64, T: Fn(u64) -> String>(
    v: &Value,
    floats: &Floats<M, T>,
) -> (r: String)
    requires
        floats.ok(),
    ensures
        r@ == literal_shown(v@, floats.shown()),
{
    match v {
        Value::Text(s) => join3("\"", quote(s.as_str()).as_str(), "\""),
        _ => render(v, floats),
    }
}

/// A column as it would be written in a statement.
pub fn column(c: &ColumnRef) -> (r: String)
    ensures
        r@ == name_shown(c@),
{
    match &c.table {
        Some(t) => join3(t.as_str(), ".", c.column.as_str()),
        None => owned(c.column.as_str()),
    }
}

/// An expression as it would be written in a statement.
pub fn expr<M: Fn(BinaryOp, u64, u64) -> u64, T: Fn(u64) -> String>(
    e: &Expr,
    floats: &Floats<M, T>,
) -> (r: String)
    requires
        floats.ok(),
    ensures
        r@ == expr_shown(e@, floats.shown()),
    decreases e, 0int,
{
    proof {
        reveal_with_fuel(expr_shown, 3);
        reveal_with_fuel(inner_shown, 3);
    }
    match e {
        Expr::Literal(v) => literal(v, floats),
        Expr::Column(c) => column(c),
        Expr::Unary(op, x) => join2(
            match op {
                UnaryOp::Neg => "-",
                UnaryOp::Not => "not ",
            },
            inner(x, floats).as_str(),
        ),
        Expr::Binary(l, op, r) => join2(
            join3(inner(l, floats).as_str(), " ", op.as_str()).as_str(),
            join2(" ", inner(r, floats).as_str()).as_str(),
        ),
    }
}

fn inner<M: Fn(BinaryOp, u64, u64) -> u64, T: Fn(u64) -> String>(
    e: &Expr,
    floats: &Floats<M, T>,
) -> (r: String)
    requires
        floats.ok(),
    ensures
        r@ == inner_shown(e@, floats.shown()),
    decreases e, 1int,
{
    proof {
        reveal_with_fuel(inner_shown, 3);
    }
    match e {
        Expr::Binary(_, _, _) => join3("(", expr(e, floats).as_str(), ")"),
        _ => expr(e, floats),
    }
}

} // verus!
