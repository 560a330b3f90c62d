//! What values, rows and numbers look like as text, told by reading them
//! back.

use vstd::prelude::*;

use crate::ast::{BinaryOp, Name, Term, UnaryOp};
use crate::encoding::Val;
use crate::pretty::{expr_shown, inner_shown, literal_shown, quoted};
use crate::strings::{decimal, hex, joined, signed_decimal};
use crate::value_ops::{rendered, Shown};

verus! {

/// The number some digits spell.
pub open spec fn spelled(s: Seq<char>) -> int
    decreases s.len(),
{
    if s.len() == 0 {
        0
    } else {
        10 * spelled(s.drop_last()) + (s.last() as int - '0' as int)
    }
}

/// A number in decimal is the digits that spell it, without a zero in front
/// unless it is zero.
pub proof fn law_decimal_spells_its_number(n: nat)
    ensures
        spelled(decimal(n)) == n,
        decimal(n).len() > 0,
        forall|i: int| 0 <= i < decimal(n).len() ==> '0' <= #[trigger] decimal(n)[i] && decimal(n)[i] <= '9',
        n > 0 ==> decimal(n)[0] != '0',
    decreases n,
{
    reveal_with_fuel(spelled, 2);
    if n < 10 {
        let s = decimal(n);
        assert(s.drop_last() =~= Seq::<char>::empty());
    } else {
        law_decimal_spells_its_number(n / 10);
        let s = decimal(n);
        let less = decimal(n / 10);
        assert(s.drop_last() =~= less);
        assert forall|i: int| 0 <= i < s.len() implies '0' <= #[trigger] s[i] && s[i] <= '9' by {
            if i < less.len() {
                assert(s[i] == less[i]);
            }
        }
        assert(s[0] == less[0]);
    }
}

/// A signed number has a minus in front exactly where it is negative, and
/// its distance from zero behind it.
pub proof fn law_signed_decimal_spells_its_number(n: int)
    ensures
        n >= 0 ==> spelled(signed_decimal(n)) == n && signed_decimal(n)[0] != '-',
        n < 0 ==> signed_decimal(n)[0] == '-' && spelled(signed_decimal(n).skip(1)) == -n,
{
    if n < 0 {
        law_decimal_spells_its_number((-n) as nat);
        assert(signed_decimal(n).skip(1) =~= decimal((-n) as nat));
    } else {
        law_decimal_spells_its_number(n as nat);
    }
}

/// What a hex digit stands for.
pub open spec fn nibble(c: char) -> int {
    if '0' <= c && c <= '9' {
        c as int - '0' as int
    } else {
        c as int - 'a' as int + 10
    }
}

/// Bytes in hex are two digits each, the high one first, in small letters.
pub proof fn law_hex_spells_its_bytes(b: Seq<u8>)
    ensures
        hex(b).len() == 2 * b.len(),
        forall|i: int|
            0 <= i < b.len() ==> 16 * nibble(hex(b)[2 * i]) + nibble(hex(b)[2 * i + 1]) == #[trigger] b[i],
        forall|i: int|
            0 <= i < hex(b).len() ==> ('0' <= #[trigger] hex(b)[i] && hex(b)[i] <= '9') || ('a' <= hex(
                b,
            )[i] && hex(b)[i] <= 'f'),
    decreases b.len(),
{
    if b.len() > 0 {
        let less = b.drop_last();
        law_hex_spells_its_bytes(less);
        let s = hex(b);
        let t = hex(less);
        assert forall|i: int| 0 <= i < t.len() implies s[i] == t[i] by {}
        assert forall|i: int| 0 <= i < b.len() implies 16 * nibble(s[2 * i]) + nibble(s[2 * i + 1])
            == #[trigger] b[i] by {
            if i < less.len() {
                assert(less[i] == b[i]);
                assert(s[2 * i] == t[2 * i] && s[2 * i + 1] == t[2 * i + 1]);
            } else {
                assert(b[i] == b.last());
            }
        }
        assert forall|i: int| 0 <= i < s.len() implies ('0' <= #[trigger] s[i] && s[i] <= '9') || (
        'a' <= s[i] && s[i] <= 'f') by {
            if i < t.len() {
                assert(s[i] == t[i]);
            }
        }
    }
}

/// Pieces that are joined stand in order with the separator between them:
/// joining more is joining the first ones, the separator, and joining the
/// rest.
pub proof fn law_joined_pieces_stand_in_order(
    a: Seq<Seq<char>>,
    b: Seq<Seq<char>>,
    sep: Seq<char>,
)
    requires
        a.len() > 0,
        b.len() > 0,
    ensures
        joined(a + b, sep) == joined(a, sep) + sep + joined(b, sep),
        a.len() == 1 ==> joined(a, sep) == a[0],
        joined(Seq::empty(), sep) == Seq::<char>::empty(),
    decreases b.len(),
{
    let all = a + b;
    if b.len() == 1 {
        assert(all.drop_last() =~= a);
        assert(all.last() == b[0]);
    } else {
        let c = b.drop_last();
        law_joined_pieces_stand_in_order(a, c, sep);
        assert(all.drop_last() =~= a + c);
        assert(all.last() == b.last());
        assert(joined(a, sep) + sep + joined(c, sep) + sep + b.last() =~= joined(a, sep) + sep + (
        joined(c, sep) + sep + b.last()));
    }
}

/// A text without the backslashes that shield its characters.
pub open spec fn unshielded(s: Seq<char>) -> Seq<char>
    decreases s.len(),
{
    if s.len() == 0 {
        Seq::empty()
    } else if s[0] == '\\' && s.len() > 1 {
        seq![s[1]] + unshielded(s.skip(2))
    } else {
        seq![s[0]] + unshielded(s.skip(1))
    }
}

proof fn lemma_quoted_front(c: char, s: Seq<char>)
    ensures
        quoted(seq![c] + s) == (if c == '"' || c == '\\' {
            seq!['\\', c]
        } else {
            seq![c]
        }) + quoted(s),
    decreases s.len(),
{
    let all = seq![c] + s;
    if s.len() == 0 {
        assert(all =~= seq![c]);
        assert(seq![c].drop_last() =~= Seq::<char>::empty());
        reveal_with_fuel(quoted, 2);
        assert(quoted(all) =~= (if c == '"' || c == '\\' {
            seq!['\\', c]
        } else {
            seq![c]
        }) + quoted(s));
    } else {
        lemma_quoted_front(c, s.drop_last());
        assert(all.drop_last() =~= seq![c] + s.drop_last());
        assert(all.last() == s.last());
        assert(quoted(all) =~= (if c == '"' || c == '\\' {
            seq!['\\', c]
        } else {
            seq![c]
        }) + quoted(s));
    }
}

/// A text between quotes reads back, and no quote inside it stands without a
/// backslash before it.
pub proof fn law_quoted_text_reads_back(s: Seq<char>)
    ensures
        unshielded(quoted(s)) == s,
        forall|i: int|
            0 <= i < quoted(s).len() && #[trigger] quoted(s)[i] == '"' ==> i > 0 && quoted(s)[i - 1] == '\\',
    decreases s.len(),
{
    if s.len() > 0 {
        let c = s[0];
        let rest = s.skip(1);
        assert(s =~= seq![c] + rest);
        lemma_quoted_front(c, rest);
        law_quoted_text_reads_back(rest);
        let q = quoted(s);
        let r = quoted(rest);
        if c == '"' || c == '\\' {
            assert(q[0] == '\\' && q[1] == c);
            assert(q.skip(2) =~= r);
            assert forall|i: int| 0 <= i < q.len() && #[trigger] q[i] == '"' implies i > 0 && q[i
                - 1] == '\\' by {
                if i >= 2 {
                    assert(r[i - 2] == '"');
                    assert(q[i - 1] == r[i - 3]);
                }
            }
        } else {
            assert(q[0] == c);
            assert(q.skip(1) =~= r);
            assert forall|i: int| 0 <= i < q.len() && #[trigger] q[i] == '"' implies i > 0 && q[i
                - 1] == '\\' by {
                assert(i >= 1);
                assert(r[i - 1] == '"');
                assert(q[i - 1] == r[i - 2]);
            }
        }
    }
}

/// How values are shown: truth values and null by their words, integers in
/// decimal, texts as they are, bytes as hex between quotes.
pub proof fn law_values_are_shown(v: Val, f: Shown)
    ensures
        v matches Val::Text(s) ==> rendered(v, f) == s,
        v matches Val::Int(i) ==> (i >= 0 ==> spelled(rendered(v, f)) == i) && (i < 0 ==> rendered(
            v,
            f,
        )[0] == '-' && spelled(rendered(v, f).skip(1)) == -i),
        v == Val::Bool(true) ==> rendered(v, f) == seq!['t', 'r', 'u', 'e'],
        v == Val::Bool(false) ==> rendered(v, f) == seq!['f', 'a', 'l', 's', 'e'],
        v is Null ==> rendered(v, f) == seq!['n', 'u', 'l', 'l'],
        v matches Val::Float(x) ==> rendered(v, f) == f(x),
        v matches Val::Bytes(b) ==> rendered(v, f) == seq!['x', '"'] + hex(b) + seq!['"'],
        v matches Val::Text(s) ==> literal_shown(v, f) == seq!['"'] + quoted(s) + seq!['"'],
        !(v is Text) ==> literal_shown(v, f) == rendered(v, f),
{
    reveal_strlit("true");
    reveal_strlit("false");
    reveal_strlit("null");
    reveal_strlit("x\"");
    reveal_strlit("\"");
    assert("true"@ =~= seq!['t', 'r', 'u', 'e']);
    assert("false"@ =~= seq!['f', 'a', 'l', 's', 'e']);
    assert("null"@ =~= seq!['n', 'u', 'l', 'l']);
    assert("x\""@ =~= seq!['x', '"']);
    assert("\""@ =~= seq!['"']);
    if let Val::Int(i) = v {
        law_signed_decimal_spells_its_number(i as int);
    }
}

/// How operators are written.
pub open spec fn written(op: BinaryOp) -> Seq<char> {
    match op {
        BinaryOp::And => seq!['a', 'n', 'd'],
        BinaryOp::Or => seq!['o', 'r'],
        BinaryOp::Eq => seq!['='],
        BinaryOp::NotEq => seq!['!', '='],
        BinaryOp::Lt => seq!['<'],
        BinaryOp::LtEq => seq!['<', '='],
        BinaryOp::Gt => seq!['>'],
        BinaryOp::GtEq => seq!['>', '='],
        BinaryOp::Add => seq!['+'],
        BinaryOp::Sub => seq!['-'],
        BinaryOp::Mul => seq!['*'],
        BinaryOp::Div => seq!['/'],
        BinaryOp::Mod => seq!['%'],
    }
}

proof fn lemma_written(op: BinaryOp)
    ensures
        op.sign() == written(op),
{
    reveal_strlit("and");
    reveal_strlit("or");
    reveal_strlit("=");
    reveal_strlit("!=");
    reveal_strlit("<");
    reveal_strlit("<=");
    reveal_strlit(">");
    reveal_strlit(">=");
    reveal_strlit("+");
    reveal_strlit("-");
    reveal_strlit("*");
    reveal_strlit("/");
    reveal_strlit("%");
    assert(op.sign() =~= written(op));
}

/// A side of an operator: in parentheses where it is two expressions with an
/// operator between them.
pub open spec fn side(e: Term, f: Shown) -> Seq<char> {
    if e is Binary {
        seq!['('] + expr_shown(e, f) + seq![')']
    } else {
        expr_shown(e, f)
    }
}

/// An expression is shown as its sides with the sign of the operator between
/// them; an operator in front stands in front.
pub proof fn law_expressions_are_shown(l: Term, op: BinaryOp, r: Term, f: Shown)
    ensures
        expr_shown(Term::Binary(Box::new(l), op, Box::new(r)), f) == side(l, f) + seq![' '] + written(
            op,
        ) + seq![' '] + side(r, f),
        expr_shown(Term::Unary(UnaryOp::Neg, Box::new(l)), f) == seq!['-'] + side(l, f),
        expr_shown(Term::Unary(UnaryOp::Not, Box::new(l)), f) == seq!['n', 'o', 't', ' '] + side(l, f),
{
    reveal_strlit(" ");
    reveal_strlit("(");
    reveal_strlit(")");
    reveal_strlit("-");
    reveal_strlit("not ");
    assert(" "@ =~= seq![' ']);
    assert("("@ =~= seq!['(']);
    assert(")"@ =~= seq![')']);
    assert("-"@ =~= seq!['-']);
    assert("not "@ =~= seq!['n', 'o', 't', ' ']);
    lemma_written(op);
    assert(inner_shown(l, f) == side(l, f));
    assert(inner_shown(r, f) == side(r, f));
    assert(side(l, f) + seq![' '] + written(op) + (seq![' '] + side(r, f)) =~= side(l, f) + seq![
        ' ',
    ] + written(op) + seq![' '] + side(r, f));
}

/// A column is shown by its name, behind the table's name and a point where
/// it says one.
pub proof fn law_columns_are_shown(n: Name, f: Shown)
    ensures
        n.table is None ==> expr_shown(Term::Column(n), f) == n.column,
        n.table matches Some(t) ==> expr_shown(Term::Column(n), f) == t + seq!['.'] + n.column,
{
    reveal_strlit(".");
    assert("."@ =~= seq!['.']);
}

} // verus!
