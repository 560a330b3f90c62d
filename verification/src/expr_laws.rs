//! What expressions are worth, in plain numbers, texts and truth values.

use vstd::prelude::*;
use vstd::utf8::encode_utf8;

use crate::ast::{BinaryOp, Name, Term, TypeName, UnaryOp};
use crate::encoding::Val;
use crate::exec_error::Fail;
use crate::order::lex_lt;
use crate::value_ops::{binary, fitted, holds_in, unary, worth, Math};

verus! {

/// What names stand for.
pub type Names = spec_fn(Name) -> core::result::Result<Val, Fail>;

/// What an expression comes to.
pub type Worth = core::result::Result<Val, Fail>;

/// Two expressions with an operator between them.
pub open spec fn both(l: Term, op: BinaryOp, r: Term) -> Term {
    Term::Binary(Box::new(l), op, Box::new(r))
}

/// An expression with an operator in front.
pub open spec fn front(op: UnaryOp, e: Term) -> Term {
    Term::Unary(op, Box::new(e))
}

pub open spec fn is_int(w: Worth, n: int) -> bool {
    w matches Ok(v) && v matches Val::Int(i) && i == n
}

pub open spec fn is_bool(w: Worth, b: bool) -> bool {
    w == Ok::<Val, Fail>(Val::Bool(b))
}

/// An operator works on what its sides are worth.
proof fn lemma_both(l: Term, r: Term, s: Names, g: Math)
    requires
        worth(l, s, g) is Ok,
        worth(r, s, g) is Ok,
    ensures
        forall|op: BinaryOp|
            !(op is And || op is Or) ==> #[trigger] worth(both(l, op, r), s, g) == binary(
                worth(l, s, g)->Ok_0,
                op,
                worth(r, s, g)->Ok_0,
                g,
            ),
{
}

proof fn lemma_front(e: Term, s: Names, g: Math)
    requires
        worth(e, s, g) is Ok,
    ensures
        forall|op: UnaryOp| #[trigger]
            worth(front(op, e), s, g) == unary(op, worth(e, s, g)->Ok_0),
{
}

/// Adding, taking away and multiplying are what they are among the whole
/// numbers; a result that does not fit is an error.
pub proof fn law_integers_compute(l: Term, r: Term, a: i64, b: i64, s: Names, g: Math)
    requires
        is_int(worth(l, s, g), a as int),
        is_int(worth(r, s, g), b as int),
    ensures
        i64::MIN <= a + b <= i64::MAX ==> is_int(worth(both(l, BinaryOp::Add, r), s, g), a + b),
        i64::MIN <= a - b <= i64::MAX ==> is_int(worth(both(l, BinaryOp::Sub, r), s, g), a - b),
        i64::MIN <= a * b <= i64::MAX ==> is_int(worth(both(l, BinaryOp::Mul, r), s, g), a * b),
        !(i64::MIN <= a + b <= i64::MAX) ==> worth(both(l, BinaryOp::Add, r), s, g) == Err::<
            Val,
            Fail,
        >(Fail::Exec),
        !(i64::MIN <= a - b <= i64::MAX) ==> worth(both(l, BinaryOp::Sub, r), s, g) == Err::<
            Val,
            Fail,
        >(Fail::Exec),
        !(i64::MIN <= a * b <= i64::MAX) ==> worth(both(l, BinaryOp::Mul, r), s, g) == Err::<
            Val,
            Fail,
        >(Fail::Exec),
{
    lemma_both(l, r, s, g);
}

/// Taking away undoes adding, taking away nothing changes nothing, and
/// taking a number from itself leaves zero.
pub proof fn law_subtraction_undoes_addition(
    l: Term,
    r: Term,
    sum: Term,
    a: i64,
    b: i64,
    s: Names,
    g: Math,
)
    requires
        worth(l, s, g) == Ok::<Val, Fail>(Val::Int(a)),
        worth(r, s, g) == Ok::<Val, Fail>(Val::Int(b)),
        worth(sum, s, g) == worth(both(l, BinaryOp::Add, r), s, g),
        worth(sum, s, g) is Ok,
    ensures
        worth(both(sum, BinaryOp::Sub, r), s, g) == worth(l, s, g),
        worth(both(sum, BinaryOp::Sub, l), s, g) == worth(r, s, g),
        b == 0 ==> worth(both(l, BinaryOp::Sub, r), s, g) == worth(l, s, g),
        is_int(worth(both(l, BinaryOp::Sub, l), s, g), 0),
{
    lemma_both(l, r, s, g);
    lemma_both(sum, r, s, g);
    lemma_both(sum, l, s, g);
    lemma_both(l, l, s, g);
}

/// Dividing rounds toward zero: quotient times divisor plus remainder is the
/// dividend, and the remainder is smaller than the divisor and on the
/// dividend's side of zero. Division by zero, and the one quotient that does
/// not fit, are errors.
pub proof fn law_division_leaves_its_remainder(
    l: Term,
    r: Term,
    a: i64,
    b: i64,
    s: Names,
    g: Math,
)
    requires
        worth(l, s, g) == Ok::<Val, Fail>(Val::Int(a)),
        worth(r, s, g) == Ok::<Val, Fail>(Val::Int(b)),
    ensures
        b == 0 || (a == i64::MIN && b == -1) ==> {
            &&& worth(both(l, BinaryOp::Div, r), s, g) == Err::<Val, Fail>(Fail::Exec)
            &&& worth(both(l, BinaryOp::Mod, r), s, g) == Err::<Val, Fail>(Fail::Exec)
        },
        !(b == 0 || (a == i64::MIN && b == -1)) ==> exists|q: int, m: int|
            {
                &&& #[trigger] is_int(worth(both(l, BinaryOp::Div, r), s, g), q)
                &&& #[trigger] is_int(worth(both(l, BinaryOp::Mod, r), s, g), m)
                &&& a == q * b + m
                &&& -(if b < 0 {
                    -b
                } else {
                    b as int
                }) < m < (if b < 0 {
                    -b
                } else {
                    b as int
                })
                &&& a >= 0 ==> m >= 0
                &&& a <= 0 ==> m <= 0
            },
{
    lemma_both(l, r, s, g);
    if b != 0 && !(a == i64::MIN && b == -1) {
        let x: int = if a < 0 {
            -a
        } else {
            a as int
        };
        let y: int = if b < 0 {
            -b
        } else {
            b as int
        };
        let q = crate::value_ops::trunc_div(a as int, b as int);
        let m = crate::value_ops::trunc_rem(a as int, b as int);
        vstd::arithmetic::div_mod::lemma_fundamental_div_mod(x, y);
        vstd::arithmetic::div_mod::lemma_mod_bound(x, y);
        assert(0 <= x / y <= x) by (nonlinear_arith)
            requires
                x >= 0,
                y >= 1,
        ;
        if y >= 2 {
            assert(x / y <= x / 2) by (nonlinear_arith)
                requires
                    x >= 0,
                    y >= 2,
            ;
        }
        assert(a == q * b + m) by (nonlinear_arith)
            requires
                x == y * (x / y) + x % y,
                x == (if a < 0 {
                    -a
                } else {
                    a as int
                }),
                y == (if b < 0 {
                    -b
                } else {
                    b as int
                }),
                q == (if (a < 0) == (b < 0) {
                    x / y
                } else {
                    -(x / y)
                }),
                m == (if a < 0 {
                    -(x % y)
                } else {
                    x % y
                }),
        ;
        assert(i64::MIN <= q <= i64::MAX);
        assert(is_int(worth(both(l, BinaryOp::Div, r), s, g), q));
        assert(is_int(worth(both(l, BinaryOp::Mod, r), s, g), m));
    }
}

/// Integers compare as numbers.
pub proof fn law_integers_compare(l: Term, r: Term, a: i64, b: i64, s: Names, g: Math)
    requires
        worth(l, s, g) == Ok::<Val, Fail>(Val::Int(a)),
        worth(r, s, g) == Ok::<Val, Fail>(Val::Int(b)),
    ensures
        is_bool(worth(both(l, BinaryOp::Eq, r), s, g), a == b),
        is_bool(worth(both(l, BinaryOp::NotEq, r), s, g), a != b),
        is_bool(worth(both(l, BinaryOp::Lt, r), s, g), a < b),
        is_bool(worth(both(l, BinaryOp::LtEq, r), s, g), a <= b),
        is_bool(worth(both(l, BinaryOp::Gt, r), s, g), a > b),
        is_bool(worth(both(l, BinaryOp::GtEq, r), s, g), a >= b),
{
    lemma_both(l, r, s, g);
}

/// Whether one byte string stops short of the other, or has the smaller byte
/// at the first place where they differ.
pub open spec fn sooner(a: Seq<u8>, b: Seq<u8>) -> bool {
    exists|k: int|
        {
            &&& 0 <= k <= a.len()
            &&& k < b.len()
            &&& #[trigger] a.take(k) == b.take(k)
            &&& k == a.len() || a[k] < b[k]
        }
}

pub proof fn lemma_sooner(a: Seq<u8>, b: Seq<u8>)
    ensures
        lex_lt(a, b) <==> sooner(a, b),
    decreases a.len(),
{
    if b.len() == 0 {
    } else if a.len() == 0 {
        assert(a.take(0) =~= b.take(0));
    } else {
        let x = a.skip(1);
        let y = b.skip(1);
        lemma_sooner(x, y);
        if lex_lt(a, b) {
            if a[0] < b[0] {
                assert(a.take(0) =~= b.take(0));
            } else {
                let k = choose|k: int|
                    {
                        &&& 0 <= k <= x.len()
                        &&& k < y.len()
                        &&& #[trigger] x.take(k) == y.take(k)
                        &&& k == x.len() || x[k] < y[k]
                    };
                assert(a.take(k + 1) =~= seq![a[0]] + x.take(k));
                assert(b.take(k + 1) =~= seq![b[0]] + y.take(k));
            }
        }
        if sooner(a, b) {
            let k = choose|k: int|
                {
                    &&& 0 <= k <= a.len()
                    &&& k < b.len()
                    &&& #[trigger] a.take(k) == b.take(k)
                    &&& k == a.len() || a[k] < b[k]
                };
            if k > 0 {
                assert(a[0] == a.take(k)[0]);
                assert(b[0] == b.take(k)[0]);
                assert(x.take(k - 1) =~= a.take(k).skip(1));
                assert(y.take(k - 1) =~= b.take(k).skip(1));
            }
        }
    }
}

/// Of two byte strings that differ exactly one comes sooner.
pub proof fn lemma_sooner_or_later(a: Seq<u8>, b: Seq<u8>)
    ensures
        a != b ==> (sooner(a, b) <==> !sooner(b, a)),
        a == b ==> !sooner(a, b),
{
    crate::order::lemma_lex_facts();
    lemma_sooner(a, b);
    lemma_sooner(b, a);
}

/// Texts compare by the bytes of their encoding, and are equal where they
/// have the same characters.
pub proof fn law_texts_compare(
    l: Term,
    r: Term,
    a: Seq<char>,
    b: Seq<char>,
    s: Names,
    g: Math,
)
    requires
        worth(l, s, g) == Ok::<Val, Fail>(Val::Text(a)),
        worth(r, s, g) == Ok::<Val, Fail>(Val::Text(b)),
    ensures
        is_bool(worth(both(l, BinaryOp::Eq, r), s, g), a == b),
        is_bool(worth(both(l, BinaryOp::NotEq, r), s, g), a != b),
        is_bool(worth(both(l, BinaryOp::Lt, r), s, g), sooner(encode_utf8(a), encode_utf8(b))),
        is_bool(worth(both(l, BinaryOp::GtEq, r), s, g), !sooner(encode_utf8(a), encode_utf8(b))),
        is_bool(worth(both(l, BinaryOp::Gt, r), s, g), sooner(encode_utf8(b), encode_utf8(a))),
        is_bool(worth(both(l, BinaryOp::LtEq, r), s, g), !sooner(encode_utf8(b), encode_utf8(a))),
{
    lemma_both(l, r, s, g);
    lemma_sooner(encode_utf8(a), encode_utf8(b));
    lemma_sooner(encode_utf8(b), encode_utf8(a));
    lemma_sooner_or_later(encode_utf8(a), encode_utf8(b));
    vstd::utf8::encode_utf8_decode_utf8(a);
    vstd::utf8::encode_utf8_decode_utf8(b);
}

/// Byte strings compare byte by byte.
pub proof fn law_bytes_compare(l: Term, r: Term, a: Seq<u8>, b: Seq<u8>, s: Names, g: Math)
    requires
        worth(l, s, g) == Ok::<Val, Fail>(Val::Bytes(a)),
        worth(r, s, g) == Ok::<Val, Fail>(Val::Bytes(b)),
    ensures
        is_bool(worth(both(l, BinaryOp::Eq, r), s, g), a == b),
        is_bool(worth(both(l, BinaryOp::NotEq, r), s, g), a != b),
        is_bool(worth(both(l, BinaryOp::Lt, r), s, g), sooner(a, b)),
        is_bool(worth(both(l, BinaryOp::GtEq, r), s, g), !sooner(a, b)),
        is_bool(worth(both(l, BinaryOp::Gt, r), s, g), sooner(b, a)),
        is_bool(worth(both(l, BinaryOp::LtEq, r), s, g), !sooner(b, a)),
{
    lemma_both(l, r, s, g);
    lemma_sooner(a, b);
    lemma_sooner(b, a);
    lemma_sooner_or_later(a, b);
}

/// False comes before true.
pub proof fn law_bools_compare(l: Term, r: Term, a: bool, b: bool, s: Names, g: Math)
    requires
        worth(l, s, g) == Ok::<Val, Fail>(Val::Bool(a)),
        worth(r, s, g) == Ok::<Val, Fail>(Val::Bool(b)),
    ensures
        is_bool(worth(both(l, BinaryOp::Eq, r), s, g), a <==> b),
        is_bool(worth(both(l, BinaryOp::NotEq, r), s, g), !(a <==> b)),
        is_bool(worth(both(l, BinaryOp::Lt, r), s, g), !a && b),
        is_bool(worth(both(l, BinaryOp::LtEq, r), s, g), !a || b),
        is_bool(worth(both(l, BinaryOp::Gt, r), s, g), a && !b),
        is_bool(worth(both(l, BinaryOp::GtEq, r), s, g), a || !b),
{
    lemma_both(l, r, s, g);
}

/// The top bit of a float is its sign; of two floats on one side of zero the
/// other bits tell which is farther from it.
pub open spec fn lesser(a: u64, b: u64) -> bool {
    let half = 0x8000_0000_0000_0000u64;
    if a < half && b < half {
        a < b
    } else if a >= half && b >= half {
        a > b
    } else {
        a >= half
    }
}

/// Floats compare by sign first, then by distance from zero.
pub proof fn law_floats_compare(l: Term, r: Term, a: u64, b: u64, s: Names, g: Math)
    requires
        worth(l, s, g) == Ok::<Val, Fail>(Val::Float(a)),
        worth(r, s, g) == Ok::<Val, Fail>(Val::Float(b)),
    ensures
        is_bool(worth(both(l, BinaryOp::Eq, r), s, g), a == b),
        is_bool(worth(both(l, BinaryOp::NotEq, r), s, g), a != b),
        is_bool(worth(both(l, BinaryOp::Lt, r), s, g), lesser(a, b)),
        is_bool(worth(both(l, BinaryOp::GtEq, r), s, g), !lesser(a, b)),
        is_bool(worth(both(l, BinaryOp::Gt, r), s, g), lesser(b, a)),
        is_bool(worth(both(l, BinaryOp::LtEq, r), s, g), !lesser(b, a)),
{
    lemma_both(l, r, s, g);
}

proof fn lemma_turned_round(a: Val, b: Val, g: Math)
    ensures
        binary(a, BinaryOp::Lt, b, g) == binary(b, BinaryOp::Gt, a, g),
        binary(a, BinaryOp::LtEq, b, g) == binary(b, BinaryOp::GtEq, a, g),
        binary(a, BinaryOp::Eq, b, g) == binary(b, BinaryOp::Eq, a, g),
        binary(a, BinaryOp::Eq, b, g) matches Ok(v) ==> v is Bool && binary(
            a,
            BinaryOp::NotEq,
            b,
            g,
        ) == unary(UnaryOp::Not, v),
        binary(a, BinaryOp::Eq, b, g) matches Err(e) ==> binary(a, BinaryOp::NotEq, b, g) == Err::<
            Val,
            Fail,
        >(e),
        binary(a, BinaryOp::Eq, a, g) == Ok::<Val, Fail>(Val::Bool(true)),
{
    crate::order::lemma_lex_facts();
}

/// Turning a comparison round swaps its sides, whatever the values are, and
/// what differs is what is not equal.
pub proof fn law_comparisons_turn_round(l: Term, r: Term, s: Names, g: Math)
    requires
        worth(l, s, g) is Ok,
        worth(r, s, g) is Ok,
    ensures
        worth(both(l, BinaryOp::Lt, r), s, g) == worth(both(r, BinaryOp::Gt, l), s, g),
        worth(both(l, BinaryOp::LtEq, r), s, g) == worth(both(r, BinaryOp::GtEq, l), s, g),
        worth(both(l, BinaryOp::Eq, r), s, g) == worth(both(r, BinaryOp::Eq, l), s, g),
        worth(both(l, BinaryOp::NotEq, r), s, g) == worth(
            front(UnaryOp::Not, both(l, BinaryOp::Eq, r)),
            s,
            g,
        ),
        is_bool(worth(both(l, BinaryOp::Eq, l), s, g), true),
{
    let a = worth(l, s, g)->Ok_0;
    let b = worth(r, s, g)->Ok_0;
    assert(forall|op: BinaryOp|
        !(op is And || op is Or) ==> #[trigger] worth(both(l, op, r), s, g) == binary(a, op, b, g))
        by {
        lemma_both(l, r, s, g);
    }
    assert(forall|op: BinaryOp|
        !(op is And || op is Or) ==> #[trigger] worth(both(r, op, l), s, g) == binary(b, op, a, g))
        by {
        lemma_both(r, l, s, g);
    }
    assert(worth(both(l, BinaryOp::Eq, l), s, g) == binary(a, BinaryOp::Eq, a, g)) by {
        lemma_both(l, l, s, g);
    }
    lemma_turned_round(a, b, g);
    let e = both(l, BinaryOp::Eq, r);
    if worth(e, s, g) is Ok {
        lemma_front(e, s, g);
    }
}

/// Null equals null and nothing else, comes neither before nor after
/// anything, and makes null of every sum.
pub proof fn law_null_stays_apart(l: Term, r: Term, v: Val, s: Names, g: Math)
    requires
        worth(l, s, g) == Ok::<Val, Fail>(Val::Null),
        worth(r, s, g) == Ok::<Val, Fail>(v),
    ensures
        is_bool(worth(both(l, BinaryOp::Eq, r), s, g), v is Null),
        is_bool(worth(both(r, BinaryOp::Eq, l), s, g), v is Null),
        is_bool(worth(both(l, BinaryOp::NotEq, r), s, g), !(v is Null)),
        is_bool(worth(both(r, BinaryOp::NotEq, l), s, g), !(v is Null)),
        forall|op: BinaryOp|
            (op is Lt || op is LtEq || op is Gt || op is GtEq) ==> is_bool(
                #[trigger] worth(both(l, op, r), s, g),
                false,
            ),
        forall|op: BinaryOp|
            (op is Lt || op is LtEq || op is Gt || op is GtEq) ==> is_bool(
                #[trigger] worth(both(r, op, l), s, g),
                false,
            ),
        forall|op: BinaryOp|
            (op is Add || op is Sub || op is Mul || op is Div || op is Mod)
                ==> #[trigger] worth(both(l, op, r), s, g) == Ok::<Val, Fail>(Val::Null),
        forall|op: BinaryOp|
            (op is Add || op is Sub || op is Mul || op is Div || op is Mod)
                ==> #[trigger] worth(both(r, op, l), s, g) == Ok::<Val, Fail>(Val::Null),
        forall|op: UnaryOp| #[trigger]
            worth(front(op, l), s, g) == Ok::<Val, Fail>(Val::Null),
{
    lemma_both(l, r, s, g);
    lemma_both(r, l, s, g);
    lemma_front(l, s, g);
}

/// Texts can be added: the one, then the other. Nothing else can be done to
/// them.
pub proof fn law_texts_add(l: Term, r: Term, a: Seq<char>, b: Seq<char>, s: Names, g: Math)
    requires
        worth(l, s, g) == Ok::<Val, Fail>(Val::Text(a)),
        worth(r, s, g) == Ok::<Val, Fail>(Val::Text(b)),
    ensures
        worth(both(l, BinaryOp::Add, r), s, g) matches Ok(v) && v matches Val::Text(c) && c.len()
            == a.len() + b.len() && a == c.take(a.len() as int) && b == c.skip(a.len() as int),
        forall|op: BinaryOp|
            (op is Sub || op is Mul || op is Div || op is Mod) ==> #[trigger] worth(
                both(l, op, r),
                s,
                g,
            ) == Err::<Val, Fail>(Fail::Exec),
{
    lemma_both(l, r, s, g);
    assert(a =~= (a + b).take(a.len() as int));
    assert(b =~= (a + b).skip(a.len() as int));
}

/// Which values can be compared: those of one type, and numbers with
/// numbers.
pub open spec fn alike(a: Val, b: Val) -> bool {
    match a {
        Val::Null => true,
        Val::Bool(_) => b is Null || b is Bool,
        Val::Int(_) => b is Null || b is Int || b is Float,
        Val::Float(_) => b is Null || b is Int || b is Float,
        Val::Text(_) => b is Null || b is Text,
        Val::Bytes(_) => b is Null || b is Bytes,
    }
}

/// Values of different types are neither compared nor added up.
pub proof fn law_unlike_values_do_not_mix(l: Term, r: Term, a: Val, b: Val, s: Names, g: Math)
    requires
        worth(l, s, g) == Ok::<Val, Fail>(a),
        worth(r, s, g) == Ok::<Val, Fail>(b),
    ensures
        forall|op: BinaryOp|
            (op is Eq || op is NotEq || op is Lt || op is LtEq || op is Gt || op is GtEq) ==> (
            #[trigger] worth(both(l, op, r), s, g) is Ok <==> alike(a, b)),
        !alike(a, b) ==> forall|op: BinaryOp|
            !(op is And || op is Or) ==> #[trigger] worth(both(l, op, r), s, g) == Err::<Val, Fail>(
                Fail::Exec,
            ),
        a is Bool && b is Bool || a is Bytes && b is Bytes ==> forall|op: BinaryOp|
            (op is Add || op is Sub || op is Mul || op is Div || op is Mod)
                ==> #[trigger] worth(both(l, op, r), s, g) == Err::<Val, Fail>(Fail::Exec),
{
    lemma_both(l, r, s, g);
}

/// `and`, `or` and `not` are those of logic, with null counted as false by
/// the first two, and the right side left alone where the left decides.
pub proof fn law_logic(l: Term, r: Term, p: bool, q: bool, s: Names, g: Math)
    requires
        holds_in(l, s, g) == Ok::<bool, Fail>(p),
    ensures
        !p ==> is_bool(worth(both(l, BinaryOp::And, r), s, g), false),
        p ==> is_bool(worth(both(l, BinaryOp::Or, r), s, g), true),
        holds_in(r, s, g) == Ok::<bool, Fail>(q) ==> {
            &&& is_bool(worth(both(l, BinaryOp::And, r), s, g), p && q)
            &&& is_bool(worth(both(l, BinaryOp::Or, r), s, g), p || q)
        },
        holds_in(r, s, g) matches Err(e) ==> {
            &&& p ==> worth(both(l, BinaryOp::And, r), s, g) == Err::<Val, Fail>(e)
            &&& !p ==> worth(both(l, BinaryOp::Or, r), s, g) == Err::<Val, Fail>(e)
        },
{
    reveal_with_fuel(worth, 3);
    reveal_with_fuel(holds_in, 3);
}

proof fn lemma_opposite(v: Val)
    ensures
        unary(UnaryOp::Neg, v) matches Ok(w) ==> unary(UnaryOp::Neg, w) == Ok::<Val, Fail>(v),
        unary(UnaryOp::Not, v) matches Ok(w) ==> unary(UnaryOp::Not, w) == Ok::<Val, Fail>(v),
        v matches Val::Float(f) ==> unary(UnaryOp::Neg, v) matches Ok(w) && w matches Val::Float(h)
            && (f < 0x8000_0000_0000_0000 <==> h >= 0x8000_0000_0000_0000) && f
            % 0x8000_0000_0000_0000 == h % 0x8000_0000_0000_0000,
{
}

/// Taking the opposite: of a truth value, of a number, and back again.
pub proof fn law_opposites(e: Term, v: Val, s: Names, g: Math)
    requires
        worth(e, s, g) == Ok::<Val, Fail>(v),
    ensures
        v matches Val::Bool(b) ==> is_bool(worth(front(UnaryOp::Not, e), s, g), !b),
        v matches Val::Int(i) ==> if i == i64::MIN {
            worth(front(UnaryOp::Neg, e), s, g) == Err::<Val, Fail>(Fail::Exec)
        } else {
            is_int(worth(front(UnaryOp::Neg, e), s, g), 0 - i)
        },
        v matches Val::Float(f) ==> {
            &&& worth(front(UnaryOp::Neg, e), s, g) matches Ok(w) && w matches Val::Float(h) && (f
                < 0x8000_0000_0000_0000 <==> h >= 0x8000_0000_0000_0000) && f
                % 0x8000_0000_0000_0000 == h % 0x8000_0000_0000_0000
        },
        !(v is Null || v is Bool) ==> worth(front(UnaryOp::Not, e), s, g) == Err::<Val, Fail>(
            Fail::Exec,
        ),
        !(v is Null || v is Int || v is Float) ==> worth(front(UnaryOp::Neg, e), s, g) == Err::<
            Val,
            Fail,
        >(Fail::Exec),
        worth(front(UnaryOp::Neg, e), s, g) is Ok ==> worth(
            front(UnaryOp::Neg, front(UnaryOp::Neg, e)),
            s,
            g,
        ) == worth(e, s, g),
        worth(front(UnaryOp::Not, e), s, g) is Ok ==> worth(
            front(UnaryOp::Not, front(UnaryOp::Not, e)),
            s,
            g,
        ) == worth(e, s, g),
{
    lemma_opposite(v);
    let n = front(UnaryOp::Neg, e);
    let o = front(UnaryOp::Not, e);
    assert(worth(n, s, g) == unary(UnaryOp::Neg, v) && worth(o, s, g) == unary(UnaryOp::Not, v))
        by {
        lemma_front(e, s, g);
    }
    assert(worth(n, s, g) matches Ok(w) ==> worth(front(UnaryOp::Neg, n), s, g) == unary(
        UnaryOp::Neg,
        w,
    )) by {
        if worth(n, s, g) is Ok {
            lemma_front(n, s, g);
        }
    }
    assert(worth(o, s, g) matches Ok(w) ==> worth(front(UnaryOp::Not, o), s, g) == unary(
        UnaryOp::Not,
        w,
    )) by {
        if worth(o, s, g) is Ok {
            lemma_front(o, s, g);
        }
    }
}

/// A condition holds where it is true, does not hold where it is false or
/// null, and is an error where it is anything else. A literal is itself, and
/// a column what its name stands for.
pub proof fn law_conditions_are_truth_values(v: Val, n: Name, s: Names, g: Math)
    ensures
        holds_in(Term::Literal(v), s, g) == Ok::<bool, Fail>(true) <==> v == Val::Bool(true),
        holds_in(Term::Literal(v), s, g) == Ok::<bool, Fail>(false) <==> v == Val::Bool(false) || v
            is Null,
        !(v is Bool || v is Null) ==> holds_in(Term::Literal(v), s, g) == Err::<bool, Fail>(
            Fail::Exec,
        ),
        worth(Term::Literal(v), s, g) == Ok::<Val, Fail>(v),
        worth(Term::Column(n), s, g) == s(n),
{
    reveal_with_fuel(worth, 3);
    reveal_with_fuel(holds_in, 3);
}

/// An operator whose side fails fails the same way, the left side first.
pub proof fn law_failures_pass_through(l: Term, op: BinaryOp, r: Term, s: Names, g: Math)
    ensures
        worth(l, s, g) matches Err(e) ==> worth(both(l, op, r), s, g) == Err::<Val, Fail>(e),
        worth(l, s, g) is Ok && !(op is And || op is Or) ==> (worth(r, s, g) matches Err(e)
            ==> worth(both(l, op, r), s, g) == Err::<Val, Fail>(e)),
        worth(l, s, g) matches Err(e) ==> forall|u: UnaryOp| #[trigger]
            worth(front(u, l), s, g) == Err::<Val, Fail>(e),
{
    reveal_with_fuel(worth, 3);
    reveal_with_fuel(holds_in, 3);
}

/// The type a value has.
pub open spec fn of_type(v: Val, ty: TypeName) -> bool {
    match ty {
        TypeName::Int => v is Int,
        TypeName::Float => v is Float,
        TypeName::Text => v is Text,
        TypeName::Bytes => v is Bytes,
        TypeName::Bool => v is Bool,
    }
}

/// A column takes a value of its own type as it is, null where it may be
/// null, an integer where it holds floats, and nothing else; what it has
/// taken it takes again unchanged.
pub proof fn law_columns_take_their_type(v: Val, ty: TypeName, nullable: bool)
    ensures
        of_type(v, ty) ==> fitted(v, ty, nullable) == Ok::<Val, Fail>(v),
        v is Null ==> (fitted(v, ty, nullable) == Ok::<Val, Fail>(v) <==> nullable),
        fitted(v, ty, nullable) is Ok <==> (of_type(v, ty) || (v is Null && nullable) || (v is Int
            && ty is Float)),
        fitted(v, ty, nullable) matches Ok(w) ==> {
            &&& of_type(w, ty) || (w is Null && nullable)
            &&& w is Null <==> v is Null
            &&& fitted(w, ty, nullable) == Ok::<Val, Fail>(w)
        },
        fitted(v, ty, nullable) matches Err(e) ==> e is Exec,
{
}

} // verus!
