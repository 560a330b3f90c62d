//! Value semantics: expression evaluation, comparisons, coercion, output
//! rendering.
//!
//! - `=` and `!=` treat null as an ordinary value: `null = null` is true
//! - `<`, `<=`, `>`, `>=` involving null are always false
//! - arithmetic with null yields null
//! - int and float compare and mix numerically; every other type mix is an
//!   error, not a silent coercion
//! - int arithmetic is checked: overflow and division by zero are errors
//!
//! A float is held as its 64 bits. Comparing, negating and widening floats
//! are integer work on those bits; adding them up and printing them are
//! functions the caller supplies, see [`Floats`].

use vstd::arithmetic::power2::{lemma_pow2_adds, lemma_pow2_pos, lemma_pow2_unfold, pow2};
use vstd::prelude::*;
use vstd::utf8::encode_utf8;

use crate::ast::{BinaryOp, ColumnRef, Expr, Name, Term, TypeName, UnaryOp};
use crate::encoding::{float_key, Val, Value};
use crate::exec_error::{ExecError, Fail};
use crate::order::{int_order, lex_order, order_bytes, Order};
use crate::strings::{i64_text, join2, join3, owned, to_hex};

verus! {

// ---------------------------------------------------------------------
// floats
// ---------------------------------------------------------------------

/// Float arithmetic and float printing, supplied from outside: `math` takes
/// an arithmetic operator and the bits of both sides, `text` takes the bits
/// of one float.
pub struct Floats<M, T> {
    pub math: M,
    pub text: T,
}

/// What an arithmetic operator makes of two floats, by their bits.
pub type Math = spec_fn(BinaryOp, u64, u64) -> u64;

/// How a float is written, by its bits.
pub type Shown = spec_fn(u64) -> Seq<char>;

impl<M: Fn(BinaryOp, u64, u64) -> u64, T: Fn(u64) -> String> Floats<M, T> {
    /// Both functions take every argument and give the same answer to the
    /// same question.
    pub open spec fn ok(&self) -> bool {
        &&& forall|op: BinaryOp, a: u64, b: u64| #[trigger] call_requires(self.math, (op, a, b))
        &&& forall|op: BinaryOp, a: u64, b: u64, x: u64, y: u64| #[trigger]
            call_ensures(self.math, (op, a, b), x) && #[trigger] call_ensures(
                self.math,
                (op, a, b),
                y,
            ) ==> x == y
        &&& forall|a: u64| #[trigger] call_requires(self.text, (a,))
        &&& forall|a: u64, x: String, y: String| #[trigger]
            call_ensures(self.text, (a,), x) && #[trigger] call_ensures(self.text, (a,), y)
                ==> x@ == y@
    }

    pub open spec fn math(&self) -> Math {
        |op: BinaryOp, a: u64, b: u64| choose|x: u64| call_ensures(self.math, (op, a, b), x)
    }

    pub open spec fn shown(&self) -> Shown {
        |a: u64| (choose|x: String| call_ensures(self.text, (a,), x))@
    }

    pub fn apply(&self, op: BinaryOp, a: u64, b: u64) -> (r: u64)
        requires
            self.ok(),
        ensures
            r == (self.math())(op, a, b),
    {
        let r: u64 = (self.math)(op, a, b);
        proof {
            let x = choose|x: u64| call_ensures(self.math, (op, a, b), x);
            assert(call_ensures(self.math, (op, a, b), r));
            assert(call_ensures(self.math, (op, a, b), x));
        }
        r
    }

    pub fn write(&self, a: u64) -> (r: String)
        requires
            self.ok(),
        ensures
            r@ == (self.shown())(a),
    {
        let r: String = (self.text)(a);
        proof {
            let x = choose|x: String| call_ensures(self.text, (a,), x);
            assert(call_ensures(self.text, (a,), r));
            assert(call_ensures(self.text, (a,), x));
        }
        r
    }
}

/// The position of the highest bit of `m`.
pub open spec fn exponent(m: nat) -> nat
    decreases m,
{
    if m <= 1 {
        0
    } else {
        exponent(m / 2) + 1
    }
}

/// `m / d`, rounded to the nearest, halves to the even side.
pub open spec fn nearest(m: nat, d: nat) -> nat {
    if 2 * (m % d) < d || (2 * (m % d) == d && (m / d) % 2 == 0) {
        m / d
    } else {
        m / d + 1
    }
}

/// The bits of the float closest to an integer: sign, biased exponent and
/// 52 fraction bits.
pub open spec fn widened(i: i64) -> u64 {
    let m: nat = if i < 0 {
        (-(i as int)) as nat
    } else {
        i as nat
    };
    let e = exponent(m);
    let f: nat = if e <= 52 {
        m * pow2((52 - e) as nat)
    } else {
        nearest(m, pow2((e - 52) as nat))
    };
    if i == 0 {
        0
    } else {
        ((if i < 0 {
            0x8000_0000_0000_0000int
        } else {
            0
        }) + (e + 1022) * 0x10_0000_0000_0000 + f) as u64
    }
}

pub proof fn lemma_exponent(m: nat)
    requires
        0 < m < 0x1_0000_0000_0000_0000,
    ensures
        pow2(exponent(m)) <= m < 2 * pow2(exponent(m)),
        exponent(m) < 64,
{
    vstd::arithmetic::power2::lemma2_to64_rest();
    lemma_exponent_within(m, 64);
}

proof fn lemma_exponent_within(m: nat, n: nat)
    requires
        0 < m < pow2(n),
    ensures
        pow2(exponent(m)) <= m < 2 * pow2(exponent(m)),
        exponent(m) < n,
    decreases m,
{
    vstd::arithmetic::power2::lemma2_to64();
    if m > 1 {
        if n > 0 {
            lemma_pow2_unfold(n);
        }
        lemma_exponent_within(m / 2, (n - 1) as nat);
        lemma_pow2_unfold(exponent(m));
    }
}

fn find_exponent(m: u64) -> (r: u64)
    ensures
        r == exponent(m as nat),
        r < 64,
    decreases m,
{
    proof {
        vstd::arithmetic::power2::lemma2_to64();
        if m > 0 {
            vstd::arithmetic::power2::lemma2_to64_rest();
            lemma_exponent_within(m as nat, 64);
        }
    }
    if m <= 1 {
        0
    } else {
        find_exponent(m / 2) + 1
    }
}

fn two_to(n: u64) -> (r: u64)
    requires
        n < 64,
    ensures
        r == pow2(n as nat),
    decreases n,
{
    proof {
        vstd::arithmetic::power2::lemma2_to64();
        vstd::arithmetic::power2::lemma2_to64_rest();
    }
    if n == 0 {
        1
    } else {
        proof {
            lemma_pow2_unfold(n as nat);
            vstd::arithmetic::power2::lemma_pow2_strictly_increases(
                (n - 1) as nat,
                63,
            );
        }
        2 * two_to(n - 1)
    }
}

/// The float closest to an integer.
pub fn widen(i: i64) -> (r: u64)
    ensures
        r == widened(i),
{
    if i == 0 {
        return 0;
    }
    let m: u64 = if i < 0 {
        (-(i as i128)) as u64
    } else {
        i as u64
    };
    let e: u64 = find_exponent(m);
    proof {
        vstd::arithmetic::power2::lemma2_to64();
        vstd::arithmetic::power2::lemma2_to64_rest();
        lemma_exponent(m as nat);
    }
    let f: u64 = if e <= 52 {
        let p: u64 = two_to(52 - e);
        proof {
            lemma_pow2_adds(e as nat, (52 - e) as nat);
            let a = pow2(e as nat) as int;
            let b = p as int;
            assert(m * b < 2 * (a * b)) by (nonlinear_arith)
                requires
                    m < 2 * a,
                    b > 0,
            ;
        }
        m * p
    } else {
        let d: u64 = two_to(e - 52);
        proof {
            lemma_pow2_adds((e - 52) as nat, 52);
            lemma_pow2_pos((e - 52) as nat);
            let q = m as int / d as int;
            assert(m as int / d as int <= 0x20_0000_0000_0000) by (nonlinear_arith)
                requires
                    d > 0,
                    m < 2 * (d * 0x10_0000_0000_0000),
            ;
        }
        let rest: u64 = m % d;
        let q: u64 = m / d;
        if rest < d - rest || (rest == d - rest && q % 2 == 0) {
            q
        } else {
            q + 1
        }
    };
    proof {
        assert(f <= 0x20_0000_0000_0001);
    }
    let sign: u64 = if i < 0 {
        0x8000_0000_0000_0000
    } else {
        0
    };
    sign + (e + 1022) * 0x10_0000_0000_0000 + f
}

// ---------------------------------------------------------------------
// comparisons
// ---------------------------------------------------------------------

/// A row scope: resolve column names to values during evaluation.
pub trait Scope {
    /// What each name stands for.
    spec fn holds(&self) -> spec_fn(Name) -> core::result::Result<Val, Fail>;

    /// Whether the scope can be asked.
    spec fn ready(&self) -> bool;

    fn column(&self, name: &ColumnRef) -> (r: core::result::Result<Value, ExecError>)
        requires
            self.ready(),
        ensures
            gives(r, (self.holds())(name@)),
    ;
}

/// A result against what it should be.
pub open spec fn gives(
    r: core::result::Result<Value, ExecError>,
    s: core::result::Result<Val, Fail>,
) -> bool {
    match r {
        Ok(v) => s == Ok::<Val, Fail>(v@),
        Err(e) => s == Err::<Val, Fail>(e.fail()),
    }
}

/// The empty scope, for evaluating constant expressions.
pub struct NoScope;

/// Every name is unknown.
pub open spec fn no_names() -> spec_fn(Name) -> core::result::Result<Val, Fail> {
    |n: Name| Err(Fail::Plan)
}

impl Scope for NoScope {
    open spec fn holds(&self) -> spec_fn(Name) -> core::result::Result<Val, Fail> {
        no_names()
    }

    open spec fn ready(&self) -> bool {
        true
    }

    fn column(&self, name: &ColumnRef) -> (r: core::result::Result<Value, ExecError>) {
        Err(ExecError::Plan(join3("unknown column '", name.column.as_str(), "'")))
    }
}

/// How two values order. Nothing when null is involved; an error on types
/// that do not compare.
pub open spec fn ordered(l: Val, r: Val) -> core::result::Result<Option<Order>, Fail> {
    match (l, r) {
        (Val::Null, _) => Ok(None),
        (_, Val::Null) => Ok(None),
        (Val::Int(a), Val::Int(b)) => Ok(Some(int_order(a as int, b as int))),
        (Val::Float(a), Val::Float(b)) => Ok(
            Some(int_order(float_key(a) as int, float_key(b) as int)),
        ),
        (Val::Int(a), Val::Float(b)) => Ok(
            Some(int_order(float_key(widened(a)) as int, float_key(b) as int)),
        ),
        (Val::Float(a), Val::Int(b)) => Ok(
            Some(int_order(float_key(a) as int, float_key(widened(b)) as int)),
        ),
        (Val::Text(a), Val::Text(b)) => Ok(Some(lex_order(encode_utf8(a), encode_utf8(b)))),
        (Val::Bytes(a), Val::Bytes(b)) => Ok(Some(lex_order(a, b))),
        (Val::Bool(a), Val::Bool(b)) => Ok(
            Some(
                if a == b {
                    Order::Equal
                } else if b {
                    Order::Less
                } else {
                    Order::Greater
                },
            ),
        ),
        _ => Err(Fail::Exec),
    }
}

fn order_u64(a: u64, b: u64) -> (r: Order)
    ensures
        r == int_order(a as int, b as int),
{
    if a < b {
        Order::Less
    } else if a == b {
        Order::Equal
    } else {
        Order::Greater
    }
}

/// The place of a float among all floats.
fn float_place(bits: u64) -> (r: u64)
    ensures
        r == float_key(bits),
{
    if bits >= 0x8000_0000_0000_0000 {
        0xFFFF_FFFF_FFFF_FFFF - bits
    } else {
        bits + 0x8000_0000_0000_0000
    }
}

/// Whether an error says that.
pub open spec fn says<T>(r: core::result::Result<T, ExecError>, text: Seq<char>) -> bool {
    r matches Err(e) ==> e.text() == text
}

/// Why two values do not compare.
pub open spec fn compare_text(l: Val, r: Val) -> Seq<char> {
    "cannot compare a "@ + type_word(l) + " to a "@ + type_word(r)
}

/// Ordering comparison. `None` means null was involved. Type mismatches
/// (other than int/float) are errors.
pub fn compare(l: &Value, r: &Value) -> (o: core::result::Result<Option<Order>, ExecError>)
    ensures
        match o {
            Ok(x) => ordered(l@, r@) == Ok::<Option<Order>, Fail>(x),
            Err(e) => ordered(l@, r@) == Err::<Option<Order>, Fail>(e.fail()),
        },
        says(o, compare_text(l@, r@)),
{
    match (l, r) {
        (Value::Null, _) => Ok(None),
        (_, Value::Null) => Ok(None),
        (Value::Int(a), Value::Int(b)) => Ok(
            Some(
                if *a < *b {
                    Order::Less
                } else if *a == *b {
                    Order::Equal
                } else {
                    Order::Greater
                },
            ),
        ),
        (Value::Float(a), Value::Float(b)) => Ok(
            Some(order_u64(float_place(*a), float_place(*b))),
        ),
        (Value::Int(a), Value::Float(b)) => Ok(
            Some(order_u64(float_place(widen(*a)), float_place(*b))),
        ),
        (Value::Float(a), Value::Int(b)) => Ok(
            Some(order_u64(float_place(*a), float_place(widen(*b)))),
        ),
        (Value::Text(a), Value::Text(b)) => Ok(
            Some(order_bytes(a.as_str().as_bytes(), b.as_str().as_bytes())),
        ),
        (Value::Bytes(a), Value::Bytes(b)) => Ok(Some(order_bytes(a.as_slice(), b.as_slice()))),
        (Value::Bool(a), Value::Bool(b)) => Ok(
            Some(
                if *a == *b {
                    Order::Equal
                } else if *b {
                    Order::Less
                } else {
                    Order::Greater
                },
            ),
        ),
        (a, b) => Err(
            ExecError::Exec(
                join2(
                    join3("cannot compare a ", type_of(a), " to a ").as_str(),
                    type_of(b),
                ),
            ),
        ),
    }
}

/// `=` semantics: null is a plain value here.
pub open spec fn equal(l: Val, r: Val) -> core::result::Result<bool, Fail> {
    if l is Null || r is Null {
        Ok(l is Null && r is Null)
    } else {
        match ordered(l, r) {
            Ok(o) => Ok(o == Some(Order::Equal)),
            Err(e) => Err(e),
        }
    }
}

pub fn values_equal(l: &Value, r: &Value) -> (o: core::result::Result<bool, ExecError>)
    ensures
        match o {
            Ok(x) => equal(l@, r@) == Ok::<bool, Fail>(x),
            Err(e) => equal(l@, r@) == Err::<bool, Fail>(e.fail()),
        },
        says(o, compare_text(l@, r@)),
{
    match (l, r) {
        (Value::Null, Value::Null) => Ok(true),
        (Value::Null, _) => Ok(false),
        (_, Value::Null) => Ok(false),
        _ => match compare(l, r) {
            Ok(Some(Order::Equal)) => Ok(true),
            Ok(_) => Ok(false),
            Err(e) => Err(e),
        },
    }
}

/// Sort order for `order by`: null first, then the natural order of the
/// column's type. Values that do not compare count as equal.
pub open spec fn sort_order(l: Val, r: Val) -> Order {
    if l is Null && r is Null {
        Order::Equal
    } else if l is Null {
        Order::Less
    } else if r is Null {
        Order::Greater
    } else {
        match ordered(l, r) {
            Ok(Some(o)) => o,
            _ => Order::Equal,
        }
    }
}

pub fn sort_values(l: &Value, r: &Value) -> (o: Order)
    ensures
        o == sort_order(l@, r@),
{
    match (l, r) {
        (Value::Null, Value::Null) => Order::Equal,
        (Value::Null, _) => Order::Less,
        (_, Value::Null) => Order::Greater,
        _ => match compare(l, r) {
            Ok(Some(o)) => o,
            _ => Order::Equal,
        },
    }
}

// ---------------------------------------------------------------------
// evaluation
// ---------------------------------------------------------------------

/// Division that truncates toward zero.
pub open spec fn trunc_div(a: int, b: int) -> int {
    let q = (if a < 0 {
        -a
    } else {
        a
    }) / (if b < 0 {
        -b
    } else {
        b
    });
    if (a < 0) == (b < 0) {
        q
    } else {
        -q
    }
}

/// The remainder that goes with it.
pub open spec fn trunc_rem(a: int, b: int) -> int {
    let m = (if a < 0 {
        -a
    } else {
        a
    }) % (if b < 0 {
        -b
    } else {
        b
    });
    if a < 0 {
        -m
    } else {
        m
    }
}

/// An exact integer result, if it fits.
pub open spec fn fitting(x: int) -> core::result::Result<Val, Fail> {
    if i64::MIN <= x <= i64::MAX {
        Ok(Val::Int(x as i64))
    } else {
        Err(Fail::Exec)
    }
}

pub open spec fn int_arith(a: i64, op: BinaryOp, b: i64) -> core::result::Result<Val, Fail> {
    match op {
        BinaryOp::Add => fitting(a + b),
        BinaryOp::Sub => fitting(a - b),
        BinaryOp::Mul => fitting(a * b),
        BinaryOp::Div => if b == 0 {
            Err(Fail::Exec)
        } else {
            fitting(trunc_div(a as int, b as int))
        },
        _ => if b == 0 || (a == i64::MIN && b == -1) {
            Err(Fail::Exec)
        } else {
            fitting(trunc_rem(a as int, b as int))
        },
    }
}

/// The bits of a number as a float.
pub open spec fn float_bits(v: Val) -> u64 {
    match v {
        Val::Int(i) => widened(i),
        Val::Float(f) => f,
        _ => 0,
    }
}

/// An arithmetic operator on two values.
pub open spec fn computed(l: Val, op: BinaryOp, r: Val, g: Math) -> core::result::Result<
    Val,
    Fail,
> {
    match (l, r) {
        (Val::Null, _) => Ok(Val::Null),
        (_, Val::Null) => Ok(Val::Null),
        (Val::Int(a), Val::Int(b)) => int_arith(a, op, b),
        (Val::Text(a), Val::Text(b)) => if op is Add {
            Ok(Val::Text(a + b))
        } else {
            Err(Fail::Exec)
        },
        _ => if (l is Int || l is Float) && (r is Int || r is Float) {
            Ok(Val::Float(g(op, float_bits(l), float_bits(r))))
        } else {
            Err(Fail::Exec)
        },
    }
}

fn divide(a: i64, b: i64) -> (r: Option<i64>)
    requires
        b != 0,
    ensures
        match r {
            Some(x) => trunc_div(a as int, b as int) == x,
            None => !(i64::MIN <= trunc_div(a as int, b as int) <= i64::MAX),
        },
{
    let m: u64 = magnitude(a);
    let n: u64 = magnitude(b);
    let q: u64 = m / n;
    proof {
        assert(m as int / n as int <= m) by (nonlinear_arith)
            requires
                n > 0,
        ;
    }
    if (a < 0) == (b < 0) {
        if q > 0x7FFF_FFFF_FFFF_FFFF {
            None
        } else {
            Some(q as i64)
        }
    } else {
        Some((-(q as i128)) as i64)
    }
}

fn remainder(a: i64, b: i64) -> (r: i64)
    requires
        b != 0,
    ensures
        trunc_rem(a as int, b as int) == r,
{
    let m: u64 = magnitude(a);
    let n: u64 = magnitude(b);
    let q: u64 = m % n;
    proof {
        assert(m as int % n as int <= m) by (nonlinear_arith)
            requires
                n > 0,
        ;
    }
    if a < 0 {
        (-(q as i128)) as i64
    } else {
        q as i64
    }
}

/// How far a number is from zero.
fn magnitude(a: i64) -> (r: u64)
    ensures
        r == (if a < 0 {
            -(a as int)
        } else {
            a as int
        }),
        r <= 0x8000_0000_0000_0000,
{
    if a < 0 {
        (-(a as i128)) as u64
    } else {
        a as u64
    }
}

/// Why an operator has no result on two values.
pub open spec fn arith_text(l: Val, op: BinaryOp, r: Val) -> Seq<char> {
    match (l, r) {
        (Val::Int(_), Val::Int(b)) => if b == 0 && !(op is Add || op is Sub || op is Mul) {
            "division by zero"@
        } else {
            "integer overflow"@
        },
        _ => "cannot apply "@ + op.sign() + " to a "@ + type_word(l) + " and a "@ + type_word(r),
    }
}

/// The result, if it fits.
fn narrow(x: i128) -> (r: core::result::Result<Value, ExecError>)
    ensures
        gives(r, fitting(x as int)),
        says(r, "integer overflow"@),
{
    if x < i64::MIN as i128 || x > i64::MAX as i128 {
        Err(ExecError::Exec(owned("integer overflow")))
    } else {
        Ok(Value::Int(x as i64))
    }
}

fn int_result(a: i64, op: BinaryOp, b: i64) -> (r: core::result::Result<Value, ExecError>)
    ensures
        gives(r, int_arith(a, op, b)),
        says(r, arith_text(Val::Int(a), op, Val::Int(b))),
{
    match op {
        BinaryOp::Add => narrow(a as i128 + b as i128),
        BinaryOp::Sub => narrow(a as i128 - b as i128),
        BinaryOp::Mul => {
            proof {
                assert(-0x4000_0000_0000_0000_0000_0000_0000_0000 <= a * b
                    <= 0x4000_0000_0000_0000_0000_0000_0000_0000) by (nonlinear_arith)
                    requires
                        -0x8000_0000_0000_0000 <= a <= 0x7FFF_FFFF_FFFF_FFFF,
                        -0x8000_0000_0000_0000 <= b <= 0x7FFF_FFFF_FFFF_FFFF,
                ;
            }
            narrow(a as i128 * b as i128)
        },
        BinaryOp::Div => {
            if b == 0 {
                return Err(ExecError::Exec(owned("division by zero")));
            }
            match divide(a, b) {
                Some(x) => Ok(Value::Int(x)),
                None => Err(ExecError::Exec(owned("integer overflow"))),
            }
        },
        _ => {
            if b == 0 {
                return Err(ExecError::Exec(owned("division by zero")));
            }
            if a == i64::MIN && b == -1 {
                return Err(ExecError::Exec(owned("integer overflow")));
            }
            Ok(Value::Int(remainder(a, b)))
        },
    }
}

fn as_bits(v: &Value) -> (r: u64)
    ensures
        r == float_bits(v@),
{
    match v {
        Value::Int(i) => widen(*i),
        Value::Float(f) => *f,
        _ => 0,
    }
}

fn arith<M: Fn(BinaryOp, u64, u64) -> u64, T: Fn(u64) -> String>(
    l: &Value,
    op: BinaryOp,
    r: &Value,
    floats: &Floats<M, T>,
) -> (o: core::result::Result<Value, ExecError>)
    requires
        floats.ok(),
    ensures
        gives(o, computed(l@, op, r@, floats.math())),
        says(o, arith_text(l@, op, r@)),
{
    match (l, r) {
        (Value::Null, _) => return Ok(Value::Null),
        (_, Value::Null) => return Ok(Value::Null),
        (Value::Int(a), Value::Int(b)) => return int_result(*a, op, *b),
        (Value::Int(_), Value::Float(_)) | (Value::Float(_), Value::Int(_)) | (
            Value::Float(_),
            Value::Float(_),
        ) => return Ok(Value::Float(floats.apply(op, as_bits(l), as_bits(r)))),
        (Value::Text(a), Value::Text(b)) => {
            if let BinaryOp::Add = op {
                return Ok(Value::Text(join2(a.as_str(), b.as_str())));
            }
        },
        _ => {},
    }
    Err(
        ExecError::Exec(
            join2(
                join3(
                    join3("cannot apply ", op.as_str(), " to a ").as_str(),
                    type_of(l),
                    " and a ",
                ).as_str(),
                type_of(r),
            ),
        ),
    )
}

/// What a condition decides: null counts as false, anything that is not a
/// bool is an error.
pub open spec fn decides(v: Val) -> core::result::Result<bool, Fail> {
    match v {
        Val::Bool(b) => Ok(b),
        Val::Null => Ok(false),
        _ => Err(Fail::Exec),
    }
}

/// Why a value is no condition.
pub open spec fn condition_text(v: Val) -> Seq<char> {
    "the condition is a "@ + type_word(v) + ", not a bool"@
}

/// A filter must produce a bool; null counts as false.
pub fn as_condition(v: &Value) -> (r: core::result::Result<bool, ExecError>)
    ensures
        match r {
            Ok(b) => decides(v@) == Ok::<bool, Fail>(b),
            Err(e) => decides(v@) == Err::<bool, Fail>(e.fail()),
        },
        says(r, condition_text(v@)),
{
    match v {
        Value::Bool(b) => Ok(*b),
        Value::Null => Ok(false),
        other => Err(
            ExecError::Exec(join3("the condition is a ", type_of(other), ", not a bool")),
        ),
    }
}

/// A float with its sign turned.
pub open spec fn turned(bits: u64) -> u64 {
    if bits >= 0x8000_0000_0000_0000 {
        (bits - 0x8000_0000_0000_0000) as u64
    } else {
        (bits + 0x8000_0000_0000_0000) as u64
    }
}

/// A unary operator on a value.
pub open spec fn unary(op: UnaryOp, v: Val) -> core::result::Result<Val, Fail> {
    match (op, v) {
        (_, Val::Null) => Ok(Val::Null),
        (UnaryOp::Neg, Val::Int(i)) => fitting(-(i as int)),
        (UnaryOp::Neg, Val::Float(f)) => Ok(Val::Float(turned(f))),
        (UnaryOp::Not, Val::Bool(b)) => Ok(Val::Bool(!b)),
        _ => Err(Fail::Exec),
    }
}

/// Why a unary operator has no result on a value.
pub open spec fn unary_text(op: UnaryOp, v: Val) -> Seq<char> {
    match op {
        UnaryOp::Neg => if v is Int {
            "integer overflow"@
        } else {
            "cannot negate a "@ + type_word(v)
        },
        UnaryOp::Not => "'not' wants a bool, got a "@ + type_word(v),
    }
}

/// Why a comparison or an arithmetic operator has no result on two values.
pub open spec fn binary_text(l: Val, op: BinaryOp, r: Val) -> Seq<char> {
    match op {
        BinaryOp::Eq
        | BinaryOp::NotEq
        | BinaryOp::Lt
        | BinaryOp::LtEq
        | BinaryOp::Gt
        | BinaryOp::GtEq => compare_text(l, r),
        _ => arith_text(l, op, r),
    }
}

/// A comparison or an arithmetic operator on two values.
pub open spec fn binary(l: Val, op: BinaryOp, r: Val, g: Math) -> core::result::Result<Val, Fail> {
    match op {
        BinaryOp::Eq => match equal(l, r) {
            Ok(b) => Ok(Val::Bool(b)),
            Err(e) => Err(e),
        },
        BinaryOp::NotEq => match equal(l, r) {
            Ok(b) => Ok(Val::Bool(!b)),
            Err(e) => Err(e),
        },
        BinaryOp::Lt | BinaryOp::LtEq | BinaryOp::Gt | BinaryOp::GtEq => match ordered(l, r) {
            Err(e) => Err(e),
            Ok(None) => Ok(Val::Bool(false)),
            Ok(Some(o)) => Ok(
                Val::Bool(
                    match op {
                        BinaryOp::Lt => o is Less,
                        BinaryOp::LtEq => !(o is Greater),
                        BinaryOp::Gt => o is Greater,
                        _ => !(o is Less),
                    },
                ),
            ),
        },
        _ => computed(l, op, r, g),
    }
}

/// What an expression is worth in a scope. `and` and `or` look at the right
/// side only where the left leaves it open.
pub open spec fn worth(
    t: Term,
    s: spec_fn(Name) -> core::result::Result<Val, Fail>,
    g: Math,
) -> core::result::Result<Val, Fail>
    decreases t, 0int,
{
    match t {
        Term::Literal(v) => Ok(v),
        Term::Column(n) => s(n),
        Term::Unary(op, e) => match worth(*e, s, g) {
            Ok(v) => unary(op, v),
            Err(e) => Err(e),
        },
        Term::Binary(l, op, r) => if op is And || op is Or {
            match holds_in(*l, s, g) {
                Err(e) => Err(e),
                Ok(b) => if b == (op is Or) {
                    Ok(Val::Bool(b))
                } else {
                    match holds_in(*r, s, g) {
                        Err(e) => Err(e),
                        Ok(c) => Ok(Val::Bool(c)),
                    }
                },
            }
        } else {
            match worth(*l, s, g) {
                Err(e) => Err(e),
                Ok(a) => match worth(*r, s, g) {
                    Err(e) => Err(e),
                    Ok(b) => binary(a, op, b, g),
                },
            }
        },
    }
}

/// Whether a condition holds in a scope.
pub open spec fn holds_in(
    t: Term,
    s: spec_fn(Name) -> core::result::Result<Val, Fail>,
    g: Math,
) -> core::result::Result<bool, Fail>
    decreases t, 1int,
{
    match worth(t, s, g) {
        Ok(v) => decides(v),
        Err(e) => Err(e),
    }
}

/// Why an expression has no value in a scope; nothing where the scope itself
/// refuses a name.
pub open spec fn complaint(
    t: Term,
    s: spec_fn(Name) -> core::result::Result<Val, Fail>,
    g: Math,
) -> Option<Seq<char>>
    decreases t, 0int,
{
    match t {
        Term::Literal(_) => None,
        Term::Column(_) => None,
        Term::Unary(op, e) => match worth(*e, s, g) {
            Ok(v) => Some(unary_text(op, v)),
            Err(_) => complaint(*e, s, g),
        },
        Term::Binary(l, op, r) => if op is And || op is Or {
            if holds_in(*l, s, g) is Err {
                objection(*l, s, g)
            } else {
                objection(*r, s, g)
            }
        } else {
            match (worth(*l, s, g), worth(*r, s, g)) {
                (Ok(a), Ok(b)) => Some(binary_text(a, op, b)),
                (Ok(_), Err(_)) => complaint(*r, s, g),
                _ => complaint(*l, s, g),
            }
        },
    }
}

/// Why a condition decides nothing in a scope.
pub open spec fn objection(
    t: Term,
    s: spec_fn(Name) -> core::result::Result<Val, Fail>,
    g: Math,
) -> Option<Seq<char>>
    decreases t, 1int,
{
    match worth(t, s, g) {
        Ok(v) => Some(condition_text(v)),
        Err(_) => complaint(t, s, g),
    }
}

/// Whether an error says that, if that is known.
pub open spec fn says_if<T>(r: core::result::Result<T, ExecError>, text: Option<Seq<char>>) -> bool {
    text matches Some(t) ==> says(r, t)
}

fn negate(v: &Value) -> (r: core::result::Result<Value, ExecError>)
    ensures
        gives(r, unary(UnaryOp::Neg, v@)),
        says(r, unary_text(UnaryOp::Neg, v@)),
{
    match v {
        Value::Int(i) => narrow(-(*i as i128)),
        Value::Float(f) => Ok(
            Value::Float(
                if *f >= 0x8000_0000_0000_0000 {
                    *f - 0x8000_0000_0000_0000
                } else {
                    *f + 0x8000_0000_0000_0000
                },
            ),
        ),
        Value::Null => Ok(Value::Null),
        other => Err(ExecError::Exec(join2("cannot negate a ", type_of(other)))),
    }
}

fn invert(v: &Value) -> (r: core::result::Result<Value, ExecError>)
    ensures
        gives(r, unary(UnaryOp::Not, v@)),
        says(r, unary_text(UnaryOp::Not, v@)),
{
    match v {
        Value::Bool(b) => Ok(Value::Bool(!*b)),
        Value::Null => Ok(Value::Null),
        other => Err(ExecError::Exec(join2("'not' wants a bool, got a ", type_of(other)))),
    }
}

/// Evaluate an expression in a scope.
pub fn eval<C: Scope, M: Fn(BinaryOp, u64, u64) -> u64, T: Fn(u64) -> String>(
    expr: &Expr,
    scope: &C,
    floats: &Floats<M, T>,
) -> (r: core::result::Result<Value, ExecError>)
    requires
        scope.ready(),
        floats.ok(),
    ensures
        gives(r, worth(expr@, scope.holds(), floats.math())),
        says_if(r, complaint(expr@, scope.holds(), floats.math())),
    decreases expr,
{
    proof {
        reveal_with_fuel(worth, 3);
        reveal_with_fuel(holds_in, 3);
        reveal_with_fuel(complaint, 3);
        reveal_with_fuel(objection, 3);
    }
    match expr {
        Expr::Literal(v) => Ok(v.duplicate()),
        Expr::Column(c) => scope.column(c),
        Expr::Unary(op, inner) => {
            let v: Value = match eval(inner, scope, floats) {
                Ok(v) => v,
                Err(e) => return Err(e),
            };
            match op {
                UnaryOp::Neg => negate(&v),
                UnaryOp::Not => invert(&v),
            }
        },
        Expr::Binary(lhs, op, rhs) => {
            let l: Value = match eval(lhs, scope, floats) {
                Ok(v) => v,
                Err(e) => return Err(e),
            };
            // and/or short-circuit; null acts as "unknown but falsy enough"
            if *op == BinaryOp::And || *op == BinaryOp::Or {
                let b: bool = match as_condition(&l) {
                    Ok(b) => b,
                    Err(e) => return Err(e),
                };
                if b == (*op == BinaryOp::Or) {
                    return Ok(Value::Bool(b));
                }
                let r: Value = match eval(rhs, scope, floats) {
                    Ok(v) => v,
                    Err(e) => return Err(e),
                };
                return match as_condition(&r) {
                    Ok(c) => Ok(Value::Bool(c)),
                    Err(e) => Err(e),
                };
            }
            let r: Value = match eval(rhs, scope, floats) {
                Ok(v) => v,
                Err(e) => return Err(e),
            };
            apply_binary(&l, *op, &r, floats)
        },
    }
}

fn apply_binary<M: Fn(BinaryOp, u64, u64) -> u64, T: Fn(u64) -> String>(
    l: &Value,
    op: BinaryOp,
    r: &Value,
    floats: &Floats<M, T>,
) -> (o: core::result::Result<Value, ExecError>)
    requires
        floats.ok(),
    ensures
        gives(o, binary(l@, op, r@, floats.math())),
        says(o, binary_text(l@, op, r@)),
{
    match op {
        BinaryOp::Eq => match values_equal(l, r) {
            Ok(b) => Ok(Value::Bool(b)),
            Err(e) => Err(e),
        },
        BinaryOp::NotEq => match values_equal(l, r) {
            Ok(b) => Ok(Value::Bool(!b)),
            Err(e) => Err(e),
        },
        BinaryOp::Lt | BinaryOp::LtEq | BinaryOp::Gt | BinaryOp::GtEq => {
            let o: Order = match compare(l, r) {
                Ok(Some(o)) => o,
                Ok(None) => return Ok(Value::Bool(false)),
                Err(e) => return Err(e),
            };
            let less: bool = match o {
                Order::Less => true,
                _ => false,
            };
            let greater: bool = match o {
                Order::Greater => true,
                _ => false,
            };
            Ok(
                Value::Bool(
                    match op {
                        BinaryOp::Lt => less,
                        BinaryOp::LtEq => !greater,
                        BinaryOp::Gt => greater,
                        _ => !less,
                    },
                ),
            )
        },
        _ => arith(l, op, r, floats),
    }
}

/// Evaluate a condition in a scope.
pub fn check<C: Scope, M: Fn(BinaryOp, u64, u64) -> u64, T: Fn(u64) -> String>(
    expr: &Expr,
    scope: &C,
    floats: &Floats<M, T>,
) -> (r: core::result::Result<bool, ExecError>)
    requires
        scope.ready(),
        floats.ok(),
    ensures
        match r {
            Ok(b) => holds_in(expr@, scope.holds(), floats.math()) == Ok::<bool, Fail>(b),
            Err(e) => holds_in(expr@, scope.holds(), floats.math()) == Err::<bool, Fail>(e.fail()),
        },
        says_if(r, objection(expr@, scope.holds(), floats.math())),
{
    match eval(expr, scope, floats) {
        Ok(v) => as_condition(&v),
        Err(e) => Err(e),
    }
}

// ---------------------------------------------------------------------
// columns and output
// ---------------------------------------------------------------------

/// A value as a column takes it: exact type, int widening into float
/// columns, null only where allowed.
pub open spec fn fitted(v: Val, ty: TypeName, nullable: bool) -> core::result::Result<Val, Fail> {
    match (v, ty) {
        (Val::Null, _) => if nullable {
            Ok(Val::Null)
        } else {
            Err(Fail::Exec)
        },
        (Val::Int(_), TypeName::Int) => Ok(v),
        (Val::Int(i), TypeName::Float) => Ok(Val::Float(widened(i))),
        (Val::Float(_), TypeName::Float) => Ok(v),
        (Val::Text(_), TypeName::Text) => Ok(v),
        (Val::Bytes(_), TypeName::Bytes) => Ok(v),
        (Val::Bool(_), TypeName::Bool) => Ok(v),
        _ => Err(Fail::Exec),
    }
}

/// Fit a value into a column.
pub fn coerce(v: Value, ty: TypeName, nullable: bool) -> (r: core::result::Result<Value, ExecError>)
    ensures
        gives(r, fitted(v@, ty, nullable)),
        says(
            r,
            if v@ is Null {
                "null in a column that is not @null"@
            } else {
                "a "@ + type_word(v@) + " value does not fit into a column of type "@ + ty.word()
            },
        ),
{
    match (&v, ty) {
        (Value::Null, _) => {
            if nullable {
                Ok(Value::Null)
            } else {
                Err(ExecError::Exec(owned("null in a column that is not @null")))
            }
        },
        (Value::Int(_), TypeName::Int) => Ok(v),
        (Value::Int(i), TypeName::Float) => Ok(Value::Float(widen(*i))),
        (Value::Float(_), TypeName::Float) => Ok(v),
        (Value::Text(_), TypeName::Text) => Ok(v),
        (Value::Bytes(_), TypeName::Bytes) => Ok(v),
        (Value::Bool(_), TypeName::Bool) => Ok(v),
        _ => Err(
            ExecError::Exec(
                join2(
                    join3(
                        "a ",
                        type_of(&v),
                        " value does not fit into a column of type ",
                    ).as_str(),
                    ty.as_str(),
                ),
            ),
        ),
    }
}

/// The word for a value's type.
pub open spec fn type_word(v: Val) -> Seq<char> {
    match v {
        Val::Null => "null"@,
        Val::Bool(_) => "bool"@,
        Val::Int(_) => "int"@,
        Val::Float(_) => "float"@,
        Val::Text(_) => "text"@,
        Val::Bytes(_) => "bytes"@,
    }
}

pub fn type_of(v: &Value) -> (r: &'static str)
    ensures
        r@ == type_word(v@),
{
    match v {
        Value::Null => "null",
        Value::Bool(_) => "bool",
        Value::Int(_) => "int",
        Value::Float(_) => "float",
        Value::Text(_) => "text",
        Value::Bytes(_) => "bytes",
    }
}

/// A value as query output shows it.
pub open spec fn rendered(v: Val, f: Shown) -> Seq<char> {
    match v {
        Val::Null => "null"@,
        Val::Bool(b) => if b {
            "true"@
        } else {
            "false"@
        },
        Val::Int(i) => crate::strings::signed_decimal(i as int),
        Val::Float(bits) => f(bits),
        Val::Text(s) => s,
        Val::Bytes(b) => "x\""@ + crate::strings::hex(b) + "\""@,
    }
}

/// Render a value for query output.
pub fn render<M: Fn(BinaryOp, u64, u64) -> u64, T: Fn(u64) -> String>(
    v: &Value,
    floats: &Floats<M, T>,
) -> (r: String)
    requires
        floats.ok(),
    ensures
        r@ == rendered(v@, floats.shown()),
{
    match v {
        Value::Null => owned("null"),
        Value::Bool(b) => if *b {
            owned("true")
        } else {
            owned("false")
        },
        Value::Int(i) => i64_text(*i),
        Value::Float(f) => floats.write(*f),
        Value::Text(s) => owned(s.as_str()),
        Value::Bytes(b) => join3("x\"", to_hex(b.as_slice()).as_str(), "\""),
    }
}

} // verus!
