//! What an integer becomes where a float is asked for, told by the number
//! the float's bits stand for.

use vstd::arithmetic::power2::{lemma2_to64_rest, lemma_pow2_adds, lemma_pow2_pos, pow2};
use vstd::prelude::*;

use crate::ast::{BinaryOp, Term, TypeName};
use crate::encoding::Val;
use crate::exec_error::Fail;
use crate::expr_laws::{both, Names};
use crate::value_ops::{
    binary, exponent, fitted, lemma_exponent, nearest, widened, worth, Math,
};

verus! {

/// How far from zero a number is.
pub open spec fn distance(i: i64) -> nat {
    if i < 0 {
        (-(i as int)) as nat
    } else {
        i as nat
    }
}

/// The biased exponent in a float's bits.
pub open spec fn scale_of(bits: u64) -> int {
    (bits as int % 0x8000_0000_0000_0000) / 0x10_0000_0000_0000
}

/// The fraction in a float's bits, with the bit that is not stored.
pub open spec fn whole_fraction(bits: u64) -> int {
    bits as int % 0x10_0000_0000_0000 + 0x10_0000_0000_0000
}

proof fn lemma_fields(low: int, x: int, r: int, sign: int)
    requires
        0 <= r < 0x10_0000_0000_0000,
        0 <= x < 2048,
        low == x * 0x10_0000_0000_0000 + r,
        sign == 0 || sign == 0x8000_0000_0000_0000,
    ensures
        low < 0x8000_0000_0000_0000,
        (sign + low) % 0x8000_0000_0000_0000 == low,
        low / 0x10_0000_0000_0000 == x,
        (sign + low) % 0x10_0000_0000_0000 == r,
{
}

/// The fraction of an integer of up to 53 bits: the integer itself, moved up.
proof fn lemma_small(m: nat, e: nat)
    requires
        pow2(e) <= m < 2 * pow2(e),
        e <= 52,
    ensures
        0x10_0000_0000_0000 <= m * pow2((52 - e) as nat) < 0x20_0000_0000_0000,
{
    lemma2_to64_rest();
    let k = pow2((52 - e) as nat);
    let p = pow2(e);
    lemma_pow2_adds(e, (52 - e) as nat);
    lemma_pow2_pos((52 - e) as nat);
    assert(p * k <= m * k < 2 * (p * k)) by (nonlinear_arith)
        requires
            p <= m < 2 * p,
            k > 0,
    ;
}

/// The fraction of a longer integer: the nearest one.
proof fn lemma_large(m: nat, e: nat)
    requires
        pow2(e) <= m < 2 * pow2(e),
        52 < e < 64,
    ensures
        ({
            let d = pow2((e - 52) as nat);
            let n = nearest(m, d);
            &&& d > 0
            &&& 0x10_0000_0000_0000 <= n <= 0x20_0000_0000_0000
            &&& -d <= 2 * (n * d - m) <= d
        }),
{
    lemma2_to64_rest();
    let d = pow2((e - 52) as nat);
    lemma_pow2_adds(52, (e - 52) as nat);
    lemma_pow2_pos((e - 52) as nat);
    let t: int = 0x10_0000_0000_0000;
    assert(pow2(e) == t * d);
    vstd::arithmetic::div_mod::lemma_fundamental_div_mod(m as int, d as int);
    let q = m / d;
    let r = m % d;
    assert(t <= q < 2 * t) by (nonlinear_arith)
        requires
            m == d * q + r,
            0 <= r < d,
            t * d <= m < 2 * (t * d),
    ;
    let n = nearest(m, d);
    if n == q {
        assert(n * d - m == -r) by (nonlinear_arith)
            requires
                m == d * q + r,
                n == q,
        ;
    } else {
        assert(n * d - m == d - r) by (nonlinear_arith)
            requires
                m == d * q + r,
                n == q + 1,
        ;
    }
}

/// An integer of up to 53 bits becomes the float that stands for it exactly.
/// A longer one becomes a float no farther from it than half of what the
/// last bit of that float is worth. The sign stays, and zero is zero.
pub proof fn law_integers_widen_to_the_nearest(i: i64)
    ensures
        i == 0 ==> widened(i) == 0,
        i != 0 ==> (widened(i) >= 0x8000_0000_0000_0000 <==> i < 0),
        i != 0 ==> {
            let x = scale_of(widened(i));
            let f = whole_fraction(widened(i));
            let m = distance(i);
            &&& 1023 <= x <= 1087
            &&& x <= 1075 ==> f == m * pow2((1075 - x) as nat)
            &&& x > 1075 ==> {
                let unit = pow2((x - 1075) as nat);
                -unit <= 2 * (f * unit - m) <= unit
            }
        },
{
    if i != 0 {
        lemma2_to64_rest();
        let m = distance(i);
        let e = exponent(m);
        lemma_exponent(m);
        let t: int = 0x10_0000_0000_0000;
        let sign: int = if i < 0 {
            0x8000_0000_0000_0000int
        } else {
            0
        };
        if e <= 52 {
            lemma_small(m, e);
            let n = m * pow2((52 - e) as nat);
            lemma_fields((e + 1022) * t + n, e as int + 1023, n - t, sign);
        } else {
            lemma_large(m, e);
            let d = pow2((e - 52) as nat);
            let n = nearest(m, d);
            if n < 2 * t {
                lemma_fields((e + 1022) * t + n, e as int + 1023, n - t, sign);
            } else {
                lemma_fields((e + 1022) * t + n, e as int + 1024, 0, sign);
                lemma_pow2_adds(1, (e - 52) as nat);
                assert(pow2(1) == 2) by {
                    vstd::arithmetic::power2::lemma2_to64();
                }
                assert(t * (2 * d) == (2 * t) * d) by (nonlinear_arith);
            }
        }
    }
}

/// An integer beside a float counts as the float it becomes: in
/// comparisons, and in sums, where the left number stays left.
pub proof fn law_mixed_numbers_are_floats(
    l: Term,
    r: Term,
    wide: Term,
    i: i64,
    x: u64,
    op: BinaryOp,
    s: Names,
    g: Math,
)
    requires
        worth(l, s, g) == Ok::<Val, Fail>(Val::Int(i)),
        worth(wide, s, g) == Ok::<Val, Fail>(Val::Float(widened(i))),
        worth(r, s, g) == Ok::<Val, Fail>(Val::Float(x)),
        !(op is And || op is Or),
    ensures
        worth(both(l, op, r), s, g) == worth(both(wide, op, r), s, g),
        worth(both(r, op, l), s, g) == worth(both(r, op, wide), s, g),
{
    assert(worth(both(l, op, r), s, g) == binary(Val::Int(i), op, Val::Float(x), g));
    assert(worth(both(r, op, l), s, g) == binary(Val::Float(x), op, Val::Int(i), g));
    assert(worth(both(wide, op, r), s, g) == binary(Val::Float(widened(i)), op, Val::Float(x), g));
    assert(worth(both(r, op, wide), s, g) == binary(Val::Float(x), op, Val::Float(widened(i)), g));
}

/// Floats are worked with by the float arithmetic that was handed in, the
/// left number first.
pub proof fn law_floats_compute(
    l: Term,
    r: Term,
    x: u64,
    y: u64,
    op: BinaryOp,
    s: Names,
    g: Math,
)
    requires
        worth(l, s, g) == Ok::<Val, Fail>(Val::Float(x)),
        worth(r, s, g) == Ok::<Val, Fail>(Val::Float(y)),
        op is Add || op is Sub || op is Mul || op is Div || op is Mod,
    ensures
        worth(both(l, op, r), s, g) == Ok::<Val, Fail>(Val::Float(g(op, x, y))),
{
    assert(worth(both(l, op, r), s, g) == binary(Val::Float(x), op, Val::Float(y), g));
}

/// A float column takes an integer as the float it becomes.
pub proof fn law_float_columns_take_integers(i: i64, nullable: bool)
    ensures
        fitted(Val::Int(i), TypeName::Float, nullable) == Ok::<Val, Fail>(Val::Float(widened(i))),
        fitted(Val::Int(i), TypeName::Int, nullable) == Ok::<Val, Fail>(Val::Int(i)),
{
}

} // verus!
