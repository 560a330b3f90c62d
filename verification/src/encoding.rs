//! Order-preserving key encoding.
//!
//! The B-tree compares raw bytes and nothing else. This module guarantees
//! that byte order equals logical order for every supported type, so the
//! tree never needs a comparator, a schema or a type tag lookup.
//!
//! Every element starts with a type tag, tags are ordered so that values of
//! different types have a stable total order, and each type encodes so that
//! byte order agrees with its logical order:
//!
//! - int: i64 with the sign bit flipped, big endian
//! - float: f64 bits, sign-dependent flip, big endian. Matches IEEE total
//!   order, so -NaN < -inf < ... < -0.0 < 0.0 < ... < +inf < +NaN
//! - text and bytes: raw bytes with 0x00 escaped as 0x00 0xFF, terminated
//!   by a single 0x00
//!
//! Tuples are just concatenated elements, which gives lexicographic tuple
//! order and makes every encoded tuple a valid range-scan prefix of its
//! extensions.

use vstd::prelude::*;
use vstd::string::*;
use vstd::utf8::{decode_utf8, encode_utf8, valid_utf8};

use crate::bytes::{
    be_bytes, be_value, copy_vec, get_be64, lemma_be_bytes_len, lemma_be_roundtrip,
    lemma_be_value_bound, lemma_be_value_bytes, lemma_pow256_values, pow256, put_be64, same_bytes,
};
use crate::error::{Error, Result};
use crate::order::{lemma_lex_common_prefix, lemma_lex_irrefl, lex_lt};
use crate::strings::{lemma_utf8_injective, same_text, text_from_utf8};

verus! {

pub const TAG_NULL: u8 = 0x01;
pub const TAG_BOOL: u8 = 0x02;
pub const TAG_INT: u8 = 0x03;
pub const TAG_FLOAT: u8 = 0x04;
pub const TAG_TEXT: u8 = 0x05;
pub const TAG_BYTES: u8 = 0x06;

/// A typed value. A float is held as its IEEE bit pattern.
#[derive(Debug, Clone, PartialEq, Eq)]
pub enum Value {
    Null,
    Bool(bool),
    Int(i64),
    Float(u64),
    Text(String),
    Bytes(Vec<u8>),
}

/// What a [`Value`] stands for.
#[verifier::ext_equal]
pub enum Val {
    Null,
    Bool(bool),
    Int(i64),
    Float(u64),
    Text(Seq<char>),
    Bytes(Seq<u8>),
}

impl View for Value {
    type V = Val;

    open spec fn view(&self) -> Val {
        match self {
            Value::Null => Val::Null,
            Value::Bool(b) => Val::Bool(*b),
            Value::Int(i) => Val::Int(*i),
            Value::Float(f) => Val::Float(*f),
            Value::Text(s) => Val::Text(s@),
            Value::Bytes(b) => Val::Bytes(b@),
        }
    }
}

/// What a row of values stands for.
pub open spec fn vals(s: Seq<Value>) -> Seq<Val> {
    Seq::new(s.len(), |i: int| s[i]@)
}

pub proof fn lemma_vals(s: Seq<Value>)
    ensures
        vals(s).len() == s.len(),
        forall|v: Value| vals(s.push(v)) == #[trigger] vals(s).push(v@),
{
    assert forall|v: Value| vals(s.push(v)) == #[trigger] vals(s).push(v@) by {
        assert(vals(s.push(v)) =~= vals(s).push(v@));
    }
}

/// Where an int sits among all of them, counting from the smallest.
pub open spec fn int_key(i: i64) -> nat {
    (i + 0x8000_0000_0000_0000) as nat
}

/// Where a float sits in IEEE total order, counting from the smallest.
pub open spec fn float_key(bits: u64) -> nat {
    if bits >= 0x8000_0000_0000_0000 {
        (0xFFFF_FFFF_FFFF_FFFF - bits) as nat
    } else {
        (bits + 0x8000_0000_0000_0000) as nat
    }
}

/// The float at place `k` of the total order.
pub open spec fn float_at(k: nat) -> u64 {
    if k >= 0x8000_0000_0000_0000 {
        (k - 0x8000_0000_0000_0000) as u64
    } else {
        (0xFFFF_FFFF_FFFF_FFFF - k) as u64
    }
}

/// Raw bytes with 0x00 escaped as 0x00 0xFF, terminated by one 0x00.
pub open spec fn escaped(d: Seq<u8>) -> Seq<u8>
    decreases d.len(),
{
    if d.len() == 0 {
        seq![0u8]
    } else if d[0] == 0 {
        seq![0u8, 0xFFu8] + escaped(d.skip(1))
    } else {
        seq![d[0]] + escaped(d.skip(1))
    }
}

/// Undo [`escaped`] at the front of `b`: the raw bytes and how many bytes
/// of `b` they took.
pub open spec fn unescaped(b: Seq<u8>) -> Option<(Seq<u8>, nat)>
    decreases b.len(),
{
    if b.len() == 0 {
        None
    } else if b[0] == 0 {
        if b.len() > 1 && b[1] == 0xFF {
            match unescaped(b.skip(2)) {
                Some((d, n)) => Some((seq![0u8] + d, n + 2)),
                None => None,
            }
        } else {
            Some((Seq::empty(), 1))
        }
    } else {
        match unescaped(b.skip(1)) {
            Some((d, n)) => Some((seq![b[0]] + d, n + 1)),
            None => None,
        }
    }
}

/// One value as bytes.
pub open spec fn enc(v: Val) -> Seq<u8> {
    match v {
        Val::Null => seq![TAG_NULL],
        Val::Bool(b) => seq![TAG_BOOL, if b { 1u8 } else { 0u8 }],
        Val::Int(i) => seq![TAG_INT] + be_bytes(int_key(i), 8),
        Val::Float(f) => seq![TAG_FLOAT] + be_bytes(float_key(f), 8),
        Val::Text(s) => seq![TAG_TEXT] + escaped(encode_utf8(s)),
        Val::Bytes(b) => seq![TAG_BYTES] + escaped(b),
    }
}

/// A tuple as bytes: its elements, concatenated.
pub open spec fn enc_key(vs: Seq<Val>) -> Seq<u8>
    decreases vs.len(),
{
    if vs.len() == 0 {
        Seq::empty()
    } else {
        enc(vs[0]) + enc_key(vs.skip(1))
    }
}

/// The value at the front of `b` and how many bytes it takes.
pub open spec fn dec(b: Seq<u8>) -> Option<(Val, nat)> {
    if b.len() == 0 {
        None
    } else if b[0] == TAG_NULL {
        Some((Val::Null, 1))
    } else if b[0] == TAG_BOOL {
        if b.len() >= 2 && b[1] <= 1 {
            Some((Val::Bool(b[1] == 1), 2))
        } else {
            None
        }
    } else if b[0] == TAG_INT {
        if b.len() >= 9 {
            Some((Val::Int((be_value(b.subrange(1, 9)) - 0x8000_0000_0000_0000) as i64), 9))
        } else {
            None
        }
    } else if b[0] == TAG_FLOAT {
        if b.len() >= 9 {
            Some((Val::Float(float_at(be_value(b.subrange(1, 9)))), 9))
        } else {
            None
        }
    } else if b[0] == TAG_TEXT {
        match unescaped(b.skip(1)) {
            Some((d, n)) => if valid_utf8(d) {
                Some((Val::Text(decode_utf8(d)), n + 1))
            } else {
                None
            },
            None => None,
        }
    } else if b[0] == TAG_BYTES {
        match unescaped(b.skip(1)) {
            Some((d, n)) => Some((Val::Bytes(d), n + 1)),
            None => None,
        }
    } else {
        None
    }
}

/// The tuple that `b` encodes, if all of `b` parses.
pub open spec fn dec_key(b: Seq<u8>) -> Option<Seq<Val>>
    decreases b.len(),
{
    if b.len() == 0 {
        Some(Seq::empty())
    } else {
        match dec(b) {
            Some((v, n)) => if 0 < n <= b.len() {
                match dec_key(b.skip(n as int)) {
                    Some(rest) => Some(seq![v] + rest),
                    None => None,
                }
            } else {
                None
            },
            None => None,
        }
    }
}

/// The order of types among one another.
pub open spec fn rank(v: Val) -> nat {
    match v {
        Val::Null => 1,
        Val::Bool(_) => 2,
        Val::Int(_) => 3,
        Val::Float(_) => 4,
        Val::Text(_) => 5,
        Val::Bytes(_) => 6,
    }
}

/// Logical order of two values: by type first, then by value.
pub open spec fn val_lt(a: Val, b: Val) -> bool {
    match (a, b) {
        (Val::Bool(p), Val::Bool(q)) => !p && q,
        (Val::Int(p), Val::Int(q)) => p < q,
        (Val::Float(p), Val::Float(q)) => float_key(p) < float_key(q),
        (Val::Text(p), Val::Text(q)) => lex_lt(encode_utf8(p), encode_utf8(q)),
        (Val::Bytes(p), Val::Bytes(q)) => lex_lt(p, q),
        _ => rank(a) < rank(b),
    }
}

/// Logical order of two tuples: element by element, a proper prefix first.
pub open spec fn tuple_lt(a: Seq<Val>, b: Seq<Val>) -> bool
    decreases a.len(),
{
    if b.len() == 0 {
        false
    } else if a.len() == 0 {
        true
    } else {
        val_lt(a[0], b[0]) || (a[0] == b[0] && tuple_lt(a.skip(1), b.skip(1)))
    }
}

/// Nothing an encoded tuple can start with is 0xFF.
pub open spec fn tail_ok(t: Seq<u8>) -> bool {
    t.len() == 0 || t[0] < 0xFF
}

pub proof fn lemma_enc_nonempty(v: Val)
    ensures
        enc(v).len() >= 1,
        enc(v)[0] <= 6,
        enc(v)[0] == rank(v),
{
}

pub proof fn lemma_enc_key_tail_ok(vs: Seq<Val>)
    ensures
        tail_ok(enc_key(vs)),
        vs.len() > 0 ==> enc_key(vs).len() > 0,
{
    if vs.len() > 0 {
        lemma_enc_nonempty(vs[0]);
        assert(enc_key(vs)[0] == enc(vs[0])[0]);
    }
}

pub proof fn lemma_float_key(f: u64)
    ensures
        float_key(f) < pow256(8),
        float_at(float_key(f)) == f,
{
    lemma_pow256_values();
}

/// Escaped bytes read back as themselves, whatever may stand behind them in
/// a key.
pub proof fn law_unescape_undoes_escape(d: Seq<u8>, t: Seq<u8>)
    requires
        tail_ok(t),
    ensures
        unescaped(escaped(d) + t) == Some((d, escaped(d).len())),
    decreases d.len(),
{
    let e = escaped(d);
    if d.len() == 0 {
        assert((e + t)[0] == 0);
        if t.len() > 0 {
            assert((e + t)[1] == t[0]);
        }
        assert(d =~= Seq::empty());
    } else {
        law_unescape_undoes_escape(d.skip(1), t);
        if d[0] == 0 {
            assert((e + t).skip(2) =~= escaped(d.skip(1)) + t);
            assert((e + t)[0] == 0 && (e + t)[1] == 0xFF);
            assert(seq![0u8] + d.skip(1) =~= d);
        } else {
            assert((e + t).skip(1) =~= escaped(d.skip(1)) + t);
            assert((e + t)[0] == d[0]);
            assert(seq![d[0]] + d.skip(1) =~= d);
        }
    }
}

proof fn lemma_unescaped_exact(b: Seq<u8>)
    ensures
        unescaped(b) matches Some((d, n)) ==> 0 < n <= b.len() && escaped(d) == b.subrange(
            0,
            n as int,
        ),
    decreases b.len(),
{
    if b.len() > 0 {
        if b[0] == 0 {
            if b.len() > 1 && b[1] == 0xFF {
                lemma_unescaped_exact(b.skip(2));
                if let Some((d, n)) = unescaped(b.skip(2)) {
                    let dd = seq![0u8] + d;
                    assert(dd.skip(1) =~= d);
                    assert(escaped(dd) =~= b.subrange(0, (n + 2) as int));
                }
            } else {
                assert(escaped(Seq::<u8>::empty()) =~= b.subrange(0, 1));
            }
        } else {
            lemma_unescaped_exact(b.skip(1));
            if let Some((d, n)) = unescaped(b.skip(1)) {
                let dd = seq![b[0]] + d;
                assert(dd.skip(1) =~= d);
                assert(escaped(dd) =~= b.subrange(0, (n + 1) as int));
            }
        }
    }
}

/// Decoding one encoded value gives it back, whatever tuple follows.
pub proof fn lemma_dec_enc(v: Val, t: Seq<u8>)
    requires
        tail_ok(t),
    ensures
        dec(enc(v) + t) == Some((v, enc(v).len())),
{
    let b = enc(v) + t;
    assert(b[0] == enc(v)[0]);
    lemma_pow256_values();
    match v {
        Val::Null => {},
        Val::Bool(x) => {
            assert(b[1] == enc(v)[1]);
        },
        Val::Int(i) => {
            lemma_be_roundtrip(int_key(i), 8);
            assert(b.subrange(1, 9) =~= be_bytes(int_key(i), 8));
        },
        Val::Float(f) => {
            lemma_float_key(f);
            lemma_be_roundtrip(float_key(f), 8);
            assert(b.subrange(1, 9) =~= be_bytes(float_key(f), 8));
        },
        Val::Text(s) => {
            assert(b.skip(1) =~= escaped(encode_utf8(s)) + t);
            law_unescape_undoes_escape(encode_utf8(s), t);
            vstd::utf8::encode_utf8_valid_utf8(s);
            vstd::utf8::encode_utf8_decode_utf8(s);
        },
        Val::Bytes(d) => {
            assert(b.skip(1) =~= escaped(d) + t);
            law_unescape_undoes_escape(d, t);
        },
    }
}

/// What one value decodes from is exactly its encoding.
pub proof fn lemma_enc_dec(b: Seq<u8>)
    ensures
        dec(b) matches Some((v, n)) ==> 0 < n <= b.len() && enc(v) == b.subrange(0, n as int),
{
    lemma_pow256_values();
    if let Some((v, n)) = dec(b) {
        if b[0] == TAG_NULL {
            assert(enc(v) =~= b.subrange(0, 1));
        } else if b[0] == TAG_BOOL {
            assert(enc(v) =~= b.subrange(0, 2));
        } else if b[0] == TAG_INT || b[0] == TAG_FLOAT {
            let body = b.subrange(1, 9);
            lemma_be_value_bound(body);
            lemma_be_value_bytes(body);
            assert(enc(v) =~= b.subrange(0, 9));
        } else if b[0] == TAG_TEXT {
            lemma_unescaped_exact(b.skip(1));
            if let Some((d, m)) = unescaped(b.skip(1)) {
                vstd::utf8::decode_utf8_encode_utf8(d);
            }
            assert(enc(v) =~= b.subrange(0, n as int));
        } else {
            lemma_unescaped_exact(b.skip(1));
            assert(enc(v) =~= b.subrange(0, n as int));
        }
    }
}

/// Decoding an encoded tuple gives the tuple back.
pub proof fn law_decode_inverts_encode(vs: Seq<Val>)
    ensures
        dec_key(enc_key(vs)) == Some(vs),
    decreases vs.len(),
{
    if vs.len() == 0 {
        assert(vs =~= Seq::empty());
    } else {
        let t = enc_key(vs.skip(1));
        lemma_enc_key_tail_ok(vs.skip(1));
        lemma_dec_enc(vs[0], t);
        lemma_enc_nonempty(vs[0]);
        law_decode_inverts_encode(vs.skip(1));
        assert((enc(vs[0]) + t).skip(enc(vs[0]).len() as int) =~= t);
        assert(seq![vs[0]] + vs.skip(1) =~= vs);
    }
}

/// Only an encoding decodes: what comes out of a key encodes to that key.
pub proof fn law_encode_inverts_decode(b: Seq<u8>)
    ensures
        dec_key(b) matches Some(vs) ==> enc_key(vs) == b,
    decreases b.len(),
{
    if b.len() > 0 {
        if let Some((v, n)) = dec(b) {
            lemma_enc_dec(b);
            law_encode_inverts_decode(b.skip(n as int));
            if let Some(rest) = dec_key(b.skip(n as int)) {
                let vs = seq![v] + rest;
                assert(vs.skip(1) =~= rest);
                assert(enc_key(vs) =~= b);
            }
        }
    } else {
        assert(b =~= Seq::empty());
    }
}

/// No two tuples share a key.
pub proof fn law_encode_injective(a: Seq<Val>, b: Seq<Val>)
    requires
        enc_key(a) == enc_key(b),
    ensures
        a == b,
{
    law_decode_inverts_encode(a);
    law_decode_inverts_encode(b);
}

/// An encoded tuple is a byte prefix of its extensions.
pub proof fn law_tuple_prefix(a: Seq<Val>, b: Seq<Val>)
    ensures
        enc_key(a + b) == enc_key(a) + enc_key(b),
        enc_key(a).is_prefix_of(enc_key(a + b)),
    decreases a.len(),
{
    if a.len() == 0 {
        assert(a + b =~= b);
        assert(enc_key(a) + enc_key(b) =~= enc_key(b));
    } else {
        law_tuple_prefix(a.skip(1), b);
        assert((a + b).skip(1) =~= a.skip(1) + b);
        assert((a + b)[0] == a[0]);
        assert(enc(a[0]) + (enc_key(a.skip(1)) + enc_key(b)) =~= enc_key(a) + enc_key(b));
    }
}

proof fn lemma_lex_push(s: Seq<u8>, t: Seq<u8>, a: u8, b: u8)
    requires
        s.len() == t.len(),
    ensures
        lex_lt(s.push(a), t.push(b)) == (lex_lt(s, t) || (s == t && a < b)),
    decreases s.len(),
{
    reveal_with_fuel(lex_lt, 2);
    let x = s.push(a);
    let y = t.push(b);
    if s.len() == 0 {
        assert(s =~= t);
        assert(x[0] == a && y[0] == b);
        assert(x.skip(1) =~= Seq::empty());
        assert(y.skip(1) =~= Seq::empty());
    } else {
        lemma_lex_push(s.skip(1), t.skip(1), a, b);
        assert(x.skip(1) =~= s.skip(1).push(a));
        assert(y.skip(1) =~= t.skip(1).push(b));
        assert(x[0] == s[0] && y[0] == t[0]);
        if s[0] == t[0] {
            if s.skip(1) == t.skip(1) {
                assert(s =~= seq![s[0]] + s.skip(1));
                assert(t =~= seq![t[0]] + t.skip(1));
            }
        }
    }
}

proof fn lemma_be_order(x: nat, y: nat, n: nat)
    requires
        x < pow256(n),
        y < pow256(n),
    ensures
        lex_lt(be_bytes(x, n), be_bytes(y, n)) == (x < y),
        be_bytes(x, n) == be_bytes(y, n) ==> x == y,
    decreases n,
{
    if n > 0 {
        lemma_be_bytes_len(x / 256, (n - 1) as nat);
        lemma_be_bytes_len(y / 256, (n - 1) as nat);
        lemma_be_order(x / 256, y / 256, (n - 1) as nat);
        lemma_lex_push(
            be_bytes(x / 256, (n - 1) as nat),
            be_bytes(y / 256, (n - 1) as nat),
            (x % 256) as u8,
            (y % 256) as u8,
        );
        lemma_be_roundtrip(x, n);
        lemma_be_roundtrip(y, n);
    }
}

/// Equal lengths decide before anything that follows.
proof fn lemma_lex_same_len(s: Seq<u8>, t: Seq<u8>, ta: Seq<u8>, tb: Seq<u8>)
    requires
        s.len() == t.len(),
        s != t,
    ensures
        lex_lt(s + ta, t + tb) == lex_lt(s, t),
    decreases s.len(),
{
    if s.len() == 0 {
        assert(s =~= t);
    } else {
        assert((s + ta).skip(1) =~= s.skip(1) + ta);
        assert((t + tb).skip(1) =~= t.skip(1) + tb);
        if s[0] == t[0] {
            if s.skip(1) == t.skip(1) {
                assert(s =~= seq![s[0]] + s.skip(1));
                assert(t =~= seq![t[0]] + t.skip(1));
            }
            lemma_lex_same_len(s.skip(1), t.skip(1), ta, tb);
        }
    }
}

proof fn lemma_escaped_order(a: Seq<u8>, ta: Seq<u8>, b: Seq<u8>, tb: Seq<u8>)
    requires
        tail_ok(ta),
        tail_ok(tb),
        a != b,
    ensures
        lex_lt(escaped(a) + ta, escaped(b) + tb) == lex_lt(a, b),
    decreases a.len(),
{
    reveal_with_fuel(lex_lt, 3);
    let x = escaped(a) + ta;
    let y = escaped(b) + tb;
    if a.len() == 0 {
        if b.len() == 0 {
            assert(a =~= b);
        } else if b[0] == 0 {
            assert(x.skip(1) =~= ta);
            assert(y.skip(1)[0] == 0xFF);
            assert(x[0] == 0 && y[0] == 0);
            assert(y.skip(1).len() > 0);
        } else {
            assert(x[0] == 0 && y[0] == b[0]);
        }
    } else if b.len() == 0 {
        if a[0] == 0 {
            assert(y.skip(1) =~= tb);
            assert(x.skip(1)[0] == 0xFF);
            assert(x[0] == 0 && y[0] == 0);
        } else {
            assert(x[0] == a[0] && y[0] == 0);
        }
    } else {
        assert(x[0] == a[0]);
        assert(y[0] == b[0]);
        if a[0] == b[0] {
            if a.skip(1) == b.skip(1) {
                assert(a =~= seq![a[0]] + a.skip(1));
                assert(b =~= seq![b[0]] + b.skip(1));
            }
            lemma_escaped_order(a.skip(1), ta, b.skip(1), tb);
            let xx = escaped(a.skip(1)) + ta;
            let yy = escaped(b.skip(1)) + tb;
            if a[0] == 0 {
                assert(x =~= seq![0u8, 0xFFu8] + xx);
                assert(y =~= seq![0u8, 0xFFu8] + yy);
                lemma_lex_common_prefix(seq![0u8, 0xFFu8], xx, yy);
            } else {
                assert(x =~= seq![a[0]] + xx);
                assert(y =~= seq![a[0]] + yy);
                lemma_lex_common_prefix(seq![a[0]], xx, yy);
            }
        }
    }
}

/// One element decides exactly as its logical order does.
pub proof fn lemma_enc_order(a: Val, ta: Seq<u8>, b: Val, tb: Seq<u8>)
    requires
        tail_ok(ta),
        tail_ok(tb),
        a != b,
    ensures
        lex_lt(enc(a) + ta, enc(b) + tb) == val_lt(a, b),
{
    reveal_with_fuel(lex_lt, 3);
    let x = enc(a) + ta;
    let y = enc(b) + tb;
    lemma_enc_nonempty(a);
    lemma_enc_nonempty(b);
    assert(x[0] == rank(a) && y[0] == rank(b));
    lemma_pow256_values();
    match (a, b) {
        (Val::Bool(p), Val::Bool(q)) => {
            assert(x.skip(1)[0] == (if p { 1u8 } else { 0u8 }));
            assert(y.skip(1)[0] == (if q { 1u8 } else { 0u8 }));
        },
        (Val::Int(p), Val::Int(q)) => {
            lemma_be_order(int_key(p), int_key(q), 8);
            lemma_be_bytes_len(int_key(p), 8);
            lemma_be_bytes_len(int_key(q), 8);
            assert(x.skip(1) =~= be_bytes(int_key(p), 8) + ta);
            assert(y.skip(1) =~= be_bytes(int_key(q), 8) + tb);
            lemma_lex_same_len(be_bytes(int_key(p), 8), be_bytes(int_key(q), 8), ta, tb);
        },
        (Val::Float(p), Val::Float(q)) => {
            lemma_float_key(p);
            lemma_float_key(q);
            lemma_be_order(float_key(p), float_key(q), 8);
            lemma_be_bytes_len(float_key(p), 8);
            lemma_be_bytes_len(float_key(q), 8);
            assert(x.skip(1) =~= be_bytes(float_key(p), 8) + ta);
            assert(y.skip(1) =~= be_bytes(float_key(q), 8) + tb);
            lemma_lex_same_len(be_bytes(float_key(p), 8), be_bytes(float_key(q), 8), ta, tb);
        },
        (Val::Text(p), Val::Text(q)) => {
            if encode_utf8(p) == encode_utf8(q) {
                lemma_utf8_injective(p, q);
            }
            assert(x.skip(1) =~= escaped(encode_utf8(p)) + ta);
            assert(y.skip(1) =~= escaped(encode_utf8(q)) + tb);
            lemma_escaped_order(encode_utf8(p), ta, encode_utf8(q), tb);
        },
        (Val::Bytes(p), Val::Bytes(q)) => {
            assert(x.skip(1) =~= escaped(p) + ta);
            assert(y.skip(1) =~= escaped(q) + tb);
            lemma_escaped_order(p, ta, q, tb);
        },
        _ => {},
    }
}

/// Byte order of encoded tuples equals the logical order of the tuples.
pub proof fn law_byte_order_is_logical_order(a: Seq<Val>, b: Seq<Val>)
    ensures
        lex_lt(enc_key(a), enc_key(b)) == tuple_lt(a, b),
    decreases a.len(),
{
    if b.len() == 0 {
    } else if a.len() == 0 {
        lemma_enc_key_tail_ok(b);
    } else {
        let ta = enc_key(a.skip(1));
        let tb = enc_key(b.skip(1));
        lemma_enc_key_tail_ok(a.skip(1));
        lemma_enc_key_tail_ok(b.skip(1));
        if a[0] == b[0] {
            lemma_lex_common_prefix(enc(a[0]), ta, tb);
            law_byte_order_is_logical_order(a.skip(1), b.skip(1));
            lemma_val_lt_irrefl(a[0]);
        } else {
            lemma_enc_order(a[0], ta, b[0], tb);
        }
    }
}

pub proof fn lemma_val_lt_irrefl(a: Val)
    ensures
        !val_lt(a, a),
{
    match a {
        Val::Text(s) => {
            lemma_lex_irrefl(encode_utf8(s));
        },
        Val::Bytes(s) => {
            lemma_lex_irrefl(s);
        },
        _ => {},
    }
}

fn escape_into(data: &[u8], out: &mut Vec<u8>)
    ensures
        final(out)@ == old(out)@ + escaped(data@),
{
    let ghost start = out@;
    let mut i: usize = 0;
    proof {
        assert(data@.skip(0) =~= data@);
    }
    while i < data.len()
        invariant
            i <= data@.len(),
            out@ + escaped(data@.skip(i as int)) == start + escaped(data@),
        decreases data@.len() - i,
    {
        let b = data[i];
        let ghost before = out@;
        proof {
            assert(data@.skip(i as int).skip(1) =~= data@.skip(i + 1));
        }
        out.push(b);
        if b == 0x00 {
            out.push(0xFF);
        }
        i = i + 1;
        proof {
            let rest = escaped(data@.skip(i as int));
            assert(out@ + rest =~= before + escaped(data@.skip(i - 1)));
        }
    }
    out.push(0x00);
    proof {
        assert(data@.skip(i as int) =~= Seq::empty());
        assert(out@ =~= start + escaped(data@));
    }
}

fn unescape(buf: &[u8], at: usize) -> (r: Option<(Vec<u8>, usize)>)
    requires
        at <= buf@.len(),
    ensures
        match (r, unescaped(buf@.skip(at as int))) {
            (Some((d, end)), Some((sd, n))) => d@ == sd && end == at + n && end <= buf@.len(),
            (None, None) => true,
            _ => false,
        },
{
    let len: usize = buf.len();
    let mut out: Vec<u8> = Vec::new();
    let mut i: usize = at;
    let ghost want = unescaped(buf@.skip(at as int));
    while i < len
        invariant
            at <= i <= len == buf@.len(),
            match unescaped(buf@.skip(i as int)) {
                Some((d, n)) => want == Some((out@ + d, (n + i - at) as nat)),
                None => want is None,
            },
            want == unescaped(buf@.skip(at as int)),
        decreases len - i,
    {
        let b = buf[i];
        let ghost s = buf@.skip(i as int);
        let ghost before = out@;
        proof {
            lemma_unescaped_exact(s);
        }
        if b == 0x00 {
            if i + 1 < len && buf[i + 1] == 0xFF {
                out.push(0x00);
                proof {
                    assert(s.skip(2) =~= buf@.skip(i + 2));
                    if let Some((d, n)) = unescaped(buf@.skip(i + 2)) {
                        assert(before + (seq![0u8] + d) =~= out@ + d);
                    }
                }
                i = i + 2;
            } else {
                proof {
                    assert(out@ + Seq::<u8>::empty() =~= out@);
                }
                return Some((out, i + 1));
            }
        } else {
            out.push(b);
            proof {
                assert(s.skip(1) =~= buf@.skip(i + 1));
                if let Some((d, n)) = unescaped(buf@.skip(i + 1)) {
                    assert(before + (seq![b] + d) =~= out@ + d);
                }
            }
            i = i + 1;
        }
    }
    None
}

impl Value {
    /// Another value equal to this one.
    pub fn duplicate(&self) -> (r: Value)
        ensures
            r@ == self@,
    {
        match self {
            Value::Null => Value::Null,
            Value::Bool(b) => Value::Bool(*b),
            Value::Int(i) => Value::Int(*i),
            Value::Float(f) => Value::Float(*f),
            Value::Text(s) => Value::Text(s.clone()),
            Value::Bytes(b) => Value::Bytes(copy_vec(b.as_slice())),
        }
    }

    /// Whether two values are the same, type included.
    pub fn same(&self, other: &Value) -> (r: bool)
        ensures
            r == (self@ == other@),
    {
        match (self, other) {
            (Value::Null, Value::Null) => true,
            (Value::Bool(a), Value::Bool(b)) => *a == *b,
            (Value::Int(a), Value::Int(b)) => *a == *b,
            (Value::Float(a), Value::Float(b)) => *a == *b,
            (Value::Text(a), Value::Text(b)) => same_text(a.as_str(), b.as_str()),
            (Value::Bytes(a), Value::Bytes(b)) => same_bytes(a.as_slice(), b.as_slice()),
            _ => false,
        }
    }

    fn encode_into(&self, out: &mut Vec<u8>)
        ensures
            final(out)@ == old(out)@ + enc(self@),
    {
        let ghost start = out@;
        match self {
            Value::Null => {
                out.push(TAG_NULL);
                proof {
                    assert(out@ =~= start + enc(self@));
                }
            },
            Value::Bool(b) => {
                out.push(TAG_BOOL);
                out.push(if *b { 1 } else { 0 });
                proof {
                    assert(out@ =~= start + enc(self@));
                }
            },
            Value::Int(i) => {
                out.push(TAG_INT);
                let k: u64 = (*i as i128 + 0x8000_0000_0000_0000i128) as u64;
                put_be64(out, k);
                proof {
                    assert(out@ =~= start + enc(self@));
                }
            },
            Value::Float(bits) => {
                out.push(TAG_FLOAT);
                let ordered: u64 = if *bits >= 0x8000_0000_0000_0000 {
                    0xFFFF_FFFF_FFFF_FFFF - *bits
                } else {
                    *bits + 0x8000_0000_0000_0000
                };
                put_be64(out, ordered);
                proof {
                    assert(out@ =~= start + enc(self@));
                }
            },
            Value::Text(s) => {
                out.push(TAG_TEXT);
                escape_into(s.as_str().as_bytes(), out);
                proof {
                    assert(out@ =~= start + enc(self@));
                }
            },
            Value::Bytes(b) => {
                out.push(TAG_BYTES);
                escape_into(b.as_slice(), out);
                proof {
                    assert(out@ =~= start + enc(self@));
                }
            },
        }
    }
}

/// Encode a tuple of values into a single order-preserving key.
pub fn encode_key(values: &[Value]) -> (r: Vec<u8>)
    ensures
        r@ == enc_key(vals(values@)),
{
    let mut out: Vec<u8> = Vec::new();
    let mut i: usize = 0;
    let ghost all = vals(values@);
    proof {
        assert(all.skip(0) =~= all);
        assert(out@ + enc_key(all) =~= enc_key(all));
    }
    while i < values.len()
        invariant
            i <= values@.len(),
            all == vals(values@),
            out@ + enc_key(all.skip(i as int)) == enc_key(all),
        decreases values@.len() - i,
    {
        let ghost before = out@;
        values[i].encode_into(&mut out);
        proof {
            let s = all.skip(i as int);
            assert(s[0] == values@[i as int]@);
            assert(s.skip(1) =~= all.skip(i + 1));
            assert(before + (enc(s[0]) + enc_key(s.skip(1))) =~= out@ + enc_key(s.skip(1)));
        }
        i = i + 1;
    }
    proof {
        assert(all.skip(i as int) =~= Seq::empty());
        assert(out@ + Seq::<u8>::empty() =~= out@);
    }
    out
}

fn bad_key(what: &str) -> (e: Error)
    ensures
        e is Corrupted,
        e->page is None,
{
    Error::corrupted(None, crate::strings::join2("key decode: ", what).as_str())
}

/// Decode a key back into its tuple. The exact inverse of [`encode_key`];
/// anything that does not parse cleanly and completely is an error.
pub fn decode_key(buf: &[u8]) -> (r: Result<Vec<Value>>)
    ensures
        match r {
            Ok(vs) => dec_key(buf@) == Some(vals(vs@)),
            Err(e) => dec_key(buf@) is None && e is Corrupted && e->page is None,
        },
{
    let len: usize = buf.len();
    let mut out: Vec<Value> = Vec::new();
    let mut at: usize = 0;
    proof {
        assert(buf@.skip(0) =~= buf@);
        assert(vals(out@) =~= Seq::empty());
        if let Some(rest) = dec_key(buf@) {
            assert(Seq::<Val>::empty() + rest =~= rest);
        }
    }
    while at < len
        invariant
            at <= len == buf@.len(),
            match dec_key(buf@.skip(at as int)) {
                Some(rest) => dec_key(buf@) == Some(vals(out@) + rest),
                None => dec_key(buf@) is None,
            },
        decreases len - at,
    {
        let (value, end) = match decode_one(buf, at) {
            Ok(x) => x,
            Err(e) => {
                return Err(e);
            },
        };
        let ghost before = out@;
        let ghost n = (end - at) as nat;
        proof {
            assert(buf@.skip(at as int).skip(n as int) =~= buf@.skip(end as int));
        }
        let ghost v = value@;
        out.push(value);
        proof {
            lemma_vals(before);
            assert(vals(out@) == vals(before).push(v));
            if let Some(rest) = dec_key(buf@.skip(end as int)) {
                assert(vals(before) + (seq![v] + rest) =~= vals(out@) + rest);
            }
        }
        at = end;
    }
    proof {
        assert(buf@.skip(at as int) =~= Seq::empty());
        assert(vals(out@) + Seq::<Val>::empty() =~= vals(out@));
    }
    Ok(out)
}

/// The value that starts at `at`, and where it ends.
fn decode_one(buf: &[u8], at: usize) -> (r: Result<(Value, usize)>)
    requires
        at < buf@.len(),
    ensures
        match r {
            Ok((v, end)) => at < end <= buf@.len() && dec(buf@.skip(at as int)) == Some(
                (v@, (end - at) as nat),
            ),
            Err(e) => dec(buf@.skip(at as int)) is None && e is Corrupted && e->page is None,
        },
{
    let len: usize = buf.len();
    let tag = buf[at];
    let ghost s = buf@.skip(at as int);
    proof {
        assert(s[0] == tag);
        lemma_enc_dec(s);
        assert(s.skip(1) =~= buf@.skip(at + 1));
        lemma_unescaped_exact(s.skip(1));
        lemma_pow256_values();
    }
    if tag == TAG_NULL {
        Ok((Value::Null, at + 1))
    } else if tag == TAG_BOOL {
        if len - at < 2 {
            return Err(bad_key("truncated bool"));
        }
        let b = buf[at + 1];
        proof {
            assert(s[1] == b);
        }
        if b == 0 {
            Ok((Value::Bool(false), at + 2))
        } else if b == 1 {
            Ok((Value::Bool(true), at + 2))
        } else {
            Err(bad_key("bad bool byte"))
        }
    } else if tag == TAG_INT {
        if len - at < 9 {
            return Err(bad_key("truncated int"));
        }
        let raw: u64 = get_be64(buf, at + 1);
        proof {
            assert(s.subrange(1, 9) =~= buf@.subrange(at + 1, at + 9));
            lemma_be_value_bound(s.subrange(1, 9));
        }
        let i: i64 = (raw as i128 - 0x8000_0000_0000_0000i128) as i64;
        Ok((Value::Int(i), at + 9))
    } else if tag == TAG_FLOAT {
        if len - at < 9 {
            return Err(bad_key("truncated float"));
        }
        let ordered: u64 = get_be64(buf, at + 1);
        proof {
            assert(s.subrange(1, 9) =~= buf@.subrange(at + 1, at + 9));
            lemma_be_value_bound(s.subrange(1, 9));
        }
        let bits: u64 = if ordered >= 0x8000_0000_0000_0000 {
            ordered - 0x8000_0000_0000_0000
        } else {
            0xFFFF_FFFF_FFFF_FFFF - ordered
        };
        Ok((Value::Float(bits), at + 9))
    } else if tag == TAG_TEXT {
        match unescape(buf, at + 1) {
            None => Err(bad_key("unterminated text")),
            Some((bytes, end)) => match text_from_utf8(bytes) {
                None => Err(bad_key("text is not utf-8")),
                Some(t) => Ok((Value::Text(t), end)),
            },
        }
    } else if tag == TAG_BYTES {
        match unescape(buf, at + 1) {
            None => Err(bad_key("unterminated bytes")),
            Some((bytes, end)) => Ok((Value::Bytes(bytes), end)),
        }
    } else {
        Err(bad_key("unknown tag"))
    }
}

} // verus!
