//! SHA-256, the address of a blob chunk and the stored form of a token.

use vstd::prelude::*;

use crate::bytes::{be_bytes, be_value, put_all, put_be64, put_zeros};

verus! {

/// The fractional parts of the cube roots of the first 64 primes.
pub const ROUND: [u32; 64] = [
    0x428a2f98, 0x71374491, 0xb5c0fbcf, 0xe9b5dba5, 0x3956c25b, 0x59f111f1, 0x923f82a4, 0xab1c5ed5,
    0xd807aa98, 0x12835b01, 0x243185be, 0x550c7dc3, 0x72be5d74, 0x80deb1fe, 0x9bdc06a7, 0xc19bf174,
    0xe49b69c1, 0xefbe4786, 0x0fc19dc6, 0x240ca1cc, 0x2de92c6f, 0x4a7484aa, 0x5cb0a9dc, 0x76f988da,
    0x983e5152, 0xa831c66d, 0xb00327c8, 0xbf597fc7, 0xc6e00bf3, 0xd5a79147, 0x06ca6351, 0x14292967,
    0x27b70a85, 0x2e1b2138, 0x4d2c6dfc, 0x53380d13, 0x650a7354, 0x766a0abb, 0x81c2c92e, 0x92722c85,
    0xa2bfe8a1, 0xa81a664b, 0xc24b8b70, 0xc76c51a3, 0xd192e819, 0xd6990624, 0xf40e3585, 0x106aa070,
    0x19a4c116, 0x1e376c08, 0x2748774c, 0x34b0bcb5, 0x391c0cb3, 0x4ed8aa4a, 0x5b9cca4f, 0x682e6ff3,
    0x748f82ee, 0x78a5636f, 0x84c87814, 0x8cc70208, 0x90befffa, 0xa4506ceb, 0xbef9a3f7, 0xc67178f2,
];

/// The fractional parts of the square roots of the first eight primes.
pub const START: [u32; 8] = [
    0x6a09e667, 0xbb67ae85, 0x3c6ef372, 0xa54ff53a, 0x510e527f, 0x9b05688c, 0x1f83d9ab, 0x5be0cd19,
];

/// Addition modulo 2^32.
pub open spec fn plus(a: u32, b: u32) -> u32 {
    ((a + b) % 0x1_0000_0000) as u32
}

fn sum(a: u32, b: u32) -> (r: u32)
    ensures
        r == plus(a, b),
{
    ((a as u64 + b as u64) % 0x1_0000_0000) as u32
}

/// Rotate right.
pub open spec fn rotated(x: u32, n: u32) -> u32 {
    (x >> n) | (x << ((32 - n) as u32))
}

fn rotate(x: u32, n: u32) -> (r: u32)
    requires
        0 < n < 32,
    ensures
        r == rotated(x, n),
{
    let m: u32 = 32 - n;
    (x >> n) | (x << m)
}

pub open spec fn big0(x: u32) -> u32 {
    rotated(x, 2) ^ rotated(x, 13) ^ rotated(x, 22)
}

pub open spec fn big1(x: u32) -> u32 {
    rotated(x, 6) ^ rotated(x, 11) ^ rotated(x, 25)
}

pub open spec fn small0(x: u32) -> u32 {
    rotated(x, 7) ^ rotated(x, 18) ^ (x >> 3u32)
}

pub open spec fn small1(x: u32) -> u32 {
    rotated(x, 17) ^ rotated(x, 19) ^ (x >> 10u32)
}

/// A big-endian word.
pub open spec fn word(b: Seq<u8>, at: int) -> u32 {
    be_value(b.subrange(at, at + 4)) as u32
}

/// Word `t` of the schedule of the block at `at`.
pub open spec fn scheduled(b: Seq<u8>, at: int, t: int) -> u32
    decreases t,
{
    if t < 16 {
        word(b, at + 4 * t)
    } else {
        plus(
            plus(small1(scheduled(b, at, t - 2)), scheduled(b, at, t - 7)),
            plus(small0(scheduled(b, at, t - 15)), scheduled(b, at, t - 16)),
        )
    }
}

/// The eight working variables.
#[derive(Clone, Copy)]
pub struct State {
    pub a: u32,
    pub b: u32,
    pub c: u32,
    pub d: u32,
    pub e: u32,
    pub f: u32,
    pub g: u32,
    pub h: u32,
}

/// One round.
pub open spec fn step(s: State, k: u32, w: u32) -> State {
    let ch = (s.e & s.f) ^ (!s.e & s.g);
    let maj = (s.a & s.b) ^ (s.a & s.c) ^ (s.b & s.c);
    let t1 = plus(plus(plus(s.h, big1(s.e)), plus(ch, k)), w);
    let t2 = plus(big0(s.a), maj);
    State { a: plus(t1, t2), b: s.a, c: s.b, d: s.c, e: plus(s.d, t1), f: s.e, g: s.f, h: s.g }
}

/// The first `t` rounds on the block at `at`.
pub open spec fn rounds(s: State, b: Seq<u8>, at: int, t: int) -> State
    decreases t,
{
    if t <= 0 {
        s
    } else {
        step(rounds(s, b, at, t - 1), ROUND@[t - 1], scheduled(b, at, t - 1))
    }
}

pub open spec fn state_plus(s: State, t: State) -> State {
    State {
        a: plus(s.a, t.a),
        b: plus(s.b, t.b),
        c: plus(s.c, t.c),
        d: plus(s.d, t.d),
        e: plus(s.e, t.e),
        f: plus(s.f, t.f),
        g: plus(s.g, t.g),
        h: plus(s.h, t.h),
    }
}

pub open spec fn start() -> State {
    State {
        a: START@[0],
        b: START@[1],
        c: START@[2],
        d: START@[3],
        e: START@[4],
        f: START@[5],
        g: START@[6],
        h: START@[7],
    }
}

/// The state after the first `n` blocks.
pub open spec fn after(b: Seq<u8>, n: int) -> State
    decreases n,
{
    if n <= 0 {
        start()
    } else {
        let s = after(b, n - 1);
        state_plus(s, rounds(s, b, 64 * (n - 1), 64))
    }
}

/// How many zero bytes the padding has.
pub open spec fn fill(len: int) -> nat {
    ((119 - len % 64) % 64) as nat
}

/// A message with its padding: a one bit, zeros, and the length in bits.
pub open spec fn padded(m: Seq<u8>) -> Seq<u8> {
    m + seq![0x80u8] + crate::bytes::zeros(fill(m.len() as int)) + be_bytes(
        (m.len() * 8) as nat % 0x1_0000_0000_0000_0000,
        8,
    )
}

pub open spec fn state_bytes(s: State) -> Seq<u8> {
    be_bytes(s.a as nat, 4) + be_bytes(s.b as nat, 4) + be_bytes(s.c as nat, 4) + be_bytes(
        s.d as nat,
        4,
    ) + be_bytes(s.e as nat, 4) + be_bytes(s.f as nat, 4) + be_bytes(s.g as nat, 4) + be_bytes(
        s.h as nat,
        4,
    )
}

/// The SHA-256 of a message.
pub open spec fn digest(m: Seq<u8>) -> Seq<u8> {
    let p = padded(m);
    state_bytes(after(p, p.len() as int / 64))
}

fn get_word(b: &[u8], at: usize) -> (r: u32)
    requires
        at + 4 <= b@.len(),
    ensures
        r == word(b@, at as int),
{
    let v: u32 = b[at] as u32 * 0x100_0000 + b[at + 1] as u32 * 0x1_0000 + b[at + 2] as u32 * 0x100
        + b[at + 3] as u32;
    proof {
        let s = b@.subrange(at as int, at + 4);
        reveal_with_fuel(be_value, 5);
        assert(s.drop_last() =~= b@.subrange(at as int, at + 3));
        assert(s.drop_last().drop_last() =~= b@.subrange(at as int, at + 2));
        assert(s.drop_last().drop_last().drop_last() =~= b@.subrange(at as int, at + 1));
    }
    v
}

fn put_word(out: &mut Vec<u8>, x: u32)
    ensures
        final(out)@ == old(out)@ + be_bytes(x as nat, 4),
{
    let ghost before = out@;
    out.push((x / 0x100_0000) as u8);
    out.push((x / 0x1_0000 % 0x100) as u8);
    out.push((x / 0x100 % 0x100) as u8);
    out.push((x % 0x100) as u8);
    proof {
        reveal_with_fuel(be_bytes, 5);
        let n = x as nat;
        assert(n / 256 / 256 == n / 0x1_0000);
        assert(n / 256 / 256 / 256 == n / 0x100_0000);
        assert(out@ =~= before + be_bytes(n, 4));
    }
}

fn schedule(b: &[u8], at: usize) -> (w: Vec<u32>)
    requires
        at + 64 <= b@.len(),
    ensures
        w@.len() == 64,
        forall|t: int| 0 <= t < 64 ==> #[trigger] w@[t] == scheduled(b@, at as int, t),
{
    let mut w: Vec<u32> = Vec::new();
    let len: usize = b.len();
    let mut t: usize = 0;
    while t < 64
        invariant
            at + 64 <= len == b@.len(),
            t <= 64,
            w@.len() == t,
            forall|i: int| 0 <= i < t ==> #[trigger] w@[i] == scheduled(b@, at as int, i),
        decreases 64 - t,
    {
        let x: u32 = if t < 16 {
            get_word(b, at + 4 * t)
        } else {
            let p: u32 = w[t - 2];
            let q: u32 = w[t - 15];
            let s1: u32 = rotate(p, 17) ^ rotate(p, 19) ^ (p >> 10u32);
            let s0: u32 = rotate(q, 7) ^ rotate(q, 18) ^ (q >> 3u32);
            sum(sum(s1, w[t - 7]), sum(s0, w[t - 16]))
        };
        w.push(x);
        t = t + 1;
    }
    w
}

fn round(s: State, k: u32, w: u32) -> (r: State)
    ensures
        r == step(s, k, w),
{
    let ch: u32 = (s.e & s.f) ^ (!s.e & s.g);
    let maj: u32 = (s.a & s.b) ^ (s.a & s.c) ^ (s.b & s.c);
    let e1: u32 = rotate(s.e, 6) ^ rotate(s.e, 11) ^ rotate(s.e, 25);
    let a0: u32 = rotate(s.a, 2) ^ rotate(s.a, 13) ^ rotate(s.a, 22);
    let t1: u32 = sum(sum(sum(s.h, e1), sum(ch, k)), w);
    let t2: u32 = sum(a0, maj);
    State { a: sum(t1, t2), b: s.a, c: s.b, d: s.c, e: sum(s.d, t1), f: s.e, g: s.f, h: s.g }
}

fn compress(s: State, b: &[u8], at: usize) -> (r: State)
    requires
        at + 64 <= b@.len(),
    ensures
        r == state_plus(s, rounds(s, b@, at as int, 64)),
{
    let w = schedule(b, at);
    let mut v: State = s;
    let mut t: usize = 0;
    while t < 64
        invariant
            at + 64 <= b@.len(),
            t <= 64,
            w@.len() == 64,
            forall|i: int| 0 <= i < 64 ==> #[trigger] w@[i] == scheduled(b@, at as int, i),
            v == rounds(s, b@, at as int, t as int),
        decreases 64 - t,
    {
        v = round(v, ROUND[t], w[t]);
        t = t + 1;
    }
    State {
        a: sum(s.a, v.a),
        b: sum(s.b, v.b),
        c: sum(s.c, v.c),
        d: sum(s.d, v.d),
        e: sum(s.e, v.e),
        f: sum(s.f, v.f),
        g: sum(s.g, v.g),
        h: sum(s.h, v.h),
    }
}

fn pad(m: &[u8]) -> (p: Vec<u8>)
    ensures
        p@ == padded(m@),
        p@.len() % 64 == 0,
{
    let mut p: Vec<u8> = Vec::new();
    put_all(&mut p, m);
    p.push(0x80);
    let len: usize = m.len();
    put_zeros(&mut p, (119 - len % 64) % 64);
    let bits: u64 = (len as u128 * 8 % 0x1_0000_0000_0000_0000) as u64;
    put_be64(&mut p, bits);
    proof {
        crate::bytes::lemma_be_bytes_len(bits as nat, 8);
        assert(p@ =~= padded(m@));
    }
    p
}

/// The SHA-256 of `message`.
pub fn sha256(message: &[u8]) -> (r: [u8; 32])
    ensures
        r@ == digest(message@),
{
    let p = pad(message);
    let len: usize = p.len();
    let blocks: usize = len / 64;
    let mut s: State = State {
        a: START[0],
        b: START[1],
        c: START[2],
        d: START[3],
        e: START[4],
        f: START[5],
        g: START[6],
        h: START[7],
    };
    let mut n: usize = 0;
    while n < blocks
        invariant
            n <= blocks,
            blocks == len / 64,
            len == p@.len(),
            s == after(p@, n as int),
        decreases blocks - n,
    {
        s = compress(s, p.as_slice(), 64 * n);
        n = n + 1;
    }
    let mut out: Vec<u8> = Vec::new();
    put_word(&mut out, s.a);
    put_word(&mut out, s.b);
    put_word(&mut out, s.c);
    put_word(&mut out, s.d);
    put_word(&mut out, s.e);
    put_word(&mut out, s.f);
    put_word(&mut out, s.g);
    put_word(&mut out, s.h);
    proof {
        lemma_word_len(s);
        assert(out@ =~= state_bytes(s));
    }
    let mut r: [u8; 32] = [0u8; 32];
    let mut i: usize = 0;
    while i < 32
        invariant
            i <= 32,
            out@.len() == 32,
            forall|j: int| 0 <= j < i ==> #[trigger] r@[j] == out@[j],
        decreases 32 - i,
    {
        r[i] = out[i];
        i = i + 1;
    }
    proof {
        assert(r@ =~= out@);
    }
    r
}

proof fn lemma_word_len(s: State)
    ensures
        state_bytes(s).len() == 32,
{
    crate::bytes::lemma_be_bytes_len(s.a as nat, 4);
    crate::bytes::lemma_be_bytes_len(s.b as nat, 4);
    crate::bytes::lemma_be_bytes_len(s.c as nat, 4);
    crate::bytes::lemma_be_bytes_len(s.d as nat, 4);
    crate::bytes::lemma_be_bytes_len(s.e as nat, 4);
    crate::bytes::lemma_be_bytes_len(s.f as nat, 4);
    crate::bytes::lemma_be_bytes_len(s.g as nat, 4);
    crate::bytes::lemma_be_bytes_len(s.h as nat, 4);
}

/// A digest is always 32 bytes.
pub proof fn law_digest_is_32_bytes(m: Seq<u8>)
    ensures
        digest(m).len() == 32,
{
    let p = padded(m);
    lemma_word_len(after(p, p.len() as int / 64));
}

} // verus!
