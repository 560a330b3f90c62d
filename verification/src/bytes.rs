//! Fixed width integers as bytes, and edits of byte strings in place.

use vstd::prelude::*;

verus! {

/// 256 to the power `n`: how many values `n` bytes can hold.
pub open spec fn pow256(n: nat) -> nat
    decreases n,
{
    if n == 0 {
        1
    } else {
        256 * pow256((n - 1) as nat)
    }
}

/// The low `n` bytes of `x`, least significant first.
pub open spec fn le_bytes(x: nat, n: nat) -> Seq<u8>
    decreases n,
{
    if n == 0 {
        Seq::empty()
    } else {
        seq![(x % 256) as u8] + le_bytes(x / 256, (n - 1) as nat)
    }
}

/// The number that `s` spells, least significant byte first.
pub open spec fn le_value(s: Seq<u8>) -> nat
    decreases s.len(),
{
    if s.len() == 0 {
        0
    } else {
        s[0] as nat + 256 * le_value(s.skip(1))
    }
}

/// The low `n` bytes of `x`, most significant first.
pub open spec fn be_bytes(x: nat, n: nat) -> Seq<u8>
    decreases n,
{
    if n == 0 {
        Seq::empty()
    } else {
        be_bytes(x / 256, (n - 1) as nat).push((x % 256) as u8)
    }
}

/// The number that `s` spells, most significant byte first.
pub open spec fn be_value(s: Seq<u8>) -> nat
    decreases s.len(),
{
    if s.len() == 0 {
        0
    } else {
        256 * be_value(s.drop_last()) + s.last() as nat
    }
}

/// `s` with the bytes from `off` on replaced by `t`.
pub open spec fn splice(s: Seq<u8>, off: int, t: Seq<u8>) -> Seq<u8> {
    s.subrange(0, off) + t + s.subrange(off + t.len(), s.len() as int)
}

/// `n` zero bytes.
pub open spec fn zeros(n: nat) -> Seq<u8> {
    Seq::new(n, |i: int| 0u8)
}

pub proof fn lemma_le_bytes_len(x: nat, n: nat)
    ensures
        le_bytes(x, n).len() == n,
    decreases n,
{
    if n > 0 {
        lemma_le_bytes_len(x / 256, (n - 1) as nat);
    }
}

/// Reading back what was written gives the number, if it fits.
pub proof fn lemma_le_roundtrip(x: nat, n: nat)
    requires
        x < pow256(n),
    ensures
        le_value(le_bytes(x, n)) == x,
        le_bytes(x, n).len() == n,
    decreases n,
{
    if n > 0 {
        lemma_le_roundtrip(x / 256, (n - 1) as nat);
        let rest = le_bytes(x / 256, (n - 1) as nat);
        assert(le_bytes(x, n).skip(1) =~= rest);
    }
}

pub proof fn lemma_le_value_bound(s: Seq<u8>)
    ensures
        le_value(s) < pow256(s.len()),
    decreases s.len(),
{
    if s.len() > 0 {
        lemma_le_value_bound(s.skip(1));
    }
}

/// Writing what was read gives the bytes back.
pub proof fn lemma_le_value_bytes(s: Seq<u8>)
    ensures
        le_bytes(le_value(s), s.len()) == s,
    decreases s.len(),
{
    if s.len() > 0 {
        lemma_le_value_bytes(s.skip(1));
        assert(le_value(s) % 256 == s[0] as nat);
        assert(le_value(s) / 256 == le_value(s.skip(1)));
        assert(le_bytes(le_value(s), s.len()) =~= s);
    }
}

pub proof fn lemma_be_bytes_len(x: nat, n: nat)
    ensures
        be_bytes(x, n).len() == n,
    decreases n,
{
    if n > 0 {
        lemma_be_bytes_len(x / 256, (n - 1) as nat);
    }
}

/// Reading back what was written gives the number, if it fits.
pub proof fn lemma_be_roundtrip(x: nat, n: nat)
    requires
        x < pow256(n),
    ensures
        be_value(be_bytes(x, n)) == x,
        be_bytes(x, n).len() == n,
    decreases n,
{
    if n > 0 {
        lemma_be_roundtrip(x / 256, (n - 1) as nat);
        assert(be_bytes(x, n).drop_last() =~= be_bytes(x / 256, (n - 1) as nat));
    }
}

pub proof fn lemma_be_value_bound(s: Seq<u8>)
    ensures
        be_value(s) < pow256(s.len()),
    decreases s.len(),
{
    if s.len() > 0 {
        lemma_be_value_bound(s.drop_last());
    }
}

/// Writing what was read gives the bytes back.
pub proof fn lemma_be_value_bytes(s: Seq<u8>)
    ensures
        be_bytes(be_value(s), s.len()) == s,
    decreases s.len(),
{
    if s.len() > 0 {
        lemma_be_value_bytes(s.drop_last());
        assert(be_value(s) % 256 == s.last() as nat);
        assert(be_value(s) / 256 == be_value(s.drop_last()));
        assert(be_bytes(be_value(s), s.len()) =~= s);
    }
}

pub proof fn lemma_pow256_values()
    ensures
        pow256(0) == 1,
        pow256(1) == 0x100,
        pow256(2) == 0x1_0000,
        pow256(3) == 0x100_0000,
        pow256(4) == 0x1_0000_0000,
        pow256(5) == 0x100_0000_0000,
        pow256(6) == 0x1_0000_0000_0000,
        pow256(7) == 0x100_0000_0000_0000,
        pow256(8) == 0x1_0000_0000_0000_0000,
{
    reveal_with_fuel(pow256, 9);
}

pub proof fn lemma_pow256_mono(m: nat, n: nat)
    requires
        m <= n,
    ensures
        pow256(m) <= pow256(n),
    decreases n,
{
    if m < n {
        lemma_pow256_mono(m, (n - 1) as nat);
    }
}

/// Append the low `n` bytes of `x`, least significant first.
pub fn put_le(out: &mut Vec<u8>, x: u64, n: usize)
    requires
        n <= 8,
    ensures
        final(out)@ == old(out)@ + le_bytes(x as nat, n as nat),
        final(out)@.len() == old(out)@.len() + n,
{
    let mut v: u64 = x;
    let mut i: usize = 0;
    let ghost start = out@;
    proof {
        lemma_le_bytes_len(x as nat, n as nat);
    }
    while i < n
        invariant
            i <= n,
            out@ + le_bytes(v as nat, (n - i) as nat) == start + le_bytes(x as nat, n as nat),
        decreases n - i,
    {
        let ghost before = out@;
        let ghost v0 = v;
        out.push((v % 256) as u8);
        v = v / 256;
        i = i + 1;
        proof {
            let rest = le_bytes(v as nat, (n - i) as nat);
            assert(le_bytes(v0 as nat, (n - i + 1) as nat) == seq![(v0 as nat % 256) as u8] + rest);
            assert(before.push((v0 % 256) as u8) + rest =~= before + (seq![(v0 as nat % 256) as u8]
                + rest));
        }
    }
    proof {
        assert(le_bytes(v as nat, 0nat) =~= Seq::<u8>::empty());
        assert(out@ + Seq::<u8>::empty() =~= out@);
    }
}

/// The number that the `n` bytes at `at` spell, least significant first.
pub fn get_le(buf: &[u8], at: usize, n: usize) -> (r: u64)
    requires
        n <= 8,
        at + n <= buf@.len(),
    ensures
        r == le_value(buf@.subrange(at as int, at + n)),
        r < pow256(n as nat),
{
    let len: usize = buf.len();
    let mut r: u64 = 0;
    let mut i: usize = n;
    while i > 0
        invariant
            i <= n <= 8,
            at + n <= len == buf@.len(),
            r == le_value(buf@.subrange(at + i, at + n)),
        decreases i,
    {
        i = i - 1;
        proof {
            let s = buf@.subrange(at + i, at + n);
            assert(s.skip(1) =~= buf@.subrange(at + i + 1, at + n));
            lemma_le_value_bound(s.skip(1));
            lemma_pow256_mono((n - i - 1) as nat, 7);
            lemma_pow256_values();
        }
        r = r * 256 + buf[at + i] as u64;
    }
    proof {
        lemma_le_value_bound(buf@.subrange(at as int, at + n));
    }
    r
}

/// Overwrite `n` bytes at `at` with the low bytes of `x`.
pub fn set_le(buf: &mut [u8], at: usize, x: u64, n: usize)
    requires
        n <= 8,
        at + n <= old(buf)@.len(),
    ensures
        final(buf)@ == splice(old(buf)@, at as int, le_bytes(x as nat, n as nat)),
{
    let len: usize = buf.len();
    let mut v: u64 = x;
    let mut i: usize = 0;
    let ghost start = buf@;
    let ghost want = le_bytes(x as nat, n as nat);
    proof {
        lemma_le_bytes_len(x as nat, n as nat);
    }
    while i < n
        invariant
            i <= n,
            at + n <= len == buf@.len(),
            buf@.len() == start.len(),
            want.len() == n,
            want.subrange(i as int, n as int) == le_bytes(v as nat, (n - i) as nat),
            forall|j: int| 0 <= j < start.len() && !(at <= j < at + i) ==> buf@[j] == start[j],
            forall|j: int| 0 <= j < i ==> buf@[at + j] == want[j],
        decreases n - i,
    {
        proof {
            assert(want[i as int] == want.subrange(i as int, n as int)[0]);
            assert(want.subrange(i as int, n as int).skip(1) =~= want.subrange(
                i + 1,
                n as int,
            ));
            assert(le_bytes(v as nat, (n - i) as nat).skip(1) =~= le_bytes(
                v as nat / 256,
                (n - i - 1) as nat,
            ));
        }
        buf[at + i] = (v % 256) as u8;
        v = v / 256;
        i = i + 1;
    }
    proof {
        assert(buf@ =~= splice(start, at as int, want));
    }
}

/// Append the eight bytes of `x`, most significant first.
pub fn put_be64(out: &mut Vec<u8>, x: u64)
    ensures
        final(out)@ == old(out)@ + be_bytes(x as nat, 8),
        final(out)@.len() == old(out)@.len() + 8,
{
    let ghost start = out@;
    proof {
        lemma_be_bytes_len(x as nat, 8);
    }
    let mut tmp: Vec<u8> = Vec::new();
    let mut v: u64 = x;
    let mut i: usize = 0;
    let ghost want = be_bytes(x as nat, 8);
    while i < 8
        invariant
            i <= 8,
            tmp@.len() == i,
            want.len() == 8,
            want.subrange(0, 8 - i) == be_bytes(v as nat, (8 - i) as nat),
            forall|j: int| 0 <= j < i ==> tmp@[j] == want[7 - j],
        decreases 8 - i,
    {
        proof {
            assert(want[7 - i] == want.subrange(0, 8 - i).last());
            assert(want.subrange(0, 8 - i).drop_last() =~= want.subrange(0, 7 - i));
            assert(be_bytes(v as nat, (8 - i) as nat).drop_last() =~= be_bytes(
                v as nat / 256,
                (7 - i) as nat,
            ));
        }
        tmp.push((v % 256) as u8);
        v = v / 256;
        i = i + 1;
    }
    let mut k: usize = 8;
    while k > 0
        invariant
            k <= 8,
            tmp@.len() == 8,
            want.len() == 8,
            out@ == start + want.subrange(0, 8 - k),
            forall|j: int| 0 <= j < 8 ==> tmp@[j] == want[7 - j],
        decreases k,
    {
        k = k - 1;
        out.push(tmp[k]);
        proof {
            assert(out@ =~= start + want.subrange(0, 8 - k));
        }
    }
    proof {
        assert(want.subrange(0, 8) =~= want);
    }
}

/// The number that the eight bytes at `at` spell, most significant first.
pub fn get_be64(buf: &[u8], at: usize) -> (r: u64)
    requires
        at + 8 <= buf@.len(),
    ensures
        r == be_value(buf@.subrange(at as int, at + 8)),
{
    let len: usize = buf.len();
    let mut r: u64 = 0;
    let mut i: usize = 0;
    while i < 8
        invariant
            i <= 8,
            at + 8 <= len == buf@.len(),
            r == be_value(buf@.subrange(at as int, at + i)),
        decreases 8 - i,
    {
        proof {
            let s = buf@.subrange(at as int, at + i + 1);
            assert(s.drop_last() =~= buf@.subrange(at as int, at + i));
            lemma_be_value_bound(s.drop_last());
            lemma_pow256_mono(i as nat, 7);
            lemma_pow256_values();
        }
        r = r * 256 + buf[at + i] as u64;
        i = i + 1;
    }
    r
}

/// Append a whole slice.
pub fn put_all(out: &mut Vec<u8>, data: &[u8])
    ensures
        final(out)@ == old(out)@ + data@,
{
    let ghost start = out@;
    let mut i: usize = 0;
    while i < data.len()
        invariant
            i <= data@.len(),
            out@ == start + data@.subrange(0, i as int),
        decreases data@.len() - i,
    {
        out.push(data[i]);
        i = i + 1;
        proof {
            assert(out@ =~= start + data@.subrange(0, i as int));
        }
    }
    proof {
        assert(data@.subrange(0, data@.len() as int) =~= data@);
    }
}

/// Append `n` zero bytes.
pub fn put_zeros(out: &mut Vec<u8>, n: usize)
    ensures
        final(out)@ == old(out)@ + zeros(n as nat),
{
    let ghost start = out@;
    let mut i: usize = 0;
    while i < n
        invariant
            i <= n,
            out@ == start + zeros(i as nat),
        decreases n - i,
    {
        out.push(0);
        i = i + 1;
        proof {
            assert(out@ =~= start + zeros(i as nat));
        }
    }
}

/// A copy of `buf[from..to]`.
pub fn sub_vec(buf: &[u8], from: usize, to: usize) -> (r: Vec<u8>)
    requires
        from <= to <= buf@.len(),
    ensures
        r@ == buf@.subrange(from as int, to as int),
{
    let mut out: Vec<u8> = Vec::new();
    let mut i: usize = from;
    while i < to
        invariant
            from <= i <= to <= buf@.len(),
            out@ == buf@.subrange(from as int, i as int),
        decreases to - i,
    {
        out.push(buf[i]);
        i = i + 1;
        proof {
            assert(out@ =~= buf@.subrange(from as int, i as int));
        }
    }
    out
}

/// A copy of the whole slice.
pub fn copy_vec(buf: &[u8]) -> (r: Vec<u8>)
    ensures
        r@ == buf@,
{
    let r = sub_vec(buf, 0, buf.len());
    proof {
        assert(buf@.subrange(0, buf@.len() as int) =~= buf@);
    }
    r
}

/// Whether two byte strings are the same.
pub fn same_bytes(a: &[u8], b: &[u8]) -> (r: bool)
    ensures
        r == (a@ == b@),
{
    if a.len() != b.len() {
        return false;
    }
    let mut i: usize = 0;
    while i < a.len()
        invariant
            i <= a@.len(),
            a@.len() == b@.len(),
            forall|j: int| 0 <= j < i ==> a@[j] == b@[j],
        decreases a@.len() - i,
    {
        if a[i] != b[i] {
            return false;
        }
        i = i + 1;
    }
    proof {
        assert(a@ =~= b@);
    }
    true
}

/// The 64 bit field at `off`, least significant byte first.
pub open spec fn u64_at(b: Seq<u8>, off: int) -> u64 {
    le_value(b.subrange(off, off + 8)) as u64
}

/// The 32 bit field at `off`, least significant byte first.
pub open spec fn u32_at(b: Seq<u8>, off: int) -> u32 {
    le_value(b.subrange(off, off + 4)) as u32
}

/// The 16 bit field at `off`, least significant byte first.
pub open spec fn u16_at(b: Seq<u8>, off: int) -> u16 {
    le_value(b.subrange(off, off + 2)) as u16
}

/// What a field edit leaves alone, and what it puts down.
pub proof fn lemma_splice_reads(s: Seq<u8>, off: int, t: Seq<u8>)
    requires
        0 <= off,
        off + t.len() <= s.len(),
    ensures
        splice(s, off, t).len() == s.len(),
        forall|a: int, b: int|
            0 <= a <= b <= off || off + t.len() <= a <= b <= s.len() ==> #[trigger] splice(
                s,
                off,
                t,
            ).subrange(a, b) == s.subrange(a, b),
        splice(s, off, t).subrange(off, off + t.len()) == t,
        forall|i: int|
            0 <= i < s.len() && !(off <= i < off + t.len()) ==> #[trigger] splice(s, off, t)[i]
                == s[i],
        forall|i: int| off <= i < off + t.len() ==> #[trigger] splice(s, off, t)[i] == t[i - off],
{
    let r = splice(s, off, t);
    assert forall|a: int, b: int|
        0 <= a <= b <= off || off + t.len() <= a <= b <= s.len() implies #[trigger] r.subrange(a, b)
        == s.subrange(a, b) by {
        assert(r.subrange(a, b) =~= s.subrange(a, b));
    }
    assert(r.subrange(off, off + t.len()) =~= t);
}

/// A field holds what was put in it.
pub proof fn lemma_field64(x: u64)
    ensures
        le_bytes(x as nat, 8).len() == 8,
        le_value(le_bytes(x as nat, 8)) as u64 == x,
{
    lemma_pow256_values();
    lemma_le_roundtrip(x as nat, 8);
}

/// A field holds what was put in it.
pub proof fn lemma_field32(x: u32)
    ensures
        le_bytes(x as nat, 4).len() == 4,
        le_value(le_bytes(x as nat, 4)) as u32 == x,
{
    lemma_pow256_values();
    lemma_le_roundtrip(x as nat, 4);
}

/// A field holds what was put in it.
pub proof fn lemma_field16(x: u16)
    ensures
        le_bytes(x as nat, 2).len() == 2,
        le_value(le_bytes(x as nat, 2)) as u16 == x,
{
    lemma_pow256_values();
    lemma_le_roundtrip(x as nat, 2);
}

/// The 64 bit field at `at`.
pub fn get_u64(buf: &[u8], at: usize) -> (r: u64)
    requires
        at + 8 <= buf@.len(),
    ensures
        r == u64_at(buf@, at as int),
{
    get_le(buf, at, 8)
}

/// The 32 bit field at `at`.
pub fn get_u32(buf: &[u8], at: usize) -> (r: u32)
    requires
        at + 4 <= buf@.len(),
    ensures
        r == u32_at(buf@, at as int),
{
    proof {
        lemma_pow256_values();
    }
    get_le(buf, at, 4) as u32
}

/// The 16 bit field at `at`.
pub fn get_u16(buf: &[u8], at: usize) -> (r: u16)
    requires
        at + 2 <= buf@.len(),
    ensures
        r == u16_at(buf@, at as int),
{
    proof {
        lemma_pow256_values();
    }
    get_le(buf, at, 2) as u16
}

/// Overwrite the bytes at `at` with `data`.
pub fn set_all(buf: &mut [u8], at: usize, data: &[u8])
    requires
        at + data@.len() <= old(buf)@.len(),
    ensures
        final(buf)@ == splice(old(buf)@, at as int, data@),
{
    let len: usize = buf.len();
    let n: usize = data.len();
    let ghost start = buf@;
    let mut i: usize = 0;
    while i < n
        invariant
            i <= n == data@.len(),
            at + n <= len == buf@.len(),
            buf@.len() == start.len(),
            forall|j: int| 0 <= j < start.len() && !(at <= j < at + i) ==> buf@[j] == start[j],
            forall|j: int| 0 <= j < i ==> buf@[at + j] == data@[j],
        decreases n - i,
    {
        buf[at + i] = data[i];
        i = i + 1;
    }
    proof {
        assert forall|j: int| at <= j < at + n implies buf@[j] == data@[j - at] by {
            assert(buf@[at + (j - at)] == data@[j - at]);
        }
        assert(buf@ =~= splice(start, at as int, data@));
    }
}

/// `n` zero bytes.
pub fn zero_vec(n: usize) -> (r: Vec<u8>)
    ensures
        r@ == zeros(n as nat),
{
    let mut out: Vec<u8> = Vec::new();
    put_zeros(&mut out, n);
    proof {
        assert(out@ =~= zeros(n as nat));
    }
    out
}

} // verus!
