//! The blob store: content addressed chunks, counted.
//!
//! Chunks live in the catalog tree under `("blob", hash)`, so they are
//! versioned per commit like everything else and their payloads take the
//! overflow chain the B-tree already has. Nothing here needs a new root or
//! a format change.
//!
//! Reachability is not enough to collect them: a chunk nobody references
//! is still an entry in a live tree. So each carries a count, and the
//! entry goes away when it reaches zero.

use vstd::prelude::*;
use vstd::string::*;

use crate::bytes::{
    get_u32, get_u64, le_bytes, lemma_field32, lemma_field64, lemma_le_bytes_len, put_all, put_le,
    same_bytes, u32_at, u64_at,
};
use crate::encoding::{enc_key, encode_key, law_encode_injective, vals, Val, Value};
use crate::error::{Error, Result};
use crate::sha256::{digest, sha256};
use crate::strings::owned;

verus! {

/// Bytes per chunk. Fixed rather than content defined, which dedups
/// identical files and not shifted ones.
pub const CHUNK_SIZE: usize = 0x10_0000;

/// The address of a chunk: the SHA-256 of its bytes.
pub type ChunkHash = [u8; 32];

/// Where a chunk's bytes live.
pub open spec fn chunk_at(hash: Seq<u8>) -> Seq<u8> {
    enc_key(seq![Val::Text("blob"@), Val::Bytes(hash)])
}

/// Where a chunk's reference count lives.
pub open spec fn refs_at(hash: Seq<u8>) -> Seq<u8> {
    enc_key(seq![Val::Text("blobrefs"@), Val::Bytes(hash)])
}

fn named_key(name: &str, hash: &ChunkHash) -> (r: Vec<u8>)
    ensures
        r@ == enc_key(seq![Val::Text(name@), Val::Bytes(hash@)]),
{
    let mut bytes: Vec<u8> = Vec::new();
    put_all(&mut bytes, hash.as_slice());
    let parts: Vec<Value> = vec![Value::Text(owned(name)), Value::Bytes(bytes)];
    proof {
        assert(bytes@ =~= hash@);
        assert(vals(parts@) =~= seq![Val::Text(name@), Val::Bytes(hash@)]);
    }
    encode_key(parts.as_slice())
}

/// The catalog key a chunk's bytes live at. Written once and never
/// rewritten, so its overflow chain is stable.
pub fn chunk_key(hash: &ChunkHash) -> (r: Vec<u8>)
    ensures
        r@ == chunk_at(hash@),
{
    named_key("blob", hash)
}

/// The key a chunk's reference count lives at, away from the bytes.
///
/// A B-tree replaces a value whole, so a count stored alongside the
/// payload would copy the payload's whole overflow chain every time the
/// count moved.
pub fn refs_key(hash: &ChunkHash) -> (r: Vec<u8>)
    ensures
        r@ == refs_at(hash@),
{
    named_key("blobrefs", hash)
}

/// The bytes and the count of a chunk live at different keys, and so do
/// different chunks.
pub proof fn law_chunk_keys_are_distinct(a: Seq<u8>, b: Seq<u8>)
    ensures
        chunk_at(a) != refs_at(b),
        chunk_at(a) == chunk_at(b) ==> a == b,
        refs_at(a) == refs_at(b) ==> a == b,
{
    let ca = seq![Val::Text("blob"@), Val::Bytes(a)];
    let cb = seq![Val::Text("blob"@), Val::Bytes(b)];
    let ra = seq![Val::Text("blobrefs"@), Val::Bytes(a)];
    let rb = seq![Val::Text("blobrefs"@), Val::Bytes(b)];
    if enc_key(ca) == enc_key(rb) {
        law_encode_injective(ca, rb);
        assert(ca[0] == rb[0]);
        reveal_strlit("blob");
        reveal_strlit("blobrefs");
        assert("blob"@.len() == "blobrefs"@.len());
    }
    if enc_key(ca) == enc_key(cb) {
        law_encode_injective(ca, cb);
        assert(ca[1] == cb[1]);
    }
    if enc_key(ra) == enc_key(rb) {
        law_encode_injective(ra, rb);
        assert(ra[1] == rb[1]);
    }
}

/// The address of these bytes.
pub fn hash_chunk(bytes: &[u8]) -> (r: ChunkHash)
    ensures
        r@ == digest(bytes@),
{
    sha256(bytes)
}

/// A reference count as stored.
pub open spec fn refs_stored(refs: u64) -> Seq<u8> {
    le_bytes(refs as nat, 8)
}

pub fn encode_refs(refs: u64) -> (r: Vec<u8>)
    ensures
        r@ == refs_stored(refs),
{
    let mut out: Vec<u8> = Vec::new();
    put_le(&mut out, refs, 8);
    proof {
        assert(out@ =~= refs_stored(refs));
    }
    out
}

pub fn decode_refs(stored: &[u8]) -> (r: Result<u64>)
    ensures
        match r {
            Ok(n) => stored@.len() == 8 && n == u64_at(stored@, 0),
            Err(e) => stored@.len() != 8 && e is Corrupted && e->page is None,
        },
{
    if stored.len() != 8 {
        return Err(Error::corrupted(None, "blob reference count is not eight bytes"));
    }
    Ok(get_u64(stored, 0))
}

/// A count read back is the count stored.
pub proof fn law_refs_decode_inverts_encode(refs: u64)
    ensures
        refs_stored(refs).len() == 8,
        u64_at(refs_stored(refs), 0) == refs,
{
    lemma_field64(refs);
    lemma_le_bytes_len(refs as nat, 8);
    assert(refs_stored(refs).subrange(0, 8) =~= refs_stored(refs));
}

/// What a row keeps instead of the bytes: the size, and the chunks in
/// order.
#[derive(Debug, Clone, PartialEq, Eq)]
pub struct BlobRef {
    /// Total bytes of the blob, which the chunk list also implies but
    /// which a reader wants without walking it.
    pub len: u64,
    /// The chunks, in order. Repeats are allowed and are the point: a
    /// file of a million zeroes is one chunk named many times.
    pub chunks: Vec<ChunkHash>,
}

/// What a descriptor says: the size, and the address of each chunk.
pub type BlobV = (u64, Seq<Seq<u8>>);

pub open spec fn hashes(s: Seq<ChunkHash>) -> Seq<Seq<u8>> {
    Seq::new(s.len(), |i: int| s[i]@)
}

/// Byte strings, one after the other.
pub open spec fn joined_hashes(s: Seq<Seq<u8>>) -> Seq<u8>
    decreases s.len(),
{
    if s.len() == 0 {
        Seq::empty()
    } else {
        joined_hashes(s.drop_last()) + s.last()
    }
}

/// A descriptor as stored.
pub open spec fn blob_stored(b: BlobV) -> Seq<u8> {
    le_bytes(b.0 as nat, 8) + le_bytes(b.1.len() as nat, 4) + joined_hashes(b.1)
}

/// The descriptor that bytes spell, if they are one.
pub open spec fn blob_of(b: Seq<u8>) -> Option<BlobV> {
    if b.len() >= 12 && b.len() == 12 + 32 * u32_at(b, 8) {
        Some(
            (
                u64_at(b, 0),
                Seq::new(u32_at(b, 8) as nat, |i: int| b.subrange(12 + 32 * i, 44 + 32 * i)),
            ),
        )
    } else {
        None
    }
}

proof fn lemma_joined_hashes(s: Seq<Seq<u8>>)
    requires
        forall|i: int| 0 <= i < s.len() ==> (#[trigger] s[i]).len() == 32,
    ensures
        joined_hashes(s).len() == 32 * s.len(),
        forall|i: int|
            0 <= i < s.len() ==> #[trigger] joined_hashes(s).subrange(32 * i, 32 * i + 32) == s[i],
    decreases s.len(),
{
    if s.len() > 0 {
        let d = s.drop_last();
        assert forall|i: int| 0 <= i < d.len() implies (#[trigger] d[i]).len() == 32 by {
            assert(d[i] == s[i]);
        }
        lemma_joined_hashes(d);
        let j = joined_hashes(s);
        let n = s.len() - 1;
        assert(s[n].len() == 32);
        assert forall|i: int| 0 <= i < s.len() implies #[trigger] j.subrange(32 * i, 32 * i + 32)
            == s[i] by {
            if i < n {
                assert(j.subrange(32 * i, 32 * i + 32) =~= joined_hashes(d).subrange(
                    32 * i,
                    32 * i + 32,
                ));
                assert(d[i] == s[i]);
            } else {
                assert(j.subrange(32 * i, 32 * i + 32) =~= s[n]);
            }
        }
    }
}

/// A descriptor survives a round trip.
pub proof fn law_blob_decode_inverts_encode(b: BlobV)
    requires
        b.1.len() <= u32::MAX,
        forall|i: int| 0 <= i < b.1.len() ==> (#[trigger] b.1[i]).len() == 32,
    ensures
        blob_of(blob_stored(b)) == Some(b),
{
    let s = blob_stored(b);
    lemma_joined_hashes(b.1);
    lemma_field64(b.0);
    lemma_field32(b.1.len() as u32);
    lemma_le_bytes_len(b.0 as nat, 8);
    lemma_le_bytes_len(b.1.len() as nat, 4);
    assert(s.subrange(0, 8) =~= le_bytes(b.0 as nat, 8));
    assert(s.subrange(8, 12) =~= le_bytes(b.1.len() as nat, 4));
    let seen = Seq::new(u32_at(s, 8) as nat, |i: int| s.subrange(12 + 32 * i, 44 + 32 * i));
    assert forall|i: int| 0 <= i < seen.len() implies #[trigger] seen[i] == b.1[i] by {
        assert(s.subrange(12 + 32 * i, 44 + 32 * i) =~= joined_hashes(b.1).subrange(
            32 * i,
            32 * i + 32,
        ));
    }
    assert(seen =~= b.1);
}

/// Whether `x` occurs among the first `n` of `s`.
pub open spec fn occurs(s: Seq<Seq<u8>>, n: int, x: Seq<u8>) -> bool {
    exists|i: int| 0 <= i < n && #[trigger] s[i] == x
}

/// How many of the first `n` do not occur earlier.
pub open spec fn distinct_count(s: Seq<Seq<u8>>, n: int) -> nat
    decreases n,
{
    if n <= 0 {
        0
    } else {
        distinct_count(s, n - 1) + (if occurs(s, n - 1, s[n - 1]) {
            0nat
        } else {
            1nat
        })
    }
}

/// That count is the size of the set of what occurs.
pub proof fn law_distinct_count_is_set_size(s: Seq<Seq<u8>>, n: int)
    requires
        0 <= n <= s.len(),
    ensures
        s.take(n).to_set().finite(),
        distinct_count(s, n) == s.take(n).to_set().len(),
    decreases n,
{
    if n > 0 {
        law_distinct_count_is_set_size(s, n - 1);
        let sa = s.take(n - 1);
        let sb = s.take(n);
        let a = sa.to_set();
        let b = sb.to_set();
        let x = s[n - 1];
        assert(b =~= a.insert(x)) by {
            assert forall|y: Seq<u8>| #[trigger] b.contains(y) == a.insert(x).contains(y) by {
                if b.contains(y) {
                    let i = choose|i: int| 0 <= i < n && #[trigger] sb[i] == y;
                    if i < n - 1 {
                        assert(sa[i] == y);
                    }
                }
                if a.contains(y) {
                    let i = choose|i: int| 0 <= i < n - 1 && #[trigger] sa[i] == y;
                    assert(sb[i] == y);
                }
                if y == x {
                    assert(sb[n - 1] == y);
                }
            }
        }
        assert(a.contains(x) == occurs(s, n - 1, x)) by {
            if a.contains(x) {
                let i = choose|i: int| 0 <= i < n - 1 && #[trigger] sa[i] == x;
                assert(s[i] == x);
            }
            if occurs(s, n - 1, x) {
                let i = choose|i: int| 0 <= i < n - 1 && #[trigger] s[i] == x;
                assert(sa[i] == x);
            }
        }
    } else {
        assert(s.take(0).to_set() =~= Set::empty());
    }
}

/// Whether a hash occurs among the first `n`.
fn seen_before(chunks: &Vec<ChunkHash>, n: usize, x: &ChunkHash) -> (r: bool)
    requires
        n <= chunks@.len(),
    ensures
        r == occurs(hashes(chunks@), n as int, x@),
{
    let mut i: usize = 0;
    while i < n
        invariant
            i <= n <= chunks@.len(),
            !occurs(hashes(chunks@), i as int, x@),
        decreases n - i,
    {
        if same_bytes(chunks[i].as_slice(), x.as_slice()) {
            proof {
                assert(hashes(chunks@)[i as int] == x@);
            }
            return true;
        }
        proof {
            assert forall|j: int| 0 <= j < i + 1 implies hashes(chunks@)[j] != x@ by {}
        }
        i = i + 1;
    }
    false
}

impl View for BlobRef {
    type V = BlobV;

    open spec fn view(&self) -> BlobV {
        (self.len, hashes(self.chunks@))
    }
}

impl BlobRef {
    /// How many distinct chunks this blob holds.
    pub fn distinct_chunks(&self) -> (r: usize)
        ensures
            r == distinct_count(self@.1, self@.1.len() as int),
            r == self@.1.to_set().len(),
    {
        let n: usize = self.chunks.len();
        let mut i: usize = 0;
        let mut count: usize = 0;
        while i < n
            invariant
                i <= n == self.chunks@.len(),
                count <= i,
                count == distinct_count(hashes(self.chunks@), i as int),
            decreases n - i,
        {
            if !seen_before(&self.chunks, i, &self.chunks[i]) {
                count = count + 1;
            }
            i = i + 1;
        }
        proof {
            let s = self@.1;
            law_distinct_count_is_set_size(s, s.len() as int);
            assert(s.take(s.len() as int) =~= s);
        }
        count
    }

    /// The form a row keeps.
    pub fn encode(&self) -> (r: Vec<u8>)
        requires
            self.chunks@.len() <= u32::MAX,
        ensures
            r@ == blob_stored(self@),
    {
        let mut out: Vec<u8> = Vec::new();
        put_le(&mut out, self.len, 8);
        let n: usize = self.chunks.len();
        proof {
            crate::bytes::lemma_pow256_values();
        }
        put_le(&mut out, n as u64, 4);
        let ghost head = out@;
        let ghost hs = hashes(self.chunks@);
        let mut i: usize = 0;
        proof {
            assert(hs.take(0) =~= Seq::empty());
            assert(out@ =~= head + joined_hashes(hs.take(0)));
        }
        while i < n
            invariant
                i <= n == self.chunks@.len(),
                hs == hashes(self.chunks@),
                out@ == head + joined_hashes(hs.take(i as int)),
            decreases n - i,
        {
            put_all(&mut out, self.chunks[i].as_slice());
            proof {
                assert(hs.take(i + 1).drop_last() =~= hs.take(i as int));
                assert(hs.take(i + 1).last() == hs[i as int]);
                assert(out@ =~= head + joined_hashes(hs.take(i + 1)));
            }
            i = i + 1;
        }
        proof {
            assert(hs.take(n as int) =~= hs);
            assert(out@ =~= blob_stored(self@));
        }
        out
    }

    /// Read one back, refusing anything malformed.
    pub fn decode(bytes: &[u8]) -> (r: Result<BlobRef>)
        ensures
            match r {
                Ok(b) => blob_of(bytes@) == Some(b@),
                Err(e) => blob_of(bytes@) is None && e is Corrupted && e->page is None,
            },
    {
        let n: usize = bytes.len();
        if n < 12 {
            return Err(Error::corrupted(None, "malformed blob descriptor"));
        }
        let len: u64 = get_u64(bytes, 0);
        let count: u32 = get_u32(bytes, 8);
        if (n - 12) as u64 != count as u64 * 32 {
            return Err(Error::corrupted(None, "malformed blob descriptor"));
        }
        let count: usize = count as usize;
        let mut chunks: Vec<ChunkHash> = Vec::new();
        let mut i: usize = 0;
        while i < count
            invariant
                i <= count,
                n == bytes@.len(),
                n == 12 + 32 * count,
                chunks@.len() == i,
                forall|j: int|
                    0 <= j < i ==> (#[trigger] chunks@[j])@ == bytes@.subrange(12 + 32 * j, 44 + 32 * j),
            decreases count - i,
        {
            let mut hash: [u8; 32] = [0u8; 32];
            let at: usize = 12 + 32 * i;
            let mut j: usize = 0;
            while j < 32
                invariant
                    j <= 32,
                    at + 32 <= n == bytes@.len(),
                    forall|k: int| 0 <= k < j ==> #[trigger] hash@[k] == bytes@[at + k],
                decreases 32 - j,
            {
                hash[j] = bytes[at + j];
                j = j + 1;
            }
            proof {
                assert(hash@ =~= bytes@.subrange(12 + 32 * i, 44 + 32 * i));
            }
            chunks.push(hash);
            i = i + 1;
        }
        proof {
            let seen = Seq::new(count as nat, |i: int| bytes@.subrange(12 + 32 * i, 44 + 32 * i));
            assert(hashes(chunks@) =~= seen);
        }
        Ok(BlobRef { len, chunks })
    }
}

} // verus!
