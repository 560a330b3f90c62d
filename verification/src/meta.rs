//! Meta pages.
//!
//! Pages 0 and 1 are the two meta slots. A commit writes its meta into slot
//! `txid % 2`, so the previous commit's meta always survives a torn write.
//! Recovery reads both slots and picks the valid one with the highest txid.
//!
//! Body layout, immediately after the 16 byte page header:
//!
//! ```text
//! offset  size  field
//! 16      8     magic "QUANTYDB"
//! 24      4     format version (LE)
//! 28      4     page size (LE)
//! 32      8     txid
//! 40      8     data root page (0 = none)
//! 48      8     catalog root page (0 = none)
//! 56      8     freelist root page (0 = none)
//! 64      8     page count (total pages in file, metas included)
//! 72      8     unix timestamp in ms
//! 80      8     newest commit record page (0 = none)
//! 88      8     refs root page (0 = none)
//! ```

use vstd::prelude::*;

use crate::bytes::{
    get_u32, get_u64, le_bytes, lemma_field32, lemma_field64, lemma_splice_reads, set_all, set_le,
    splice, sub_vec, same_bytes, u32_at, u64_at, zero_vec, zeros,
};
use crate::error::{Error, Result};
use crate::page::{
    checks_out, law_sealed_page_checks_out, page_size_ok, sealed, valid_page_size, with_header,
    PageId, PageType, MAX_PAGE_SIZE, MIN_PAGE_SIZE, NIL_PAGE,
};
use crate::storage::Storage;
use crate::strings::{join2, owned, u64_text};

verus! {

pub const FORMAT_VERSION: u32 = 1;

/// "QUANTYDB".
pub open spec fn magic() -> Seq<u8> {
    seq![0x51u8, 0x55u8, 0x41u8, 0x4Eu8, 0x54u8, 0x59u8, 0x44u8, 0x42u8]
}

/// The eight bytes every meta body starts with.
pub const MAGIC: [u8; 8] = [0x51, 0x55, 0x41, 0x4E, 0x54, 0x59, 0x44, 0x42];

/// Bytes a meta page uses.
pub const META_LEN: usize = 96;

#[derive(Debug, Clone, Copy, PartialEq, Eq)]
pub struct Meta {
    pub page_size: u32,
    pub txid: u64,
    pub data_root: PageId,
    pub catalog_root: PageId,
    pub freelist_root: PageId,
    pub page_count: u64,
    pub unix_ts_ms: u64,
    /// Page holding the newest commit record.
    pub commit_page: PageId,
    /// Root of the tree that holds the branch heads.
    pub refs_root: PageId,
}

/// Nil, or a page of the file that is no meta slot.
pub open spec fn root_in(root: PageId, page_count: u64) -> bool {
    root == NIL_PAGE || 2 <= root < page_count
}

impl Meta {
    /// What a meta has to keep to be worth following.
    pub open spec fn valid(&self) -> bool {
        &&& page_size_ok(self.page_size)
        &&& 2 <= self.page_count
        &&& root_in(self.data_root, self.page_count)
        &&& root_in(self.catalog_root, self.page_count)
        &&& root_in(self.freelist_root, self.page_count)
        &&& root_in(self.commit_page, self.page_count)
        &&& root_in(self.refs_root, self.page_count)
    }

    /// The fields laid out on an empty page, before sealing.
    pub open spec fn raw(&self) -> Seq<u8> {
        let b = with_header(zeros(self.page_size as nat), PageType::Meta);
        let b = splice(b, 16, magic());
        let b = splice(b, 24, le_bytes(FORMAT_VERSION as nat, 4));
        let b = splice(b, 28, le_bytes(self.page_size as nat, 4));
        let b = splice(b, 32, le_bytes(self.txid as nat, 8));
        let b = splice(b, 40, le_bytes(self.data_root as nat, 8));
        let b = splice(b, 48, le_bytes(self.catalog_root as nat, 8));
        let b = splice(b, 56, le_bytes(self.freelist_root as nat, 8));
        let b = splice(b, 64, le_bytes(self.page_count as nat, 8));
        let b = splice(b, 72, le_bytes(self.unix_ts_ms as nat, 8));
        let b = splice(b, 80, le_bytes(self.commit_page as nat, 8));
        splice(b, 88, le_bytes(self.refs_root as nat, 8))
    }

    /// The meta page as stored.
    pub open spec fn page(&self) -> Seq<u8> {
        sealed(self.raw(), self.txid)
    }
}

/// The fields a meta page spells, checked or not.
pub open spec fn fields_of(b: Seq<u8>) -> Meta {
    Meta {
        page_size: u32_at(b, 28),
        txid: u64_at(b, 32),
        data_root: u64_at(b, 40),
        catalog_root: u64_at(b, 48),
        freelist_root: u64_at(b, 56),
        page_count: u64_at(b, 64),
        unix_ts_ms: u64_at(b, 72),
        commit_page: u64_at(b, 80),
        refs_root: u64_at(b, 88),
    }
}

pub open spec fn has_magic(b: Seq<u8>) -> bool {
    b.subrange(16, 24) == magic()
}

/// The meta that `b` holds, if it is a valid meta page.
pub open spec fn meta_of(b: Seq<u8>) -> Option<Meta> {
    let m = fields_of(b);
    if checks_out(b) && has_magic(b) && u32_at(b, 24) == FORMAT_VERSION && m.valid() && m.page_size
        == b.len() {
        Some(m)
    } else {
        None
    }
}

/// Decoding an encoded meta gives the meta back.
pub proof fn law_meta_decode_inverts_encode(m: Meta)
    requires
        m.valid(),
    ensures
        m.page().len() == m.page_size,
        meta_of(m.page()) == Some(m),
        has_magic(m.page()),
{
    let b0 = zeros(m.page_size as nat);
    lemma_splice_reads(b0, 4, seq![PageType::Meta.spec_code(), 0u8, 0u8, 0u8]);
    let b1 = with_header(b0, PageType::Meta);
    lemma_splice_reads(b1, 16, magic());
    let b2 = splice(b1, 16, magic());
    lemma_field32(FORMAT_VERSION);
    lemma_splice_reads(b2, 24, le_bytes(FORMAT_VERSION as nat, 4));
    let b3 = splice(b2, 24, le_bytes(FORMAT_VERSION as nat, 4));
    lemma_field32(m.page_size);
    lemma_splice_reads(b3, 28, le_bytes(m.page_size as nat, 4));
    let b4 = splice(b3, 28, le_bytes(m.page_size as nat, 4));
    lemma_field64(m.txid);
    lemma_splice_reads(b4, 32, le_bytes(m.txid as nat, 8));
    let b5 = splice(b4, 32, le_bytes(m.txid as nat, 8));
    lemma_field64(m.data_root);
    lemma_splice_reads(b5, 40, le_bytes(m.data_root as nat, 8));
    let b6 = splice(b5, 40, le_bytes(m.data_root as nat, 8));
    lemma_field64(m.catalog_root);
    lemma_splice_reads(b6, 48, le_bytes(m.catalog_root as nat, 8));
    let b7 = splice(b6, 48, le_bytes(m.catalog_root as nat, 8));
    lemma_field64(m.freelist_root);
    lemma_splice_reads(b7, 56, le_bytes(m.freelist_root as nat, 8));
    let b8 = splice(b7, 56, le_bytes(m.freelist_root as nat, 8));
    lemma_field64(m.page_count);
    lemma_splice_reads(b8, 64, le_bytes(m.page_count as nat, 8));
    let b9 = splice(b8, 64, le_bytes(m.page_count as nat, 8));
    lemma_field64(m.unix_ts_ms);
    lemma_splice_reads(b9, 72, le_bytes(m.unix_ts_ms as nat, 8));
    let b10 = splice(b9, 72, le_bytes(m.unix_ts_ms as nat, 8));
    lemma_field64(m.commit_page);
    lemma_splice_reads(b10, 80, le_bytes(m.commit_page as nat, 8));
    let b11 = splice(b10, 80, le_bytes(m.commit_page as nat, 8));
    lemma_field64(m.refs_root);
    lemma_splice_reads(b11, 88, le_bytes(m.refs_root as nat, 8));
    let raw = m.raw();
    law_sealed_page_checks_out(raw, m.txid);
    let p = m.page();
    let len = raw.len() as int;
    assert forall|a: int, z: int| 16 <= a <= z <= len implies #[trigger] p.subrange(a, z)
        == raw.subrange(a, z) by {
        assert(p.subrange(a, z) =~= raw.subrange(a, z));
    }
    assert(fields_of(p) == m);
}

impl Meta {
    /// Lay the meta out on a page and seal it.
    pub fn encode(&self, buf: &mut [u8])
        requires
            old(buf)@.len() == self.page_size,
            page_size_ok(self.page_size),
        ensures
            final(buf)@ == self.page(),
    {
        let n: usize = buf.len();
        let mut i: usize = 0;
        while i < n
            invariant
                i <= n == buf@.len(),
                forall|j: int| 0 <= j < i ==> buf@[j] == 0u8,
            decreases n - i,
        {
            buf[i] = 0;
            i = i + 1;
        }
        proof {
            assert(buf@ =~= zeros(self.page_size as nat));
            lemma_field32(FORMAT_VERSION);
            lemma_field32(self.page_size);
            lemma_field64(self.txid);
            lemma_field64(self.data_root);
            lemma_field64(self.catalog_root);
            lemma_field64(self.freelist_root);
            lemma_field64(self.page_count);
            lemma_field64(self.unix_ts_ms);
            lemma_field64(self.commit_page);
            lemma_field64(self.refs_root);
        }
        crate::page::init_header(buf, PageType::Meta);
        let m: [u8; 8] = MAGIC;
        proof {
            assert(m@ =~= magic());
        }
        set_all(buf, 16, m.as_slice());
        set_le(buf, 24, FORMAT_VERSION as u64, 4);
        set_le(buf, 28, self.page_size as u64, 4);
        set_le(buf, 32, self.txid, 8);
        set_le(buf, 40, self.data_root, 8);
        set_le(buf, 48, self.catalog_root, 8);
        set_le(buf, 56, self.freelist_root, 8);
        set_le(buf, 64, self.page_count, 8);
        set_le(buf, 72, self.unix_ts_ms, 8);
        set_le(buf, 80, self.commit_page, 8);
        set_le(buf, 88, self.refs_root, 8);
        crate::page::seal(buf, self.txid);
    }

    /// Decode and fully validate one meta page buffer.
    pub fn decode(buf: &[u8], slot: PageId) -> (r: Result<Meta>)
        requires
            buf@.len() >= META_LEN,
        ensures
            match r {
                Ok(m) => meta_of(buf@) == Some(m),
                Err(Error::InvalidFormat(_)) => checks_out(buf@) && (!has_magic(buf@) || u32_at(
                    buf@,
                    24,
                ) != FORMAT_VERSION),
                Err(Error::Corrupted { page, reason }) => page == Some(slot) && meta_of(buf@) is None
                    && (!checks_out(buf@) || (has_magic(buf@) && u32_at(buf@, 24)
                    == FORMAT_VERSION)),
                Err(_) => false,
            },
    {
        match crate::page::verify(buf, slot) {
            Ok(_) => {},
            Err(e) => {
                return Err(e);
            },
        }
        if !starts_with_magic(buf) {
            return Err(Error::InvalidFormat(owned("bad magic, not a quanty database")));
        }
        let version: u32 = get_u32(buf, 24);
        if version != FORMAT_VERSION {
            return Err(
                Error::InvalidFormat(
                    crate::strings::join3(
                        "format version ",
                        u64_text(version as u64).as_str(),
                        " is not supported (this build reads 1)",
                    ),
                ),
            );
        }
        let page_size: u32 = get_u32(buf, 28);
        if !valid_page_size(page_size) {
            return Err(
                Error::corrupted(
                    Some(slot),
                    join2("implausible page size ", u64_text(page_size as u64).as_str()).as_str(),
                ),
            );
        }
        if page_size as usize != buf.len() {
            return Err(Error::corrupted(Some(slot), "page size does not match meta location"));
        }
        let meta = Meta {
            page_size,
            txid: get_u64(buf, 32),
            data_root: get_u64(buf, 40),
            catalog_root: get_u64(buf, 48),
            freelist_root: get_u64(buf, 56),
            page_count: get_u64(buf, 64),
            unix_ts_ms: get_u64(buf, 72),
            commit_page: get_u64(buf, 80),
            refs_root: get_u64(buf, 88),
        };
        if meta.page_count < 2 {
            return Err(Error::corrupted(Some(slot), "page count below the two meta pages"));
        }
        let n: u64 = meta.page_count;
        if !root_ok(meta.data_root, n) || !root_ok(meta.catalog_root, n) || !root_ok(
            meta.freelist_root,
            n,
        ) || !root_ok(meta.commit_page, n) || !root_ok(meta.refs_root, n) {
            return Err(Error::corrupted(Some(slot), "root pointer out of range"));
        }
        Ok(meta)
    }
}

fn root_ok(root: PageId, page_count: u64) -> (r: bool)
    ensures
        r == root_in(root, page_count),
{
    root == NIL_PAGE || (2 <= root && root < page_count)
}

fn starts_with_magic(buf: &[u8]) -> (r: bool)
    requires
        buf@.len() >= META_LEN,
    ensures
        r == has_magic(buf@),
{
    let m: [u8; 8] = MAGIC;
    proof {
        assert(m@ =~= magic());
    }
    same_bytes(sub_vec(buf, 16, 24).as_slice(), m.as_slice())
}

/// The page size that candidate `n` tries: each legal size twice.
pub open spec fn candidate_size(n: nat) -> int {
    let k = n / 2;
    if k == 0 {
        512
    } else if k == 1 {
        1024
    } else if k == 2 {
        2048
    } else if k == 3 {
        4096
    } else if k == 4 {
        8192
    } else if k == 5 {
        16384
    } else if k == 6 {
        32768
    } else {
        65536
    }
}

/// Where meta slot `slot` starts.
pub open spec fn slot_off(ps: int, slot: nat) -> int {
    if slot == 0 {
        0
    } else {
        ps
    }
}

/// The bytes candidate `n` looks at: slot `n % 2` under its page size.
pub open spec fn candidate_page(bytes: Seq<u8>, n: nat) -> Option<Seq<u8>> {
    let ps = candidate_size(n);
    let off = slot_off(ps, n % 2);
    if off + ps <= bytes.len() {
        Some(bytes.subrange(off, off + ps))
    } else {
        None
    }
}

/// The meta candidate `n` finds, if any.
pub open spec fn candidate(bytes: Seq<u8>, n: nat) -> Option<Meta> {
    match candidate_page(bytes, n) {
        Some(b) => meta_of(b),
        None => None,
    }
}

/// The newest meta among the first `n` candidates.
pub open spec fn newest(bytes: Seq<u8>, n: nat) -> Option<Meta>
    decreases n,
{
    if n == 0 {
        None
    } else {
        let best = newest(bytes, (n - 1) as nat);
        match candidate(bytes, (n - 1) as nat) {
            Some(m) => if best is None || m.txid > best->0.txid {
                Some(m)
            } else {
                best
            },
            None => best,
        }
    }
}

/// Whether any of the first `n` candidates carries the magic.
pub open spec fn magic_seen(bytes: Seq<u8>, n: nat) -> bool {
    exists|k: nat|
        k < n && (#[trigger] candidate_page(bytes, k)) is Some && has_magic(
            candidate_page(bytes, k)->0,
        )
}

/// Find the newest valid meta in an existing database.
///
/// The page size lives inside the meta itself, so this brute-forces the
/// small set of legal page sizes instead of trusting a possibly corrupted
/// size field. Eight candidate sizes, two slots each, cheap and hard to fool.
pub fn recover<S: Storage>(storage: &S) -> (r: Result<Meta>)
    ensures
        r matches Ok(m) ==> m.valid() && exists|k: nat|
            k < 16 && #[trigger] candidate(storage.bytes(), k) == Some(m),
        storage.reliable() ==> match r {
            Ok(m) => newest(storage.bytes(), 16) == Some(m),
            Err(Error::Corrupted { page, reason }) => page is None && newest(storage.bytes(), 16)
                is None && magic_seen(storage.bytes(), 16),
            Err(Error::InvalidFormat(_)) => newest(storage.bytes(), 16) is None && !magic_seen(
                storage.bytes(),
                16,
            ),
            Err(_) => false,
        },
{
    let mut best: Option<Meta> = None;
    let mut saw_magic = false;
    let len: u64 = match storage.len() {
        Ok(n) => n,
        Err(e) => {
            return Err(e);
        },
    };
    let ghost bytes = storage.bytes();
    let mut ps: u32 = MIN_PAGE_SIZE;
    let mut n: u64 = 0;
    while n < 16
        invariant
            n <= 16,
            n < 16 ==> ps == candidate_size(n as nat),
            bytes == storage.bytes(),
            len == bytes.len(),
            best matches Some(m) ==> m.valid() && exists|k: nat|
                k < 16 && #[trigger] candidate(bytes, k) == Some(m),
            storage.reliable() ==> best == newest(bytes, n as nat) && saw_magic == magic_seen(
                bytes,
                n as nat,
            ),
        decreases 16 - n,
    {
        let slot: u64 = n % 2;
        let offset: u64 = if slot == 0 {
            0
        } else {
            ps as u64
        };
        proof {
            assert(offset == slot_off(candidate_size(n as nat), n as nat % 2));
            if magic_seen(bytes, n as nat) {
                let k = choose|k: nat|
                    k < n && (#[trigger] candidate_page(bytes, k)) is Some && has_magic(
                        candidate_page(bytes, k)->0,
                    );
                assert(candidate_page(bytes, k) is Some);
                assert(magic_seen(bytes, (n + 1) as nat));
            }
            assert(magic_seen(bytes, (n + 1) as nat) ==> magic_seen(bytes, n as nat) || (
            candidate_page(bytes, n as nat) is Some && has_magic(
                candidate_page(bytes, n as nat)->0,
            )));
        }
        let inside = len >= ps as u64 && offset <= len - ps as u64;
        if inside {
            let mut buf: Vec<u8> = zero_vec(ps as usize);
            match storage.read_at(offset, buf.as_mut_slice()) {
                Ok(_) => {
                    proof {
                        assert(candidate_page(bytes, n as nat) == Some(buf@));
                    }
                    if starts_with_magic(buf.as_slice()) {
                        saw_magic = true;
                    }
                    match Meta::decode(buf.as_slice(), slot) {
                        Ok(meta) => {
                            proof {
                                assert(candidate(bytes, n as nat) == Some(meta));
                            }
                            let better = match &best {
                                None => true,
                                Some(b) => meta.txid > b.txid,
                            };
                            if better {
                                best = Some(meta);
                            }
                        },
                        Err(_) => {},
                    }
                },
                Err(_) => {},
            }
        }
        if slot == 1 && ps < MAX_PAGE_SIZE {
            ps = ps * 2;
        }
        n = n + 1;
    }
    match best {
        Some(meta) => Ok(meta),
        None => if saw_magic {
            Err(Error::corrupted(None, "no valid meta page in either slot"))
        } else {
            Err(Error::InvalidFormat(owned("not a quanty database")))
        },
    }
}

/// The candidate that reads slot `slot` of a database with page size `ps`.
pub open spec fn slot_candidate(ps: u32, slot: nat) -> nat {
    (if ps == 512 {
        0
    } else if ps == 1024 {
        2
    } else if ps == 2048 {
        4
    } else if ps == 4096 {
        6
    } else if ps == 8192 {
        8
    } else if ps == 16384 {
        10
    } else if ps == 32768 {
        12
    } else {
        14nat
    }) + slot
}

/// The page in meta slot `slot`.
pub open spec fn slot_page(bytes: Seq<u8>, ps: u32, slot: nat) -> Seq<u8> {
    bytes.subrange(slot_off(ps as int, slot), slot_off(ps as int, slot) + ps)
}

/// No page size but `ps` finds a meta.
pub open spec fn only_size(bytes: Seq<u8>, ps: u32) -> bool {
    forall|n: nat|
        n < 16 && candidate_size(n) != ps ==> (#[trigger] candidate(bytes, n)) is None
}

proof fn lemma_newest_skips(bytes: Seq<u8>, a: nat, b: nat)
    requires
        a <= b,
        forall|n: nat| a <= n < b ==> (#[trigger] candidate(bytes, n)) is None,
    ensures
        newest(bytes, b) == newest(bytes, a),
    decreases b,
{
    if a < b {
        lemma_newest_skips(bytes, a, (b - 1) as nat);
        assert(candidate(bytes, (b - 1) as nat) is None);
    }
}

/// Recovery comes down to the two slots of the one page size that has metas.
pub proof fn lemma_newest_of_two_slots(bytes: Seq<u8>, ps: u32)
    requires
        page_size_ok(ps),
        bytes.len() >= 2 * ps,
        only_size(bytes, ps),
    ensures
        newest(bytes, 16) == {
            let a = meta_of(slot_page(bytes, ps, 0));
            let b = meta_of(slot_page(bytes, ps, 1));
            if b is Some && (a is None || b->0.txid > a->0.txid) {
                b
            } else {
                a
            }
        },
{
    let s = slot_candidate(ps, 0);
    assert(candidate_page(bytes, s) == Some(slot_page(bytes, ps, 0)));
    assert(candidate_page(bytes, s + 1) == Some(slot_page(bytes, ps, 1)));
    lemma_newest_skips(bytes, 0, s);
    lemma_newest_skips(bytes, s + 2, 16);
    reveal_with_fuel(newest, 3);
}

/// A torn meta write loses nothing. It leaves the slot of the previous
/// transaction alone; whatever reached the slot of the new one, as long as it does not check out as a meta, recovery finds
/// the meta of the previous one.
pub proof fn law_torn_meta_write_recovers_previous(before: Seq<u8>, after: Seq<u8>, prev: Meta)
    requires
        prev.valid(),
        before.len() >= 2 * prev.page_size,
        after.len() >= before.len(),
        slot_page(before, prev.page_size, (prev.txid % 2) as nat) == prev.page(),
        forall|i: int|
            slot_off(prev.page_size as int, (prev.txid % 2) as nat) <= i < slot_off(
                prev.page_size as int,
                (prev.txid % 2) as nat,
            ) + prev.page_size ==> #[trigger] after[i] == before[i],
        meta_of(slot_page(after, prev.page_size, ((prev.txid + 1) % 2) as nat)) is None,
        only_size(after, prev.page_size),
    ensures
        newest(after, 16) == Some(prev),
{
    let ps = prev.page_size;
    lemma_newest_of_two_slots(after, ps);
    law_meta_decode_inverts_encode(prev);
    assert(slot_page(after, ps, (prev.txid % 2) as nat) =~= slot_page(
        before,
        ps,
        (prev.txid % 2) as nat,
    ));
}

/// A meta write that made it wins: recovery finds the newer transaction.
pub proof fn law_completed_meta_write_recovers_new(bytes: Seq<u8>, prev: Meta, next: Meta)
    requires
        prev.valid(),
        next.valid(),
        next.page_size == prev.page_size,
        next.txid == prev.txid + 1,
        bytes.len() >= 2 * prev.page_size,
        slot_page(bytes, prev.page_size, (prev.txid % 2) as nat) == prev.page(),
        slot_page(bytes, prev.page_size, (next.txid % 2) as nat) == next.page(),
        only_size(bytes, prev.page_size),
    ensures
        newest(bytes, 16) == Some(next),
{
    lemma_newest_of_two_slots(bytes, prev.page_size);
    law_meta_decode_inverts_encode(prev);
    law_meta_decode_inverts_encode(next);
    if prev.txid % 2 == 0 {
        assert(next.txid % 2 == 1);
    } else {
        assert(next.txid % 2 == 0);
    }
}

/// Whether a meta stands in its slot.
pub open spec fn anchors_still(b: Seq<u8>, m: Meta) -> bool {
    &&& b.len() >= 2 * m.page_size
    &&& meta_of(slot_page(b, m.page_size, (m.txid % 2) as nat)) == Some(m)
}

/// Whether a meta stands in its slot, and in the other slot none but older
/// ones or the same.
#[verifier::opaque]
pub open spec fn anchors(b: Seq<u8>, m: Meta) -> bool {
    &&& b.len() >= 2 * m.page_size
    &&& meta_of(slot_page(b, m.page_size, (m.txid % 2) as nat)) == Some(m)
    &&& meta_of(slot_page(b, m.page_size, ((m.txid + 1) % 2) as nat)) matches Some(o) ==> o.txid
        < m.txid || o == m
}

/// A newer meta in the other slot is anchored where the one before it was.
pub proof fn lemma_anchored(a: Seq<u8>, b: Seq<u8>, old_meta: Meta, m: Meta)
    requires
        anchors(a, old_meta),
        m.valid(),
        m.page_size == old_meta.page_size,
        m.txid == old_meta.txid + 1,
        b.len() >= a.len(),
        slot_page(b, m.page_size, (m.txid % 2) as nat) == m.page(),
        slot_page(b, m.page_size, (old_meta.txid % 2) as nat) == slot_page(
            a,
            m.page_size,
            (old_meta.txid % 2) as nat,
        ),
    ensures
        anchors(b, m),
{
    let ps = m.page_size;
    let s = (old_meta.txid % 2) as nat;
    assert(((m.txid + 1) % 2) as nat == s);
    assert(meta_of(slot_page(a, ps, s)) == Some(old_meta) && a.len() >= 2 * ps) by {
        reveal(anchors);
    }
    assert(meta_of(slot_page(b, ps, s)) == Some(old_meta));
    assert(meta_of(slot_page(b, ps, (m.txid % 2) as nat)) == Some(m)) by {
        law_meta_decode_inverts_encode(m);
    }
    assert(anchors(b, m)) by {
        reveal(anchors);
    }
}

} // verus!
