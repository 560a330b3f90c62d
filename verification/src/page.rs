//! Page layout.
//!
//! Every page in the file, meta pages included, starts with the same 16 byte
//! header:
//!
//! ```text
//! offset  size  field
//! 0       4     crc32c checksum of bytes [4..page_size]
//! 4       1     page type
//! 5       1     flags
//! 6       2     entry count / used bytes (owner-defined, little endian)
//! 8       8     lsn: txid of the commit that sealed this page (LE)
//! ```
//!
//! The pager owns the checksum and the lsn (both written at commit time).
//! Whoever builds the page owns type, flags and count.

use vstd::prelude::*;
use vstd::slice::slice_subrange;

use crate::bytes::{
    get_u32, get_u64, le_bytes, lemma_field32, lemma_field64, lemma_splice_reads, set_le, splice,
    u32_at, u64_at,
};
use crate::error::{Error, Result};
use crate::strings::{join2, u64_text};

verus! {

pub type PageId = u64;

/// Page id 0 doubles as the nil pointer for roots, which works out because
/// page 0 is always meta slot A and never a valid data target.
pub const NIL_PAGE: PageId = 0;

pub const PAGE_HEADER_LEN: usize = 16;

pub const MIN_PAGE_SIZE: u32 = 512;

pub const MAX_PAGE_SIZE: u32 = 65536;

pub const DEFAULT_PAGE_SIZE: u32 = 4096;

/// More pages than this would not fit 64 bit file offsets.
pub const MAX_PAGES: u64 = 0x8000_0000_0000;

#[derive(Debug, Clone, Copy, PartialEq, Eq, Structural)]
pub enum PageType {
    Meta,
    Branch,
    Leaf,
    Overflow,
    FreeList,
    Blob,
    Commit,
}

impl PageType {
    /// The byte that stands for this type in a page header.
    pub open spec fn spec_code(self) -> u8 {
        match self {
            PageType::Meta => 0,
            PageType::Branch => 1,
            PageType::Leaf => 2,
            PageType::Overflow => 3,
            PageType::FreeList => 4,
            PageType::Blob => 5,
            PageType::Commit => 6,
        }
    }

    /// The byte that stands for this type in a page header.
    pub fn code(self) -> (r: u8)
        ensures
            r == self.spec_code(),
    {
        match self {
            PageType::Meta => 0,
            PageType::Branch => 1,
            PageType::Leaf => 2,
            PageType::Overflow => 3,
            PageType::FreeList => 4,
            PageType::Blob => 5,
            PageType::Commit => 6,
        }
    }

    /// The type a header byte stands for, or the byte itself.
    pub fn try_from(v: u8) -> (r: core::result::Result<PageType, u8>)
        ensures
            match r {
                Ok(t) => t.spec_code() == v,
                Err(b) => b == v && v > 6,
            },
    {
        if v == 0 {
            Ok(PageType::Meta)
        } else if v == 1 {
            Ok(PageType::Branch)
        } else if v == 2 {
            Ok(PageType::Leaf)
        } else if v == 3 {
            Ok(PageType::Overflow)
        } else if v == 4 {
            Ok(PageType::FreeList)
        } else if v == 5 {
            Ok(PageType::Blob)
        } else if v == 6 {
            Ok(PageType::Commit)
        } else {
            Err(v)
        }
    }
}

/// A power of two from 512 to 65536.
pub open spec fn page_size_ok(ps: u32) -> bool {
    ||| ps == 512
    ||| ps == 1024
    ||| ps == 2048
    ||| ps == 4096
    ||| ps == 8192
    ||| ps == 16384
    ||| ps == 32768
    ||| ps == 65536
}

pub fn valid_page_size(page_size: u32) -> (r: bool)
    ensures
        r == page_size_ok(page_size),
{
    page_size == 512 || page_size == 1024 || page_size == 2048 || page_size == 4096 || page_size
        == 8192 || page_size == 16384 || page_size == 32768 || page_size == 65536
}

/// One bit of a reflected division by the Castagnoli polynomial.
pub open spec fn crc_bit(c: u32) -> u32 {
    if c & 1 == 1 {
        (c >> 1) ^ 0x82F6_3B78
    } else {
        c >> 1
    }
}

/// `n` bits of that division.
pub open spec fn crc_bits(c: u32, n: nat) -> u32
    decreases n,
{
    if n == 0 {
        c
    } else {
        crc_bit(crc_bits(c, (n - 1) as nat))
    }
}

/// The remainder after some bytes, the bits of each taken lowest first.
pub open spec fn crc_bytes(b: Seq<u8>) -> u32
    decreases b.len(),
{
    if b.len() == 0 {
        0xFFFF_FFFF
    } else {
        crc_bits(crc_bytes(b.drop_last()) ^ (b.last() as u32), 8)
    }
}

/// The CRC-32C checksum of a byte string.
#[verifier::opaque]
pub open spec fn crc32c_of(bytes: Seq<u8>) -> u32 {
    crc_bytes(bytes) ^ 0xFFFF_FFFF
}

/// `crc32c::crc32c` returns the CRC-32C checksum of its argument: the
/// reflected remainder modulo the Castagnoli polynomial, with all bits set
/// at the start and turned at the end.
#[verifier::external_body]
fn checksum(bytes: &[u8]) -> (r: u32)
    ensures
        r == crc32c_of(bytes@),
{
    crc32c::crc32c(bytes)
}

/// A page with its type set and flags and count cleared.
pub open spec fn with_header(b: Seq<u8>, t: PageType) -> Seq<u8> {
    splice(b, 4, seq![t.spec_code(), 0u8, 0u8, 0u8])
}

/// A page with its lsn set.
pub open spec fn stamped(b: Seq<u8>, txid: u64) -> Seq<u8> {
    splice(b, 8, le_bytes(txid as nat, 8))
}

/// A page as it goes to storage: lsn set, checksum over everything after it.
pub open spec fn sealed(b: Seq<u8>, txid: u64) -> Seq<u8> {
    let s = stamped(b, txid);
    splice(s, 0, le_bytes(crc32c_of(s.subrange(4, s.len() as int)) as nat, 4))
}

/// Whether the stored checksum is the one of the rest of the page.
pub open spec fn checks_out(b: Seq<u8>) -> bool {
    u32_at(b, 0) == crc32c_of(b.subrange(4, b.len() as int))
}

/// A sealed page checks out, carries its lsn, and keeps type, flags, count
/// and body.
pub proof fn law_sealed_page_checks_out(b: Seq<u8>, txid: u64)
    requires
        b.len() >= PAGE_HEADER_LEN,
    ensures
        sealed(b, txid).len() == b.len(),
        checks_out(sealed(b, txid)),
        u64_at(sealed(b, txid), 8) == txid,
        sealed(b, txid).subrange(4, 8) == b.subrange(4, 8),
        sealed(b, txid).subrange(PAGE_HEADER_LEN as int, b.len() as int) == b.subrange(
            PAGE_HEADER_LEN as int,
            b.len() as int,
        ),
        forall|i: int|
            4 <= i < 8 || PAGE_HEADER_LEN <= i < b.len() ==> #[trigger] sealed(b, txid)[i] == b[i],
{
    let s = stamped(b, txid);
    lemma_field64(txid);
    lemma_splice_reads(b, 8, le_bytes(txid as nat, 8));
    let sum = crc32c_of(s.subrange(4, s.len() as int));
    lemma_field32(sum);
    lemma_splice_reads(s, 0, le_bytes(sum as nat, 4));
}

/// Initialize the header of a freshly allocated page buffer.
pub fn init_header(buf: &mut [u8], page_type: PageType)
    requires
        old(buf)@.len() >= PAGE_HEADER_LEN,
    ensures
        final(buf)@ == with_header(old(buf)@, page_type),
{
    let ghost start = buf@;
    buf[4] = page_type.code();
    buf[5] = 0;
    buf[6] = 0;
    buf[7] = 0;
    proof {
        assert(buf@ =~= with_header(start, page_type));
    }
}

/// What the type byte of a page says.
pub fn page_type(buf: &[u8]) -> (r: Result<PageType>)
    requires
        buf@.len() >= PAGE_HEADER_LEN,
    ensures
        match r {
            Ok(t) => t.spec_code() == buf@[4],
            Err(e) => buf@[4] > 6 && e is Corrupted && e->page is None,
        },
{
    match PageType::try_from(buf[4]) {
        Ok(t) => Ok(t),
        Err(v) => Err(
            Error::corrupted(None, join2("unknown page type ", u64_text(v as u64).as_str()).as_str()),
        ),
    }
}

/// Whether the type byte of a page is the one of `t`.
pub fn has_type(buf: &[u8], t: PageType) -> (r: bool)
    requires
        buf@.len() >= PAGE_HEADER_LEN,
    ensures
        r == (buf@[4] == t.spec_code()),
{
    buf[4] == t.code()
}

pub fn lsn(buf: &[u8]) -> (r: u64)
    requires
        buf@.len() >= PAGE_HEADER_LEN,
    ensures
        r == u64_at(buf@, 8),
{
    get_u64(buf, 8)
}

/// Stamp the lsn and compute the checksum. Call once, right before the page
/// hits storage. After sealing the buffer must not change.
pub fn seal(buf: &mut [u8], txid: u64)
    requires
        old(buf)@.len() >= PAGE_HEADER_LEN,
    ensures
        final(buf)@ == sealed(old(buf)@, txid),
{
    let ghost start = buf@;
    proof {
        lemma_field64(txid);
        lemma_splice_reads(start, 8, le_bytes(txid as nat, 8));
    }
    set_le(buf, 8, txid, 8);
    let len: usize = buf.len();
    let sum: u32 = checksum(slice_subrange(buf, 4, len));
    proof {
        lemma_field32(sum);
    }
    set_le(buf, 0, sum as u64, 4);
}

/// Verify the checksum of a page read from storage.
pub fn verify(buf: &[u8], id: PageId) -> (r: Result<()>)
    requires
        buf@.len() >= PAGE_HEADER_LEN,
    ensures
        match r {
            Ok(_) => checks_out(buf@),
            Err(e) => !checks_out(buf@) && e is Corrupted && e->page == Some(id),
        },
{
    let stored: u32 = get_u32(buf, 0);
    let len: usize = buf.len();
    let actual: u32 = checksum(slice_subrange(buf, 4, len));
    if stored != actual {
        return Err(Error::corrupted(Some(id), "checksum mismatch"));
    }
    Ok(())
}

} // verus!
