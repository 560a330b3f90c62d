//! The free list: a chain of pages listing page ids nothing references.
//!
//! Layout after the 16 byte page header, whose count field holds the number
//! of ids on the page:
//!
//! ```text
//! offset  size  field
//! 16      8     next page of the chain (0 = last)
//! 24      8*n   free page ids
//! ```

use vstd::prelude::*;

use crate::bytes::{
    get_u16, get_u64, le_bytes, lemma_field16, lemma_field64, lemma_splice_reads, set_le, u16_at,
    u64_at,
};
use crate::error::{Error, Result};
use crate::page::{has_type, PageId, PageType};

verus! {

/// How many ids one page of the chain can list.
pub open spec fn per_page(ps: u32) -> int {
    (ps - 24) / 8
}

/// How many ids one page of the chain can list.
pub fn ids_per_page(page_size: u32) -> (r: usize)
    requires
        512 <= page_size <= 65536,
    ensures
        r == per_page(page_size),
        60 <= r <= 8189,
{
    ((page_size - 24) / 8) as usize
}

/// The link and the ids that a free list page holds, if it is one.
pub open spec fn list_of(b: Seq<u8>) -> Option<(PageId, Seq<PageId>)> {
    let count = u16_at(b, 6);
    if b[4] == PageType::FreeList.spec_code() && 24 + 8 * count <= b.len() {
        Some((u64_at(b, 16), Seq::new(count as nat, |i: int| u64_at(b, 24 + 8 * i))))
    } else {
        None
    }
}

/// Read one page of the chain.
pub fn decode_page(buf: &[u8], id: PageId) -> (r: Result<(PageId, Vec<PageId>)>)
    requires
        buf@.len() >= 24,
    ensures
        match r {
            Ok((next, ids)) => list_of(buf@) == Some((next, ids@)),
            Err(e) => list_of(buf@) is None && e is Corrupted && e->page == Some(id),
        },
{
    if !has_type(buf, PageType::FreeList) {
        return Err(Error::corrupted(Some(id), "expected a free list page"));
    }
    let count: usize = get_u16(buf, 6) as usize;
    let len: usize = buf.len();
    if (len - 24) / 8 < count {
        return Err(Error::corrupted(Some(id), "free list page claims impossible length"));
    }
    let next: u64 = get_u64(buf, 16);
    let mut ids: Vec<u64> = Vec::new();
    let mut i: usize = 0;
    while i < count
        invariant
            i <= count <= 65535,
            24 + 8 * count <= len == buf@.len(),
            ids@.len() == i,
            forall|j: int| 0 <= j < i ==> ids@[j] == u64_at(buf@, 24 + 8 * j),
        decreases count - i,
    {
        ids.push(get_u64(buf, 24 + 8 * i));
        i = i + 1;
    }
    proof {
        assert(ids@ =~= Seq::new(count as nat, |i: int| u64_at(buf@, 24 + 8 * i)));
    }
    Ok((next, ids))
}

/// Write one page of the chain onto a page whose header is in place.
pub fn encode_page(buf: &mut [u8], next: PageId, ids: &[PageId])
    requires
        24 + 8 * ids@.len() <= old(buf)@.len() <= 65536,
        old(buf)@[4] == PageType::FreeList.spec_code(),
    ensures
        final(buf)@.len() == old(buf)@.len(),
        list_of(final(buf)@) == Some((next, ids@)),
        forall|i: int|
            0 <= i < 6 || 8 <= i < 16 || 24 + 8 * ids@.len() <= i < old(buf)@.len()
                ==> #[trigger] final(buf)@[i] == old(buf)@[i],
{
    let ghost b0 = buf@;
    let n: usize = ids.len();
    proof {
        lemma_field16(n as u16);
        lemma_field64(next);
        lemma_splice_reads(b0, 6, le_bytes(n as nat, 2));
    }
    set_le(buf, 6, n as u64, 2);
    proof {
        lemma_splice_reads(buf@, 16, le_bytes(next as nat, 8));
    }
    set_le(buf, 16, next, 8);
    let mut i: usize = 0;
    while i < n
        invariant
            i <= n == ids@.len(),
            24 + 8 * n <= buf@.len() == b0.len(),
            b0.len() <= 65536,
            u16_at(buf@, 6) == n,
            u64_at(buf@, 16) == next,
            forall|j: int| 0 <= j < i ==> #[trigger] u64_at(buf@, 24 + 8 * j) == ids@[j],
            forall|j: int|
                0 <= j < 6 || 8 <= j < 16 || 24 + 8 * n <= j < b0.len() ==> #[trigger] buf@[j]
                    == b0[j],
        decreases n - i,
    {
        let ghost before = buf@;
        proof {
            lemma_field64(ids@[i as int]);
            lemma_splice_reads(before, 24 + 8 * i, le_bytes(ids@[i as int] as nat, 8));
        }
        set_le(buf, 24 + 8 * i, ids[i], 8);
        proof {
            assert forall|j: int| 0 <= j < i + 1 implies #[trigger] u64_at(buf@, 24 + 8 * j)
                == ids@[j] by {
                if j < i {
                    assert(u64_at(before, 24 + 8 * j) == ids@[j]);
                }
            }
        }
        i = i + 1;
    }
    proof {
        let seen = Seq::new(n as nat, |i: int| u64_at(buf@, 24 + 8 * i));
        assert(seen =~= ids@);
    }
}

} // verus!
