//! Commit records.
//!
//! Every commit writes one commit record page describing itself and linking
//! to its parent. A branch points at its newest record, so the file carries
//! the full history of every branch as a chain.
//!
//! Body layout after the 16 byte page header:
//!
//! ```text
//! offset  size  field
//! 16      8     commit id (equals the txid that sealed this page)
//! 24      8     parent commit id (0 = the empty initial state)
//! 32      8     data root page at this commit
//! 40      8     catalog root page at this commit
//! 48      8     page of the parent's commit record (0 = none)
//! 56      8     wall clock, unix milliseconds (informational)
//! ```

use vstd::prelude::*;

use crate::btree::{extends, fresh, lemma_extends_self, lemma_extends_trans, lemma_rewrite, lemma_step};
use crate::bytes::{get_u64, le_bytes, lemma_field64, lemma_splice_reads, set_le, u64_at, zero_vec};
use crate::error::{Error, Result};
use crate::page::{has_type, page_size_ok, PageId, PageType, MAX_PAGES, NIL_PAGE};
use crate::pager::{ReadPages, WriteBatch};
use crate::refs::BranchRef;
use crate::storage::Storage;
use crate::tree::{same_page, Pages};

verus! {

#[derive(Debug, Clone, Copy, PartialEq, Eq, Structural)]
pub struct CommitInfo {
    pub commit_id: u64,
    pub parent_id: u64,
    pub data_root: PageId,
    pub catalog_root: PageId,
    pub parent_page: PageId,
    pub unix_ts_ms: u64,
}

const OFF_ID: usize = 16;

const OFF_PARENT: usize = 24;

const OFF_DATA_ROOT: usize = 32;

const OFF_CATALOG_ROOT: usize = 40;

const OFF_PARENT_PAGE: usize = 48;

const OFF_TS: usize = 56;

/// The record that a page holds, if it is one.
pub open spec fn commit_of(b: Seq<u8>) -> Option<CommitInfo> {
    if b.len() >= 64 && b[4] == PageType::Commit.spec_code() {
        Some(
            CommitInfo {
                commit_id: u64_at(b, 16),
                parent_id: u64_at(b, 24),
                data_root: u64_at(b, 32),
                catalog_root: u64_at(b, 40),
                parent_page: u64_at(b, 48),
                unix_ts_ms: u64_at(b, 56),
            },
        )
    } else {
        None
    }
}

/// Checksum and lsn do not matter to a record.
pub proof fn lemma_commit_of_frame(a: Seq<u8>, b: Seq<u8>)
    requires
        same_page(a, b),
        a.len() >= 64,
    ensures
        commit_of(a) == commit_of(b),
{
    assert(a.subrange(4, 8)[0] == a[4]);
    assert(b.subrange(4, 8)[0] == b[4]);
    let x = a.subrange(16, a.len() as int);
    let y = b.subrange(16, b.len() as int);
    assert(x.subrange(0, 8) =~= a.subrange(16, 24));
    assert(y.subrange(0, 8) =~= b.subrange(16, 24));
    assert(x.subrange(8, 16) =~= a.subrange(24, 32));
    assert(y.subrange(8, 16) =~= b.subrange(24, 32));
    assert(x.subrange(16, 24) =~= a.subrange(32, 40));
    assert(y.subrange(16, 24) =~= b.subrange(32, 40));
    assert(x.subrange(24, 32) =~= a.subrange(40, 48));
    assert(y.subrange(24, 32) =~= b.subrange(40, 48));
    assert(x.subrange(32, 40) =~= a.subrange(48, 56));
    assert(y.subrange(32, 40) =~= b.subrange(48, 56));
    assert(x.subrange(40, 48) =~= a.subrange(56, 64));
    assert(y.subrange(40, 48) =~= b.subrange(56, 64));
}

/// Lay a record out on a page of its own.
#[verifier::rlimit(30)]
fn record_page(page_size: u32, info: &CommitInfo) -> (r: Vec<u8>)
    requires
        page_size_ok(page_size),
    ensures
        r@.len() == page_size,
        commit_of(r@) == Some(*info),
{
    let mut buf: Vec<u8> = zero_vec(page_size as usize);
    crate::page::init_header(buf.as_mut_slice(), PageType::Commit);
    let ghost b0 = buf@;
    proof {
        lemma_field64(info.commit_id);
        lemma_field64(info.parent_id);
        lemma_field64(info.data_root);
        lemma_field64(info.catalog_root);
        lemma_field64(info.parent_page);
        lemma_field64(info.unix_ts_ms);
        lemma_splice_reads(b0, 16, le_bytes(info.commit_id as nat, 8));
    }
    set_le(buf.as_mut_slice(), OFF_ID, info.commit_id, 8);
    proof {
        lemma_splice_reads(buf@, 24, le_bytes(info.parent_id as nat, 8));
    }
    set_le(buf.as_mut_slice(), OFF_PARENT, info.parent_id, 8);
    proof {
        lemma_splice_reads(buf@, 32, le_bytes(info.data_root as nat, 8));
    }
    set_le(buf.as_mut_slice(), OFF_DATA_ROOT, info.data_root, 8);
    proof {
        lemma_splice_reads(buf@, 40, le_bytes(info.catalog_root as nat, 8));
    }
    set_le(buf.as_mut_slice(), OFF_CATALOG_ROOT, info.catalog_root, 8);
    proof {
        lemma_splice_reads(buf@, 48, le_bytes(info.parent_page as nat, 8));
    }
    set_le(buf.as_mut_slice(), OFF_PARENT_PAGE, info.parent_page, 8);
    proof {
        lemma_splice_reads(buf@, 56, le_bytes(info.unix_ts_ms as nat, 8));
    }
    set_le(buf.as_mut_slice(), OFF_TS, info.unix_ts_ms, 8);
    buf
}

/// Write the commit record for the transaction the batch is about to
/// commit. Returns the record's page id for `WriteBatch::set_commit_page`.
pub fn write_record<'p, S: Storage>(
    batch: &mut WriteBatch<'p, S>,
    parent_id: u64,
    parent_page: PageId,
    data_root: PageId,
    catalog_root: PageId,
    unix_ts_ms: u64,
) -> (r: Result<PageId>)
    requires
        old(batch).wf(),
    ensures
        extends(*old(batch), *final(batch)),
        final(batch).next() <= old(batch).next() + 1,
        *final(final(batch).pager) == *final(old(batch).pager),
        forall|x: PageId| #[trigger]
            old(batch).pages().contains_key(x) && !fresh(*old(batch), *final(batch), x) ==> final(
                batch).pages().contains_key(x) && final(batch).pages()[x] == old(batch).pages()[x],
        match r {
            Ok(id) => {
                &&& fresh(*old(batch), *final(batch), id)
                &&& id >= 2
                &&& final(batch).pages().contains_key(id)
                &&& old(batch).meta().txid < u64::MAX
                &&& commit_of(final(batch).pages()[id]) == Some(
                    CommitInfo {
                        commit_id: (old(batch).meta().txid + 1) as u64,
                        parent_id,
                        data_root,
                        catalog_root,
                        parent_page,
                        unix_ts_ms,
                    },
                )
            },
            Err(e) => e is InvalidArgument && (old(batch).meta().txid == u64::MAX || old(batch).next()
                >= MAX_PAGES),
        },
{
    let ghost b0 = *batch;
    proof {
        b0.lemma_facts();
        lemma_extends_self(b0);
    }
    let base = batch.base_meta();
    if base.txid == u64::MAX {
        return Err(Error::InvalidArgument("transaction ids are used up"));
    }
    let info = CommitInfo {
        commit_id: base.txid + 1,
        parent_id,
        data_root,
        catalog_root,
        parent_page,
        unix_ts_ms,
    };
    let ps: u32 = batch.page_size();
    let id: PageId = match batch.allocate(PageType::Commit) {
        Ok(id) => id,
        Err(e) => {
            proof {
                lemma_rewrite(b0, *batch);
            }
            return Err(e);
        },
    };
    let ghost b1 = *batch;
    proof {
        lemma_step(b0, b1, id);
    }
    let done = batch.write_page(id, record_page(ps, &info));
    proof {
        assert(b1.own(id));
        assert(done is Ok);
        lemma_rewrite(b1, *batch);
        lemma_extends_trans(b0, b1, *batch);
        assert(batch.own(id) == b1.own(id));
        assert forall|x: PageId| #[trigger]
            b0.pages().contains_key(x) && !fresh(b0, *batch, x) implies batch.pages().contains_key(x)
            && batch.pages()[x] == b0.pages()[x] by {
            assert(batch.own(x) == b1.own(x));
            assert(fresh(b0, b1, id));
            assert(x != id) by {
                if x == id {
                    assert(fresh(b0, *batch, x));
                }
            }
        }
    }
    Ok(id)
}

/// The commit record on a page.
pub fn read_record<P: ReadPages>(src: &P, page_id: PageId) -> (r: Result<CommitInfo>)
    requires
        src.wf(),
    ensures
        match r {
            Ok(info) => src.pages().contains_key(page_id) && commit_of(src.pages()[page_id]) == Some(
                info,
            ),
            Err(_) => src.reliable() ==> !(src.pages().contains_key(page_id) && commit_of(
                src.pages()[page_id],
            ) is Some),
        },
{
    let ps: u32 = src.page_size();
    let buf = match src.read(page_id) {
        Ok(b) => b,
        Err(e) => {
            return Err(e);
        },
    };
    if !has_type(buf.as_slice(), PageType::Commit) {
        return Err(Error::corrupted(Some(page_id), "expected a commit record page"));
    }
    Ok(
        CommitInfo {
            commit_id: get_u64(buf.as_slice(), OFF_ID),
            parent_id: get_u64(buf.as_slice(), OFF_PARENT),
            data_root: get_u64(buf.as_slice(), OFF_DATA_ROOT),
            catalog_root: get_u64(buf.as_slice(), OFF_CATALOG_ROOT),
            parent_page: get_u64(buf.as_slice(), OFF_PARENT_PAGE),
            unix_ts_ms: get_u64(buf.as_slice(), OFF_TS),
        },
    )
}

// ---------------------------------------------------------------------
// the history of a branch
// ---------------------------------------------------------------------

/// A commit record, with the page it is on.
pub type Rec = (PageId, CommitInfo);

/// Whether a branch's history ends at a record.
pub open spec fn stops(r: BranchRef, info: CommitInfo) -> bool {
    info.parent_page == NIL_PAGE || (r.floor_id != 0 && info.commit_id <= r.floor_id)
}

/// Whether `h` is the history of a branch, newest first, down to its
/// retention floor.
pub open spec fn chain_of(pages: Pages, r: BranchRef, h: Seq<Rec>) -> bool {
    &&& (h.len() == 0 <==> r.head_page == NIL_PAGE)
    &&& (h.len() == 0 <==> r.head_id == 0)
    &&& h.len() > 0 ==> h[0].0 == r.head_page && h[0].1.commit_id == r.head_id
    &&& forall|i: int|
        0 <= i < h.len() ==> pages.contains_key((#[trigger] h[i]).0) && commit_of(pages[h[i].0])
            == Some(h[i].1) && h[i].1.commit_id > 0
    &&& forall|i: int, j: int|
        0 <= i < j < h.len() ==> (#[trigger] h[i]).1.commit_id > (#[trigger] h[j]).1.commit_id
    &&& forall|i: int|
        0 <= i < h.len() - 1 ==> !stops(r, (#[trigger] h[i]).1) && h[i].1.parent_page == h[i + 1].0
    &&& h.len() > 0 ==> stops(r, h.last().1)
}

/// The history of a branch that has one.
pub open spec fn history(pages: Pages, r: BranchRef) -> Seq<Rec> {
    choose|h: Seq<Rec>| #[trigger] chain_of(pages, r, h)
}

proof fn lemma_chain_prefix(pages: Pages, r: BranchRef, g: Seq<Rec>, h: Seq<Rec>, n: int)
    requires
        chain_of(pages, r, g),
        chain_of(pages, r, h),
        0 <= n <= g.len(),
    ensures
        n <= h.len(),
        forall|i: int| 0 <= i < n ==> g[i] == #[trigger] h[i],
    decreases n,
{
    if n > 0 {
        lemma_chain_prefix(pages, r, g, h, n - 1);
        if n > 1 {
            assert(g[n - 2] == h[n - 2]);
            assert(!stops(r, g[n - 2].1));
            if h.len() == n - 1 {
                assert(stops(r, h.last().1));
            }
            assert(g[n - 2].1.parent_page == g[n - 2 + 1].0);
            assert(h[n - 2].1.parent_page == h[n - 2 + 1].0);
        }
        assert(g[n - 1].0 == h[n - 1].0);
        assert(commit_of(pages[g[n - 1].0]) == Some(g[n - 1].1));
        assert(commit_of(pages[h[n - 1].0]) == Some(h[n - 1].1));
        assert forall|i: int| 0 <= i < n implies g[i] == #[trigger] h[i] by {
            if i < n - 1 {
                assert(g[i] == h[i]);
            }
        }
    }
}

/// A branch has one history.
pub proof fn lemma_chain_unique(pages: Pages, r: BranchRef, h: Seq<Rec>)
    requires
        chain_of(pages, r, h),
    ensures
        history(pages, r) == h,
{
    let g = history(pages, r);
    lemma_chain_prefix(pages, r, g, h, g.len() as int);
    lemma_chain_prefix(pages, r, h, g, h.len() as int);
    assert(g =~= h);
}

/// Whether some branch history with this head and floor starts here; told
/// to the walks below so that they can speak of it.
pub open spec fn walked(pages: Pages, r: BranchRef) -> Option<Seq<Rec>> {
    if exists|h: Seq<Rec>| #[trigger] chain_of(pages, r, h) {
        Some(history(pages, r))
    } else {
        None
    }
}

/// The record on the way down a chain: it must be older than the last one.
fn next_record<P: ReadPages>(src: &P, at: PageId, last: Option<u64>) -> (r: Result<CommitInfo>)
    requires
        src.wf(),
    ensures
        match r {
            Ok(info) => {
                &&& src.pages().contains_key(at)
                &&& commit_of(src.pages()[at]) == Some(info)
                &&& last matches Some(l) ==> info.commit_id < l
            },
            Err(_) => src.reliable() && src.pages().contains_key(at) ==> match commit_of(
                src.pages()[at],
            ) {
                Some(info) => last matches Some(l) && info.commit_id >= l,
                None => true,
            },
        },
{
    let info = match read_record(src, at) {
        Ok(i) => i,
        Err(e) => {
            return Err(e);
        },
    };
    if let Some(l) = last {
        if info.commit_id >= l {
            return Err(Error::corrupted(Some(at), "commit ids do not shrink along the chain"));
        }
    }
    Ok(info)
}

/// How far a walk down a chain can still go.
pub open spec fn left_of(last: Option<u64>) -> int {
    match last {
        Some(l) => l as int,
        None => u64::MAX + 1,
    }
}

/// Where the walk of a history stands after `i` records.
pub open spec fn walk_at(h: Seq<Rec>, i: int, at: PageId, last: Option<u64>) -> bool {
    &&& 0 <= i <= h.len()
    &&& i < h.len() ==> at == h[i].0 && at != NIL_PAGE
    &&& i == 0 ==> last is None
    &&& i > 0 ==> last == Some(h[i - 1].1.commit_id)
}

/// One step down a history.
proof fn lemma_walk_step(
    pages: Pages,
    r: BranchRef,
    h: Seq<Rec>,
    i: int,
    at: PageId,
    last: Option<u64>,
    rec: CommitInfo,
)
    requires
        chain_of(pages, r, h),
        walk_at(h, i, at, last),
        i < h.len(),
        commit_of(pages[at]) == Some(rec),
    ensures
        h[i] == (at, rec),
        !stops(r, rec) ==> i + 1 < h.len() && walk_at(
            h,
            i + 1,
            rec.parent_page,
            Some(rec.commit_id),
        ),
        stops(r, rec) ==> i + 1 == h.len(),
        i > 0 ==> h[i - 1].1.commit_id > rec.commit_id,
{
    assert(commit_of(pages[h[i].0]) == Some(h[i].1));
    if i > 0 {
        assert(h[i - 1].1.commit_id > h[i].1.commit_id);
    }
    if i < h.len() - 1 {
        assert(!stops(r, h[i].1) && h[i].1.parent_page == h[i + 1].0);
    } else {
        assert(h.last() == h[i]);
    }
}

/// Walk a branch from its newest record and return the record for
/// `commit_id`, with its page.
pub fn find<P: ReadPages>(src: &P, branch: &BranchRef, commit_id: u64) -> (r: Result<
    Option<(PageId, CommitInfo)>,
>)
    requires
        src.wf(),
    ensures
        r matches Ok(Some(c)) ==> c.1.commit_id == commit_id,
        forall|h: Seq<Rec>| #[trigger]
            chain_of(src.pages(), *branch, h) ==> match r {
                Ok(Some(c)) => exists|i: int| 0 <= i < h.len() && #[trigger] h[i] == c,
                Ok(None) => forall|i: int|
                    0 <= i < h.len() ==> (#[trigger] h[i]).1.commit_id != commit_id,
                Err(_) => !src.reliable(),
            },
{
    let ghost pages = src.pages();
    let ghost w = walked(pages, *branch);
    let ghost h = w->0;
    let ghost mut i: int = 0;
    proof {
        lemma_walked(pages, *branch);
    }
    let mut at: PageId = branch.head_page;
    let mut last: Option<u64> = None;
    while at != NIL_PAGE
        invariant
            src.wf(),
            pages == src.pages(),
            h == w->0,
            forall|g: Seq<Rec>| #[trigger] chain_of(pages, *branch, g) ==> w == Some(g),
            w is Some ==> {
                &&& chain_of(pages, *branch, h)
                &&& walk_at(h, i, at, last)
                &&& at == NIL_PAGE ==> i == h.len()
                &&& at != NIL_PAGE ==> i < h.len()
                &&& forall|j: int| 0 <= j < i ==> (#[trigger] h[j]).1.commit_id > commit_id
            },
        decreases left_of(last),
    {
        proof {
            if w is Some {
                assert(pages.contains_key(h[i].0));
            }
        }
        let rec = match next_record(src, at, last) {
            Ok(x) => x,
            Err(e) => {
                proof {
                    if w is Some {
                        lemma_walk_step(pages, *branch, h, i, at, last, h[i].1);
                    }
                }
                return Err(e);
            },
        };
        proof {
            if w is Some {
                lemma_walk_step(pages, *branch, h, i, at, last, rec);
            }
        }
        if rec.commit_id == commit_id {
            return Ok(Some((at, rec)));
        }
        // ids only shrink down the edge; the floor is the wall
        if rec.commit_id < commit_id || rec.parent_page == NIL_PAGE || (branch.floor_id != 0
            && rec.commit_id <= branch.floor_id) {
            proof {
                if w is Some {
                    assert forall|j: int| 0 <= j < h.len() implies (#[trigger] h[j]).1.commit_id
                        != commit_id by {
                        if j > i {
                            assert(h[i].1.commit_id > h[j].1.commit_id);
                        }
                    }
                }
            }
            return Ok(None);
        }
        at = rec.parent_page;
        last = Some(rec.commit_id);
        proof {
            i = i + 1;
        }
    }
    Ok(None)
}

proof fn lemma_walked(pages: Pages, r: BranchRef)
    ensures
        forall|g: Seq<Rec>| #[trigger] chain_of(pages, r, g) ==> walked(pages, r) == Some(g),
        walked(pages, r) matches Some(h) ==> chain_of(pages, r, h) && (h.len() == 0 <==> r.head_page
            == NIL_PAGE) && walk_at(h, 0, r.head_page, None),
{
    assert forall|g: Seq<Rec>| #[trigger] chain_of(pages, r, g) implies walked(pages, r) == Some(g) by {
        lemma_chain_unique(pages, r, g);
    }
}

/// The newest record of a branch no younger than `unix_ts_ms`.
pub open spec fn at_time(h: Seq<Rec>, unix_ts_ms: u64) -> Option<CommitInfo>
    decreases h.len(),
{
    if h.len() == 0 {
        None
    } else if h[0].1.unix_ts_ms <= unix_ts_ms {
        Some(h[0].1)
    } else {
        at_time(h.skip(1), unix_ts_ms)
    }
}

/// The newest record on a branch with a timestamp at or before
/// `unix_ts_ms`.
pub fn find_at_time<P: ReadPages>(src: &P, branch: &BranchRef, unix_ts_ms: u64) -> (r: Result<
    Option<CommitInfo>,
>)
    requires
        src.wf(),
    ensures
        forall|h: Seq<Rec>| #[trigger]
            chain_of(src.pages(), *branch, h) ==> match r {
                Ok(found) => found == at_time(h, unix_ts_ms),
                Err(_) => !src.reliable(),
            },
{
    let ghost pages = src.pages();
    let ghost w = walked(pages, *branch);
    let ghost h = w->0;
    let ghost mut i: int = 0;
    proof {
        lemma_walked(pages, *branch);
        assert(h.skip(0) =~= h);
    }
    let mut at: PageId = branch.head_page;
    let mut last: Option<u64> = None;
    while at != NIL_PAGE
        invariant
            src.wf(),
            pages == src.pages(),
            h == w->0,
            forall|g: Seq<Rec>| #[trigger] chain_of(pages, *branch, g) ==> w == Some(g),
            w is Some ==> {
                &&& chain_of(pages, *branch, h)
                &&& walk_at(h, i, at, last)
                &&& at == NIL_PAGE ==> i == h.len()
                &&& at != NIL_PAGE ==> i < h.len()
                &&& at_time(h, unix_ts_ms) == at_time(h.skip(i), unix_ts_ms)
            },
        decreases left_of(last),
    {
        proof {
            if w is Some {
                assert(pages.contains_key(h[i].0));
                assert(h.skip(i)[0] == h[i]);
                assert(h.skip(i).skip(1) =~= h.skip(i + 1));
            }
        }
        let rec = match next_record(src, at, last) {
            Ok(x) => x,
            Err(e) => {
                proof {
                    if w is Some {
                        lemma_walk_step(pages, *branch, h, i, at, last, h[i].1);
                    }
                }
                return Err(e);
            },
        };
        proof {
            if w is Some {
                lemma_walk_step(pages, *branch, h, i, at, last, rec);
            }
        }
        if rec.unix_ts_ms <= unix_ts_ms {
            return Ok(Some(rec));
        }
        if rec.parent_page == NIL_PAGE || (branch.floor_id != 0 && rec.commit_id <= branch.floor_id) {
            proof {
                if w is Some {
                    assert(h.skip(i + 1).len() == 0);
                    assert(at_time(h.skip(i + 1), unix_ts_ms) is None);
                }
            }
            return Ok(None);
        }
        at = rec.parent_page;
        last = Some(rec.commit_id);
        proof {
            i = i + 1;
        }
    }
    Ok(None)
}

/// Every record of a branch with its page, newest first, down to the
/// retention floor.
pub fn walk<P: ReadPages>(src: &P, branch: &BranchRef) -> (r: Result<Vec<(PageId, CommitInfo)>>)
    requires
        src.wf(),
    ensures
        forall|h: Seq<Rec>| #[trigger]
            chain_of(src.pages(), *branch, h) ==> match r {
                Ok(v) => v@ == h,
                Err(_) => !src.reliable(),
            },
{
    let ghost pages = src.pages();
    let ghost w = walked(pages, *branch);
    let ghost h = w->0;
    proof {
        lemma_walked(pages, *branch);
    }
    let mut out: Vec<(PageId, CommitInfo)> = Vec::new();
    let mut at: PageId = branch.head_page;
    let mut last: Option<u64> = None;
    proof {
        assert(out@ =~= h.take(0));
        if w is Some && at == NIL_PAGE {
            assert(h.take(0) =~= h);
        }
    }
    while at != NIL_PAGE
        invariant
            src.wf(),
            pages == src.pages(),
            h == w->0,
            forall|g: Seq<Rec>| #[trigger] chain_of(pages, *branch, g) ==> w == Some(g),
            w is Some ==> {
                &&& chain_of(pages, *branch, h)
                &&& walk_at(h, out@.len() as int, at, last)
                &&& at == NIL_PAGE ==> out@.len() == h.len()
                &&& at != NIL_PAGE ==> out@.len() < h.len()
                &&& out@ == h.take(out@.len() as int)
            },
        decreases left_of(last),
    {
        let ghost i = out@.len() as int;
        proof {
            if w is Some {
                assert(pages.contains_key(h[i].0));
            }
        }
        let rec = match next_record(src, at, last) {
            Ok(x) => x,
            Err(e) => {
                proof {
                    if w is Some {
                        lemma_walk_step(pages, *branch, h, i, at, last, h[i].1);
                    }
                }
                return Err(e);
            },
        };
        proof {
            if w is Some {
                lemma_walk_step(pages, *branch, h, i, at, last, rec);
                assert(h.take(i + 1) =~= h.take(i).push(h[i]));
            }
        }
        out.push((at, rec));
        if rec.parent_page == NIL_PAGE || (branch.floor_id != 0 && rec.commit_id <= branch.floor_id) {
            proof {
                if w is Some {
                    assert(h.take(h.len() as int) =~= h);
                }
            }
            return Ok(out);
        }
        at = rec.parent_page;
        last = Some(rec.commit_id);
    }
    proof {
        if w is Some {
            assert(h.take(h.len() as int) =~= h);
        }
    }
    Ok(out)
}

/// A branch starting at an older record of a history has the rest of that
/// history, under the same floor.
pub proof fn lemma_chain_suffix(pages: Pages, r: BranchRef, h: Seq<Rec>, i: int)
    requires
        chain_of(pages, r, h),
        0 <= i < h.len(),
    ensures
        chain_of(
            pages,
            BranchRef { head_id: h[i].1.commit_id, head_page: h[i].0, floor_id: r.floor_id },
            h.skip(i),
        ),
        h[i].0 != NIL_PAGE,
{
    let q = BranchRef { head_id: h[i].1.commit_id, head_page: h[i].0, floor_id: r.floor_id };
    let g = h.skip(i);
    assert(h[i].0 != NIL_PAGE) by {
        if i > 0 {
            assert(!stops(r, h[i - 1].1) && h[i - 1].1.parent_page == h[i - 1 + 1].0);
        }
    }
    assert forall|j: int| 0 <= j < g.len() implies pages.contains_key((#[trigger] g[j]).0) && commit_of(
        pages[g[j].0],
    ) == Some(g[j].1) && g[j].1.commit_id > 0 by {
        assert(g[j] == h[i + j]);
    }
    assert forall|j: int, k: int| 0 <= j < k < g.len() implies (#[trigger] g[j]).1.commit_id > (
    #[trigger] g[k]).1.commit_id by {
        assert(h[i + j].1.commit_id > h[i + k].1.commit_id);
    }
    assert forall|j: int| 0 <= j < g.len() - 1 implies !stops(q, (#[trigger] g[j]).1)
        && g[j].1.parent_page == g[j + 1].0 by {
        assert(!stops(r, h[i + j].1) && h[i + j].1.parent_page == h[i + j + 1].0);
    }
    assert(g.last() == h.last());
}

/// Raising the floor to a record that the history has cuts it there.
pub proof fn lemma_chain_floor(pages: Pages, r: BranchRef, h: Seq<Rec>, n: int)
    requires
        chain_of(pages, r, h),
        0 < n <= h.len(),
    ensures
        chain_of(pages, BranchRef { floor_id: h[n - 1].1.commit_id, ..r }, h.take(n)),
{
    let q = BranchRef { floor_id: h[n - 1].1.commit_id, ..r };
    let g = h.take(n);
    assert forall|j: int| 0 <= j < g.len() implies pages.contains_key((#[trigger] g[j]).0) && commit_of(
        pages[g[j].0],
    ) == Some(g[j].1) && g[j].1.commit_id > 0 by {
        assert(g[j] == h[j]);
    }
    assert forall|j: int, k: int| 0 <= j < k < g.len() implies (#[trigger] g[j]).1.commit_id > (
    #[trigger] g[k]).1.commit_id by {
        assert(h[j].1.commit_id > h[k].1.commit_id);
    }
    assert forall|j: int| 0 <= j < g.len() - 1 implies !stops(q, (#[trigger] g[j]).1)
        && g[j].1.parent_page == g[j + 1].0 by {
        assert(!stops(r, h[j].1) && h[j].1.parent_page == h[j + 1].0);
        assert(h[j].1.commit_id > h[n - 1].1.commit_id);
    }
    assert(g.last() == h[n - 1]);
}

/// How many records of a history a floor leaves.
pub open spec fn above_floor(h: Seq<Rec>, floor: u64) -> int
    decreases h.len(),
{
    if h.len() == 0 {
        0
    } else if floor != 0 && h[0].1.commit_id <= floor {
        1
    } else {
        1 + above_floor(h.skip(1), floor)
    }
}

proof fn lemma_above_floor(h: Seq<Rec>, floor: u64)
    ensures
        0 <= above_floor(h, floor) <= h.len(),
        h.len() > 0 ==> above_floor(h, floor) > 0,
        forall|i: int|
            0 <= i < above_floor(h, floor) - 1 ==> !(floor != 0 && (#[trigger] h[i]).1.commit_id
                <= floor),
        0 < above_floor(h, floor) < h.len() ==> floor != 0 && h[above_floor(h, floor)
            - 1].1.commit_id <= floor,
    decreases h.len(),
{
    if h.len() > 0 && !(floor != 0 && h[0].1.commit_id <= floor) {
        let t = h.skip(1);
        lemma_above_floor(t, floor);
        assert forall|i: int| 0 <= i < above_floor(h, floor) - 1 implies !(floor != 0 && (
        #[trigger] h[i]).1.commit_id <= floor) by {
            if i > 0 {
                assert(t[i - 1] == h[i]);
            }
        }
        if 0 < above_floor(h, floor) < h.len() {
            assert(t[above_floor(t, floor) - 1] == h[above_floor(h, floor) - 1]);
        }
    }
}

/// A higher floor leaves the newest part of a history.
pub proof fn lemma_chain_higher_floor(pages: Pages, r: BranchRef, h: Seq<Rec>, floor: u64)
    requires
        chain_of(pages, r, h),
        floor >= r.floor_id,
    ensures
        chain_of(pages, BranchRef { floor_id: floor, ..r }, h.take(above_floor(h, floor))),
        0 <= above_floor(h, floor) <= h.len(),
{
    let q = BranchRef { floor_id: floor, ..r };
    let n = above_floor(h, floor);
    lemma_above_floor(h, floor);
    let g = h.take(n);
    assert forall|j: int| 0 <= j < g.len() implies pages.contains_key((#[trigger] g[j]).0) && commit_of(
        pages[g[j].0],
    ) == Some(g[j].1) && g[j].1.commit_id > 0 by {
        assert(g[j] == h[j]);
    }
    assert forall|j: int, k: int| 0 <= j < k < g.len() implies (#[trigger] g[j]).1.commit_id > (
    #[trigger] g[k]).1.commit_id by {
        assert(h[j].1.commit_id > h[k].1.commit_id);
    }
    assert forall|j: int| 0 <= j < g.len() - 1 implies !stops(q, (#[trigger] g[j]).1)
        && g[j].1.parent_page == g[j + 1].0 by {
        assert(!stops(r, h[j].1) && h[j].1.parent_page == h[j + 1].0);
    }
    if n > 0 {
        assert(g.last() == h[n - 1]);
        if n == h.len() {
            assert(stops(r, h.last().1));
        }
    }
}

/// A new record on top of a history.
pub proof fn lemma_chain_grow(
    pages: Pages,
    r: BranchRef,
    h: Seq<Rec>,
    page: PageId,
    info: CommitInfo,
)
    requires
        chain_of(pages, r, h),
        pages.contains_key(page),
        commit_of(pages[page]) == Some(info),
        page != NIL_PAGE,
        info.parent_page == r.head_page,
        info.commit_id > r.head_id,
        info.commit_id > r.floor_id,
    ensures
        chain_of(
            pages,
            BranchRef { head_id: info.commit_id, head_page: page, floor_id: r.floor_id },
            seq![(page, info)] + h,
        ),
{
    let q = BranchRef { head_id: info.commit_id, head_page: page, floor_id: r.floor_id };
    let g = seq![(page, info)] + h;
    assert forall|j: int| 0 <= j < g.len() implies pages.contains_key((#[trigger] g[j]).0) && commit_of(
        pages[g[j].0],
    ) == Some(g[j].1) && g[j].1.commit_id > 0 by {
        if j > 0 {
            assert(g[j] == h[j - 1]);
        }
    }
    assert forall|j: int, k: int| 0 <= j < k < g.len() implies (#[trigger] g[j]).1.commit_id > (
    #[trigger] g[k]).1.commit_id by {
        assert(g[k] == h[k - 1]);
        if j > 0 {
            assert(h[j - 1].1.commit_id > h[k - 1].1.commit_id);
        } else if k > 1 {
            assert(h[0].1.commit_id > h[k - 1].1.commit_id);
        }
    }
    assert forall|j: int| 0 <= j < g.len() - 1 implies !stops(q, (#[trigger] g[j]).1)
        && g[j].1.parent_page == g[j + 1].0 by {
        assert(g[j + 1] == h[j]);
        if j > 0 {
            assert(g[j] == h[j - 1]);
            assert(!stops(r, h[j - 1].1) && h[j - 1].1.parent_page == h[j - 1 + 1].0);
        }
    }
    if h.len() > 0 {
        assert(g.last() == h.last());
    } else {
        assert(g.last() == (page, info));
    }
}

/// Other pages do not concern a history.
pub proof fn lemma_chain_frame(a: Pages, b: Pages, r: BranchRef, h: Seq<Rec>)
    requires
        chain_of(a, r, h),
        forall|i: int|
            0 <= i < h.len() ==> a[(#[trigger] h[i]).0].len() >= 64 && b.contains_key(h[i].0) && same_page(
                a[h[i].0],
                b[h[i].0],
            ),
    ensures
        chain_of(b, r, h),
{
    assert forall|i: int| 0 <= i < h.len() implies b.contains_key((#[trigger] h[i]).0) && commit_of(
        b[h[i].0],
    ) == Some(h[i].1) && h[i].1.commit_id > 0 by {
        lemma_commit_of_frame(a[h[i].0], b[h[i].0]);
    }
}

} // verus!
