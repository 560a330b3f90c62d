//! The pager.
//!
//! Owns the file layout, the commit protocol and the copy-on-write
//! discipline. Everything above this layer (B-tree, catalog, blobs) only
//! ever sees three operations: read a committed page, allocate a fresh page
//! inside a write batch, commit the batch.
//!
//! Commit protocol:
//!
//! 1. seal every dirty page (stamp lsn, compute checksum), write it out
//! 2. sync
//! 3. encode the new meta with txid+1 into slot `txid % 2`, write it
//! 4. sync
//!
//! A crash before step 4 completes leaves the previous meta untouched and
//! the previous commit fully intact, because dirty pages only ever go to
//! page ids nothing references: fresh ids past the end of the file, or ids
//! listed in the free list, which by construction are referenced by nothing
//! at all.

use std::collections::HashMap;

use vstd::cell::invcell::InvCell;
use vstd::predicate::Predicate;
use vstd::prelude::*;

use crate::bytes::{copy_vec, splice, u16_at, u64_at, zero_vec, zeros};
use crate::cache::PageCache;
use crate::error::{Error, Result};
use crate::freelist::{self, list_of};
use crate::meta::{
    self, anchors, anchors_still, candidate, law_meta_decode_inverts_encode, lemma_anchored, magic_seen, newest, root_in, slot_off,
    slot_page, Meta,
};
use crate::page::{
    self, checks_out, law_sealed_page_checks_out, page_size_ok, sealed, with_header, PageId,
    PageType, DEFAULT_PAGE_SIZE, MAX_PAGES, NIL_PAGE, PAGE_HEADER_LEN,
};
use crate::storage::{applied, survives, survivors, torn, written, Held, Op, Ops, Storage};
use crate::tree::{same_page, Pages};

verus! {

broadcast use vstd::std_specs::hash::group_hash_axioms;

/// Read access to pages, implemented by the pager (committed state) and by
/// a write batch (committed state plus the batch's own pages).
pub trait ReadPages {
    /// What every readable page holds.
    spec fn pages(&self) -> Pages;

    /// The page size.
    spec fn size(&self) -> u32;

    /// Whether the medium underneath never fails.
    spec fn reliable(&self) -> bool;

    /// Whether the source keeps its own invariant.
    spec fn wf(&self) -> bool;

    fn read(&self, id: PageId) -> (r: Result<Vec<u8>>)
        requires
            self.wf(),
        ensures
            match r {
                Ok(b) => self.pages().contains_key(id) && b@ == self.pages()[id] && b@.len()
                    == self.size(),
                Err(e) => self.reliable() ==> !self.pages().contains_key(id),
            },
    ;

    fn page_size(&self) -> (r: u32)
        requires
            self.wf(),
        ensures
            r == self.size(),
            page_size_ok(r),
    ;

    /// No page at or past this id reads.
    fn page_bound(&self) -> (r: u64)
        requires
            self.wf(),
        ensures
            forall|id: PageId| #[trigger] self.pages().contains_key(id) ==> 2 <= id < r,
    ;
}

// ---------------------------------------------------------------------
// where pages are
// ---------------------------------------------------------------------

/// The offset of a page.
pub open spec fn page_off(id: PageId, ps: u32) -> int {
    id * ps
}

pub open spec fn page_inside(b: Seq<u8>, ps: u32, id: PageId) -> bool {
    page_off(id, ps) + ps <= b.len()
}

/// The bytes of a page.
pub open spec fn page_bytes(b: Seq<u8>, ps: u32, id: PageId) -> Seq<u8> {
    b.subrange(page_off(id, ps), page_off(id, ps) + ps)
}

/// The pages a file of `count` pages holds: those inside it whose checksum
/// is right. An id past [`MAX_PAGES`] has no offset and never reads.
pub open spec fn pages_in(b: Seq<u8>, ps: u32, count: u64) -> Pages {
    Map::new(
        |id: PageId|
            2 <= id < count && id < MAX_PAGES && page_inside(b, ps, id) && checks_out(
                page_bytes(b, ps, id),
            ),
        |id: PageId| page_bytes(b, ps, id),
    )
}

proof fn lemma_off(id: PageId, ps: u32)
    requires
        id <= MAX_PAGES,
        ps <= 65536,
    ensures
        0 <= page_off(id, ps) <= 0x8000_0000_0000_0000,
{
    assert(0 <= id * ps <= 0x8000_0000_0000 * 65536) by (nonlinear_arith)
        requires
            id <= 0x8000_0000_0000,
            ps <= 65536,
    ;
}

proof fn lemma_off_apart(a: PageId, b: PageId, ps: u32)
    requires
        a < b,
    ensures
        page_off(a, ps) + ps <= page_off(b, ps),
        page_off(0, ps) == 0,
        page_off(1, ps) == ps,
{
    assert(a * ps + ps <= b * ps) by (nonlinear_arith)
        requires
            a < b,
    ;
    assert(1 * ps == ps) by (nonlinear_arith);
}

/// The meta slots are the first two pages.
proof fn lemma_slot_page(b: Seq<u8>, ps: u32, slot: PageId)
    requires
        slot < 2,
    ensures
        slot_page(b, ps, slot as nat) == page_bytes(b, ps, slot),
        b.len() >= 2 * ps ==> page_inside(b, ps, slot),
{
    lemma_off_apart(0, 1, ps);
}

/// A page write lands on its page and on no other.
proof fn lemma_written_page(b: Seq<u8>, ps: u32, id: PageId, p: Seq<u8>)
    requires
        p.len() == ps,
    ensures
        written(b, page_off(id, ps), p).len() >= b.len(),
        page_inside(written(b, page_off(id, ps), p), ps, id),
        page_bytes(written(b, page_off(id, ps), p), ps, id) == p,
        forall|x: PageId|
            x != id && page_inside(b, ps, x) ==> page_inside(
                written(b, page_off(id, ps), p),
                ps,
                x,
            ) && #[trigger] page_bytes(written(b, page_off(id, ps), p), ps, x) == page_bytes(
                b,
                ps,
                x,
            ),
{
    let off = page_off(id, ps);
    assert(0 <= id * ps) by (nonlinear_arith);
    let w = written(b, off, p);
    let g = if off + p.len() <= b.len() {
        b
    } else {
        b + zeros((off + p.len() - b.len()) as nat)
    };
    assert(w =~= splice(g, off, p));
    assert(page_bytes(w, ps, id) =~= p);
    assert forall|x: PageId| x != id && page_inside(b, ps, x) implies page_inside(w, ps, x)
        && #[trigger] page_bytes(w, ps, x) == page_bytes(b, ps, x) by {
        assert(0 <= x * ps) by (nonlinear_arith);
        if x < id {
            lemma_off_apart(x, id, ps);
        } else {
            lemma_off_apart(id, x, ps);
        }
        assert(page_bytes(w, ps, x) =~= page_bytes(b, ps, x));
    }
}

/// Neither does a failed one.
proof fn lemma_torn_page(b: Seq<u8>, c: Seq<u8>, ps: u32, id: PageId)
    requires
        c.len() >= b.len(),
        forall|i: int|
            0 <= i < b.len() && !(page_off(id, ps) <= i < page_off(id, ps) + ps) ==> #[trigger] c[i]
                == b[i],
    ensures
        forall|x: PageId|
            x != id && page_inside(b, ps, x) ==> page_inside(c, ps, x) && #[trigger] page_bytes(
                c,
                ps,
                x,
            ) == page_bytes(b, ps, x),
{
    assert forall|x: PageId| x != id && page_inside(b, ps, x) implies page_inside(c, ps, x)
        && #[trigger] page_bytes(c, ps, x) == page_bytes(b, ps, x) by {
        assert(0 <= x * ps) by (nonlinear_arith);
        if x < id {
            lemma_off_apart(x, id, ps);
        } else {
            lemma_off_apart(id, x, ps);
        }
        assert(page_bytes(c, ps, x) =~= page_bytes(b, ps, x));
    }
}

/// Whether a page is among some pages, up to its checksum and lsn.
pub open spec fn writes_page(w: Seq<(PageId, Seq<u8>)>, x: PageId, b: Seq<u8>) -> bool {
    exists|i: int| 0 <= i < w.len() && (#[trigger] w[i]).0 == x && same_page(b, w[i].1)
}

// ---------------------------------------------------------------------
// what a commit writes
// ---------------------------------------------------------------------

/// One write per page.
pub open spec fn page_ops(w: Seq<(PageId, Seq<u8>)>, ps: u32) -> Ops {
    Seq::new(w.len(), |i: int| Op::Write(page_off(w[i].0, ps), w[i].1))
}

/// Everything a commit asks of the storage: its pages, a sync, the meta in
/// the slot the previous commit is not in, and a sync.
pub open spec fn commit_ops(w: Seq<(PageId, Seq<u8>)>, m: Meta) -> Ops {
    page_ops(w, m.page_size) + seq![
        Op::Sync,
        Op::Write(slot_off(m.page_size as int, (m.txid % 2) as nat), m.page()),
        Op::Sync,
    ]
}

/// Whether page `x` carries the mark of the transaction that wrote it.
pub open spec fn written_in(pages: Pages, x: PageId, txid: u64) -> bool {
    pages.contains_key(x) && u64_at(pages[x], 8) == txid
}

/// Pages with their lsn stamped and their checksum set.
pub open spec fn sealed_list(dirty: Seq<(PageId, Vec<u8>)>, txid: u64) -> Seq<(PageId, Seq<u8>)> {
    Seq::new(dirty.len(), |i: int| (dirty[i].0, sealed(dirty[i].1@, txid)))
}

// ---------------------------------------------------------------------
// the free list as a whole
// ---------------------------------------------------------------------

/// The pages of the free list chain, each with the ids it lists.
pub type FreeChain = Seq<(PageId, Seq<PageId>)>;

pub open spec fn free_link(fc: FreeChain, i: int) -> PageId {
    if i + 1 < fc.len() {
        fc[i + 1].0
    } else {
        NIL_PAGE
    }
}

/// Whether the pages spell this chain from `root` on.
pub open spec fn chain_at(pages: Pages, root: PageId, fc: FreeChain) -> bool {
    &&& root == (if fc.len() == 0 {
        NIL_PAGE
    } else {
        fc[0].0
    })
    &&& forall|i: int|
        0 <= i < fc.len() ==> pages.contains_key((#[trigger] fc[i]).0) && list_of(pages[fc[i].0])
            == Some((free_link(fc, i), fc[i].1))
}

/// Whether `x` is listed by the chain or is a page of it.
pub open spec fn chain_has(fc: FreeChain, x: PageId) -> bool {
    exists|i: int| 0 <= i < fc.len() && ((#[trigger] fc[i]).0 == x || fc[i].1.contains(x))
}

/// Whether `x` is a page of the chain itself.
pub open spec fn chain_links(fc: FreeChain, x: PageId) -> bool {
    exists|i: int| 0 <= i < fc.len() && (#[trigger] fc[i]).0 == x
}

/// Whether the chain lists `x`.
pub open spec fn chain_lists(fc: FreeChain, x: PageId) -> bool {
    exists|i: int| 0 <= i < fc.len() && (#[trigger] fc[i]).1.contains(x)
}

/// Nothing occurs twice, and everything is a page of the file.
pub open spec fn chain_ok(fc: FreeChain, count: u64) -> bool {
    &&& forall|x: PageId| #[trigger] chain_has(fc, x) ==> 2 <= x < count
    &&& forall|i: int| 0 <= i < fc.len() ==> (#[trigger] fc[i]).1.no_duplicates()
    &&& forall|i: int, j: int|
        0 <= i < fc.len() && 0 <= j < fc.len() ==> !(#[trigger] fc[i]).1.contains(
            (#[trigger] fc[j]).0,
        )
    &&& forall|i: int, j: int|
        0 <= i < j < fc.len() ==> (#[trigger] fc[i]).0 != (#[trigger] fc[j]).0 && forall|x: PageId|
            !(#[trigger] fc[i].1.contains(x) && #[trigger] fc[j].1.contains(x))
}

proof fn lemma_chain_prefix(pages: Pages, root: PageId, a: FreeChain, b: FreeChain, c: u64, n: int)
    requires
        chain_at(pages, root, a),
        chain_at(pages, root, b),
        chain_ok(a, c),
        0 <= n <= a.len(),
    ensures
        n <= b.len(),
        forall|i: int| 0 <= i < n ==> a[i] == #[trigger] b[i],
    decreases n,
{
    if n > 0 {
        lemma_chain_prefix(pages, root, a, b, c, n - 1);
        assert(chain_has(a, a[n - 1].0));
        if n > 1 {
            assert(a[n - 2] == b[n - 2]);
            assert(list_of(pages[a[n - 2].0]) == Some((free_link(a, n - 2), a[n - 2].1)));
            assert(list_of(pages[b[n - 2].0]) == Some((free_link(b, n - 2), b[n - 2].1)));
            assert(free_link(a, n - 2) == a[n - 1].0);
        }
        assert(n - 1 < b.len());
        assert(a[n - 1].0 == b[n - 1].0);
        assert(list_of(pages[a[n - 1].0]) == Some((free_link(a, n - 1), a[n - 1].1)));
        assert(list_of(pages[b[n - 1].0]) == Some((free_link(b, n - 1), b[n - 1].1)));
        assert(a[n - 1] == b[n - 1]);
        assert forall|i: int| 0 <= i < n implies a[i] == #[trigger] b[i] by {
            if i < n - 1 {
                assert(a[i] == b[i]);
            }
        }
    }
}

/// Pages spell at most one free list.
pub proof fn lemma_free_chain_unique(pages: Pages, root: PageId, a: FreeChain, b: FreeChain, c: u64)
    requires
        chain_at(pages, root, a),
        chain_at(pages, root, b),
        chain_ok(a, c),
        chain_ok(b, c),
    ensures
        a == b,
{
    lemma_chain_prefix(pages, root, a, b, c, a.len() as int);
    lemma_chain_prefix(pages, root, b, a, c, b.len() as int);
    assert(a =~= b);
}

/// A page that agrees with another on everything but checksum and lsn lists
/// the same ids.
pub proof fn lemma_list_of_frame(a: Seq<u8>, b: Seq<u8>)
    requires
        a.len() >= 24,
        same_page(a, b),
    ensures
        list_of(a) == list_of(b),
{
    assert(a.subrange(4, 8)[0] == a[4]);
    assert(b.subrange(4, 8)[0] == b[4]);
    assert(a.subrange(4, 8).subrange(2, 4) =~= a.subrange(6, 8));
    assert(b.subrange(4, 8).subrange(2, 4) =~= b.subrange(6, 8));
    let x = a.subrange(16, a.len() as int);
    let y = b.subrange(16, b.len() as int);
    assert(x.subrange(0, 8) =~= a.subrange(16, 24));
    assert(y.subrange(0, 8) =~= b.subrange(16, 24));
    let count = u16_at(a, 6);
    if 24 + 8 * count <= a.len() {
        let p = Seq::new(count as nat, |i: int| u64_at(a, 24 + 8 * i));
        let q = Seq::new(count as nat, |i: int| u64_at(b, 24 + 8 * i));
        assert forall|i: int| 0 <= i < count implies p[i] == q[i] by {
            assert(x.subrange(8 + 8 * i, 16 + 8 * i) =~= a.subrange(24 + 8 * i, 32 + 8 * i));
            assert(y.subrange(8 + 8 * i, 16 + 8 * i) =~= b.subrange(24 + 8 * i, 32 + 8 * i));
        }
        assert(p =~= q);
    }
}

pub proof fn lemma_same_page_sealed(b: Seq<u8>, txid: u64)
    requires
        b.len() >= PAGE_HEADER_LEN,
    ensures
        same_page(b, sealed(b, txid)),
{
    law_sealed_page_checks_out(b, txid);
}

// ---------------------------------------------------------------------
// the pager
// ---------------------------------------------------------------------

#[derive(Debug, Clone, Copy)]
pub struct PagerOptions {
    /// Page size in bytes. Power of two, 512 to 65536. Fixed at creation
    /// time and stored in the file, ignored when opening.
    pub page_size: u32,
    /// Page cache capacity in pages.
    pub cache_pages: usize,
}

impl Default for PagerOptions {
    fn default() -> (r: PagerOptions)
        ensures
            r.page_size == DEFAULT_PAGE_SIZE,
            r.cache_pages == 1024,
    {
        PagerOptions { page_size: DEFAULT_PAGE_SIZE, cache_pages: 1024 }
    }
}

/// Cached pages are the committed ones.
pub struct CacheRule {
    pub pages: Pages,
}

impl Predicate<PageCache> for CacheRule {
    open spec fn predicate(&self, c: PageCache) -> bool {
        &&& c.wf()
        &&& forall|id: PageId|
            #[trigger] c@.contains_key(id) ==> self.pages.contains_key(id) && self.pages[id]
                == c@[id]
    }
}

/// `std::time::SystemTime::now`, as the milliseconds since the Unix epoch,
/// or nothing where the clock stands before it. Nothing is claimed of the
/// time it is.
#[verifier::external_body]
fn clock() -> (r: Option<u128>) {
    std::time::SystemTime::now().duration_since(std::time::UNIX_EPOCH).ok().map(|d| d.as_millis())
}

/// Milliseconds since the Unix epoch, and zero before it.
pub(crate) fn now_ms() -> (r: u64) {
    match clock() {
        Some(ms) => #[verifier::truncate] (ms as u64),
        None => 0,
    }
}

pub struct Pager<S: Storage> {
    pub(crate) storage: S,
    pub(crate) cache: InvCell<PageCache, CacheRule>,
    pub(crate) cache_pages: usize,
    /// Meta of the most recent commit.
    pub(crate) committed: Meta,
}

impl<S: Storage> Pager<S> {
    /// What the storage underneath holds.
    pub closed spec fn bytes(&self) -> Seq<u8> {
        self.storage.bytes()
    }

    /// The meta of the most recent commit.
    pub closed spec fn meta(&self) -> Meta {
        self.committed
    }

    /// The free list of the most recent commit is sound.
    pub open spec fn free_ok(&self) -> bool {
        exists|fc: FreeChain| #[trigger] self.free_view(fc)
    }

    pub open spec fn free_view(&self, fc: FreeChain) -> bool {
        &&& chain_at(self.pages(), self.meta().freelist_root, fc)
        &&& chain_ok(fc, self.meta().page_count)
    }

    /// Whether the free list of the most recent commit covers `x`.
    pub open spec fn free(&self, x: PageId) -> bool {
        exists|fc: FreeChain| #[trigger] self.free_view(fc) && chain_has(fc, x)
    }

    /// Whether the free list of the most recent commit stands on page `x`.
    pub open spec fn chained(&self, x: PageId) -> bool {
        exists|fc: FreeChain| #[trigger] self.free_view(fc) && chain_links(fc, x)
    }

    /// Whether a crash right now may leave `d` on the medium.
    pub closed spec fn durable(&self, d: Held) -> bool {
        self.storage.durable(d)
    }

    /// What a crash right now may leave on the medium.
    pub open spec fn left(&self) -> spec_fn(Held) -> bool {
        |d: Held| self.durable(d)
    }

    /// The writes and syncs asked of the storage so far.
    pub closed spec fn ops(&self) -> Ops {
        self.storage.ops()
    }

    /// Whether everything written so far is durable.
    pub open spec fn settled(&self) -> bool {
        forall|d: Held| #[trigger] self.durable(d) ==> d == self.bytes()
    }

    /// Whether the meta of the most recent commit stands in its slot and
    /// no newer one in the other.
    pub open spec fn anchored(&self) -> bool {
        anchors(self.bytes(), self.meta())
    }
}

impl<S: Storage> ReadPages for Pager<S> {
    closed spec fn pages(&self) -> Pages {
        pages_in(self.storage.bytes(), self.committed.page_size, self.committed.page_count)
    }

    closed spec fn size(&self) -> u32 {
        self.committed.page_size
    }

    closed spec fn reliable(&self) -> bool {
        self.storage.reliable()
    }

    closed spec fn wf(&self) -> bool {
        &&& self.committed.valid()
        &&& self.cache.predicate().pages == self.pages()
    }

    fn read(&self, id: PageId) -> (r: Result<Vec<u8>>) {
        self.read_page(id)
    }

    fn page_size(&self) -> (r: u32) {
        self.committed.page_size
    }

    fn page_bound(&self) -> (r: u64)
        ensures
            r == self.meta().page_count,
    {
        self.committed.page_count
    }
}

impl<S: Storage> Pager<S> {
    /// What the invariant gives away.
    pub proof fn lemma_facts(&self)
        requires
            self.wf(),
        ensures
            self.meta().valid(),
            self.size() == self.meta().page_size,
            page_size_ok(self.size()),
            forall|id: PageId|
                #[trigger] self.pages().contains_key(id) ==> 2 <= id < self.meta().page_count && id
                    < MAX_PAGES && self.pages()[id].len() == self.size(),
    {
        let ps = self.committed.page_size;
        assert forall|id: PageId| #[trigger] self.pages().contains_key(id) implies 2 <= id
            < self.meta().page_count && id < MAX_PAGES && self.pages()[id].len() == self.size() by {
            assert(0 <= id * ps) by (nonlinear_arith);
        }
    }

    /// A pager has at most one free list.
    pub proof fn lemma_one_free(&self, a: FreeChain, b: FreeChain)
        requires
            self.free_view(a),
            self.free_view(b),
        ensures
            a == b,
    {
        lemma_free_chain_unique(
            self.pages(),
            self.meta().freelist_root,
            a,
            b,
            self.meta().page_count,
        );
    }

    /// The pages of the free list are pages of the file that it does not
    /// list.
    pub proof fn lemma_chained(&self, fc: FreeChain)
        requires
            self.free_view(fc),
        ensures
            forall|x: PageId| #[trigger]
                self.chained(x) ==> chain_links(fc, x) && 2 <= x < self.meta().page_count
                    && !chain_lists(fc, x),
    {
        assert forall|x: PageId| #[trigger] self.chained(x) implies chain_links(fc, x) && 2 <= x
            < self.meta().page_count && !chain_lists(fc, x) by {
            let fb = choose|fb: FreeChain| #[trigger] self.free_view(fb) && chain_links(fb, x);
            self.lemma_one_free(fc, fb);
            assert(chain_has(fc, x));
            if chain_lists(fc, x) {
                let i = choose|i: int| 0 <= i < fc.len() && (#[trigger] fc[i]).1.contains(x);
                let j = choose|j: int| 0 <= j < fc.len() && (#[trigger] fc[j]).0 == x;
                assert(!fc[i].1.contains(fc[j].0));
            }
        }
    }

    /// The pages of a pager are those of its file.
    pub proof fn lemma_pages_in(&self)
        ensures
            self.pages() == pages_in(self.bytes(), self.size(), self.meta().page_count),
            self.size() == self.meta().page_size,
    {
    }

    /// Pages are what the bytes and the meta say.
    pub proof fn lemma_pages(&self, q: &Pager<S>)
        requires
            self.bytes() == q.bytes(),
            self.meta() == q.meta(),
        ensures
            self.pages() == q.pages(),
            self.size() == q.size(),
    {
    }

    /// Initialize a brand new database on empty storage, stamped with the
    /// current time.
    pub fn create(storage: S, options: PagerOptions) -> (r: Result<Pager<S>>)
        ensures
            match r {
                Ok(p) => p.wf() && page_size_ok(options.page_size) && storage.bytes().len() == 0
                    && p.meta() == (Meta { unix_ts_ms: p.meta().unix_ts_ms, ..blank(options.page_size) })
                    && p.pages() == Pages::empty() && p.reliable() == storage.reliable() && p.free_ok()
                    && p.settled() && p.anchored(),
                Err(Error::InvalidArgument(_)) => !page_size_ok(options.page_size)
                    || storage.bytes().len() > 0 || !storage.reliable(),
                Err(_) => !storage.reliable(),
            },
    {
        Pager::create_at(storage, options, now_ms())
    }

    /// Initialize a brand new database on empty storage.
    pub fn create_at(storage: S, options: PagerOptions, now: u64) -> (r: Result<Pager<S>>)
        ensures
            match r {
                Ok(p) => p.wf() && page_size_ok(options.page_size) && storage.bytes().len() == 0
                    && p.meta() == (Meta { unix_ts_ms: now, ..blank(options.page_size) })
                    && p.pages() == Pages::empty() && p.reliable() == storage.reliable()
                    && p.free_ok() && p.bytes() == p.meta().page() + p.meta().page() && p.settled()
                    && p.anchored(),
                Err(Error::InvalidArgument(_)) => !page_size_ok(options.page_size)
                    || storage.bytes().len() > 0 || !storage.reliable(),
                Err(_) => !storage.reliable(),
            },
    {
        let mut storage = storage;
        if !page::valid_page_size(options.page_size) {
            return Err(
                Error::InvalidArgument("page size must be a power of two between 512 and 65536"),
            );
        }
        match storage.is_empty() {
            Err(e) => {
                return Err(e);
            },
            Ok(empty) => {
                if !empty {
                    return Err(
                        Error::InvalidArgument("refusing to create over non-empty storage"),
                    );
                }
            },
        }
        let meta = Meta {
            page_size: options.page_size,
            txid: 0,
            data_root: NIL_PAGE,
            catalog_root: NIL_PAGE,
            freelist_root: NIL_PAGE,
            page_count: 2,
            unix_ts_ms: now,
            commit_page: NIL_PAGE,
            refs_root: NIL_PAGE,
        };
        // Both slots start out identical so recovery always finds a valid
        // meta no matter which slot the first real commit lands in.
        let mut buf: Vec<u8> = zero_vec(options.page_size as usize);
        meta.encode(buf.as_mut_slice());
        let ghost b0 = storage.bytes();
        proof {
            law_meta_decode_inverts_encode(meta);
            assert(b0 =~= Seq::empty());
        }
        match storage.write_at(0, buf.as_slice()) {
            Err(e) => {
                return Err(e);
            },
            Ok(_) => {},
        }
        proof {
            assert(storage.bytes() =~= buf@);
        }
        match storage.write_at(options.page_size as u64, buf.as_slice()) {
            Err(e) => {
                return Err(e);
            },
            Ok(_) => {},
        }
        proof {
            assert(storage.bytes() =~= buf@ + buf@);
        }
        match storage.sync() {
            Err(e) => {
                return Err(e);
            },
            Ok(_) => {},
        }
        let ghost pages = pages_in(storage.bytes(), meta.page_size, meta.page_count);
        let cache = InvCell::new(PageCache::new(options.cache_pages), Ghost(CacheRule { pages }));
        let p = Pager { storage, cache, cache_pages: options.cache_pages, committed: meta };
        proof {
            assert(p.pages() =~= Pages::empty());
            let fc: FreeChain = Seq::empty();
            assert(p.free_view(fc));
            assert(slot_page(p.bytes(), meta.page_size, 0) =~= buf@);
            assert(slot_page(p.bytes(), meta.page_size, 1) =~= buf@);
            reveal(anchors);
        }
        Ok(p)
    }

    /// Open an existing database, recovering the newest valid meta.
    pub fn open(storage: S, options: PagerOptions) -> (r: Result<Pager<S>>)
        ensures
            r matches Ok(p) ==> p.wf() && p.bytes() == storage.bytes() && p.ops() == storage.ops()
                && (forall|d: Held| #[trigger] p.durable(d) == storage.durable(d)) && p.reliable()
                == storage.reliable() && p.pages() == pages_in(
                storage.bytes(),
                p.meta().page_size,
                p.meta().page_count,
            ) && exists|k: nat| k < 16 && #[trigger] candidate(storage.bytes(), k) == Some(p.meta()),
            storage.reliable() ==> match r {
                Ok(p) => newest(storage.bytes(), 16) == Some(p.meta()),
                Err(Error::Corrupted { page, reason }) => newest(storage.bytes(), 16) is None
                    && magic_seen(storage.bytes(), 16),
                Err(Error::InvalidFormat(_)) => newest(storage.bytes(), 16) is None && !magic_seen(
                    storage.bytes(),
                    16,
                ),
                Err(_) => false,
            },
    {
        let meta = match meta::recover(&storage) {
            Ok(m) => m,
            Err(e) => {
                return Err(e);
            },
        };
        let ghost pages = pages_in(storage.bytes(), meta.page_size, meta.page_count);
        let cache = InvCell::new(PageCache::new(options.cache_pages), Ghost(CacheRule { pages }));
        Ok(Pager { storage, cache, cache_pages: options.cache_pages, committed: meta })
    }

    /// Meta of the most recent commit.
    pub fn committed_meta(&self) -> (r: Meta)
        ensures
            r == self.meta(),
    {
        self.committed
    }

    /// Give up the pager for its storage.
    pub fn into_storage(self) -> (r: S)
        ensures
            r.bytes() == self.bytes(),
            r.reliable() == self.reliable(),
            r.ops() == self.ops(),
            forall|d: Held| #[trigger] r.durable(d) == self.durable(d),
    {
        self.storage
    }

    /// Read a committed page, checksum verified, served from cache when hot.
    pub fn read_page(&self, id: PageId) -> (r: Result<Vec<u8>>)
        requires
            self.wf(),
        ensures
            match r {
                Ok(b) => self.pages().contains_key(id) && b@ == self.pages()[id] && b@.len()
                    == self.size(),
                Err(e) => self.reliable() ==> !self.pages().contains_key(id),
            },
            id < 2 || id >= self.meta().page_count ==> r == Result::<Vec<u8>>::Err(
                Error::PageOutOfBounds(id),
            ),
    {
        let ps: u32 = self.committed.page_size;
        if id < 2 || id >= self.committed.page_count {
            return Err(Error::PageOutOfBounds(id));
        }
        if id >= MAX_PAGES {
            return Err(Error::PageOutOfBounds(id));
        }
        let mut cache = self.cache.replace(PageCache::new(0));
        let hit = cache.get(id);
        self.cache.set(cache);
        if let Some(buf) = hit {
            proof {
                self.lemma_facts();
            }
            return Ok(buf);
        }
        proof {
            lemma_off(id, ps);
        }
        let mut buf: Vec<u8> = zero_vec(ps as usize);
        let off: u64 = id * ps as u64;
        match self.storage.read_at(off, buf.as_mut_slice()) {
            Err(e) => {
                return Err(e);
            },
            Ok(_) => {},
        }
        match page::verify(buf.as_slice(), id) {
            Err(e) => {
                return Err(e);
            },
            Ok(_) => {},
        }
        let keep = copy_vec(buf.as_slice());
        let mut cache = self.cache.replace(PageCache::new(0));
        cache.insert(id, keep);
        self.cache.set(cache);
        Ok(buf)
    }
}

/// The meta a database starts with, at time zero.
pub open spec fn blank(ps: u32) -> Meta {
    Meta {
        page_size: ps,
        txid: 0,
        data_root: NIL_PAGE,
        catalog_root: NIL_PAGE,
        freelist_root: NIL_PAGE,
        page_count: 2,
        unix_ts_ms: 0,
        commit_page: NIL_PAGE,
        refs_root: NIL_PAGE,
    }
}

// ---------------------------------------------------------------------
// write batches
// ---------------------------------------------------------------------

/// An exclusive write transaction at the page level.
///
/// Dropping a batch without committing discards it completely: nothing it
/// allocated or wrote is reachable from any meta, so it never existed as far
/// as the database is concerned.
pub struct WriteBatch<'p, S: Storage> {
    /// The pager the batch reads from and commits to.
    pub pager: &'p mut Pager<S>,
    /// What the batch has done so far.
    pub state: BatchState,
}

/// The private half of a [`WriteBatch`].
pub struct BatchState {
    base: Meta,
    next_page: PageId,
    /// Where each owned page sits in `dirty`.
    index: HashMap<PageId, usize>,
    dirty: Vec<(PageId, Vec<u8>)>,
    data_root: PageId,
    catalog_root: PageId,
    freelist_root: PageId,
    commit_page: PageId,
    refs_root: PageId,
    /// Page ids ready for reuse, taken from consumed free list pages.
    reuse_pool: Vec<PageId>,
    /// Next unread page of the committed free list chain.
    chain_cursor: PageId,
    /// Chain pages this batch consumed. They are still referenced by the
    /// previous meta until the commit point, so they must not be reused
    /// now; they get listed in the free list this batch writes instead.
    deferred_free: Vec<PageId>,
    touched_freelist: bool,
    allow_reuse: bool,
    /// When set, the free list written at commit is exactly this list.
    freelist_override: Option<Vec<PageId>>,
}

impl<'p, S: Storage> WriteBatch<'p, S> {
    /// The pager underneath.
    pub open spec fn under(&self) -> Pager<S> {
        *self.pager
    }

    /// Does this batch own (and may therefore rewrite) the given page?
    pub closed spec fn own(&self, x: PageId) -> bool {
        self.state.index@.contains_key(x)
    }

    /// The committed meta this batch is building on.
    pub closed spec fn meta(&self) -> Meta {
        self.state.base
    }

    /// The next id past the end of the file.
    pub closed spec fn next(&self) -> PageId {
        self.state.next_page
    }

    pub closed spec fn data(&self) -> PageId {
        self.state.data_root
    }

    pub closed spec fn catalog(&self) -> PageId {
        self.state.catalog_root
    }

    pub closed spec fn commit_at_page(&self) -> PageId {
        self.state.commit_page
    }

    pub closed spec fn refs(&self) -> PageId {
        self.state.refs_root
    }

    /// The ids the next free list is to hold, where that was said.
    pub closed spec fn chosen_free(&self) -> Option<Seq<PageId>> {
        match self.state.freelist_override {
            Some(v) => Some(v@),
            None => None,
        }
    }

    /// Everything but pages and allocation is as it was.
    pub open spec fn keeps(&self, b: &WriteBatch<'p, S>) -> bool {
        &&& self.meta() == b.meta()
        &&& self.size() == b.size()
        &&& self.reliable() == b.reliable()
        &&& self.data() == b.data()
        &&& self.catalog() == b.catalog()
        &&& self.commit_at_page() == b.commit_at_page()
        &&& self.refs() == b.refs()
        &&& self.chosen_free() == b.chosen_free()
        &&& self.under() == b.under()
    }

    closed spec fn free_view(&self, fc: FreeChain) -> bool {
        &&& chain_at(self.pager.pages(), self.state.chain_cursor, fc)
        &&& chain_ok(fc, self.state.base.page_count)
        &&& self.state.reuse_pool@.no_duplicates()
        &&& self.state.deferred_free@.no_duplicates()
        &&& forall|x: PageId|
            #[trigger] self.state.reuse_pool@.contains(x) ==> 2 <= x < self.state.base.page_count && !self.own(x)
                && !chain_has(fc, x) && !self.state.deferred_free@.contains(x)
        &&& forall|x: PageId|
            #[trigger] self.state.deferred_free@.contains(x) ==> 2 <= x < self.state.base.page_count
                && !self.own(x) && !chain_has(fc, x)
        &&& forall|x: PageId| #[trigger] chain_has(fc, x) ==> !self.own(x)
        &&& self.state.freelist_root == self.state.base.freelist_root
        &&& !self.state.touched_freelist ==> self.state.chain_cursor == self.state.base.freelist_root
            && self.state.reuse_pool@.len() == 0 && self.state.deferred_free@.len() == 0
        &&& self.pager.free_ok()
        &&& forall|x: PageId| #[trigger]
            self.pager.chained(x) ==> !self.own(x) && !self.state.reuse_pool@.contains(x)
                && !chain_lists(fc, x)
    }

    /// Whether the next page may come from the free list.
    pub closed spec fn reuses(&self) -> bool {
        self.state.allow_reuse
    }

    /// Ids the next allocation takes before it extends the file.
    pub closed spec fn ready(&self, x: PageId) -> bool {
        self.state.reuse_pool@.contains(x) || (self.state.reuse_pool@.len() == 0 && exists|
            fc: FreeChain,
        | #[trigger]
            self.free_view(fc) && fc.len() > 0 && fc[0].1.contains(x))
    }

    /// The pages this batch owns.
    pub open spec fn owned(&self) -> Set<PageId> {
        Set::new(|x: PageId| self.own(x))
    }

    /// The part of the free list not yet handed out is sound.
    pub closed spec fn free_ok(&self) -> bool {
        exists|fc: FreeChain| #[trigger] self.free_view(fc)
    }

    /// Pages nothing uses: past the end of the file, or covered by what is
    /// left of the free list.
    pub closed spec fn spare(&self, x: PageId) -> bool {
        ||| x >= self.state.next_page
        ||| self.state.reuse_pool@.contains(x)
        ||| self.state.deferred_free@.contains(x)
        ||| exists|fc: FreeChain| #[trigger] self.free_view(fc) && chain_has(fc, x)
    }

    /// What the free list may cover once this batch has committed.
    pub open spec fn will_free(&self, x: PageId) -> bool {
        self.spare(x) || (self.chosen_free() matches Some(l) && l.contains(x) && !self.own(x))
    }

    /// What the free list covers once this batch has committed and the file
    /// has `count` pages: the chosen ids the batch did not write, or else
    /// what nothing uses, and the pages added to hold the list.
    pub open spec fn frees(&self, x: PageId, count: u64) -> bool {
        &&& x < count
        &&& x >= self.next() || match self.chosen_free() {
            Some(l) => l.contains(x) && !self.own(x),
            None => self.spare(x),
        }
    }
}

impl<'p, S: Storage> ReadPages for WriteBatch<'p, S> {
    closed spec fn pages(&self) -> Pages {
        Map::new(
            |x: PageId| self.state.index@.contains_key(x) || self.pager.pages().contains_key(x),
            |x: PageId|
                if self.state.index@.contains_key(x) {
                    self.state.dirty@[self.state.index@[x] as int].1@
                } else {
                    self.pager.pages()[x]
                },
        )
    }

    closed spec fn size(&self) -> u32 {
        self.state.base.page_size
    }

    closed spec fn reliable(&self) -> bool {
        self.pager.reliable()
    }

    closed spec fn wf(&self) -> bool {
        &&& self.pager.wf()
        &&& self.state.base == self.pager.committed
        &&& self.state.base.page_count <= self.state.next_page
        &&& self.state.next_page <= MAX_PAGES || (self.state.next_page
            == self.state.base.page_count && self.state.dirty@.len() == 0)
        &&& forall|x: PageId|
            #[trigger] self.state.index@.contains_key(x) ==> self.state.index@[x] < self.state.dirty@.len()
                && self.state.dirty@[self.state.index@[x] as int].0 == x
        &&& forall|i: int|
            0 <= i < self.state.dirty@.len() ==> self.state.index@.contains_key((#[trigger] self.state.dirty@[i]).0)
                && self.state.index@[self.state.dirty@[i].0] == i && 2 <= self.state.dirty@[i].0 < self.state.next_page
                && self.state.dirty@[i].1@.len() == self.state.base.page_size
    }

    fn read(&self, id: PageId) -> (r: Result<Vec<u8>>) {
        self.read_page(id)
    }

    fn page_size(&self) -> (r: u32) {
        self.state.base.page_size
    }

    fn page_bound(&self) -> (r: u64)
        ensures
            r == self.next(),
    {
        proof {
            self.lemma_facts();
        }
        self.state.next_page
    }
}

impl<S: Storage> Pager<S> {
    /// Start a write batch.
    pub fn begin<'p>(&'p mut self) -> (r: WriteBatch<'p, S>)
        requires
            old(self).wf(),
        ensures
            r.wf(),
            r.under() == *old(self),
            *final(r.pager) == *final(self),
            r.meta() == old(self).meta(),
            r.size() == old(self).size(),
            r.reliable() == old(self).reliable(),
            r.pages() == old(self).pages(),
            r.next() == old(self).meta().page_count,
            r.data() == old(self).meta().data_root,
            r.catalog() == old(self).meta().catalog_root,
            r.commit_at_page() == old(self).meta().commit_page,
            r.refs() == old(self).meta().refs_root,
            r.chosen_free() is None,
            forall|x: PageId| !#[trigger] r.own(x),
            old(self).free_ok() ==> r.free_ok(),
            forall|x: PageId|
                #[trigger] r.spare(x) ==> x >= old(self).meta().page_count || old(self).free(x),
            old(self).free_ok() ==> forall|x: PageId| #[trigger]
                r.spare(x) == (x >= old(self).meta().page_count || old(self).free(x)),
            r.reuses(),
            forall|x: PageId, fc: FreeChain| #[trigger]
                old(self).free_view(fc) ==> #[trigger] r.ready(x) == (fc.len() > 0
                    && fc[0].1.contains(x)),
            r.owned() =~= Set::<PageId>::empty(),
    {
        let base: Meta = self.committed;
        let ghost before = *self;
        let state = BatchState {
            next_page: base.page_count,
            data_root: base.data_root,
            catalog_root: base.catalog_root,
            freelist_root: base.freelist_root,
            commit_page: base.commit_page,
            refs_root: base.refs_root,
            reuse_pool: Vec::new(),
            chain_cursor: base.freelist_root,
            deferred_free: Vec::new(),
            touched_freelist: false,
            allow_reuse: true,
            freelist_override: None,
            base,
            index: HashMap::new(),
            dirty: Vec::new(),
        };
        let r = WriteBatch { pager: self, state };
        proof {
            assert(r.pages() =~= before.pages());
            if before.free_ok() {
                let fc = choose|fc: FreeChain| #[trigger] before.free_view(fc);
                before.lemma_chained(fc);
                assert(r.free_view(fc));
                assert forall|x: PageId| before.free(x) implies #[trigger] r.spare(x) by {
                    let fd = choose|fd: FreeChain| #[trigger] before.free_view(fd) && chain_has(fd, x);
                    before.lemma_one_free(fc, fd);
                }
            }
            assert forall|x: PageId, fc: FreeChain| #[trigger] before.free_view(fc) implies
                #[trigger] r.ready(x) == (fc.len() > 0 && fc[0].1.contains(x)) by {
                before.lemma_chained(fc);
                assert(r.free_view(fc));
                if r.ready(x) {
                    let fd = choose|fd: FreeChain| #[trigger]
                        r.free_view(fd) && fd.len() > 0 && fd[0].1.contains(x);
                    assert(before.free_view(fd));
                    before.lemma_one_free(fc, fd);
                }
            }
            assert forall|x: PageId| #[trigger] r.spare(x) implies x >= before.meta().page_count
                || before.free(x) by {
                if x < r.state.next_page {
                    let fc = choose|fc: FreeChain| #[trigger] r.free_view(fc) && chain_has(fc, x);
                    assert(before.free_view(fc));
                }
            }
        }
        r
    }
}

impl<'p, S: Storage> WriteBatch<'p, S> {
    /// What the invariant gives away.
    pub proof fn lemma_facts(&self)
        requires
            self.wf(),
        ensures
            self.under().wf(),
            self.under().meta() == self.meta(),
            self.under().reliable() == self.reliable(),
            self.meta().valid(),
            self.size() == self.meta().page_size,
            page_size_ok(self.size()),
            self.meta().page_count <= self.next(),
            self.next() <= MAX_PAGES || self.next() == self.meta().page_count,
            self.next() > MAX_PAGES ==> forall|x: PageId| !(#[trigger] self.own(x)),
            forall|x: PageId| #[trigger] self.own(x) ==> 2 <= x < self.next() && self.pages().contains_key(x),
            forall|x: PageId|
                #[trigger] self.pages().contains_key(x) ==> 2 <= x < self.next()
                    && self.pages()[x].len() == self.size(),
            forall|x: PageId|
                !self.own(x) ==> (#[trigger] self.pages().contains_key(x)
                    == self.under().pages().contains_key(x)) && (self.pages().contains_key(x)
                    ==> self.pages()[x] == self.under().pages()[x]),
            self.free_ok() ==> forall|x: PageId| #[trigger] self.spare(x) ==> !self.own(x) && x >= 2,
            forall|x: PageId| x >= self.next() ==> #[trigger] self.spare(x),
    {
        self.pager.lemma_facts();
        assert forall|x: PageId| #[trigger] self.own(x) implies 2 <= x < self.next()
            && self.pages().contains_key(x) by {
            assert(self.state.index@.contains_key(x));
            assert(self.state.dirty@[self.state.index@[x] as int].0 == x);
        }
        assert forall|x: PageId| #[trigger] self.pages().contains_key(x) implies 2 <= x < self.next()
            && self.pages()[x].len() == self.size() by {
            if self.own(x) {
                assert(self.state.index@.contains_key(x));
                assert(self.state.dirty@[self.state.index@[x] as int].0 == x);
            } else {
                assert(self.pager.pages().contains_key(x));
            }
        }
        if self.free_ok() {
            let fc0 = choose|fc: FreeChain| #[trigger] self.free_view(fc);
            assert forall|x: PageId| #[trigger] self.spare(x) implies !self.own(x) && x >= 2 by {
                if x >= self.state.next_page {
                } else if self.state.reuse_pool@.contains(x) {
                } else if self.state.deferred_free@.contains(x) {
                } else {
                    let fc = choose|fc: FreeChain| #[trigger] self.free_view(fc) && chain_has(fc, x);
                    assert(chain_has(fc, x));
                }
            }
        }
    }

    /// Allocate a page with an initialized header, reusing a free page
    /// when one is available and extending the file otherwise. Only pages
    /// allocated here are writable in this batch.
    pub fn allocate(&mut self, page_type: PageType) -> (r: Result<PageId>)
        requires
            old(self).wf(),
        ensures
            final(self).wf(),
            final(self).keeps(old(self)),
            *final(final(self).pager) == *final(old(self).pager),
            old(self).next() <= final(self).next() <= old(self).next() + 1,
            match r {
                Ok(id) => {
                    &&& 2 <= id < final(self).next()
                    &&& !old(self).own(id)
                    &&& forall|x: PageId| #[trigger] final(self).own(x) == (old(self).own(x) || x == id)
                    &&& final(self).pages() == old(self).pages().insert(
                        id,
                        with_header(zeros(old(self).size() as nat), page_type),
                    )
                    &&& old(self).free_ok() ==> final(self).free_ok() && old(self).spare(id) && (
                    forall|x: PageId|
                        #[trigger] final(self).spare(x) == (old(self).spare(x) && x != id))
                    &&& old(self).free_ok() && old(self).reliable() && old(self).reuses() && (exists|
                        x: PageId,
                    | #[trigger] old(self).ready(x)) ==> old(self).ready(id) && final(self).next()
                        == old(self).next()
                    &&& final(self).next() == old(self).next() || id == old(self).next()
                },
                Err(e) => {
                    &&& e is InvalidArgument
                    &&& old(self).next() >= MAX_PAGES
                    &&& final(self).pages() == old(self).pages()
                    &&& forall|x: PageId| #[trigger] final(self).own(x) == old(self).own(x)
                    &&& old(self).free_ok() ==> final(self).free_ok() && (forall|x: PageId|
                        #[trigger] final(self).spare(x) == old(self).spare(x))
                },
            },
            old(self).free_ok() && old(self).reliable() ==> final(self).reuses() == old(
                self,
            ).reuses(),
    {
        let id: PageId = match self.take_page_id() {
            Ok(id) => id,
            Err(e) => {
                return Err(e);
            },
        };
        let mut buf: Vec<u8> = zero_vec(self.state.base.page_size as usize);
        page::init_header(buf.as_mut_slice(), page_type);
        self.adopt(id, buf);
        Ok(id)
    }

    /// Make `id` a page of this batch.
    fn adopt(&mut self, id: PageId, buf: Vec<u8>)
        requires
            old(self).wf(),
            2 <= id < old(self).next() <= MAX_PAGES,
            !old(self).own(id),
            buf@.len() == old(self).size(),
        ensures
            final(self).wf(),
            final(self).keeps(old(self)),
            *final(final(self).pager) == *final(old(self).pager),
            final(self).next() == old(self).next(),
            final(self).state.reuse_pool == old(self).state.reuse_pool,
            final(self).state.deferred_free == old(self).state.deferred_free,
            final(self).state.chain_cursor == old(self).state.chain_cursor,
            final(self).state.freelist_root == old(self).state.freelist_root,
            final(self).state.touched_freelist == old(self).state.touched_freelist,
            final(self).state.allow_reuse == old(self).state.allow_reuse,
            forall|x: PageId| #[trigger] final(self).own(x) == (old(self).own(x) || x == id),
            final(self).pages() == old(self).pages().insert(id, buf@),
            old(self).free_ok() && !old(self).spare(id) && !old(self).under().chained(id)
                ==> final(self).free_ok() && (forall|x: PageId|
                #[trigger] final(self).spare(x) == old(self).spare(x)),
    {
        let ghost before = *self;
        let i: usize = self.state.dirty.len();
        self.state.dirty.push((id, buf));
        self.state.index.insert(id, i);
        proof {
            assert forall|x: PageId| #[trigger] self.state.index@.contains_key(x) implies self.state.index@[x]
                < self.state.dirty@.len() && self.state.dirty@[self.state.index@[x] as int].0 == x by {
                if x != id {
                    assert(before.state.index@.contains_key(x));
                    assert(self.state.dirty@[before.state.index@[x] as int] == before.state.dirty@[before.state.index@[x] as int]);
                }
            }
            assert forall|j: int| 0 <= j < self.state.dirty@.len() implies self.state.index@.contains_key(
                (#[trigger] self.state.dirty@[j]).0,
            ) && self.state.index@[self.state.dirty@[j].0] == j && 2 <= self.state.dirty@[j].0 < self.state.next_page
                && self.state.dirty@[j].1@.len() == self.state.base.page_size by {
                if j < i {
                    assert(self.state.dirty@[j] == before.state.dirty@[j]);
                    assert(before.state.index@.contains_key(before.state.dirty@[j].0));
                    assert(before.state.dirty@[j].0 != id);
                }
            }
            assert forall|x: PageId| x != id && before.state.index@.contains_key(x) implies
                self.state.dirty@[self.state.index@[x] as int].1@ == before.state.dirty@[before.state.index@[x] as int].1@ by {
                assert(before.state.index@[x] < before.state.dirty@.len());
            }
            assert(self.pages() =~= before.pages().insert(id, buf@));
            if before.free_ok() && !before.spare(id) && !before.under().chained(id) {
                let fc = choose|fc: FreeChain| #[trigger] before.free_view(fc);
                assert(self.free_view(fc)) by {
                    assert forall|x: PageId| #[trigger] chain_has(fc, x) implies !self.own(x) by {
                        assert(before.free_view(fc) && chain_has(fc, x));
                    }
                }
                assert forall|x: PageId| #[trigger] self.spare(x) implies before.spare(x) by {
                    if x < self.state.next_page && !self.state.reuse_pool@.contains(x)
                        && !self.state.deferred_free@.contains(x) {
                        let fd = choose|fd: FreeChain| #[trigger] self.free_view(fd) && chain_has(fd, x);
                        lemma_free_chain_unique(
                            self.pager.pages(),
                            self.state.chain_cursor,
                            fc,
                            fd,
                            self.state.base.page_count,
                        );
                        assert(before.free_view(fc) && chain_has(fc, x));
                    }
                }
                assert forall|x: PageId| before.spare(x) implies #[trigger] self.spare(x) by {
                    if x < self.state.next_page && !self.state.reuse_pool@.contains(x)
                        && !self.state.deferred_free@.contains(x) {
                        let fd = choose|fd: FreeChain| #[trigger] before.free_view(fd) && chain_has(
                            fd,
                            x,
                        );
                        lemma_free_chain_unique(
                            self.pager.pages(),
                            self.state.chain_cursor,
                            fc,
                            fd,
                            self.state.base.page_count,
                        );
                        assert(self.free_view(fc) && chain_has(fc, x));
                    }
                }
            }
        }
    }

    /// An id nothing uses: from the pool, refilled from the chain, or past
    /// the end of the file.
    fn take_page_id(&mut self) -> (r: Result<PageId>)
        requires
            old(self).wf(),
        ensures
            final(self).wf(),
            final(self).keeps(old(self)),
            *final(final(self).pager) == *final(old(self).pager),
            old(self).next() <= final(self).next() <= old(self).next() + 1,
            final(self).pages() == old(self).pages(),
            forall|x: PageId| #[trigger] final(self).own(x) == old(self).own(x),
            old(self).free_ok() ==> final(self).free_ok(),
            match r {
                Ok(id) => {
                    &&& 2 <= id < final(self).next() <= MAX_PAGES
                    &&& !old(self).own(id)
                    &&& old(self).free_ok() ==> old(self).spare(id) && !old(self).under().chained(
                        id,
                    ) && (forall|x: PageId|
                        #[trigger] final(self).spare(x) == (old(self).spare(x) && x != id))
                    &&& old(self).free_ok() && old(self).reliable() && old(self).reuses() && (exists|
                        x: PageId,
                    | #[trigger] old(self).ready(x)) ==> old(self).ready(id) && final(self).next()
                        == old(self).next()
                    &&& final(self).next() == old(self).next() || id == old(self).next()
                },
                Err(e) => {
                    &&& e is InvalidArgument
                    &&& old(self).next() >= MAX_PAGES
                    &&& old(self).free_ok() ==> (forall|x: PageId|
                        #[trigger] final(self).spare(x) == old(self).spare(x))
                },
            },
            old(self).free_ok() && old(self).reliable() ==> final(self).reuses() == old(
                self,
            ).reuses(),
    {
        let ghost before = *self;
        if self.state.next_page > MAX_PAGES {
            return Err(Error::InvalidArgument("the database has reached its largest size"));
        }
        if self.state.allow_reuse {
            if self.state.reuse_pool.len() == 0 && self.state.chain_cursor != NIL_PAGE {
                self.refill();
            }
            proof {
                if before.free_ok() {
                    let fc = choose|fc: FreeChain| #[trigger] before.free_view(fc);
                    assert forall|x: PageId| #[trigger] self.state.reuse_pool@.contains(x) implies
                        before.ready(x) by {
                        if before.state.reuse_pool@.len() == 0 {
                            assert(before.free_view(fc));
                        }
                    }
                    assert forall|x: PageId| before.reliable() && #[trigger] before.ready(x) implies
                        self.state.reuse_pool@.contains(x) by {
                        if before.state.reuse_pool@.len() == 0 {
                            let fd = choose|fd: FreeChain| #[trigger]
                                before.free_view(fd) && fd.len() > 0 && fd[0].1.contains(x);
                            assert(before.state.chain_cursor == fd[0].0);
                            assert(chain_has(fd, fd[0].0));
                        }
                    }
                }
            }
            while self.state.reuse_pool.len() > 0
                invariant
                    self.wf(),
                    before == *old(self),
                    self.keeps(&before),
                    *final(self.pager) == *final(old(self).pager),
                    before.wf(),
                    self.state.next_page == before.state.next_page,
                    self.pages() == before.pages(),
                    forall|x: PageId| #[trigger] self.own(x) == before.own(x),
                    self.state.next_page <= MAX_PAGES,
                    before.free_ok() ==> self.free_ok() && (forall|x: PageId|
                        #[trigger] self.spare(x) == before.spare(x)),
                    before.free_ok() ==> forall|x: PageId| #[trigger]
                        self.state.reuse_pool@.contains(x) ==> before.ready(x),
                    before.free_ok() && before.reliable() ==> self.state.allow_reuse
                        == before.state.allow_reuse,
                    before.free_ok() && before.reliable() && (exists|x: PageId| #[trigger]
                        before.ready(x)) ==> self.state.reuse_pool@.len() > 0,
                decreases self.state.reuse_pool@.len(),
            {
                let ghost at = *self;
                let last: usize = self.state.reuse_pool.len() - 1;
                let id: PageId = self.state.reuse_pool[last];
                self.state.reuse_pool.truncate(last);
                proof {
                    assert(self.state.reuse_pool@ =~= at.state.reuse_pool@.drop_last());
                    assert(self.pages() =~= at.pages());
                    assert(at.state.reuse_pool@.contains(id));
                    assert(at.spare(id));
                    if before.free_ok() {
                        at.lemma_pop(self, id);
                        assert forall|x: PageId| #[trigger] self.spare(x) == (before.spare(x) && x
                            != id) by {
                            assert(self.spare(x) == (at.spare(x) && x != id));
                        }
                        let fc = choose|fc: FreeChain| #[trigger] at.free_view(fc);
                        assert(at.free_view(fc));
                        assert(!at.own(id));
                        assert(!at.under().chained(id));
                        assert(2 <= id < at.state.base.page_count);
                        assert(before.ready(id));
                    }
                    assert forall|x: PageId| #[trigger] self.own(x) == before.own(x) by {
                        assert(at.own(x) == before.own(x));
                    }
                }
                if 2 <= id && id < self.state.base.page_count && !self.state.index.contains_key(&id) {
                    proof {
                        assert(!self.own(id));
                    }
                    return Ok(id);
                }
            }
        }
        if self.state.next_page >= MAX_PAGES {
            return Err(Error::InvalidArgument("the database has reached its largest size"));
        }
        let id: PageId = self.state.next_page;
        let ghost at = *self;
        self.state.next_page = id + 1;
        proof {
            assert(self.pages() =~= at.pages());
            assert forall|x: PageId| #[trigger] self.own(x) == before.own(x) by {
                assert(at.own(x) == before.own(x));
            }
            at.lemma_facts();
            if at.free_ok() {
                let fc = choose|fc: FreeChain| #[trigger] at.free_view(fc);
                assert(self.free_view(fc));
                assert(!at.under().chained(id)) by {
                    let fb = choose|fb: FreeChain| #[trigger] at.under().free_view(fb);
                    at.under().lemma_chained(fb);
                }
                assert forall|x: PageId| #[trigger] self.spare(x) == (at.spare(x) && x != id) by {
                    if self.spare(x) && x < self.state.next_page && !self.state.reuse_pool@.contains(x)
                        && !self.state.deferred_free@.contains(x) {
                        let fd = choose|fd: FreeChain| #[trigger] self.free_view(fd) && chain_has(fd, x);
                        assert(at.free_view(fd));
                    }
                    if at.spare(x) && x < at.state.next_page && !at.state.reuse_pool@.contains(x)
                        && !at.state.deferred_free@.contains(x) {
                        let fd = choose|fd: FreeChain| #[trigger] at.free_view(fd) && chain_has(fd, x);
                        assert(self.free_view(fd));
                    }
                }
            }
        }
        Ok(id)
    }

    /// Popping the pool takes one id out of what is spare.
    proof fn lemma_pop(&self, b: &WriteBatch<'p, S>, id: PageId)
        requires
            self.free_ok(),
            self.state.reuse_pool@.len() > 0,
            id == self.state.reuse_pool@.last(),
            b.state.reuse_pool@ == self.state.reuse_pool@.drop_last(),
            b.state.deferred_free == self.state.deferred_free,
            b.state.chain_cursor == self.state.chain_cursor,
            b.state.freelist_root == self.state.freelist_root,
            b.state.touched_freelist == self.state.touched_freelist,
            b.state.index == self.state.index,
            b.state.base == self.state.base,
            b.state.next_page == self.state.next_page,
            b.under() == self.under(),
            self.wf(),
        ensures
            b.free_ok(),
            forall|x: PageId| #[trigger] b.spare(x) == (self.spare(x) && x != id),
    {
        self.lemma_facts();
        let fc = choose|fc: FreeChain| #[trigger] self.free_view(fc);
        let p = self.state.reuse_pool@;
        let q = b.state.reuse_pool@;
        assert forall|x: PageId| #[trigger] q.contains(x) implies p.contains(x) && x != id by {
            let i = choose|i: int| 0 <= i < q.len() && q[i] == x;
            assert(p[i] == x);
            assert(p[p.len() - 1] == id);
        }
        assert(p.contains(id));
        assert(b.free_view(fc));
        assert forall|x: PageId| #[trigger] b.spare(x) implies self.spare(x) && x != id by {
            if x < b.state.next_page && !b.state.reuse_pool@.contains(x) && !b.state.deferred_free@.contains(x) {
                let fd = choose|fd: FreeChain| #[trigger] b.free_view(fd) && chain_has(fd, x);
                lemma_free_chain_unique(
                    self.pager.pages(),
                    self.state.chain_cursor,
                    fc,
                    fd,
                    self.state.base.page_count,
                );
                assert(self.free_view(fc) && chain_has(fc, x));
            }
        }
        assert forall|x: PageId| self.spare(x) && x != id implies #[trigger] b.spare(x) by {
            if self.state.reuse_pool@.contains(x) {
                let i = choose|i: int| 0 <= i < p.len() && p[i] == x;
                assert(q[i] == x);
            } else if x < self.state.next_page && !self.state.deferred_free@.contains(x) {
                let fd = choose|fd: FreeChain| #[trigger] self.free_view(fd) && chain_has(fd, x);
                lemma_free_chain_unique(
                    self.pager.pages(),
                    self.state.chain_cursor,
                    fc,
                    fd,
                    self.state.base.page_count,
                );
                assert(b.free_view(fc) && chain_has(fc, x));
            }
        }
    }

    /// Pull the next chain page into the pool; the chain page itself
    /// becomes free, but only for later transactions. Where the chain does
    /// not read, stop consuming it.
    fn refill(&mut self)
        requires
            old(self).wf(),
            old(self).state.reuse_pool@.len() == 0,
            old(self).state.chain_cursor != NIL_PAGE,
        ensures
            final(self).wf(),
            final(self).keeps(old(self)),
            *final(final(self).pager) == *final(old(self).pager),
            final(self).state.next_page == old(self).state.next_page,
            final(self).pages() == old(self).pages(),
            forall|x: PageId| #[trigger] final(self).own(x) == old(self).own(x),
            old(self).free_ok() ==> final(self).free_ok() && (forall|x: PageId|
                #[trigger] final(self).spare(x) == old(self).spare(x)),
            final(self).state.reuse_pool@.len() > 0 ==> old(self).free_ok() ==> forall|fc: FreeChain|
                #[trigger] old(self).free_view(fc) ==> fc.len() > 0 && final(self).state.reuse_pool@
                    == fc[0].1,
            old(self).reliable() ==> forall|fc: FreeChain| #[trigger]
                old(self).free_view(fc) ==> fc.len() > 0 && final(self).state.reuse_pool@ == fc[0].1
                    && final(self).state.allow_reuse == old(self).state.allow_reuse,
    {
        let ghost before = *self;
        proof {
            assert forall|fc: FreeChain| #[trigger] before.free_view(fc) implies fc.len() > 0
                && before.under().pages().contains_key(before.state.chain_cursor) && list_of(
                before.under().pages()[before.state.chain_cursor],
            ) == Some((free_link(fc, 0), fc[0].1)) by {
                assert(fc[0].0 == before.state.chain_cursor);
            }
        }
        let cursor: PageId = self.state.chain_cursor;
        match self.pager.read_page(cursor) {
            Ok(buf) => match freelist::decode_page(buf.as_slice(), cursor) {
                Ok((next, ids)) => {
                    self.state.reuse_pool = ids;
                    self.state.deferred_free.push(cursor);
                    self.state.chain_cursor = next;
                    self.state.touched_freelist = true;
                    proof {
                        assert(self.pages() =~= before.pages());
                        if before.free_ok() {
                            let fc = choose|fc: FreeChain| #[trigger] before.free_view(fc);
                            before.lemma_refill(self, fc, ids@, next);
                        }
                    }
                },
                Err(_) => {
                    self.state.allow_reuse = false;
                    proof {
                        assert(self.pages() =~= before.pages());
                        before.lemma_same_free(self);
                    }
                },
            },
            Err(_) => {
                self.state.allow_reuse = false;
                proof {
                    assert(self.pages() =~= before.pages());
                    before.lemma_same_free(self);
                }
            },
        }
    }

    proof fn lemma_same_free(&self, b: &WriteBatch<'p, S>)
        requires
            b.state.reuse_pool == self.state.reuse_pool,
            b.state.deferred_free == self.state.deferred_free,
            b.state.chain_cursor == self.state.chain_cursor,
            b.state.freelist_root == self.state.freelist_root,
            b.state.touched_freelist == self.state.touched_freelist,
            b.state.index == self.state.index,
            b.state.base == self.state.base,
            b.state.next_page == self.state.next_page,
            b.under() == self.under(),
        ensures
            self.free_ok() == b.free_ok(),
            forall|x: PageId| #[trigger] b.spare(x) == self.spare(x),
    {
        if self.free_ok() {
            let fc = choose|fc: FreeChain| #[trigger] self.free_view(fc);
            assert(b.free_view(fc));
        }
        if b.free_ok() {
            let fc = choose|fc: FreeChain| #[trigger] b.free_view(fc);
            assert(self.free_view(fc));
        }
        assert forall|x: PageId| self.spare(x) implies #[trigger] b.spare(x) by {
            if x < b.state.next_page && !b.state.reuse_pool@.contains(x) && !b.state.deferred_free@.contains(x) {
                let fd = choose|fd: FreeChain| #[trigger] self.free_view(fd) && chain_has(fd, x);
                assert(b.free_view(fd));
            }
        }
        assert forall|x: PageId| #[trigger] b.spare(x) implies self.spare(x) by {
            if x < b.state.next_page && !b.state.reuse_pool@.contains(x) && !b.state.deferred_free@.contains(x) {
                let fd = choose|fd: FreeChain| #[trigger] b.free_view(fd) && chain_has(fd, x);
                assert(self.free_view(fd));
            }
        }
    }

    proof fn lemma_refill(
        &self,
        b: &WriteBatch<'p, S>,
        fc: FreeChain,
        ids: Seq<PageId>,
        next: PageId,
    )
        requires
            self.free_view(fc),
            self.state.reuse_pool@.len() == 0,
            self.state.chain_cursor != NIL_PAGE,
            self.under().pages().contains_key(self.state.chain_cursor),
            list_of(self.under().pages()[self.state.chain_cursor]) == Some((next, ids)),
            b.state.reuse_pool@ == ids,
            b.state.deferred_free@ == self.state.deferred_free@.push(self.state.chain_cursor),
            b.state.chain_cursor == next,
            b.state.freelist_root == self.state.freelist_root,
            b.state.touched_freelist,
            b.state.index == self.state.index,
            b.state.base == self.state.base,
            b.state.next_page == self.state.next_page,
            b.under() == self.under(),
        ensures
            b.free_ok(),
            forall|x: PageId| #[trigger] b.spare(x) == self.spare(x),
    {
        let cursor = self.state.chain_cursor;
        assert(fc.len() > 0 && fc[0].0 == cursor);
        assert(fc[0] == (cursor, ids));
        let rest = fc.skip(1);
        assert forall|i: int| 0 <= i < rest.len() implies rest[i] == #[trigger] fc[i + 1] by {}
        assert(chain_has(fc, cursor));
        assert forall|x: PageId| #[trigger] chain_has(rest, x) implies chain_has(fc, x) && x
            != cursor && !ids.contains(x) by {
            let i = choose|i: int|
                0 <= i < rest.len() && ((#[trigger] rest[i]).0 == x || rest[i].1.contains(x));
            assert(rest[i] == fc[i + 1]);
            assert(fc[0].1 == ids);
        }
        assert forall|x: PageId| #[trigger] ids.contains(x) implies chain_has(fc, x) && x != cursor by {
            assert(fc[0].1.contains(x));
        }
        assert(chain_at(b.pager.pages(), next, rest)) by {
            assert forall|i: int| 0 <= i < rest.len() implies b.pager.pages().contains_key(
                (#[trigger] rest[i]).0,
            ) && list_of(b.pager.pages()[rest[i].0]) == Some((free_link(rest, i), rest[i].1)) by {
                assert(rest[i] == fc[i + 1]);
                assert(free_link(rest, i) == free_link(fc, i + 1));
            }
            assert(next == free_link(fc, 0));
        }
        assert(chain_ok(rest, self.state.base.page_count)) by {
            assert forall|i: int| 0 <= i < rest.len() implies (#[trigger] rest[i]).1.no_duplicates() by {
                assert(rest[i] == fc[i + 1]);
            }
            assert forall|i: int, j: int|
                0 <= i < rest.len() && 0 <= j < rest.len() implies !(#[trigger] rest[i]).1.contains(
                (#[trigger] rest[j]).0,
            ) by {
                assert(rest[i] == fc[i + 1] && rest[j] == fc[j + 1]);
            }
            assert forall|i: int, j: int| 0 <= i < j < rest.len() implies (#[trigger] rest[i]).0 != (
            #[trigger] rest[j]).0 && forall|x: PageId|
                !(#[trigger] rest[i].1.contains(x) && #[trigger] rest[j].1.contains(x)) by {
                assert(rest[i] == fc[i + 1] && rest[j] == fc[j + 1]);
            }
        }
        let d = self.state.deferred_free@;
        let e = b.state.deferred_free@;
        assert forall|x: PageId| #[trigger] e.contains(x) implies d.contains(x) || x == cursor by {
            let i = choose|i: int| 0 <= i < e.len() && e[i] == x;
            if i < d.len() {
                assert(d[i] == x);
            }
        }
        assert(e.no_duplicates()) by {
            assert(!d.contains(cursor));
        }
        assert(fc[0].1.no_duplicates());
        assert forall|x: PageId| #[trigger] b.pager.chained(x) implies !b.own(x)
            && !b.state.reuse_pool@.contains(x) && !chain_lists(rest, x) by {
            assert(self.pager.chained(x));
            if ids.contains(x) {
                assert(chain_lists(fc, x));
            }
            if chain_lists(rest, x) {
                let i = choose|i: int| 0 <= i < rest.len() && (#[trigger] rest[i]).1.contains(x);
                assert(rest[i] == fc[i + 1]);
                assert(chain_lists(fc, x));
            }
        }
        assert(b.free_view(rest));
        assert forall|x: PageId| self.spare(x) implies #[trigger] b.spare(x) by {
            if x >= b.state.next_page {
            } else if d.contains(x) {
                let i = choose|i: int| 0 <= i < d.len() && d[i] == x;
                assert(e[i] == x);
            } else {
                let fd = choose|fd: FreeChain| #[trigger] self.free_view(fd) && chain_has(fd, x);
                lemma_free_chain_unique(
                    self.pager.pages(),
                    cursor,
                    fc,
                    fd,
                    self.state.base.page_count,
                );
                let i = choose|i: int|
                    0 <= i < fc.len() && ((#[trigger] fc[i]).0 == x || fc[i].1.contains(x));
                if i == 0 {
                    assert(e[d.len() as int] == cursor);
                } else {
                    assert(rest[i - 1] == fc[i]);
                    assert(b.free_view(rest) && chain_has(rest, x));
                }
            }
        }
        assert forall|x: PageId| #[trigger] b.spare(x) implies self.spare(x) by {
            if x >= b.state.next_page {
            } else if b.state.reuse_pool@.contains(x) {
                assert(self.free_view(fc) && chain_has(fc, x));
            } else if b.state.deferred_free@.contains(x) {
                if x == cursor {
                    assert(self.free_view(fc) && chain_has(fc, x));
                }
            } else {
                let fd = choose|fd: FreeChain| #[trigger] b.free_view(fd) && chain_has(fd, x);
                lemma_free_chain_unique(b.pager.pages(), next, rest, fd, b.state.base.page_count);
                assert(self.free_view(fc) && chain_has(fc, x));
            }
        }
    }

    /// Replace a page allocated in this batch. Refuses committed pages:
    /// copy-on-write is a hard rule, not a convention.
    pub fn write_page(&mut self, id: PageId, buf: Vec<u8>) -> (r: Result<()>)
        requires
            old(self).wf(),
            buf@.len() == old(self).size(),
        ensures
            final(self).wf(),
            final(self).keeps(old(self)),
            *final(final(self).pager) == *final(old(self).pager),
            final(self).next() == old(self).next(),
            forall|x: PageId| #[trigger] final(self).own(x) == old(self).own(x),
            forall|x: PageId| #[trigger] final(self).spare(x) == old(self).spare(x),
            final(self).free_ok() == old(self).free_ok(),
            match r {
                Ok(_) => old(self).own(id) && final(self).pages() == old(self).pages().insert(
                    id,
                    buf@,
                ),
                Err(e) => !old(self).own(id) && final(self).pages() == old(self).pages() && e
                    == Error::PageNotWritable(id),
            },
    {
        let ghost before = *self;
        let i: usize = match self.state.index.get(&id) {
            None => {
                return Err(Error::PageNotWritable(id));
            },
            Some(i) => *i,
        };
        self.state.dirty[i].1 = buf;
        proof {
            assert forall|j: int| 0 <= j < self.state.dirty@.len() implies self.state.index@.contains_key(
                (#[trigger] self.state.dirty@[j]).0,
            ) && self.state.index@[self.state.dirty@[j].0] == j && 2 <= self.state.dirty@[j].0 < self.state.next_page
                && self.state.dirty@[j].1@.len() == self.state.base.page_size by {
                assert(before.state.dirty@[j].0 == self.state.dirty@[j].0);
            }
            assert forall|x: PageId| x != id && before.state.index@.contains_key(x) implies
                self.state.dirty@[self.state.index@[x] as int].1@ == before.state.dirty@[before.state.index@[x] as int].1@ by {
                assert(before.state.dirty@[before.state.index@[x] as int].0 == x);
                assert(before.state.dirty@[i as int].0 == id);
            }
            assert(self.pages() =~= before.pages().insert(id, buf@));
            before.lemma_same_free(self);
            self.lemma_same_free(&before);
        }
        Ok(())
    }

    /// Read a page as visible to this batch: its own dirty pages first,
    /// committed pages otherwise.
    pub fn read_page(&self, id: PageId) -> (r: Result<Vec<u8>>)
        requires
            self.wf(),
        ensures
            match r {
                Ok(b) => self.pages().contains_key(id) && b@ == self.pages()[id] && b@.len()
                    == self.size(),
                Err(e) => self.reliable() ==> !self.pages().contains_key(id),
            },
    {
        match self.state.index.get(&id) {
            Some(i) => {
                return Ok(copy_vec(self.state.dirty[*i].1.as_slice()));
            },
            None => {},
        }
        self.pager.read_page(id)
    }

    /// Does this batch own (and may therefore rewrite) the given page?
    pub fn owns(&self, id: PageId) -> (r: bool)
        ensures
            r == self.own(id),
    {
        self.state.index.contains_key(&id)
    }

    /// The committed meta this batch is building on.
    pub fn base_meta(&self) -> (r: Meta)
        ensures
            r == self.meta(),
    {
        self.state.base
    }

    /// Number of pages allocated by this batch so far.
    pub fn allocated(&self) -> (r: u64)
        requires
            self.wf(),
        ensures
            self.owned().finite(),
            r == self.owned().len(),
    {
        proof {
            let d = self.state.dirty@;
            let ids = Seq::new(d.len(), |i: int| d[i].0);
            assert forall|i: int, j: int| 0 <= i < j < ids.len() implies ids[i] != ids[j] by {
                assert(self.state.index@[d[i].0] == i && self.state.index@[d[j].0] == j);
            }
            assert forall|x: PageId| #[trigger] self.owned().contains(x) implies ids.to_set().contains(
                x,
            ) by {
                assert(ids[self.state.index@[x] as int] == x);
            }
            assert forall|x: PageId| #[trigger] ids.to_set().contains(x) implies self.owned().contains(
                x,
            ) by {
                let i = choose|i: int| 0 <= i < ids.len() && ids[i] == x;
                assert(d[i].0 == x);
            }
            assert(ids.to_set() =~= self.owned());
            ids.unique_seq_to_set();
        }
        self.state.dirty.len() as u64
    }
}

/// Putting a page in front of a free list.
proof fn lemma_chain_cons(
    a: Pages,
    b: Pages,
    fc: FreeChain,
    head: PageId,
    id: PageId,
    ids: Seq<PageId>,
    count: u64,
    more: u64,
)
    requires
        chain_at(a, head, fc),
        chain_ok(fc, count),
        count <= more,
        2 <= id < more,
        !chain_has(fc, id),
        !ids.contains(id),
        ids.no_duplicates(),
        forall|x: PageId| #[trigger] ids.contains(x) ==> 2 <= x < more && !chain_has(fc, x),
        forall|x: PageId| x != id && a.contains_key(x) ==> #[trigger] b.contains_key(x) && b[x] == a[x],
        b.contains_key(id),
        list_of(b[id]) == Some((head, ids)),
    ensures
        chain_at(b, id, seq![(id, ids)] + fc),
        chain_ok(seq![(id, ids)] + fc, more),
        forall|x: PageId|
            #[trigger] chain_has(seq![(id, ids)] + fc, x) == (x == id || ids.contains(x)
                || chain_has(fc, x)),
{
    let gc = seq![(id, ids)] + fc;
    assert(gc[0] == (id, ids));
    assert forall|i: int| 0 < i < gc.len() implies #[trigger] gc[i] == fc[i - 1] by {}
    assert forall|x: PageId| #[trigger] chain_has(gc, x) implies x == id || ids.contains(x)
        || chain_has(fc, x) by {
        let i = choose|i: int| 0 <= i < gc.len() && ((#[trigger] gc[i]).0 == x || gc[i].1.contains(x));
        if i > 0 {
            assert(gc[i] == fc[i - 1]);
        }
    }
    assert forall|x: PageId| x == id || ids.contains(x) || chain_has(fc, x) implies
        #[trigger] chain_has(gc, x) by {
        if x == id || ids.contains(x) {
            assert(gc[0].0 == id && gc[0].1 == ids);
        } else {
            let i = choose|i: int|
                0 <= i < fc.len() && ((#[trigger] fc[i]).0 == x || fc[i].1.contains(x));
            assert(gc[i + 1] == fc[i]);
        }
    }
    assert forall|i: int| 0 <= i < fc.len() implies chain_has(fc, (#[trigger] fc[i]).0) by {}
    assert forall|i: int| 0 <= i < gc.len() implies b.contains_key((#[trigger] gc[i]).0) && list_of(
        b[gc[i].0],
    ) == Some((free_link(gc, i), gc[i].1)) by {
        if i == 0 {
            if fc.len() > 0 {
                assert(gc[1] == fc[0]);
            }
        } else {
            assert(gc[i] == fc[i - 1]);
            assert(chain_has(fc, fc[i - 1].0));
            if i + 1 < gc.len() {
                assert(gc[i + 1] == fc[i]);
            }
            assert(free_link(gc, i) == free_link(fc, i - 1));
        }
    }
    assert forall|i: int, j: int| 0 <= i < gc.len() && 0 <= j < gc.len() implies !(
    #[trigger] gc[i]).1.contains((#[trigger] gc[j]).0) by {
        if i == 0 && j > 0 {
            assert(gc[j] == fc[j - 1]);
            assert(chain_has(fc, fc[j - 1].0));
        } else if i > 0 && j == 0 {
            assert(gc[i] == fc[i - 1]);
            if fc[i - 1].1.contains(id) {
                assert(chain_has(fc, id));
            }
        } else if i > 0 && j > 0 {
            assert(gc[i] == fc[i - 1] && gc[j] == fc[j - 1]);
        }
    }
    assert forall|i: int, j: int| 0 <= i < j < gc.len() implies (#[trigger] gc[i]).0 != (
    #[trigger] gc[j]).0 && forall|x: PageId|
        !(#[trigger] gc[i].1.contains(x) && #[trigger] gc[j].1.contains(x)) by {
        assert(gc[j] == fc[j - 1]);
        if i == 0 {
            assert(chain_has(fc, fc[j - 1].0));
            assert forall|x: PageId| !(#[trigger] gc[0].1.contains(x) && #[trigger] gc[j].1.contains(
                x,
            )) by {
                if fc[j - 1].1.contains(x) {
                    assert(chain_has(fc, x));
                }
            }
        } else {
            assert(gc[i] == fc[i - 1]);
        }
    }
    assert forall|i: int| 0 <= i < gc.len() implies (#[trigger] gc[i]).1.no_duplicates() by {
        if i > 0 {
            assert(gc[i] == fc[i - 1]);
        }
    }
}

proof fn lemma_removed(s: Seq<PageId>, i: int)
    requires
        0 <= i < s.len(),
    ensures
        s.remove(i).len() == s.len() - 1,
        forall|x: PageId| #[trigger] s.remove(i).contains(x) ==> s.contains(x),
        forall|x: PageId| #[trigger] s.contains(x) ==> s.remove(i).contains(x) || x == s[i],
        s.no_duplicates() ==> s.remove(i).no_duplicates() && !s.remove(i).contains(s[i]),
{
    let t = s.remove(i);
    assert forall|j: int| 0 <= j < t.len() implies #[trigger] t[j] == s[if j < i {
        j
    } else {
        j + 1
    }] by {}
    assert forall|x: PageId| #[trigger] t.contains(x) implies s.contains(x) by {
        let j = choose|j: int| 0 <= j < t.len() && t[j] == x;
        assert(s[if j < i {
            j
        } else {
            j + 1
        }] == x);
    }
    assert forall|x: PageId| #[trigger] s.contains(x) implies t.contains(x) || x == s[i] by {
        let j = choose|j: int| 0 <= j < s.len() && s[j] == x;
        if j < i {
            assert(t[j] == x);
        } else if j > i {
            assert(t[j - 1] == x);
        }
    }
}

impl<'p, S: Storage> WriteBatch<'p, S> {
    pub fn set_data_root(&mut self, root: PageId)
        ensures
            final(self).data() == root,
            final(self).only_roots(old(self)),
            final(self).catalog() == old(self).catalog(),
            final(self).commit_at_page() == old(self).commit_at_page(),
            final(self).refs() == old(self).refs(),
            *final(final(self).pager) == *final(old(self).pager),
    {
        let ghost before = *self;
        self.state.data_root = root;
        proof {
            before.lemma_only_roots(self);
        }
    }

    pub fn set_catalog_root(&mut self, root: PageId)
        ensures
            final(self).catalog() == root,
            final(self).only_roots(old(self)),
            final(self).data() == old(self).data(),
            final(self).commit_at_page() == old(self).commit_at_page(),
            final(self).refs() == old(self).refs(),
            *final(final(self).pager) == *final(old(self).pager),
    {
        let ghost before = *self;
        self.state.catalog_root = root;
        proof {
            before.lemma_only_roots(self);
        }
    }

    /// Point the meta at the commit record page for this transaction.
    pub fn set_commit_page(&mut self, page: PageId)
        ensures
            final(self).commit_at_page() == page,
            final(self).only_roots(old(self)),
            final(self).data() == old(self).data(),
            final(self).catalog() == old(self).catalog(),
            final(self).refs() == old(self).refs(),
            *final(final(self).pager) == *final(old(self).pager),
    {
        let ghost before = *self;
        self.state.commit_page = page;
        proof {
            before.lemma_only_roots(self);
        }
    }

    pub fn set_refs_root(&mut self, root: PageId)
        ensures
            final(self).refs() == root,
            final(self).only_roots(old(self)),
            final(self).data() == old(self).data(),
            final(self).catalog() == old(self).catalog(),
            final(self).commit_at_page() == old(self).commit_at_page(),
            *final(final(self).pager) == *final(old(self).pager),
    {
        let ghost before = *self;
        self.state.refs_root = root;
        proof {
            before.lemma_only_roots(self);
        }
    }

    /// Nothing but roots differs.
    pub open spec fn only_roots(&self, b: &WriteBatch<'p, S>) -> bool {
        &&& self.wf() == b.wf()
        &&& self.meta() == b.meta()
        &&& self.size() == b.size()
        &&& self.reliable() == b.reliable()
        &&& self.chosen_free() == b.chosen_free()
        &&& self.under() == b.under()
        &&& self.next() == b.next()
        &&& self.pages() == b.pages()
        &&& self.free_ok() == b.free_ok()
        &&& self.settling() == b.settling()
        &&& forall|x: PageId| #[trigger] self.own(x) == b.own(x)
        &&& forall|x: PageId| #[trigger] self.spare(x) == b.spare(x)
    }

    proof fn lemma_only_roots(&self, b: &WriteBatch<'p, S>)
        requires
            b.state.base == self.state.base,
            b.state.next_page == self.state.next_page,
            b.state.index == self.state.index,
            b.state.dirty == self.state.dirty,
            b.state.freelist_root == self.state.freelist_root,
            b.state.reuse_pool == self.state.reuse_pool,
            b.state.chain_cursor == self.state.chain_cursor,
            b.state.deferred_free == self.state.deferred_free,
            b.state.touched_freelist == self.state.touched_freelist,
            b.state.freelist_override == self.state.freelist_override,
            b.under() == self.under(),
        ensures
            b.only_roots(self),
    {
        assert(b.pages() =~= self.pages());
        self.lemma_same_free(b);
        b.lemma_same_free(self);
    }

    /// Replace the committed free list wholesale. Garbage collection uses
    /// this after computing the exact free set. The batch keeps allocating
    /// normally; at commit time the final list is the given set minus
    /// every page this batch ended up writing, so nothing in-use can be
    /// listed as free.
    pub fn set_freelist(&mut self, ids: Vec<PageId>)
        ensures
            final(self).chosen_free() == Some(ids@),
            final(self).wf() == old(self).wf(),
            final(self).meta() == old(self).meta(),
            final(self).size() == old(self).size(),
            final(self).reliable() == old(self).reliable(),
            final(self).under() == old(self).under(),
            final(self).next() == old(self).next(),
            final(self).pages() == old(self).pages(),
            final(self).data() == old(self).data(),
            final(self).catalog() == old(self).catalog(),
            final(self).commit_at_page() == old(self).commit_at_page(),
            final(self).refs() == old(self).refs(),
            final(self).free_ok() == old(self).free_ok(),
            forall|x: PageId| #[trigger] final(self).own(x) == old(self).own(x),
            forall|x: PageId| #[trigger] final(self).spare(x) == old(self).spare(x),
            *final(final(self).pager) == *final(old(self).pager),
    {
        let ghost before = *self;
        self.state.freelist_override = Some(ids);
        proof {
            assert(self.pages() =~= before.pages());
            before.lemma_same_free(self);
            self.lemma_same_free(&before);
        }
    }

    /// How many ids the free list written at commit has to hold.
    pub closed spec fn settling(&self) -> nat {
        match self.state.freelist_override {
            Some(l) => l@.len(),
            None => self.state.reuse_pool@.len() + self.state.deferred_free@.len(),
        }
    }

    /// A free list never has more ids than the file has pages.
    pub proof fn lemma_settling(&self)
        requires
            self.wf(),
            self.free_ok(),
        ensures
            match self.chosen_free() {
                Some(l) => self.settling() == l.len(),
                None => self.settling() <= self.meta().page_count,
            },
    {
        if self.chosen_free() is None {
            let fc = choose|fc: FreeChain| #[trigger] self.free_view(fc);
            let a = self.state.reuse_pool@;
            let b = self.state.deferred_free@;
            let n = self.state.base.page_count as nat;
            let c = a + b;
            assert(c.no_duplicates()) by {
                assert forall|i: int, j: int| 0 <= i < j < c.len() implies c[i] != c[j] by {
                    if i < a.len() && j >= a.len() {
                        assert(a.contains(a[i]));
                        assert(b.contains(b[j - a.len()]));
                    }
                }
            }
            c.unique_seq_to_set();
            crate::tree::lemma_below(n);
            assert forall|x: PageId| #[trigger] c.to_set().contains(x) implies crate::tree::below(
                n,
            ).contains(x) by {
                let i = choose|i: int| 0 <= i < c.len() && c[i] == x;
                if i < a.len() {
                    assert(a.contains(a[i]));
                } else {
                    assert(b.contains(b[i - a.len()]));
                }
            }
            vstd::set_lib::lemma_len_subset(c.to_set(), crate::tree::below(n));
        }
    }

    /// The chosen free list, where there is one, names pages of the file
    /// once each.
    pub open spec fn chosen_ok(&self) -> bool {
        self.chosen_free() matches Some(l) ==> l.no_duplicates() && forall|x: PageId|
            #[trigger] l.contains(x) ==> 2 <= x < self.meta().page_count
    }

    /// The ids to list, and the chain that goes on after them.
    fn settle_list(&self) -> (r: (Vec<PageId>, PageId))
        requires
            self.wf(),
        ensures
            r.0@.len() <= self.settling(),
            forall|x: PageId|
                #[trigger] r.0@.contains(x) ==> 2 <= x < self.state.base.page_count && !self.own(x),
            self.free_ok() && self.chosen_ok() ==> forall|x: PageId| #[trigger]
                r.0@.contains(x) == (match self.chosen_free() {
                    Some(l) => l.contains(x) && !self.own(x),
                    None => self.state.reuse_pool@.contains(x) || self.state.deferred_free@.contains(x),
                }),
            r.1 == (if self.state.freelist_override is Some {
                NIL_PAGE
            } else {
                self.state.chain_cursor
            }),
            forall|fc: FreeChain|
                #![trigger self.free_view(fc)]
                self.free_view(fc) && self.chosen_ok() ==> r.0@.no_duplicates() && (
                self.state.freelist_override is None ==> forall|x: PageId|
                    #[trigger] r.0@.contains(x) ==> !chain_has(fc, x)),
    {
        let mut out: Vec<PageId> = Vec::new();
        match &self.state.freelist_override {
            Some(list) => {
                // the swept set holds the old chain and old refs pages;
                // they are listable (unreferenced once this meta lands)
                // but everything the batch wrote is in use and must go
                let mut i: usize = 0;
                while i < list.len()
                    invariant
                        i <= list@.len(),
                        self.wf(),
                        self.state.freelist_override == Some(*list),
                        out@.len() <= i,
                        forall|x: PageId|
                            #[trigger] out@.contains(x) ==> 2 <= x < self.state.base.page_count
                                && !self.own(x) && list@.contains(x),
                        forall|x: PageId|
                            #[trigger] out@.contains(x) ==> exists|j: int| 0 <= j < i && list@[j] == x,
                        forall|j: int|
                            0 <= j < i && 2 <= #[trigger] list@[j] < self.state.base.page_count
                                && !self.own(list@[j]) ==> out@.contains(list@[j]),
                        list@.no_duplicates() ==> out@.no_duplicates(),
                    decreases list@.len() - i,
                {
                    let id: PageId = list[i];
                    let ghost o = out@;
                    if 2 <= id && id < self.state.base.page_count && !self.owns(id) {
                        out.push(id);
                        proof {
                            lemma_pushed(o, id);
                            assert(list@[i as int] == id);
                            if list@.no_duplicates() {
                                if o.contains(id) {
                                    let j = choose|j: int| 0 <= j < i && list@[j] == id;
                                    assert(list@[j] == list@[i as int]);
                                }
                            }
                        }
                    }
                    i = i + 1;
                }
                proof {
                    if self.chosen_ok() {
                        assert forall|x: PageId| list@.contains(x) && !self.own(x) implies
                            #[trigger] out@.contains(x) by {
                            let j = choose|j: int| 0 <= j < list@.len() && list@[j] == x;
                            assert(list@[j] == x);
                        }
                    }
                }
                (out, NIL_PAGE)
            },
            None => {
                self.push_listable(&self.state.reuse_pool, &mut out);
                let ghost o = out@;
                self.push_listable(&self.state.deferred_free, &mut out);
                (out, self.state.chain_cursor)
            },
        }
    }

    fn push_listable(&self, from: &Vec<PageId>, out: &mut Vec<PageId>)
        requires
            self.wf(),
        ensures
            final(out)@.len() <= old(out)@.len() + from@.len(),
            forall|x: PageId|
                #[trigger] final(out)@.contains(x) == (old(out)@.contains(x) || (from@.contains(x)
                    && 2 <= x < self.state.base.page_count && !self.own(x))),
            old(out)@.no_duplicates() && from@.no_duplicates() && (forall|x: PageId|
                #[trigger] from@.contains(x) ==> !old(out)@.contains(x)) ==> final(out)@.no_duplicates(),
    {
        let ghost o0 = out@;
        let mut i: usize = 0;
        while i < from.len()
            invariant
                i <= from@.len(),
                self.wf(),
                out@.len() <= o0.len() + i,
                forall|x: PageId|
                    #[trigger] out@.contains(x) ==> o0.contains(x) || (from@.contains(x) && 2 <= x
                        < self.state.base.page_count && !self.own(x)),
                forall|x: PageId|
                    #[trigger] out@.contains(x) ==> o0.contains(x) || exists|j: int|
                        0 <= j < i && from@[j] == x,
                forall|x: PageId| o0.contains(x) ==> #[trigger] out@.contains(x),
                forall|j: int|
                    0 <= j < i && 2 <= #[trigger] from@[j] < self.state.base.page_count && !self.own(
                        from@[j],
                    ) ==> out@.contains(from@[j]),
                o0.no_duplicates() && from@.no_duplicates() && (forall|x: PageId|
                    #[trigger] from@.contains(x) ==> !o0.contains(x)) ==> out@.no_duplicates(),
            decreases from@.len() - i,
        {
            let id: PageId = from[i];
            let ghost o = out@;
            if 2 <= id && id < self.state.base.page_count && !self.owns(id) {
                out.push(id);
                proof {
                    lemma_pushed(o, id);
                    assert(from@[i as int] == id);
                    assert(from@.contains(id));
                    if from@.no_duplicates() && o.contains(id) && !o0.contains(id) {
                        let j = choose|j: int| 0 <= j < i && from@[j] == id;
                        assert(from@[j] == from@[i as int]);
                    }
                }
            }
            i = i + 1;
        }
        proof {
            assert forall|x: PageId|
                from@.contains(x) && 2 <= x < self.state.base.page_count && !self.own(x) implies
                #[trigger] out@.contains(x) by {
                let j = choose|j: int| 0 <= j < from@.len() && from@[j] == x;
                assert(from@[j] == x);
            }
        }
    }

    /// Persist the free list. Two sources feed it: the batch's own
    /// leftovers (unused reuse pool plus consumed chain pages) or, when
    /// garbage collection set an override, the full swept set minus every
    /// page this batch wrote.
    ///
    /// Chain pages holding the list are taken from ids that are both in
    /// the list and safe to write right now, meaning ids out of the reuse
    /// pool, which by the free list invariant nothing references. Only
    /// when those run out does the chain extend the file. Deferred pages
    /// (the previous chain) are listed but never written, because the
    /// previous meta still references them until the commit point.
    fn settle_freelist(&mut self) -> (r: Result<()>)
        requires
            old(self).wf(),
        ensures
            final(self).wf(),
            final(self).keeps(old(self)),
            *final(final(self).pager) == *final(old(self).pager),
            old(self).next() <= final(self).next() <= old(self).next() + old(self).settling(),
            forall|x: PageId| #[trigger]
                old(self).own(x) ==> final(self).own(x) && final(self).pages()[x] == old(
                    self,
                ).pages()[x],
            old(self).free_ok() ==> forall|x: PageId|
                #[trigger] old(self).pages().contains_key(x) && !old(self).spare(x) ==> final(self).pages().contains_key(x) && final(self).pages()[x] == old(self).pages()[x],
            old(self).free_ok() ==> forall|x: PageId|
                #[trigger] final(self).own(x) ==> old(self).own(x) || old(self).spare(x),
            old(self).free_ok() ==> forall|x: PageId|
                #[trigger] final(self).own(x) ==> old(self).own(x) || !old(self).under().chained(x),
            match r {
                Ok(_) => old(self).free_ok() && old(self).chosen_ok() ==> exists|fc: FreeChain|
                    {
                        &&& #[trigger] chain_at(final(self).pages(), final(self).state.freelist_root, fc)
                        &&& chain_ok(fc, final(self).next())
                        &&& forall|x: PageId| #[trigger]
                            chain_has(fc, x) == old(self).frees(x, final(self).next())
                    },
                Err(e) => e is InvalidArgument && old(self).next() + old(self).settling()
                    >= MAX_PAGES,
            },
    {
        let ghost before = *self;
        proof {
            before.lemma_facts();
        }
        if !self.state.touched_freelist && self.state.deferred_free.len() == 0
            && self.state.freelist_override.is_none() {
            proof {
                if before.free_ok() {
                    let fc = choose|fc: FreeChain| #[trigger] before.free_view(fc);
                    assert(chain_at(self.pages(), self.state.freelist_root, fc)) by {
                        assert forall|i: int| 0 <= i < fc.len() implies self.pages().contains_key(
                            (#[trigger] fc[i]).0,
                        ) && list_of(self.pages()[fc[i].0]) == Some((free_link(fc, i), fc[i].1)) by {
                            assert(chain_has(fc, fc[i].0));
                            assert(!self.own(fc[i].0));
                        }
                    }
                    before.lemma_frees(fc);
                }
            }
            return Ok(());  // never looked at it, meta keeps the old root
        }
        let (listed, tail) = self.settle_list();
        if self.state.next_page > MAX_PAGES && listed.len() > 0 {
            return Err(Error::InvalidArgument("the database has reached its largest size"));
        }
        let mut remaining: Vec<PageId> = listed;
        let writable: Vec<PageId> = copy_ids(&self.state.reuse_pool);
        let per_page: usize = freelist::ids_per_page(self.state.base.page_size);
        let mut head: PageId = tail;
        let ghost good = before.free_ok() && before.chosen_ok();
        let ghost mut fc: FreeChain = Seq::empty();
        proof {
            if before.free_ok() {
                let fd = choose|fd: FreeChain| #[trigger] before.free_view(fd);
                if before.state.freelist_override is None {
                    fc = fd;
                    assert(chain_at(self.pages(), head, fc)) by {
                        assert forall|i: int| 0 <= i < fc.len() implies self.pages().contains_key(
                            (#[trigger] fc[i]).0,
                        ) && list_of(self.pages()[fc[i].0]) == Some((free_link(fc, i), fc[i].1)) by {
                            assert(chain_has(fc, fc[i].0));
                            assert(!self.own(fc[i].0));
                        }
                    }
                    assert forall|x: PageId| #[trigger] chain_has(fc, x) implies !self.own(x) by {
                        assert(before.free_view(fc) && chain_has(fc, x));
                        assert(before.spare(x));
                    }
                    before.lemma_frees(fc);
                } else {
                    assert(before.free_view(fd));
                    assert forall|x: PageId| !(#[trigger] chain_has(fc, x)) by {}
                }
                if good {
                    assert forall|x: PageId| #[trigger] covers(remaining@, fc, x)
                        == before.frees(x, self.next()) by {
                        assert(remaining@.contains(x) == (match before.chosen_free() {
                            Some(l) => l.contains(x) && !before.own(x),
                            None => before.state.reuse_pool@.contains(x)
                                || before.state.deferred_free@.contains(x),
                        }));
                    }
                }
            }
        }
        while remaining.len() > 0
            invariant
                good == (before.free_ok() && before.chosen_ok()),
                before == *old(self),
                before.wf(),
                self.wf(),
                self.keeps(&before),
                *final(self.pager) == *final(old(self).pager),
                self.state.base == before.state.base,
                per_page >= 60,
                per_page == freelist::per_page(self.state.base.page_size),
                remaining@.len() > 0 ==> self.state.next_page <= MAX_PAGES,
                before.free_ok() ==> forall|x: PageId|
                    #[trigger] self.own(x) ==> before.own(x) || !before.under().chained(x),
                forall|x: PageId| #[trigger] writable@.contains(x) ==> before.state.reuse_pool@.contains(x),
                before.next() <= self.next() <= self.next() + remaining@.len() <= before.next()
                    + before.settling(),
                forall|x: PageId| #[trigger]
                    before.own(x) ==> self.own(x) && self.pages()[x] == before.pages()[x],
                before.free_ok() ==> forall|x: PageId|
                    #[trigger] before.pages().contains_key(x) && !before.spare(x)
                        ==> self.pages().contains_key(x) && self.pages()[x] == before.pages()[x],
                before.free_ok() ==> forall|x: PageId|
                    #[trigger] self.own(x) ==> before.own(x) || before.spare(x),
                forall|x: PageId|
                    #[trigger] remaining@.contains(x) ==> 2 <= x < self.state.base.page_count,
                good ==> remaining@.no_duplicates() && (forall|x: PageId|
                    #[trigger] remaining@.contains(x) ==> !self.own(x) && !chain_has(fc, x)),
                good ==> chain_at(self.pages(), head, fc) && chain_ok(fc, self.next()) && (forall|
                    x: PageId,
                | #[trigger] covers(remaining@, fc, x) == before.frees(x, self.next())),
            decreases remaining@.len(),
        {
            let ghost at = *self;
            let ghost rem0 = remaining@;
            proof {
                at.lemma_facts();
                before.lemma_facts();
            }
            // a chain page from the list itself when one is writable,
            // a fresh page otherwise
            let page_id: PageId = match self.find_writable(&remaining, &writable) {
                Some(i) => {
                    let id: PageId = remaining[i];
                    proof {
                        lemma_removed(rem0, i as int);
                        assert(rem0.contains(id));
                        assert(before.state.reuse_pool@.contains(id));
                        assert(before.spare(id));
                    }
                    remaining.remove(i);
                    id
                },
                None => {
                    if self.state.next_page >= MAX_PAGES {
                        return Err(Error::InvalidArgument("the database has reached its largest size"));
                    }
                    let id: PageId = self.state.next_page;
                    self.state.next_page = id + 1;
                    proof {
                        assert(self.pages() =~= at.pages());
                        assert(before.spare(id));
                        if good && chain_has(fc, id) {
                            assert(id < at.next());
                        }
                        assert forall|x: PageId| #[trigger] self.own(x) == at.own(x) by {}
                    }
                    id
                },
            };
            let ghost mid = *self;
            let ghost rem1 = remaining@;
            let n: usize = remaining.len();
            let take: usize = if n < per_page {
                n
            } else {
                per_page
            };
            let chunk: Vec<PageId> = remaining.split_off(n - take);
            proof {
                lemma_split(rem1, n - take);
                assert(24 + 8 * take <= self.state.base.page_size);
            }
            let mut buf: Vec<u8> = zero_vec(self.state.base.page_size as usize);
            page::init_header(buf.as_mut_slice(), PageType::FreeList);
            freelist::encode_page(buf.as_mut_slice(), head, chunk.as_slice());
            self.adopt(page_id, buf);
            proof {
                if good {
                    lemma_chain_cons(
                        mid.pages(),
                        self.pages(),
                        fc,
                        head,
                        page_id,
                        chunk@,
                        at.next(),
                        self.next(),
                    );
                    let gc = seq![(page_id, chunk@)] + fc;
                    assert forall|x: PageId| #[trigger] covers(remaining@, gc, x)
                        == before.frees(x, self.next()) by {
                        assert(covers(rem0, fc, x) == before.frees(x, at.next()));
                        assert(chain_has(gc, x) == (x == page_id || chunk@.contains(x) || chain_has(
                            fc,
                            x,
                        )));
                        assert(rem1.contains(x) == (remaining@.contains(x) || chunk@.contains(x)));
                        if at.next() == self.next() {
                            assert(rem0.contains(x) == (rem1.contains(x) || x == page_id));
                        } else {
                            assert(rem0 == rem1);
                        }
                    }
                    assert forall|x: PageId| #[trigger] remaining@.contains(x) implies !self.own(x)
                        && !chain_has(gc, x) by {
                        assert(rem1.contains(x) && rem0.contains(x));
                        assert(!at.own(x));
                        assert(mid.own(x) == at.own(x));
                        assert(!chunk@.contains(x));
                        assert(x != page_id);
                    }
                    fc = gc;
                }
                assert forall|x: PageId| #[trigger] before.own(x) implies self.own(x)
                    && self.pages()[x] == before.pages()[x] by {
                    assert(at.own(x));
                    assert(mid.own(x) == at.own(x));
                }
                if before.free_ok() {
                    assert forall|x: PageId| #[trigger] self.own(x) implies before.own(x)
                        || before.spare(x) by {
                        if x != page_id {
                            assert(mid.own(x));
                            assert(at.own(x));
                        }
                    }
                    assert(!before.under().chained(page_id)) by {
                        let fb = choose|fb: FreeChain| #[trigger] before.under().free_view(fb);
                        before.under().lemma_chained(fb);
                        let fd = choose|fd: FreeChain| #[trigger] before.free_view(fd);
                        assert(before.free_view(fd));
                    }
                    assert forall|x: PageId| #[trigger] self.own(x) implies before.own(x)
                        || !before.under().chained(x) by {
                        if x != page_id {
                            assert(mid.own(x));
                            assert(at.own(x));
                        }
                    }
                    assert forall|x: PageId|
                        #[trigger] before.pages().contains_key(x) && !before.spare(x) implies
                        self.pages().contains_key(x) && self.pages()[x] == before.pages()[x] by {
                        assert(x != page_id);
                        assert(at.pages().contains_key(x));
                    }
                }
                assert forall|x: PageId| #[trigger] remaining@.contains(x) implies 2 <= x
                    < self.state.base.page_count by {
                    assert(rem1.contains(x) && rem0.contains(x));
                }
            }
            head = page_id;
        }
        let ghost last = *self;
        self.state.freelist_root = head;
        proof {
            assert(self.pages() =~= last.pages());
            assert forall|x: PageId| #[trigger] self.own(x) == last.own(x) by {}
            if good {
                assert(chain_at(self.pages(), self.state.freelist_root, fc));
                assert(chain_ok(fc, self.next()));
                assert forall|x: PageId| #[trigger] chain_has(fc, x) == before.frees(
                    x,
                    self.next(),
                ) by {
                    assert(covers(remaining@, fc, x) == before.frees(x, self.next()));
                }
            }
            if before.free_ok() {
                assert forall|x: PageId|
                    #[trigger] before.pages().contains_key(x) && !before.spare(x) implies
                    self.pages().contains_key(x) && self.pages()[x] == before.pages()[x] by {
                    assert(last.pages().contains_key(x));
                }
            }
        }
        Ok(())
    }

    /// What is left of the free list covers what is spare below the end of
    /// the file, beside the pool and the consumed chain pages.
    proof fn lemma_frees(&self, fc: FreeChain)
        requires
            self.free_view(fc),
            self.chosen_free() is None,
            self.wf(),
        ensures
            forall|x: PageId|
                (#[trigger] chain_has(fc, x) || self.state.reuse_pool@.contains(x)
                    || self.state.deferred_free@.contains(x)) == self.frees(x, self.next()),
    {
        assert forall|x: PageId|
            (#[trigger] chain_has(fc, x) || self.state.reuse_pool@.contains(x)
                || self.state.deferred_free@.contains(x)) == self.frees(x, self.next()) by {
            if chain_has(fc, x) {
                assert(self.free_view(fc) && chain_has(fc, x));
            }
            if self.spare(x) && x < self.next() && !self.state.reuse_pool@.contains(x)
                && !self.state.deferred_free@.contains(x) {
                let fd = choose|fd: FreeChain| #[trigger] self.free_view(fd) && chain_has(fd, x);
                lemma_free_chain_unique(
                    self.pager.pages(),
                    self.state.chain_cursor,
                    fc,
                    fd,
                    self.state.base.page_count,
                );
            }
        }
    }

    /// The first listed id that may be written right away.
    fn find_writable(&self, remaining: &Vec<PageId>, writable: &Vec<PageId>) -> (r: Option<usize>)
        requires
            self.wf(),
        ensures
            r matches Some(i) ==> i < remaining@.len() && writable@.contains(remaining@[i as int])
                && !self.own(remaining@[i as int]),
    {
        let mut i: usize = 0;
        while i < remaining.len()
            invariant
                i <= remaining@.len(),
                self.wf(),
            decreases remaining@.len() - i,
        {
            let id: PageId = remaining[i];
            if !self.owns(id) && has_id(writable, id) {
                return Some(i);
            }
            i = i + 1;
        }
        None
    }
}

fn has_id(list: &Vec<PageId>, id: PageId) -> (r: bool)
    ensures
        r == list@.contains(id),
{
    let mut i: usize = 0;
    while i < list.len()
        invariant
            i <= list@.len(),
            forall|j: int| 0 <= j < i ==> list@[j] != id,
        decreases list@.len() - i,
    {
        if list[i] == id {
            return true;
        }
        i = i + 1;
    }
    false
}

fn copy_ids(list: &Vec<PageId>) -> (r: Vec<PageId>)
    ensures
        r@ == list@,
{
    let mut out: Vec<PageId> = Vec::new();
    let mut i: usize = 0;
    while i < list.len()
        invariant
            i <= list@.len(),
            out@ == list@.subrange(0, i as int),
        decreases list@.len() - i,
    {
        out.push(list[i]);
        i = i + 1;
        proof {
            assert(out@ =~= list@.subrange(0, i as int));
        }
    }
    proof {
        assert(out@ =~= list@);
    }
    out
}

proof fn lemma_pushed(s: Seq<PageId>, id: PageId)
    ensures
        forall|x: PageId| #[trigger] s.push(id).contains(x) == (s.contains(x) || x == id),
        s.no_duplicates() && !s.contains(id) ==> s.push(id).no_duplicates(),
{
    let t = s.push(id);
    assert forall|x: PageId| #[trigger] t.contains(x) implies s.contains(x) || x == id by {
        let i = choose|i: int| 0 <= i < t.len() && t[i] == x;
        if i < s.len() {
            assert(s[i] == x);
        }
    }
    assert forall|x: PageId| s.contains(x) || x == id implies #[trigger] t.contains(x) by {
        if s.contains(x) {
            let i = choose|i: int| 0 <= i < s.len() && s[i] == x;
            assert(t[i] == x);
        } else {
            assert(t[s.len() as int] == id);
        }
    }
}

proof fn lemma_split(s: Seq<PageId>, n: int)
    requires
        0 <= n <= s.len(),
    ensures
        forall|x: PageId| #[trigger] s.subrange(0, n).contains(x) ==> s.contains(x),
        forall|x: PageId| #[trigger] s.subrange(n, s.len() as int).contains(x) ==> s.contains(x),
        forall|x: PageId| #[trigger]
            s.contains(x) ==> s.subrange(0, n).contains(x) || s.subrange(
                n,
                s.len() as int,
            ).contains(x),
        s.no_duplicates() ==> s.subrange(0, n).no_duplicates() && s.subrange(
            n,
            s.len() as int,
        ).no_duplicates() && forall|x: PageId|
            !(#[trigger] s.subrange(0, n).contains(x) && s.subrange(n, s.len() as int).contains(x)),
{
    let a = s.subrange(0, n);
    let b = s.subrange(n, s.len() as int);
    assert forall|x: PageId| #[trigger] a.contains(x) implies s.contains(x) by {
        let i = choose|i: int| 0 <= i < a.len() && a[i] == x;
        assert(s[i] == x);
    }
    assert forall|x: PageId| #[trigger] b.contains(x) implies s.contains(x) by {
        let i = choose|i: int| 0 <= i < b.len() && b[i] == x;
        assert(s[n + i] == x);
    }
    assert forall|x: PageId| #[trigger] s.contains(x) implies a.contains(x) || b.contains(x) by {
        let i = choose|i: int| 0 <= i < s.len() && s[i] == x;
        if i < n {
            assert(a[i] == x);
        } else {
            assert(b[i - n] == x);
        }
    }
    if s.no_duplicates() {
        assert forall|x: PageId| !(#[trigger] a.contains(x) && b.contains(x)) by {
            if a.contains(x) && b.contains(x) {
                let i = choose|i: int| 0 <= i < a.len() && a[i] == x;
                let j = choose|j: int| 0 <= j < b.len() && b[j] == x;
                assert(s[i] == s[n + j]);
            }
        }
    }
}

/// Whether an id is still to be listed or on the chain already.
spec fn covers(remaining: Seq<PageId>, fc: FreeChain, x: PageId) -> bool {
    remaining.contains(x) || chain_has(fc, x)
}

pub open spec fn listed_page(d: Seq<(PageId, Vec<u8>)>, x: PageId) -> bool {
    exists|i: int| 0 <= i < d.len() && (#[trigger] d[i]).0 == x
}

/// What a crash right now may leave of a storage.
pub open spec fn left_by<S: Storage>(s: S) -> spec_fn(Held) -> bool {
    |d: Held| s.durable(d)
}

/// Whether some calls were asked of a storage between two moments, and a
/// crash at the second leaves no more than those calls may leave.
pub open spec fn asked<S: Storage>(a: S, b: S, ops: Ops) -> bool {
    &&& b.ops() == a.ops() + ops
    &&& forall|d: Held| #[trigger] b.durable(d) ==> survives(left_by(a), a.bytes(), ops, d)
}

proof fn lemma_asked_nothing<S: Storage>(a: S)
    ensures
        asked(a, a, Seq::<Op>::empty()),
{
    assert(a.ops() + Seq::<Op>::empty() =~= a.ops());
}

proof fn lemma_asked_write<S: Storage>(a: S, b: S, c: S, ops: Ops, off: int, t: Held)
    requires
        asked(a, b, ops),
        c.ops() == b.ops().push(Op::Write(off, t)),
        forall|d: Held| #[trigger]
            c.durable(d) ==> exists|e: Held| #[trigger] b.durable(e) && torn(e, d, off, t),
    ensures
        asked(a, c, ops.push(Op::Write(off, t))),
{
    let more = ops.push(Op::Write(off, t));
    assert(more.drop_last() =~= ops);
    assert(c.ops() =~= a.ops() + more);
    assert forall|d: Held| #[trigger] c.durable(d) implies survives(
        left_by(a),
        a.bytes(),
        more,
        d,
    ) by {
        let e = choose|e: Held| #[trigger] b.durable(e) && torn(e, d, off, t);
        assert(survives(left_by(a), a.bytes(), ops, e));
        lemma_survives_write(left_by(a), a.bytes(), ops, e, d, off, t);
    }
}

proof fn lemma_survives_write(
    was: spec_fn(Held) -> bool,
    b: Held,
    ops: Ops,
    c: Held,
    d: Held,
    off: int,
    t: Held,
)
    requires
        survives(was, b, ops, c),
        torn(c, d, off, t),
    ensures
        survives(was, b, ops.push(Op::Write(off, t)), d),
{
    let more = ops.push(Op::Write(off, t));
    assert(more.last() == Op::Write(off, t));
    assert(more.drop_last() =~= ops);
    assert(survivors(was, b, ops)(c));
}

/// A sync settles what was written, where all of it was.
proof fn lemma_asked_sync<S: Storage>(a: S, b: S, c: S, ops: Ops)
    requires
        asked(a, b, ops),
        b.bytes() == applied(a.bytes(), ops),
        c.ops() == b.ops().push(Op::Sync),
        forall|d: Held| #[trigger] c.durable(d) ==> d == b.bytes(),
    ensures
        asked(a, c, ops.push(Op::Sync)),
        applied(a.bytes(), ops.push(Op::Sync)) == b.bytes(),
{
    let more = ops.push(Op::Sync);
    assert(more.drop_last() =~= ops);
    assert(c.ops() =~= a.ops() + more);
}

proof fn lemma_applied_write(b: Held, ops: Ops, off: int, t: Held)
    ensures
        applied(b, ops.push(Op::Write(off, t))) == written(applied(b, ops), off, t),
{
    assert(ops.push(Op::Write(off, t)).drop_last() =~= ops);
}

/// Seal and write out every page given; the sealed pages come back.
fn write_pages<S: Storage>(
    storage: &mut S,
    ps: u32,
    dirty: &Vec<(PageId, Vec<u8>)>,
    txid: u64,
) -> (r: Result<Vec<(PageId, Vec<u8>)>>)
    requires
        page_size_ok(ps),
        forall|i: int|
            0 <= i < dirty@.len() ==> 2 <= (#[trigger] dirty@[i]).0 < MAX_PAGES
                && dirty@[i].1@.len() == ps,
        forall|i: int, j: int|
            0 <= i < j < dirty@.len() ==> (#[trigger] dirty@[i]).0 != (#[trigger] dirty@[j]).0,
    ensures
        final(storage).reliable() == old(storage).reliable(),
        final(storage).bytes().len() >= old(storage).bytes().len(),
        forall|x: PageId|
            !listed_page(dirty@, x) && page_inside(old(storage).bytes(), ps, x) ==> page_inside(
                final(storage).bytes(),
                ps,
                x,
            ) && #[trigger] page_bytes(final(storage).bytes(), ps, x) == page_bytes(
                old(storage).bytes(),
                ps,
                x,
            ),
        r matches Ok(out) ==> {
            &&& out@.len() == dirty@.len()
            &&& forall|i: int|
                0 <= i < dirty@.len() ==> {
                    &&& (#[trigger] out@[i]).0 == dirty@[i].0
                    &&& out@[i].1@ == sealed(dirty@[i].1@, txid)
                    &&& page_inside(final(storage).bytes(), ps, dirty@[i].0)
                    &&& page_bytes(final(storage).bytes(), ps, dirty@[i].0) == out@[i].1@
                }
        },
        old(storage).reliable() && (forall|i: int|
            0 <= i < dirty@.len() ==> page_off((#[trigger] dirty@[i]).0, ps) + ps <= usize::MAX)
            ==> r is Ok,
        exists|k: int|
            0 <= k <= dirty@.len() && (r is Ok ==> k == dirty@.len() && final(storage).bytes()
                == applied(old(storage).bytes(), page_ops(sealed_list(dirty@, txid), ps))) && #[trigger] asked(
                *old(storage),
                *final(storage),
                page_ops(sealed_list(dirty@, txid), ps).take(k),
            ),
{
    let mut out: Vec<(PageId, Vec<u8>)> = Vec::new();
    let ghost w = page_ops(sealed_list(dirty@, txid), ps);
    let ghost s0 = *storage;
    proof {
        assert(w.take(0) =~= Seq::<Op>::empty());
        lemma_asked_nothing(s0);
    }
    let ghost b0 = storage.bytes();
    let ghost rel = storage.reliable();
    let mut i: usize = 0;
    while i < dirty.len()
        invariant
            i <= dirty@.len(),
            page_size_ok(ps),
            forall|j: int|
                0 <= j < dirty@.len() ==> 2 <= (#[trigger] dirty@[j]).0 < MAX_PAGES
                    && dirty@[j].1@.len() == ps,
            forall|j: int, k: int|
                0 <= j < k < dirty@.len() ==> (#[trigger] dirty@[j]).0 != (#[trigger] dirty@[k]).0,
            rel == old(storage).reliable(),
            s0 == *old(storage),
            w == page_ops(sealed_list(dirty@, txid), ps),
            asked(s0, *storage, w.take(i as int)),
            storage.bytes() == applied(b0, w.take(i as int)),
            b0 == old(storage).bytes(),
            storage.reliable() == rel,
            storage.bytes().len() >= b0.len(),
            forall|x: PageId|
                !listed_page(dirty@, x) && page_inside(b0, ps, x) ==> page_inside(
                    storage.bytes(),
                    ps,
                    x,
                ) && #[trigger] page_bytes(storage.bytes(), ps, x) == page_bytes(b0, ps, x),
            out@.len() == i,
            forall|j: int|
                0 <= j < i ==> {
                    &&& (#[trigger] out@[j]).0 == dirty@[j].0
                    &&& out@[j].1@ == sealed(dirty@[j].1@, txid)
                    &&& page_inside(storage.bytes(), ps, dirty@[j].0)
                    &&& page_bytes(storage.bytes(), ps, dirty@[j].0) == out@[j].1@
                },
        decreases dirty@.len() - i,
    {
        let id: PageId = dirty[i].0;
        let mut buf: Vec<u8> = copy_vec(dirty[i].1.as_slice());
        let ghost raw = buf@;
        proof {
            law_sealed_page_checks_out(raw, txid);
            lemma_off(id, ps);
        }
        page::seal(buf.as_mut_slice(), txid);
        let off: u64 = id * ps as u64;
        let ghost b1 = storage.bytes();
        let ghost s1 = *storage;
        proof {
            assert(w[i as int] == Op::Write(off as int, buf@));
            assert(w.take(i as int + 1) =~= w.take(i as int).push(w[i as int]));
        }
        match storage.write_at(off, buf.as_slice()) {
            Err(e) => {
                proof {
                    lemma_asked_write(s0, s1, *storage, w.take(i as int), off as int, buf@);
                    lemma_torn_page(b1, storage.bytes(), ps, id);
                    assert(listed_page(dirty@, id)) by {
                        assert(dirty@[i as int].0 == id);
                    }
                }
                return Err(e);
            },
            Ok(_) => {
                proof {
                    lemma_asked_write(s0, s1, *storage, w.take(i as int), off as int, buf@);
                    lemma_applied_write(b0, w.take(i as int), off as int, buf@);
                    lemma_written_page(b1, ps, id, buf@);
                    assert(listed_page(dirty@, id)) by {
                        assert(dirty@[i as int].0 == id);
                    }
                }
            },
        }
        let ghost o = out@;
        out.push((id, buf));
        proof {
            assert forall|j: int| 0 <= j < i + 1 implies {
                &&& (#[trigger] out@[j]).0 == dirty@[j].0
                &&& out@[j].1@ == sealed(dirty@[j].1@, txid)
                &&& page_inside(storage.bytes(), ps, dirty@[j].0)
                &&& page_bytes(storage.bytes(), ps, dirty@[j].0) == out@[j].1@
            } by {
                if j < i {
                    assert(out@[j] == o[j]);
                    assert(dirty@[j].0 != dirty@[i as int].0);
                }
            }
        }
        i = i + 1;
    }
    proof {
        assert(w.take(dirty@.len() as int) =~= w);
    }
    Ok(out)
}

impl<S: Storage> Pager<S> {
    /// Forget every cached page.
    fn drop_cache(&mut self)
        requires
            old(self).committed.valid(),
        ensures
            final(self).wf(),
            final(self).storage == old(self).storage,
            final(self).committed == old(self).committed,
            final(self).cache_pages == old(self).cache_pages,
    {
        let ghost pages = self.pages();
        self.cache = InvCell::new(PageCache::new(self.cache_pages), Ghost(CacheRule { pages }));
    }

    /// Make a meta the committed one, the given pages having been written.
    fn publish(&mut self, meta: Meta, fresh: Vec<(PageId, Vec<u8>)>, Ghost(prior): Ghost<Pages>)
        requires
            meta.valid(),
            old(self).cache.predicate().pages == prior,
            forall|x: PageId|
                #[trigger] prior.contains_key(x) && !listed_page(fresh@, x) ==> pages_in(
                    old(self).storage.bytes(),
                    meta.page_size,
                    meta.page_count,
                ).contains_key(x) && pages_in(
                    old(self).storage.bytes(),
                    meta.page_size,
                    meta.page_count,
                )[x] == prior[x],
            forall|i: int|
                0 <= i < fresh@.len() ==> pages_in(
                    old(self).storage.bytes(),
                    meta.page_size,
                    meta.page_count,
                ).contains_key((#[trigger] fresh@[i]).0) && pages_in(
                    old(self).storage.bytes(),
                    meta.page_size,
                    meta.page_count,
                )[fresh@[i].0] == fresh@[i].1@,
            forall|i: int, j: int|
                0 <= i < j < fresh@.len() ==> (#[trigger] fresh@[i]).0 != (#[trigger] fresh@[j]).0,
        ensures
            final(self).wf(),
            final(self).storage == old(self).storage,
            final(self).committed == meta,
    {
        let ghost pages = pages_in(self.storage.bytes(), meta.page_size, meta.page_count);
        let mut cell = InvCell::new(
            PageCache::new(self.cache_pages),
            Ghost(CacheRule { pages: prior }),
        );
        std::mem::swap(&mut cell, &mut self.cache);
        let mut cache = cell.into_inner();
        let mut fresh = fresh;
        let ghost all = fresh@;
        while fresh.len() > 0
            invariant
                fresh@ == all.subrange(0, fresh@.len() as int),
                fresh@.len() <= all.len(),
                cache.wf(),
                forall|i: int|
                    0 <= i < all.len() ==> pages.contains_key((#[trigger] all[i]).0)
                        && pages[all[i].0] == all[i].1@,
                forall|x: PageId|
                    #[trigger] cache@.contains_key(x) ==> listed_page(fresh@, x) || (
                    pages.contains_key(x) && pages[x] == cache@[x]),
            decreases fresh@.len(),
        {
            let ghost f0 = fresh@;
            let ghost c0 = cache@;
            let n: usize = fresh.len() - 1;
            match fresh.pop() {
                None => {},
                Some((id, buf)) => {
                    proof {
                        assert(all[n as int] == (id, buf));
                    }
                    cache.insert(id, buf);
                    proof {
                        assert(fresh@ =~= all.subrange(0, n as int));
                        assert forall|x: PageId| #[trigger] cache@.contains_key(x) implies
                            listed_page(fresh@, x) || (pages.contains_key(x) && pages[x]
                            == cache@[x]) by {
                            if x != id {
                                assert(c0.contains_key(x));
                                if listed_page(f0, x) {
                                    let i = choose|i: int| 0 <= i < f0.len() && (#[trigger] f0[i]).0 == x;
                                    assert(i < n);
                                    assert(fresh@[i] == f0[i]);
                                }
                            }
                        }
                    }
                },
            }
        }
        self.cache = InvCell::new(cache, Ghost(CacheRule { pages }));
        self.committed = meta;
    }
}

impl<'p, S: Storage> WriteBatch<'p, S> {
    /// All roots this batch has set point inside the file.
    pub open spec fn roots_ok(&self) -> bool {
        &&& root_in(self.data(), self.next())
        &&& root_in(self.catalog(), self.next())
        &&& root_in(self.commit_at_page(), self.next())
        &&& root_in(self.refs(), self.next())
    }

    /// Neither page ids nor transaction ids nor offsets run out at commit.
    pub open spec fn roomy(&self) -> bool {
        &&& self.next() + self.settling() < MAX_PAGES
        &&& (self.next() + self.settling()) * self.size() <= usize::MAX
        &&& self.meta().txid < u64::MAX
    }

    /// Make the batch durable, stamped with the current time. Returns the
    /// new txid.
    pub fn commit(self) -> (r: Result<u64>)
        requires
            self.wf(),
        ensures
            final(self.pager).wf(),
            final(self.pager).reliable() == self.reliable(),
            match r {
                Ok(txid) => {
                    &&& txid == self.meta().txid + 1
                    &&& self.committed_as(final(self.pager), final(self.pager).meta().unix_ts_ms)
                },
                Err(e) => self.left_alone(final(self.pager)),
            },
            self.reliable() && self.free_ok() && self.chosen_ok() && self.roots_ok() && self.roomy()
                ==> r is Ok,
    {
        self.commit_at(now_ms())
    }

    /// Whether some calls are all that was asked of the storage since this
    /// batch, and a crash now leaves no more than they may leave.
    pub open spec fn asked_for(&self, p: &Pager<S>, ops: Ops) -> bool {
        &&& p.ops() == self.under().ops() + ops
        &&& forall|d: Held| #[trigger]
            p.durable(d) ==> survives(self.under().left(), self.under().bytes(), ops, d)
    }

    /// Whether these are pages a commit of this batch writes before it
    /// writes the meta: each once, sealed, every page the batch owns among
    /// them, and none that the previous commit uses.
    #[verifier::opaque]
    pub open spec fn writes_ok(&self, w: Seq<(PageId, Seq<u8>)>, m: Meta) -> bool {
        &&& m.valid()
        &&& m.page_size == self.size()
        &&& m.txid == self.meta().txid + 1
        &&& m.page_count >= self.next()
        &&& forall|i: int|
            0 <= i < w.len() ==> 2 <= (#[trigger] w[i]).0 < m.page_count && w[i].0 < MAX_PAGES
                && w[i].1.len() == m.page_size && checks_out(w[i].1)
        &&& forall|i: int, j: int|
            0 <= i < j < w.len() ==> (#[trigger] w[i]).0 != (#[trigger] w[j]).0
        &&& forall|x: PageId| #[trigger] self.own(x) ==> writes_page(w, x, self.pages()[x])
        &&& self.free_ok() ==> forall|i: int|
            0 <= i < w.len() ==> self.own((#[trigger] w[i]).0) || (self.spare(w[i].0)
                && !self.under().chained(w[i].0))
    }

    /// What a successful commit leaves behind: the new meta, every page the
    /// batch could see and nothing spare of, and a free list that covers
    /// only what nothing uses.
    pub open spec fn committed_as(&self, p: &Pager<S>, now: u64) -> bool {
        &&& p.meta() == (Meta {
            page_size: self.meta().page_size,
            txid: (self.meta().txid + 1) as u64,
            data_root: self.data(),
            catalog_root: self.catalog(),
            freelist_root: p.meta().freelist_root,
            page_count: p.meta().page_count,
            unix_ts_ms: now,
            commit_page: self.commit_at_page(),
            refs_root: self.refs(),
        })
        &&& p.meta().page_count >= self.next()
        &&& self.free_ok() ==> forall|x: PageId|
            #[trigger] self.pages().contains_key(x) && !self.spare(x) ==> p.pages().contains_key(x)
                && same_page(self.pages()[x], p.pages()[x]) && (!self.own(x) ==> self.pages()[x]
                == p.pages()[x])
        &&& self.free_ok() && self.chosen_ok() ==> p.free_ok() && forall|x: PageId|
            #[trigger] p.free(x) == self.frees(x, p.meta().page_count) && (p.free(x) ==> self.will_free(
                x,
            ))
        &&& p.meta().page_count <= self.next() + self.settling()
        &&& forall|x: PageId| #[trigger]
            self.own(x) ==> written_in(p.pages(), x, p.meta().txid)
        &&& p.settled()
        &&& self.under().anchored() ==> p.anchored()
        &&& exists|w: Seq<(PageId, Seq<u8>)>| #[trigger]
            self.writes_ok(w, p.meta()) && self.asked_for(p, commit_ops(w, p.meta()))
        &&& slot_page(p.bytes(), p.meta().page_size, (p.meta().txid % 2) as nat) == p.meta().page()
        &&& self.under().bytes().len() >= 2 * p.meta().page_size ==> slot_page(
            p.bytes(),
            p.meta().page_size,
            (self.meta().txid % 2) as nat,
        ) == slot_page(self.under().bytes(), p.meta().page_size, (self.meta().txid % 2) as nat)
    }

    /// What a failed commit leaves behind: the meta as it was, in memory
    /// and in its slot, and every committed page but the unused ones.
    pub open spec fn left_alone(&self, p: &Pager<S>) -> bool {
        &&& p.meta() == self.meta()
        &&& self.free_ok() ==> p.free_ok() && forall|x: PageId| #[trigger]
            p.free(x) == self.under().free(x)
        &&& self.under().anchored() ==> anchors_still(p.bytes(), p.meta())
        &&& self.asked_for(p, Seq::<Op>::empty()) || exists|
            w: Seq<(PageId, Seq<u8>)>,
            m: Meta,
            k: int,
        |
            #![trigger self.writes_ok(w, m), commit_ops(w, m).take(k)]
            self.writes_ok(w, m) && 0 <= k < commit_ops(w, m).len() && self.asked_for(
                p,
                commit_ops(w, m).take(k),
            )
        &&& self.free_ok() ==> forall|x: PageId|
            #[trigger] self.under().pages().contains_key(x) && !self.spare(x) && !self.own(x)
                ==> p.pages().contains_key(x) && p.pages()[x] == self.under().pages()[x]
        &&& self.under().bytes().len() >= 2 * p.meta().page_size ==> slot_page(
            p.bytes(),
            p.meta().page_size,
            (self.meta().txid % 2) as nat,
        ) == slot_page(self.under().bytes(), p.meta().page_size, (self.meta().txid % 2) as nat)
    }

    /// A commit that never reached the storage leaves everything as it was.
    proof fn lemma_untouched(&self, p: &Pager<S>)
        requires
            *p == self.under(),
            self.meta() == self.under().meta(),
        ensures
            self.left_alone(p),
    {
        assert(p.ops() + Seq::<Op>::empty() =~= p.ops());
        assert(self.asked_for(p, Seq::<Op>::empty()));
        reveal(anchors);
        if self.free_ok() {
            let fc = choose|fc: FreeChain| #[trigger] self.free_view(fc);
            assert(p.free_ok());
        }
    }

    /// Pages with their lsn stamped are what a commit writes.
    proof fn lemma_writes(&self, mid: &WriteBatch<'p, S>, m: Meta)
        requires
            self.wf(),
            mid.wf(),
            m.valid(),
            m.page_size == self.size(),
            m.txid == self.meta().txid + 1,
            m.page_count == mid.next() >= self.next(),
            mid.meta() == self.meta(),
            mid.under() == self.under(),
            mid.size() == self.size(),
            forall|x: PageId| #[trigger] self.own(x) ==> mid.own(x) && mid.pages()[x] == self.pages()[x],
            self.free_ok() ==> forall|x: PageId|
                #[trigger] mid.own(x) ==> self.own(x) || (self.spare(x) && !self.under().chained(x)),
        ensures
            self.writes_ok(sealed_list(mid.state.dirty@, m.txid), m),
    {
        reveal(WriteBatch::writes_ok);
        let d = mid.state.dirty@;
        let w = sealed_list(d, m.txid);
        assert forall|i: int| 0 <= i < w.len() implies 2 <= (#[trigger] w[i]).0 < m.page_count
            && w[i].0 < MAX_PAGES && w[i].1.len() == m.page_size && checks_out(w[i].1)
            && mid.own(w[i].0) by {
            assert(mid.state.index@.contains_key(d[i].0));
            law_sealed_page_checks_out(d[i].1@, m.txid);
        }
        assert forall|i: int, j: int| 0 <= i < j < w.len() implies (#[trigger] w[i]).0 != (
        #[trigger] w[j]).0 by {
            assert(mid.state.index@[d[i].0] == i);
            assert(mid.state.index@[d[j].0] == j);
        }
        assert forall|x: PageId| #[trigger] self.own(x) implies writes_page(
            w,
            x,
            self.pages()[x],
        ) by {
            assert(mid.own(x));
            let i = mid.state.index@[x] as int;
            assert(d[i].0 == x);
            assert(w[i].0 == x);
            lemma_same_page_sealed(d[i].1@, m.txid);
        }
    }

    proof fn lemma_left_alone(
        &self,
        mid: &WriteBatch<'p, S>,
        p: &Pager<S>,
        slot: PageId,
        w: Seq<(PageId, Seq<u8>)>,
        m: Meta,
        k: int,
    )
        requires
            self.wf(),
            mid.wf(),
            p.committed == self.state.base,
            slot < 2,
            slot != self.state.base.txid % 2,
            self.free_ok() ==> forall|x: PageId|
                #[trigger] mid.own(x) ==> self.own(x) || (self.spare(x) && !self.under().chained(x)),
            p.storage.bytes().len() >= self.under().storage.bytes().len(),
            forall|x: PageId|
                !mid.own(x) && x != slot && page_inside(
                    self.under().storage.bytes(),
                    self.state.base.page_size,
                    x,
                ) ==> page_inside(p.storage.bytes(), self.state.base.page_size, x)
                    && #[trigger] page_bytes(p.storage.bytes(), self.state.base.page_size, x)
                    == page_bytes(self.under().storage.bytes(), self.state.base.page_size, x),
            self.writes_ok(w, m),
            0 <= k < commit_ops(w, m).len(),
            asked(self.under().storage, p.storage, commit_ops(w, m).take(k)),
        ensures
            self.left_alone(p),
    {
        let ps = self.state.base.page_size;
        let b0 = self.under().storage.bytes();
        let b1 = p.storage.bytes();
        mid.lemma_facts();
        if self.free_ok() {
            assert forall|x: PageId|
                #[trigger] self.under().pages().contains_key(x) && !self.spare(x) && !self.own(
                    x,
                ) implies p.pages().contains_key(x) && p.pages()[x] == self.under().pages()[x] by {
                assert(!mid.own(x));
                assert(page_bytes(b1, ps, x) == page_bytes(b0, ps, x));
            }
            let fc = choose|fc: FreeChain| #[trigger] self.free_view(fc);
            let fb = choose|fb: FreeChain| #[trigger] self.under().free_view(fb);
            assert(p.free_view(fb)) by {
                assert forall|i: int| 0 <= i < fb.len() implies p.pages().contains_key(
                    (#[trigger] fb[i]).0,
                ) && list_of(p.pages()[fb[i].0]) == Some((free_link(fb, i), fb[i].1)) by {
                    let x = fb[i].0;
                    assert(chain_links(fb, x));
                    assert(self.under().chained(x));
                    assert(!self.own(x));
                    assert(!mid.own(x));
                    assert(self.under().pages().contains_key(x));
                    assert(page_bytes(b1, ps, x) == page_bytes(b0, ps, x));
                }
            }
            assert forall|x: PageId| #[trigger] p.free(x) == self.under().free(x) by {
                if p.free(x) {
                    let fd = choose|fd: FreeChain| #[trigger] p.free_view(fd) && chain_has(fd, x);
                    p.lemma_one_free(fb, fd);
                }
                if self.under().free(x) {
                    let fd = choose|fd: FreeChain| #[trigger]
                        self.under().free_view(fd) && chain_has(fd, x);
                    self.under().lemma_one_free(fb, fd);
                }
            }
        }
        let prev = (self.state.base.txid % 2) as PageId;
        lemma_slot_page(b0, ps, prev);
        lemma_slot_page(b1, ps, prev);
        assert(!mid.own(prev));
        if b0.len() >= 2 * ps {
            assert(page_bytes(b1, ps, prev) == page_bytes(b0, ps, prev));
        }
        assert(self.under().left() =~= left_by(self.under().storage));
        assert(self.asked_for(p, commit_ops(w, m).take(k)));
        reveal(anchors);
    }

    /// What is left to say of a commit once its pages, its meta and its
    /// syncs are done.
    #[verifier::spinoff_prover]
    #[verifier::rlimit(50)]
    proof fn lemma_committed(
        &self,
        mid: &WriteBatch<'p, S>,
        p: &Pager<S>,
        now: u64,
        w: Seq<(PageId, Seq<u8>)>,
    )
        requires
            self.wf(),
            mid.wf(),
            mid.keeps(self),
            mid.next() >= self.next(),
            mid.next() <= self.next() + self.settling(),
            p.wf(),
            p.meta() == (Meta {
                page_size: self.meta().page_size,
                txid: (self.meta().txid + 1) as u64,
                data_root: self.data(),
                catalog_root: self.catalog(),
                freelist_root: mid.state.freelist_root,
                page_count: mid.next(),
                unix_ts_ms: now,
                commit_page: self.commit_at_page(),
                refs_root: self.refs(),
            }),
            self.meta().txid < u64::MAX,
            forall|x: PageId| #[trigger]
                mid.pages().contains_key(x) ==> p.pages().contains_key(x) && same_page(
                    mid.pages()[x],
                    p.pages()[x],
                ) && (!mid.own(x) ==> mid.pages()[x] == p.pages()[x]),
            self.free_ok() ==> forall|x: PageId|
                #[trigger] self.pages().contains_key(x) && !self.spare(x) ==> mid.pages().contains_key(
                    x,
                ) && mid.pages()[x] == self.pages()[x],
            self.free_ok() ==> forall|x: PageId|
                #[trigger] mid.own(x) ==> self.own(x) || self.spare(x),
            self.free_ok() && self.chosen_ok() ==> exists|fc: FreeChain|
                {
                    &&& #[trigger] chain_at(mid.pages(), mid.state.freelist_root, fc)
                    &&& chain_ok(fc, mid.next())
                    &&& forall|x: PageId| #[trigger] chain_has(fc, x) == self.frees(x, mid.next())
                },
            slot_page(p.bytes(), p.meta().page_size, (p.meta().txid % 2) as nat) == p.meta().page(),
            p.bytes().len() >= self.under().bytes().len(),
            self.under().bytes().len() >= 2 * p.meta().page_size ==> slot_page(
                p.bytes(),
                p.meta().page_size,
                (self.meta().txid % 2) as nat,
            ) == slot_page(self.under().bytes(), p.meta().page_size, (self.meta().txid % 2) as nat),
            p.settled(),
            forall|x: PageId| #[trigger] self.own(x) ==> written_in(p.pages(), x, p.meta().txid),
            self.writes_ok(w, p.meta()),
            self.asked_for(p, commit_ops(w, p.meta())),
        ensures
            self.committed_as(p, now),
    {
        let m = p.meta();
        mid.lemma_facts();
        self.lemma_facts();
        if self.free_ok() {
            assert forall|x: PageId|
                #[trigger] self.pages().contains_key(x) && !self.spare(x) implies p.pages().contains_key(
                x,
            ) && same_page(self.pages()[x], p.pages()[x]) && (!self.own(x) ==> self.pages()[x]
                == p.pages()[x]) by {
                assert(mid.pages().contains_key(x));
                if mid.own(x) && !self.own(x) {
                    assert(self.spare(x));
                }
            }
        }
        if self.free_ok() && self.chosen_ok() {
            let fc = choose|fc: FreeChain|
                {
                    &&& #[trigger] chain_at(mid.pages(), mid.state.freelist_root, fc)
                    &&& chain_ok(fc, mid.next())
                    &&& forall|x: PageId| #[trigger] chain_has(fc, x) == self.frees(x, mid.next())
                };
            assert(p.free_view(fc)) by {
                assert forall|i: int| 0 <= i < fc.len() implies p.pages().contains_key(
                    (#[trigger] fc[i]).0,
                ) && list_of(p.pages()[fc[i].0]) == Some((free_link(fc, i), fc[i].1)) by {
                    assert(mid.pages().contains_key(fc[i].0));
                    lemma_list_of_frame(mid.pages()[fc[i].0], p.pages()[fc[i].0]);
                }
            }
            assert forall|x: PageId| #[trigger] p.free(x) == self.frees(x, m.page_count) && (p.free(
                x,
            ) ==> self.will_free(x)) by {
                if p.free(x) {
                    let fd = choose|fd: FreeChain| #[trigger] p.free_view(fd) && chain_has(fd, x);
                    p.lemma_one_free(fc, fd);
                }
                if chain_has(fc, x) {
                    assert(p.free_view(fc) && chain_has(fc, x));
                }
            }
        }
        if self.under().anchored() {
            p.lemma_facts();
            assert(self.under().bytes().len() >= 2 * m.page_size) by {
                reveal(anchors);
            }
            lemma_anchored(self.under().bytes(), p.bytes(), self.meta(), m);
        }
    }

    /// Make the batch durable. Returns the new txid.
    #[verifier::spinoff_prover]
    #[verifier::rlimit(100)]
    pub fn commit_at(self, now: u64) -> (r: Result<u64>)
        requires
            self.wf(),
        ensures
            final(self.pager).wf(),
            final(self.pager).reliable() == self.reliable(),
            match r {
                Ok(txid) => {
                    &&& txid == self.meta().txid + 1
                    &&& self.committed_as(final(self.pager), now)
                },
                Err(e) => self.left_alone(final(self.pager)),
            },
            self.reliable() && self.free_ok() && self.chosen_ok() && self.roots_ok() && self.roomy()
                ==> r is Ok,
    {
        let mut b = self;
        let ghost before = b;
        let ghost bytes0 = b.pager.storage.bytes();
        let ghost pages0 = b.pager.pages();
        let ps: u32 = b.state.base.page_size;
        proof {
            before.lemma_facts();
        }
        if b.state.base.txid == u64::MAX {
            proof {
                before.lemma_untouched(b.pager);
            }
            return Err(Error::InvalidArgument("transaction ids are used up"));
        }
        let txid: u64 = b.state.base.txid + 1;
        match b.settle_freelist() {
            Err(e) => {
                proof {
                    before.lemma_untouched(b.pager);
                }
                return Err(e);
            },
            Ok(_) => {},
        }
        let ghost mid = b;
        proof {
            mid.lemma_facts();
        }
        let n: u64 = b.state.next_page;
        if !inside(b.state.data_root, n) || !inside(b.state.catalog_root, n) || !inside(
            b.state.freelist_root,
            n,
        ) || !inside(b.state.commit_page, n) || !inside(b.state.refs_root, n) {
            proof {
                if before.free_ok() && before.chosen_ok() {
                    let fc = choose|fc: FreeChain|
                        {
                            &&& #[trigger] chain_at(mid.pages(), mid.state.freelist_root, fc)
                            &&& chain_ok(fc, mid.next())
                            &&& forall|x: PageId| #[trigger]
                                chain_has(fc, x) == before.frees(x, mid.next())
                        };
                    if fc.len() > 0 {
                        assert(chain_has(fc, fc[0].0));
                    }
                }
                before.lemma_untouched(b.pager);
            }
            return Err(Error::InvalidArgument("root pointer outside the file"));
        }
        let new_meta = Meta {
            page_size: ps,
            txid,
            data_root: b.state.data_root,
            catalog_root: b.state.catalog_root,
            freelist_root: b.state.freelist_root,
            page_count: b.state.next_page,
            unix_ts_ms: now,
            commit_page: b.state.commit_page,
            refs_root: b.state.refs_root,
        };
        let ghost w = sealed_list(b.state.dirty@, txid);
        let ghost all = commit_ops(w, new_meta);
        let ghost s0 = b.pager.storage;
        proof {
            if before.free_ok() {
                assert forall|x: PageId| #[trigger] mid.own(x) implies before.own(x) || (before.spare(
                    x,
                ) && !before.under().chained(x)) by {}
            }
            assert forall|x: PageId| #[trigger] before.own(x) implies mid.own(x) && mid.pages()[x]
                == before.pages()[x] by {}
            before.lemma_writes(&mid, new_meta);
            assert(w.len() == mid.state.dirty@.len());
            assert(all.take(w.len() as int) =~= page_ops(w, ps));
            assert(all.take(w.len() as int + 1) =~= page_ops(w, ps).push(Op::Sync));
            assert(all.take(w.len() as int + 2) =~= all.take(w.len() as int + 1).push(
                all[w.len() as int + 1],
            ));
            assert(all =~= all.take(w.len() as int + 2).push(Op::Sync));
        }
        // 1. seal and write every dirty page
        proof {
            assert forall|i: int, j: int| 0 <= i < j < b.state.dirty@.len() implies (
            #[trigger] b.state.dirty@[i]).0 != (#[trigger] b.state.dirty@[j]).0 by {
                assert(b.state.index@[b.state.dirty@[i].0] == i);
                assert(b.state.index@[b.state.dirty@[j].0] == j);
            }
            assert forall|x: PageId| listed_page(b.state.dirty@, x) == #[trigger] mid.own(x) by {
                if mid.own(x) {
                    assert(b.state.dirty@[b.state.index@[x] as int].0 == x);
                }
            }
            if before.roomy() {
                assert forall|i: int| 0 <= i < b.state.dirty@.len() implies page_off(
                    (#[trigger] b.state.dirty@[i]).0,
                    ps,
                ) + ps <= usize::MAX by {
                    lemma_off_apart(b.state.dirty@[i].0, n, ps);
                    let a = before.next() + before.settling();
                    assert(n * ps <= a * ps) by (nonlinear_arith)
                        requires
                            n <= a,
                    ;
                }
            }
        }
        let fresh: Vec<(PageId, Vec<u8>)> = match write_pages(
            &mut b.pager.storage,
            ps,
            &b.state.dirty,
            txid,
        ) {
            Ok(v) => v,
            Err(e) => {
                b.pager.drop_cache();
                proof {
                    let k = choose|k: int|
                        0 <= k <= w.len() && #[trigger] asked(
                            s0,
                            b.pager.storage,
                            page_ops(w, ps).take(k),
                        );
                    assert(page_ops(w, ps).take(k) =~= all.take(k));
                    before.lemma_left_alone(&mid, b.pager, (txid % 2) as PageId, w, new_meta, k);
                }
                return Err(e);
            },
        };
        let ghost bytes1 = b.pager.storage.bytes();
        let ghost s1 = b.pager.storage;
        proof {
            assert(page_ops(w, ps).take(w.len() as int) =~= page_ops(w, ps));
            assert(asked(s0, s1, page_ops(w, ps)));
        }
        // 2. data must be durable before any meta points at it
        match b.pager.storage.sync() {
            Err(e) => {
                b.pager.drop_cache();
                proof {
                    assert(asked(s0, b.pager.storage, all.take(w.len() as int)));
                    before.lemma_left_alone(
                        &mid,
                        b.pager,
                        (txid % 2) as PageId,
                        w,
                        new_meta,
                        w.len() as int,
                    );
                }
                return Err(e);
            },
            Ok(_) => {},
        }
        let ghost s2 = b.pager.storage;
        proof {
            lemma_asked_sync(s0, s1, s2, page_ops(w, ps));
        }
        // 3. write the new meta into the slot the previous commit is not in
        proof {
            law_meta_decode_inverts_encode(new_meta);
        }
        let mut meta_buf: Vec<u8> = zero_vec(ps as usize);
        new_meta.encode(meta_buf.as_mut_slice());
        let slot: u64 = txid % 2;
        let slot_at: u64 = if slot == 0 {
            0
        } else {
            ps as u64
        };
        proof {
            lemma_off_apart(0, 1, ps);
            assert(slot_at == page_off(slot, ps));
        }
        proof {
            assert(all[w.len() as int + 1] == Op::Write(slot_at as int, meta_buf@));
        }
        match b.pager.storage.write_at(slot_at, meta_buf.as_slice()) {
            Err(e) => {
                proof {
                    lemma_torn_page(bytes1, b.pager.storage.bytes(), ps, slot);
                    lemma_asked_write(
                        s0,
                        s2,
                        b.pager.storage,
                        all.take(w.len() as int + 1),
                        slot_at as int,
                        meta_buf@,
                    );
                }
                b.pager.drop_cache();
                proof {
                    before.lemma_left_alone(
                        &mid,
                        b.pager,
                        (txid % 2) as PageId,
                        w,
                        new_meta,
                        w.len() as int + 2,
                    );
                }
                return Err(e);
            },
            Ok(_) => {},
        }
        let ghost s3 = b.pager.storage;
        proof {
            lemma_written_page(bytes1, ps, slot, meta_buf@);
            lemma_asked_write(
                s0,
                s2,
                s3,
                all.take(w.len() as int + 1),
                slot_at as int,
                meta_buf@,
            );
            lemma_applied_write(
                bytes0,
                all.take(w.len() as int + 1),
                slot_at as int,
                meta_buf@,
            );
        }
        // 4. the commit point
        match b.pager.storage.sync() {
            Err(e) => {
                b.pager.drop_cache();
                proof {
                    assert(asked(s0, b.pager.storage, all.take(w.len() as int + 2)));
                    before.lemma_left_alone(
                        &mid,
                        b.pager,
                        (txid % 2) as PageId,
                        w,
                        new_meta,
                        w.len() as int + 2,
                    );
                }
                return Err(e);
            },
            Ok(_) => {},
        }
        let ghost s4 = b.pager.storage;
        proof {
            lemma_asked_sync(s0, s3, s4, all.take(w.len() as int + 2));
        }
        let ghost bytes2 = b.pager.storage.bytes();
        let ghost pages2 = pages_in(bytes2, ps, new_meta.page_count);
        let ghost sealed_pages = fresh@;
        proof {
            assert forall|x: PageId| listed_page(fresh@, x) == #[trigger] mid.own(x) by {
                if mid.own(x) {
                    let i = choose|i: int| 0 <= i < mid.state.dirty@.len() && (
                    #[trigger] mid.state.dirty@[i]).0 == x;
                    assert(fresh@[i].0 == x);
                }
                if listed_page(fresh@, x) {
                    let i = choose|i: int| 0 <= i < fresh@.len() && (#[trigger] fresh@[i]).0 == x;
                    assert(mid.state.dirty@[i].0 == x);
                }
            }
            assert forall|i: int| 0 <= i < fresh@.len() implies pages2.contains_key(
                (#[trigger] fresh@[i]).0,
            ) && pages2[fresh@[i].0] == fresh@[i].1@ by {
                let d = mid.state.dirty@[i];
                law_sealed_page_checks_out(d.1@, txid);
                assert(page_bytes(bytes1, ps, d.0) == fresh@[i].1@);
                assert(page_bytes(bytes2, ps, d.0) == page_bytes(bytes1, ps, d.0));
            }
            assert forall|x: PageId| #[trigger] pages0.contains_key(x) && !listed_page(fresh@, x) implies
                pages2.contains_key(x) && pages2[x] == pages0[x] by {
                assert(!mid.own(x));
                assert(!listed_page(mid.state.dirty@, x));
                assert(page_bytes(bytes1, ps, x) == page_bytes(bytes0, ps, x));
                assert(page_bytes(bytes2, ps, x) == page_bytes(bytes1, ps, x));
            }
            assert forall|i: int, j: int| 0 <= i < j < fresh@.len() implies (
            #[trigger] fresh@[i]).0 != (#[trigger] fresh@[j]).0 by {
                assert(mid.state.dirty@[i].0 != mid.state.dirty@[j].0);
            }
        }
        b.pager.publish(new_meta, fresh, Ghost(pages0));
        proof {
            let p = *b.pager;
            assert(p.pages() == pages2);
            assert forall|x: PageId| #[trigger] mid.pages().contains_key(x) implies
                pages2.contains_key(x) && same_page(mid.pages()[x], pages2[x]) && (!mid.own(x)
                ==> mid.pages()[x] == pages2[x]) by {
                if mid.own(x) {
                    let i = mid.state.index@[x] as int;
                    assert(mid.state.dirty@[i].0 == x);
                    assert(sealed_pages[i].0 == x);
                    lemma_same_page_sealed(mid.state.dirty@[i].1@, txid);
                } else {
                    assert(pages0.contains_key(x));
                    assert(!listed_page(sealed_pages, x));
                }
            }
            assert forall|x: PageId| #[trigger] before.own(x) implies written_in(pages2, x, txid) by {
                assert(mid.own(x));
                let i = mid.state.index@[x] as int;
                assert(mid.state.dirty@[i].0 == x);
                assert(sealed_pages[i].0 == x);
                law_sealed_page_checks_out(mid.state.dirty@[i].1@, txid);
            }
            let prev = (before.meta().txid % 2) as PageId;
            lemma_slot_page(bytes0, ps, prev);
            lemma_slot_page(bytes2, ps, prev);
            lemma_slot_page(bytes2, ps, slot);
            assert(!listed_page(mid.state.dirty@, prev)) by {
                assert(!mid.own(prev));
            }
            if bytes0.len() >= 2 * ps {
                assert(page_bytes(bytes1, ps, prev) == page_bytes(bytes0, ps, prev));
                assert(page_bytes(bytes2, ps, prev) == page_bytes(bytes1, ps, prev));
            }
            assert(before.under().left() =~= left_by(s0));
            before.lemma_committed(&mid, b.pager, now, w);
        }
        Ok(txid)
    }
}

fn inside(root: PageId, page_count: u64) -> (r: bool)
    ensures
        r == root_in(root, page_count),
{
    root == NIL_PAGE || (2 <= root && root < page_count)
}

} // verus!
