//! What a sound database is: branches, their histories, the trees those
//! point at, and a free list that covers none of it.

use vstd::prelude::*;
use vstd::string::*;
use vstd::utf8::{decode_utf8, encode_utf8, valid_utf8};

use crate::btree::{editable, edited, extends, fresh};
use crate::commit::{chain_of, history, lemma_chain_frame, lemma_chain_unique, CommitInfo, Rec};
use crate::page::{PageId, NIL_PAGE};
use crate::pager::{Pager, ReadPages, WriteBatch};
use crate::refs::{branch_at, head_at, ref_of, BranchRef};
use crate::storage::Storage;
use crate::tree::{
    agree_on, contents, lemma_frame, lemma_tree_of, map_of, ofind, ohas, same_page, sound_root, tree_at,
    tree_of, Pages, Tree,
};

verus! {

/// A map from keys to values.
pub type Bytes = Map<Seq<u8>, Seq<u8>>;

/// Whether a commit uses page `x`: its record, or one of its trees.
pub open spec fn uses(pages: Pages, ps: u32, c: Rec, x: PageId) -> bool {
    ||| x == c.0
    ||| ohas(tree_of(pages, ps, c.1.data_root), x)
    ||| ohas(tree_of(pages, ps, c.1.catalog_root), x)
}

/// A commit whose trees are whole and whose pages nothing may reuse.
pub open spec fn record_ok<S: Storage>(p: Pager<S>, c: Rec) -> bool {
    &&& sound_root(p.pages(), p.size(), c.1.data_root)
    &&& sound_root(p.pages(), p.size(), c.1.catalog_root)
    &&& c.1.commit_id <= p.meta().txid
    &&& forall|x: PageId| #[trigger] uses(p.pages(), p.size(), c, x) ==> !p.free(x)
}

/// A branch every commit of which can be read.
pub open spec fn readable<S: Storage>(p: Pager<S>, r: BranchRef) -> bool {
    let h = history(p.pages(), r);
    &&& chain_of(p.pages(), r, h)
    &&& r.floor_id <= p.meta().txid
    &&& forall|i: int| 0 <= i < h.len() ==> record_ok(p, #[trigger] h[i])
}

/// The records of a branch, newest first.
pub open spec fn records<S: Storage>(p: Pager<S>, r: BranchRef) -> Seq<Rec> {
    history(p.pages(), r)
}

/// What a commit's data tree holds.
pub open spec fn data_of<S: Storage>(p: Pager<S>, c: CommitInfo) -> Bytes {
    contents(p.pages(), p.size(), c.data_root)
}

/// What a commit's catalog tree holds.
pub open spec fn catalog_of<S: Storage>(p: Pager<S>, c: CommitInfo) -> Bytes {
    contents(p.pages(), p.size(), c.catalog_root)
}

/// The single implicit branch of a database that never branched: the
/// newest commit, full history retained.
pub open spec fn implicit<S: Storage>(p: Pager<S>) -> BranchRef {
    BranchRef { head_id: p.meta().txid, head_page: p.meta().commit_page, floor_id: 0 }
}

/// What the refs tree holds.
pub open spec fn refs_map<S: Storage>(p: Pager<S>) -> Bytes {
    contents(p.pages(), p.size(), p.meta().refs_root)
}

/// The branch of a name in a map of refs.
pub open spec fn ref_in(m: Bytes, name: Seq<char>) -> Option<BranchRef> {
    if m.contains_key(branch_at(name)) {
        ref_of(m[branch_at(name)])
    } else {
        None
    }
}

/// The branch of a name.
pub open spec fn branch_of<S: Storage>(p: Pager<S>, name: Seq<char>) -> Option<BranchRef> {
    if p.meta().refs_root == NIL_PAGE {
        if name == "main"@ {
            Some(implicit(p))
        } else {
            None
        }
    } else {
        ref_in(refs_map(p), name)
    }
}

pub open spec fn is_branch_key(k: Seq<u8>) -> bool {
    exists|name: Seq<char>| k == #[trigger] branch_at(name)
}

/// A map of refs holds branch heads and the name of the current branch,
/// which is one of them, and nothing else.
pub open spec fn refs_sane(m: Bytes) -> bool {
    &&& forall|k: Seq<u8>| #[trigger]
        m.contains_key(k) ==> k == head_at() || (is_branch_key(k) && ref_of(m[k]) is Some)
    &&& m.contains_key(head_at())
    &&& valid_utf8(m[head_at()])
    &&& ref_in(m, decode_utf8(m[head_at()])) is Some
}

pub open spec fn refs_ok<S: Storage>(p: Pager<S>) -> bool {
    p.meta().refs_root == NIL_PAGE || {
        &&& sound_root(p.pages(), p.size(), p.meta().refs_root)
        &&& forall|x: PageId| #[trigger]
            ohas(tree_of(p.pages(), p.size(), p.meta().refs_root), x) ==> !p.free(x)
        &&& refs_sane(refs_map(p))
    }
}

/// A branch whose head is the newest commit of the file has the roots that
/// the meta names.
pub open spec fn head_roots<S: Storage>(p: Pager<S>, r: BranchRef) -> bool {
    &&& r.head_id == p.meta().txid && r.head_id != 0 ==> {
        &&& records(p, r)[0].1.data_root == p.meta().data_root
        &&& records(p, r)[0].1.catalog_root == p.meta().catalog_root
    }
    &&& p.meta().txid == 0 ==> p.meta().data_root == NIL_PAGE && p.meta().catalog_root == NIL_PAGE
}

pub open spec fn branch_ok<S: Storage>(p: Pager<S>, r: BranchRef) -> bool {
    readable(p, r) && head_roots(p, r)
}

/// A sound database.
pub open spec fn store_ok<S: Storage>(p: Pager<S>) -> bool {
    &&& p.wf()
    &&& p.free_ok()
    &&& refs_ok(p)
    &&& forall|name: Seq<char>|
        (#[trigger] branch_of(p, name)) matches Some(r) ==> branch_ok(p, r)
}

/// What a name's branch shows to readers: the commits, and what each holds.
pub open spec fn same_past<S: Storage>(a: Pager<S>, b: Pager<S>, r: BranchRef) -> bool {
    &&& readable(b, r)
    &&& records(b, r) == records(a, r)
    &&& forall|i: int|
        0 <= i < records(a, r).len() ==> same_record(a, b, #[trigger] records(a, r)[i])
}

pub open spec fn same_record<S: Storage>(a: Pager<S>, b: Pager<S>, c: Rec) -> bool {
    &&& data_of(b, c.1) == data_of(a, c.1)
    &&& catalog_of(b, c.1) == catalog_of(a, c.1)
}

/// No branch that could be read reads differently.
pub open spec fn past_kept<S: Storage>(a: Pager<S>, b: Pager<S>) -> bool {
    forall|r: BranchRef| #[trigger] readable(a, r) ==> same_past(a, b, r)
}

/// What was kept through one change and then another was kept through both:
/// a commit that could be read still reads the same after any later history
/// that keeps the past.
pub proof fn law_past_kept_adds_up<S: Storage>(a: Pager<S>, b: Pager<S>, c: Pager<S>)
    requires
        past_kept(a, b),
        past_kept(b, c),
    ensures
        past_kept(a, c),
{
    assert forall|r: BranchRef| #[trigger] readable(a, r) implies same_past(a, c, r) by {
        assert(same_past(a, b, r));
        assert(readable(b, r));
        assert(same_past(b, c, r));
        assert forall|i: int| 0 <= i < records(a, r).len() implies same_record(
            a,
            c,
            #[trigger] records(a, r)[i],
        ) by {
            assert(same_record(a, b, records(a, r)[i]));
            assert(same_record(b, c, records(b, r)[i]));
        }
    }
}

// ---------------------------------------------------------------------
// pages that stay
// ---------------------------------------------------------------------

/// A page that reads the same, and is in no danger of reuse.
pub open spec fn kept<S: Storage>(a: Pager<S>, b: Pager<S>, x: PageId) -> bool {
    &&& b.pages().contains_key(x)
    &&& same_page(a.pages()[x], b.pages()[x])
    &&& !b.free(x)
}

/// A tree all of whose pages read the same is the same tree.
pub proof fn lemma_tree_kept(a: Pages, b: Pages, ps: u32, root: PageId)
    requires
        sound_root(a, ps, root),
        ps >= 64,
        forall|x: PageId| #[trigger]
            ohas(tree_of(a, ps, root), x) && a.contains_key(x) ==> b.contains_key(x) && same_page(a[x], b[x]),
    ensures
        sound_root(b, ps, root),
        tree_of(b, ps, root) == tree_of(a, ps, root),
        contents(b, ps, root) == contents(a, ps, root),
{
    if root != NIL_PAGE {
        let t = tree_of(a, ps, root)->0;
        assert(tree_at(a, ps, root, t));
        assert(agree_on(t, a, b)) by {
            assert forall|x: PageId| #[trigger] t.has(x) && a.contains_key(x) implies b.contains_key(x)
                && same_page(a[x], b[x]) by {
                assert(ohas(tree_of(a, ps, root), x));
            }
        }
        lemma_frame(t, a, b, ps);
        assert(tree_at(b, ps, root, t));
        lemma_tree_of(b, ps, root, t);
    }
}

/// Every page a sound tree uses can be read.
pub proof fn lemma_tree_pages(a: Pages, ps: u32, root: PageId, x: PageId)
    requires
        sound_root(a, ps, root),
        ohas(tree_of(a, ps, root), x),
    ensures
        a.contains_key(x),
{
    let t = tree_of(a, ps, root)->0;
    assert(tree_at(a, ps, root, t));
    crate::tree::lemma_has_page(t, a, ps, x);
}

/// A branch all of whose pages are kept reads the same.
#[verifier::rlimit(40)]
pub proof fn lemma_readable_kept<S: Storage>(a: Pager<S>, b: Pager<S>, r: BranchRef)
    requires
        a.wf(),
        b.wf(),
        a.size() == b.size(),
        a.meta().txid <= b.meta().txid,
        readable(a, r),
        forall|i: int, x: PageId|
            0 <= i < records(a, r).len() && #[trigger] uses(a.pages(), a.size(), records(a, r)[i], x)
                ==> kept(a, b, x),
    ensures
        same_past(a, b, r),
{
    let h = records(a, r);
    let ps = a.size();
    a.lemma_facts();
    assert forall|i: int| 0 <= i < h.len() implies a.pages()[(#[trigger] h[i]).0].len() >= 64
        && b.pages().contains_key(h[i].0) && same_page(a.pages()[h[i].0], b.pages()[h[i].0]) by {
        assert(uses(a.pages(), ps, h[i], h[i].0));
        assert(kept(a, b, h[i].0));
        assert(a.pages().contains_key(h[i].0));
    }
    lemma_chain_frame(a.pages(), b.pages(), r, h);
    lemma_chain_unique(b.pages(), r, h);
    assert forall|i: int| 0 <= i < h.len() implies record_ok(b, #[trigger] h[i]) && same_record(a, b, h[i]) by {
        let c = h[i];
        assert(record_ok(a, c));
        assert forall|x: PageId| #[trigger] ohas(tree_of(a.pages(), ps, c.1.data_root), x)
            && a.pages().contains_key(x) implies b.pages().contains_key(x) && same_page(
            a.pages()[x],
            b.pages()[x],
        ) by {
            assert(uses(a.pages(), ps, h[i], x));
        }
        lemma_tree_kept(a.pages(), b.pages(), ps, c.1.data_root);
        assert forall|x: PageId| #[trigger] ohas(tree_of(a.pages(), ps, c.1.catalog_root), x)
            && a.pages().contains_key(x) implies b.pages().contains_key(x) && same_page(
            a.pages()[x],
            b.pages()[x],
        ) by {
            assert(uses(a.pages(), ps, h[i], x));
        }
        lemma_tree_kept(a.pages(), b.pages(), ps, c.1.catalog_root);
        assert forall|x: PageId| #[trigger] uses(b.pages(), b.size(), c, x) implies !b.free(x) by {
            assert(uses(a.pages(), ps, h[i], x));
            assert(kept(a, b, x));
        }
    }
}

/// Every page a readable commit uses can be read.
pub proof fn lemma_uses_pages<S: Storage>(p: Pager<S>, r: BranchRef, i: int, x: PageId)
    requires
        readable(p, r),
        0 <= i < records(p, r).len(),
        uses(p.pages(), p.size(), records(p, r)[i], x),
    ensures
        p.pages().contains_key(x),
        !p.free(x),
{
    let c = records(p, r)[i];
    assert(record_ok(p, c));
    assert(p.pages().contains_key(c.0));
    if ohas(tree_of(p.pages(), p.size(), c.1.data_root), x) {
        lemma_tree_pages(p.pages(), p.size(), c.1.data_root, x);
    }
    if ohas(tree_of(p.pages(), p.size(), c.1.catalog_root), x) {
        lemma_tree_pages(p.pages(), p.size(), c.1.catalog_root, x);
    }
}

/// All pages of the file but the free ones are kept.
pub open spec fn all_kept<S: Storage>(a: Pager<S>, b: Pager<S>) -> bool {
    forall|x: PageId| #[trigger] a.pages().contains_key(x) && !a.free(x) ==> kept(a, b, x)
}

pub proof fn lemma_past_kept<S: Storage>(a: Pager<S>, b: Pager<S>)
    requires
        a.wf(),
        b.wf(),
        a.size() == b.size(),
        a.meta().txid <= b.meta().txid,
        all_kept(a, b),
    ensures
        past_kept(a, b),
{
    assert forall|r: BranchRef| #[trigger] readable(a, r) implies same_past(a, b, r) by {
        assert forall|i: int, x: PageId|
            0 <= i < records(a, r).len() && #[trigger] uses(
                a.pages(),
                a.size(),
                records(a, r)[i],
                x,
            ) implies kept(a, b, x) by {
            lemma_uses_pages(a, r, i, x);
        }
        lemma_readable_kept(a, b, r);
    }
}

// ---------------------------------------------------------------------
// batches
// ---------------------------------------------------------------------

/// A batch that has left everything in use alone.
pub open spec fn steady<'p, S: Storage>(p: Pager<S>, b: WriteBatch<'p, S>) -> bool {
    &&& b.wf()
    &&& b.under() == p
    &&& b.free_ok()
    &&& forall|x: PageId| #[trigger]
        p.pages().contains_key(x) && !p.free(x) ==> !b.own(x) && !b.spare(x)
}

/// Two files that show the same branches with the same pasts.
pub open spec fn same_store<S: Storage>(p: Pager<S>, q: Pager<S>) -> bool {
    &&& store_ok(q)
    &&& q.meta() == p.meta()
    &&& q.size() == p.size()
    &&& forall|name: Seq<char>| #[trigger] branch_of(q, name) == branch_of(p, name)
    &&& past_kept(p, q)
    &&& p.meta().refs_root != NIL_PAGE ==> refs_map(q) == refs_map(p)
}

/// A file is unchanged where its meta, its free list and its pages in use
/// are.
pub proof fn lemma_same_store<S: Storage>(p: Pager<S>, q: Pager<S>)
    requires
        store_ok(p),
        q.wf(),
        q.meta() == p.meta(),
        q.free_ok(),
        forall|x: PageId| #[trigger] q.free(x) == p.free(x),
        forall|x: PageId|
            #[trigger] p.pages().contains_key(x) && !p.free(x) ==> q.pages().contains_key(x)
                && q.pages()[x] == p.pages()[x],
    ensures
        same_store(p, q),
{
    p.lemma_facts();
    q.lemma_facts();
    assert(all_kept(p, q));
    lemma_past_kept(p, q);
    let root = p.meta().refs_root;
    if root != NIL_PAGE {
        assert forall|x: PageId| #[trigger] ohas(tree_of(p.pages(), p.size(), root), x) implies
            q.pages().contains_key(x) && same_page(p.pages()[x], q.pages()[x]) by {
            lemma_tree_pages(p.pages(), p.size(), root, x);
        }
        lemma_tree_kept(p.pages(), q.pages(), p.size(), root);
    }
    assert forall|name: Seq<char>| (#[trigger] branch_of(q, name)) matches Some(r) implies branch_ok(
        q,
        branch_of(q, name)->0,
    ) by {
        if let Some(r) = branch_of(q, name) {
            assert(branch_of(p, name) == Some(r));
            assert(branch_ok(p, r));
            assert(same_past(p, q, r));
        }
    }
}

/// A batch that failed to commit leaves the file as it was.
pub proof fn lemma_left_alone_store<'p, S: Storage>(p: Pager<S>, b: WriteBatch<'p, S>, q: Pager<S>)
    requires
        store_ok(p),
        steady(p, b),
        b.meta() == p.meta(),
        q.wf(),
        b.left_alone(&q),
    ensures
        same_store(p, q),
{
    assert forall|x: PageId| #[trigger] p.pages().contains_key(x) && !p.free(x) implies
        q.pages().contains_key(x) && q.pages()[x] == p.pages()[x] by {
        assert(!b.own(x) && !b.spare(x));
    }
    lemma_same_store(p, q);
}

pub proof fn lemma_steady_extends<'p, S: Storage>(
    p: Pager<S>,
    a: WriteBatch<'p, S>,
    b: WriteBatch<'p, S>,
)
    requires
        steady(p, a),
        extends(a, b),
    ensures
        steady(p, b),
{
    assert forall|x: PageId| #[trigger] p.pages().contains_key(x) && !p.free(x) implies !b.own(x)
        && !b.spare(x) by {
        if b.own(x) {
            assert(fresh(a, b, x));
        }
        if b.spare(x) {
            assert(a.spare(x));
        }
    }
}

/// In a steady batch the pages in use read as before.
pub proof fn lemma_steady_pages<'p, S: Storage>(p: Pager<S>, b: WriteBatch<'p, S>, x: PageId)
    requires
        steady(p, b),
        p.pages().contains_key(x),
        !p.free(x),
    ensures
        b.pages().contains_key(x),
        b.pages()[x] == p.pages()[x],
{
    b.lemma_facts();
    assert(b.under().pages().contains_key(x));
    assert(!b.own(x));
    assert(b.pages().contains_key(x) == b.under().pages().contains_key(x));
}

/// A tree in use is there in a steady batch, ready to be edited.
pub proof fn lemma_steady_tree<'p, S: Storage>(p: Pager<S>, b: WriteBatch<'p, S>, root: PageId)
    requires
        steady(p, b),
        p.wf(),
        sound_root(p.pages(), p.size(), root),
        forall|x: PageId| #[trigger] ohas(tree_of(p.pages(), p.size(), root), x) ==> !p.free(x),
    ensures
        editable(b, root),
        tree_of(b.pages(), b.size(), root) == tree_of(p.pages(), p.size(), root),
        contents(b.pages(), b.size(), root) == contents(p.pages(), p.size(), root),
        forall|x: PageId| #[trigger]
            ohas(tree_of(b.pages(), b.size(), root), x) ==> p.pages().contains_key(x) && !p.free(x),
{
    b.lemma_facts();
    p.lemma_facts();
    let ps = p.size();
    assert forall|x: PageId| #[trigger] ohas(tree_of(p.pages(), ps, root), x) implies
        p.pages().contains_key(x) && b.pages().contains_key(x) && b.pages()[x] == p.pages()[x] by {
        lemma_tree_pages(p.pages(), ps, root, x);
        lemma_steady_pages(p, b, x);
    }
    lemma_tree_kept(p.pages(), b.pages(), ps, root);
}

/// A batch that commits without choosing a free list keeps everything that
/// is in use.
#[verifier::rlimit(60)]
pub proof fn lemma_steady_commit<'p, S: Storage>(
    p: Pager<S>,
    b: WriteBatch<'p, S>,
    q: Pager<S>,
    now: u64,
)
    requires
        p.wf(),
        q.wf(),
        steady(p, b),
        b.chosen_free() is None,
        b.meta().txid < u64::MAX,
        b.committed_as(&q, now),
    ensures
        all_kept(p, q),
        q.free_ok(),
        q.size() == p.size(),
        q.meta().txid == p.meta().txid + 1,
{
    p.lemma_facts();
    b.lemma_facts();
    q.lemma_facts();
    assert forall|x: PageId| #[trigger] p.pages().contains_key(x) && !p.free(x) implies kept(p, q, x) by {
        lemma_steady_pages(p, b, x);
        assert(!b.spare(x));
        assert(q.pages().contains_key(x) && same_page(b.pages()[x], q.pages()[x]));
        if q.free(x) {
            assert(b.will_free(x));
        }
    }
}

/// A tree ready in a batch is there once the batch has committed.
pub proof fn lemma_tree_commit<'p, S: Storage>(
    b: WriteBatch<'p, S>,
    q: Pager<S>,
    now: u64,
    root: PageId,
)
    requires
        b.wf(),
        q.wf(),
        editable(b, root),
        b.chosen_ok(),
        b.committed_as(&q, now),
        forall|x: PageId| #[trigger] ohas(tree_of(b.pages(), b.size(), root), x) ==> !b.will_free(x),
    ensures
        sound_root(q.pages(), q.size(), root),
        tree_of(q.pages(), q.size(), root) == tree_of(b.pages(), b.size(), root),
        contents(q.pages(), q.size(), root) == contents(b.pages(), b.size(), root),
        forall|x: PageId| #[trigger] ohas(tree_of(q.pages(), q.size(), root), x) ==> !q.free(x),
{
    b.lemma_facts();
    q.lemma_facts();
    let ps = b.size();
    assert forall|x: PageId| #[trigger] ohas(tree_of(b.pages(), ps, root), x) && b.pages().contains_key(
        x,
    ) implies q.pages().contains_key(x) && same_page(b.pages()[x], q.pages()[x]) by {
        assert(!b.spare(x));
    }
    lemma_tree_kept(b.pages(), q.pages(), ps, root);
}

// ---------------------------------------------------------------------
// the keys of the refs tree
// ---------------------------------------------------------------------

/// A map of refs with one branch set.
pub proof fn lemma_ref_set(m: Bytes, name: Seq<char>, r: BranchRef)
    ensures
        forall|n: Seq<char>| #[trigger]
            ref_in(m.insert(branch_at(name), r.stored()), n) == (if n == name {
                Some(r)
            } else {
                ref_in(m, n)
            }),
{
    crate::refs::law_ref_decode_inverts_encode(r);
    assert forall|n: Seq<char>| #[trigger]
        ref_in(m.insert(branch_at(name), r.stored()), n) == (if n == name {
            Some(r)
        } else {
            ref_in(m, n)
        }) by {
        crate::refs::law_branch_keys_are_distinct(n, name);
    }
}

/// A map of refs with one branch removed.
pub proof fn lemma_ref_removed(m: Bytes, name: Seq<char>)
    ensures
        forall|n: Seq<char>| #[trigger]
            ref_in(m.remove(branch_at(name)), n) == (if n == name {
                None
            } else {
                ref_in(m, n)
            }),
{
    assert forall|n: Seq<char>| #[trigger]
        ref_in(m.remove(branch_at(name)), n) == (if n == name {
            None
        } else {
            ref_in(m, n)
        }) by {
        crate::refs::law_branch_keys_are_distinct(n, name);
    }
}

/// A map of refs with the current branch set.
pub proof fn lemma_head_set(m: Bytes, v: Seq<u8>)
    ensures
        forall|n: Seq<char>| #[trigger] ref_in(m.insert(head_at(), v), n) == ref_in(m, n),
{
    assert forall|n: Seq<char>| #[trigger] ref_in(m.insert(head_at(), v), n) == ref_in(m, n) by {
        crate::refs::law_branch_keys_are_distinct(n, n);
    }
}

/// What the refs tree says, or would say if it had been written.
pub open spec fn refs_seen<S: Storage>(p: Pager<S>) -> Bytes {
    if p.meta().refs_root == NIL_PAGE {
        Map::empty().insert(branch_at("main"@), implicit(p).stored()).insert(
            head_at(),
            encode_utf8("main"@),
        )
    } else {
        refs_map(p)
    }
}

pub proof fn lemma_refs_seen<S: Storage>(p: Pager<S>)
    requires
        refs_ok(p),
    ensures
        refs_sane(refs_seen(p)),
        forall|name: Seq<char>| #[trigger] branch_of(p, name) == ref_in(refs_seen(p), name),
{
    if p.meta().refs_root == NIL_PAGE {
        let m: Bytes = Map::empty();
        let n = m.insert(branch_at("main"@), implicit(p).stored());
        lemma_ref_set(m, "main"@, implicit(p));
        lemma_head_set(n, encode_utf8("main"@));
        vstd::utf8::encode_utf8_valid_utf8("main"@);
        vstd::utf8::encode_utf8_decode_utf8("main"@);
        crate::refs::law_ref_decode_inverts_encode(implicit(p));
        crate::refs::law_branch_keys_are_distinct("main"@, "main"@);
        assert forall|name: Seq<char>| #[trigger] branch_of(p, name) == ref_in(refs_seen(p), name) by {
            assert(ref_in(refs_seen(p), name) == ref_in(n, name));
            assert(ref_in(m, name) is None);
        }
        assert(is_branch_key(branch_at("main"@)));
    }
}

/// Setting a branch keeps a map of refs sane.
pub proof fn lemma_sane_set(m: Bytes, name: Seq<char>, r: BranchRef)
    requires
        refs_sane(m),
    ensures
        refs_sane(m.insert(branch_at(name), r.stored())),
{
    let n = m.insert(branch_at(name), r.stored());
    lemma_ref_set(m, name, r);
    crate::refs::law_ref_decode_inverts_encode(r);
    crate::refs::law_branch_keys_are_distinct(name, name);
    assert(is_branch_key(branch_at(name)));
    assert(n[head_at()] == m[head_at()]);
    assert(ref_in(n, decode_utf8(m[head_at()])) is Some);
}

/// Naming an existing branch the current one keeps a map of refs sane.
pub proof fn lemma_sane_head(m: Bytes, name: Seq<char>)
    requires
        refs_sane(m),
        ref_in(m, name) is Some,
    ensures
        refs_sane(m.insert(head_at(), encode_utf8(name))),
{
    let n = m.insert(head_at(), encode_utf8(name));
    lemma_head_set(m, encode_utf8(name));
    vstd::utf8::encode_utf8_valid_utf8(name);
    vstd::utf8::encode_utf8_decode_utf8(name);
    assert(ref_in(n, name) == ref_in(m, name));
}

/// Dropping any branch but the current one keeps a map of refs sane.
pub proof fn lemma_sane_remove(m: Bytes, name: Seq<char>)
    requires
        refs_sane(m),
        decode_utf8(m[head_at()]) != name,
    ensures
        refs_sane(m.remove(branch_at(name))),
{
    let n = m.remove(branch_at(name));
    lemma_ref_removed(m, name);
    crate::refs::law_branch_keys_are_distinct(name, name);
    assert(ref_in(n, decode_utf8(m[head_at()])) == ref_in(m, decode_utf8(m[head_at()])));
}

// ---------------------------------------------------------------------
// two trees in one batch
// ---------------------------------------------------------------------

/// Two trees that share no page the batch owns.
pub open spec fn apart<'p, S: Storage>(b: WriteBatch<'p, S>, x: PageId, y: PageId) -> bool {
    forall|i: PageId| #[trigger]
        b.own(i) ==> !(ohas(tree_of(b.pages(), b.size(), x), i) && ohas(
            tree_of(b.pages(), b.size(), y),
            i,
        ))
}

/// Editing one tree leaves another alone.
pub proof fn lemma_other_tree<'p, S: Storage>(
    a: WriteBatch<'p, S>,
    b: WriteBatch<'p, S>,
    root: PageId,
    next: PageId,
    other: PageId,
)
    requires
        a.wf(),
        editable(a, root),
        editable(a, other),
        apart(a, root, other),
        extends(a, b),
        edited(a, b, root, next),
    ensures
        editable(b, next),
        editable(b, other),
        apart(b, next, other),
        tree_of(b.pages(), b.size(), other) == tree_of(a.pages(), a.size(), other),
        contents(b.pages(), b.size(), other) == contents(a.pages(), a.size(), other),
{
    a.lemma_facts();
    let ps = a.size();
    let o = tree_of(a.pages(), ps, root);
    let p = tree_of(b.pages(), ps, next);
    let q = tree_of(a.pages(), ps, other);
    assert forall|x: PageId| #[trigger] ohas(q, x) implies a.pages().contains_key(x)
        && b.pages().contains_key(x) && b.pages()[x] == a.pages()[x] by {
        lemma_tree_pages(a.pages(), ps, other, x);
        if fresh(a, b, x) {
            assert(a.spare(x));
        }
        if a.own(x) {
            assert(!ohas(o, x));
        }
    }
    lemma_tree_kept(a.pages(), b.pages(), ps, other);
    assert forall|x: PageId| #[trigger] ohas(p, x) implies !b.spare(x) by {
        if b.spare(x) {
            assert(a.spare(x));
            assert(ohas(o, x) || fresh(a, b, x));
        }
    }
    assert forall|x: PageId| #[trigger] ohas(q, x) implies !b.spare(x) by {
        if b.spare(x) {
            assert(a.spare(x));
        }
    }
    assert forall|i: PageId| #[trigger] b.own(i) implies !(ohas(p, i) && ohas(q, i)) by {
        if ohas(p, i) && ohas(q, i) {
            if fresh(a, b, i) {
                assert(a.spare(i));
            } else {
                assert(a.own(i));
                assert(ohas(o, i));
            }
        }
    }
}

/// A tree after an edit is ready for the next one.
pub proof fn lemma_edited<'p, S: Storage>(
    a: WriteBatch<'p, S>,
    b: WriteBatch<'p, S>,
    root: PageId,
    next: PageId,
)
    requires
        a.wf(),
        editable(a, root),
        extends(a, b),
        edited(a, b, root, next),
    ensures
        editable(b, next),
{
    let o = tree_of(a.pages(), a.size(), root);
    let p = tree_of(b.pages(), b.size(), next);
    assert forall|x: PageId| #[trigger] ohas(p, x) implies !b.spare(x) by {
        if b.spare(x) {
            assert(a.spare(x));
            assert(ohas(o, x) || fresh(a, b, x));
        }
    }
}

/// What an edit does to a tree, as a map.
pub proof fn lemma_set_map(
    a: Option<Tree>,
    b: Option<Tree>,
    key: Seq<u8>,
    value: Option<Seq<u8>>,
)
    requires
        crate::btree::finds_set(a, b, key, value),
    ensures
        map_of(b) == (match value {
            Some(v) => map_of(a).insert(key, v),
            None => map_of(a).remove(key),
        }),
{
    let want = match value {
        Some(v) => map_of(a).insert(key, v),
        None => map_of(a).remove(key),
    };
    assert forall|k: Seq<u8>| #[trigger] map_of(b).contains_key(k) == want.contains_key(k) by {
        assert(ofind(b, k) == ofind(b, k));
    }
    assert forall|k: Seq<u8>| map_of(b).contains_key(k) implies #[trigger] map_of(b)[k] == want[k] by {
        assert(ofind(b, k) == ofind(b, k));
    }
    assert(map_of(b) =~= want);
}

pub proof fn lemma_empty_tree(pages: Pages, ps: u32)
    ensures
        contents(pages, ps, NIL_PAGE) == Map::<Seq<u8>, Seq<u8>>::empty(),
{
    assert(contents(pages, ps, NIL_PAGE) =~= Map::empty());
}

// ---------------------------------------------------------------------
// commits
// ---------------------------------------------------------------------

/// Everything a commit that only changes refs has to have in place.
pub open spec fn refs_ready<'p, S: Storage>(
    p: Pager<S>,
    b: WriteBatch<'p, S>,
    root: PageId,
    m: Bytes,
) -> bool {
    &&& store_ok(p)
    &&& steady(p, b)
    &&& b.chosen_free() is None
    &&& b.data() == p.meta().data_root
    &&& b.catalog() == p.meta().catalog_root
    &&& b.commit_at_page() == p.meta().commit_page
    &&& root != NIL_PAGE
    &&& editable(b, root)
    &&& contents(b.pages(), b.size(), root) == m
    &&& refs_sane(m)
    &&& forall|name: Seq<char>|
        (#[trigger] ref_in(m, name)) matches Some(r) ==> readable(p, r)
}

/// What it leaves behind: the refs are `m`, and nothing reads differently.
pub open spec fn refs_done<S: Storage>(p: Pager<S>, q: Pager<S>, m: Bytes) -> bool {
    &&& store_ok(q)
    &&& q.meta().refs_root != NIL_PAGE
    &&& refs_map(q) == m
    &&& past_kept(p, q)
    &&& q.meta().txid == p.meta().txid + 1
    &&& q.reliable() == p.reliable()
}

#[verifier::rlimit(60)]
pub proof fn lemma_refs_done<'p, S: Storage>(
    p: Pager<S>,
    b: WriteBatch<'p, S>,
    q: Pager<S>,
    now: u64,
    m: Bytes,
)
    requires
        refs_ready(p, b, b.refs(), m),
        q.wf(),
        q.reliable() == p.reliable(),
        b.meta().txid < u64::MAX,
        b.committed_as(&q, now),
    ensures
        refs_done(p, q, m),
{
    let root = b.refs();
    b.lemma_facts();
    lemma_steady_commit(p, b, q, now);
    lemma_past_kept(p, q);
    assert forall|x: PageId| #[trigger] ohas(tree_of(b.pages(), b.size(), root), x) implies !b.will_free(x) by {
        assert(!b.spare(x));
    }
    lemma_tree_commit(b, q, now, root);
    assert(q.meta().refs_root == root);
    assert(refs_map(q) == m);
    assert forall|name: Seq<char>| (#[trigger] branch_of(q, name)) matches Some(r) implies branch_ok(
        q,
        branch_of(q, name)->0,
    ) by {
        if let Some(r) = branch_of(q, name) {
            assert(ref_in(m, name) == Some(r));
            assert(readable(p, r));
            assert(same_past(p, q, r));
            if r.head_id != 0 {
                assert(record_ok(p, records(p, r)[0]));
            }
        }
    }
}

} // verus!
