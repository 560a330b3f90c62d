//! What a crash leaves of a commit.
//!
//! A commit writes its pages, syncs, writes the meta into the slot the
//! previous commit is not in, and syncs again. Wherever it stops, and
//! whatever mix of old and new bytes of the writes since the last sync
//! reached the medium, what is left opens as the previous commit or as the
//! new one, with its pages whole.

use vstd::prelude::*;

use crate::meta::{
    anchors, law_meta_decode_inverts_encode, lemma_newest_of_two_slots, meta_of, newest, only_size,
    slot_off, slot_page, Meta,
};
use crate::page::PageId;
use crate::pager::{
    commit_ops, page_bytes, page_inside, page_off, page_ops, pages_in, writes_page, ReadPages,
    WriteBatch,
};
use crate::storage::{applied, survives, survivors, torn, torn_of, written, Held, Op, Storage};
use crate::tree::same_page;

verus! {

/// Whether what is left opens as a meta, and nothing else passes for one:
/// no other page size finds a meta, and what stands in the slot of the new
/// meta is no meta, what was there before, or all of the new one. A mix of
/// the two that checks out as a meta of its own would be a collision of the
/// checksum.
pub open spec fn unforged(d: Held, before: Held, m: Meta) -> bool {
    let slot = (m.txid % 2) as nat;
    let found = slot_page(d, m.page_size, slot);
    &&& only_size(d, m.page_size)
    &&& meta_of(found) is None || found == slot_page(before, m.page_size, slot) || found == m.page()
}

/// Whether what is left opens as the commit a batch was built on, with
/// every page that commit uses.
pub open spec fn opens_as_before<'p, S: Storage>(b: WriteBatch<'p, S>, d: Held) -> bool {
    let m = b.meta();
    &&& newest(d, 16) == Some(m)
    &&& forall|x: PageId| #[trigger]
        b.under().pages().contains_key(x) && !b.spare(x) && !b.own(x) ==> pages_in(
            d,
            m.page_size,
            m.page_count,
        ).contains_key(x) && pages_in(d, m.page_size, m.page_count)[x] == b.under().pages()[x]
}

/// Whether what is left opens as what a batch committed, with every page it
/// had, its own up to checksum and lsn.
pub open spec fn opens_as_after<'p, S: Storage>(b: WriteBatch<'p, S>, m: Meta, d: Held) -> bool {
    &&& newest(d, 16) == Some(m)
    &&& forall|x: PageId| #[trigger]
        b.pages().contains_key(x) && !b.spare(x) ==> pages_in(
            d,
            m.page_size,
            m.page_count,
        ).contains_key(x) && same_page(b.pages()[x], pages_in(d, m.page_size, m.page_count)[x])
}

/// Whether `d` has the pages of `a` but for the ones in a list, and both
/// meta slots as they were.
spec fn beside(a: Held, d: Held, ps: u32, w: Seq<(PageId, Seq<u8>)>) -> bool {
    &&& d.len() >= a.len()
    &&& forall|x: PageId|
        !writes(w, x) && page_inside(a, ps, x) ==> page_inside(d, ps, x) && #[trigger] page_bytes(
            d,
            ps,
            x,
        ) == page_bytes(a, ps, x)
}

spec fn writes(w: Seq<(PageId, Seq<u8>)>, x: PageId) -> bool {
    exists|i: int| 0 <= i < w.len() && (#[trigger] w[i]).0 == x
}

proof fn lemma_apart(a: PageId, b: PageId, ps: u32)
    requires
        a != b,
    ensures
        page_off(a, ps) + ps <= page_off(b, ps) || page_off(b, ps) + ps <= page_off(a, ps),
        0 <= page_off(a, ps),
        0 <= page_off(b, ps),
{
    assert(0 <= a * ps) by (nonlinear_arith);
    assert(0 <= b * ps) by (nonlinear_arith);
    if a < b {
        assert(a * ps + ps <= b * ps) by (nonlinear_arith)
            requires
                a < b,
        ;
    } else {
        assert(b * ps + ps <= a * ps) by (nonlinear_arith)
            requires
                b < a,
        ;
    }
}

/// A write on one page leaves the others alone, torn or not.
proof fn lemma_torn_beside(a: Held, d: Held, ps: u32, id: PageId, t: Held)
    requires
        torn(a, d, page_off(id, ps), t),
        t.len() == ps,
    ensures
        forall|x: PageId|
            x != id && page_inside(a, ps, x) ==> page_inside(d, ps, x) && #[trigger] page_bytes(
                d,
                ps,
                x,
            ) == page_bytes(a, ps, x),
{
    assert forall|x: PageId| x != id && page_inside(a, ps, x) implies page_inside(d, ps, x)
        && #[trigger] page_bytes(d, ps, x) == page_bytes(a, ps, x) by {
        lemma_apart(x, id, ps);
        assert(page_bytes(d, ps, x) =~= page_bytes(a, ps, x));
    }
}

proof fn lemma_written_torn(a: Held, off: int, t: Held)
    requires
        0 <= off,
    ensures
        torn(a, written(a, off, t), off, t),
        off + t.len() <= written(a, off, t).len(),
        written(a, off, t).subrange(off, off + t.len()) == t,
{
    assert(written(a, off, t).subrange(off, off + t.len()) =~= t);
}

/// Page writes leave everything beside them alone.
proof fn lemma_survivors_beside(
    was: spec_fn(Held) -> bool,
    a: Held,
    b: Held,
    ps: u32,
    w: Seq<(PageId, Seq<u8>)>,
    k: int,
    d: Held,
)
    requires
        forall|c: Held| #[trigger] was(c) ==> beside(a, c, ps, w),
        forall|i: int| 0 <= i < w.len() ==> (#[trigger] w[i]).1.len() == ps,
        0 <= k <= w.len(),
        survives(was, b, page_ops(w, ps).take(k), d),
    ensures
        beside(a, d, ps, w),
    decreases k,
{
    let ops = page_ops(w, ps).take(k);
    if k > 0 {
        assert(ops.drop_last() =~= page_ops(w, ps).take(k - 1));
        assert(ops.last() == Op::Write(page_off(w[k - 1].0, ps), w[k - 1].1));
        let s = survivors(was, b, ops.drop_last());
        assert(torn_of(s, page_off(w[k - 1].0, ps), w[k - 1].1)(d));
        let c = choose|c: Held| #[trigger]
            s(c) && torn(c, d, page_off(w[k - 1].0, ps), w[k - 1].1);
        lemma_survivors_beside(was, a, b, ps, w, k - 1, c);
        lemma_torn_beside(c, d, ps, w[k - 1].0, w[k - 1].1);
        assert(writes(w, w[k - 1].0));
    }
}

/// All page writes done, every page is in place.
proof fn lemma_applied_pages(b: Held, ps: u32, w: Seq<(PageId, Seq<u8>)>, k: int)
    requires
        forall|i: int| 0 <= i < w.len() ==> (#[trigger] w[i]).1.len() == ps,
        forall|i: int, j: int| 0 <= i < j < w.len() ==> (#[trigger] w[i]).0 != (#[trigger] w[j]).0,
        0 <= k <= w.len(),
    ensures
        beside(b, applied(b, page_ops(w, ps).take(k)), ps, w),
        forall|i: int|
            0 <= i < k ==> page_inside(applied(b, page_ops(w, ps).take(k)), ps, (#[trigger] w[i]).0)
                && page_bytes(applied(b, page_ops(w, ps).take(k)), ps, w[i].0) == w[i].1,
    decreases k,
{
    let ops = page_ops(w, ps).take(k);
    let d = applied(b, ops);
    if k > 0 {
        lemma_applied_pages(b, ps, w, k - 1);
        assert(ops.drop_last() =~= page_ops(w, ps).take(k - 1));
        let c = applied(b, ops.drop_last());
        let id = w[k - 1].0;
        let off = page_off(id, ps);
        assert(0 <= id * ps) by (nonlinear_arith);
        assert(ops.last() == Op::Write(off, w[k - 1].1));
        assert(d == written(c, off, w[k - 1].1));
        lemma_written_torn(c, off, w[k - 1].1);
        lemma_torn_beside(c, d, ps, id, w[k - 1].1);
        assert(writes(w, id));
        assert forall|i: int| 0 <= i < k implies page_inside(d, ps, (#[trigger] w[i]).0)
            && page_bytes(d, ps, w[i].0) == w[i].1 by {
            if i < k - 1 {
                assert(w[i].0 != w[k - 1].0);
            }
        }
    }
}

proof fn lemma_slots(b: Held, ps: u32, slot: nat)
    requires
        slot < 2,
        b.len() >= 2 * ps,
    ensures
        page_off(slot as PageId, ps) == slot_off(ps as int, slot),
        page_inside(b, ps, slot as PageId),
        slot_page(b, ps, slot) == page_bytes(b, ps, slot as PageId),
{
    assert(0 * ps == 0) by (nonlinear_arith);
    assert(1 * ps == ps) by (nonlinear_arith);
}

/// Whatever has both slots as they were opens as it did.
proof fn lemma_opens_as_before<'p, S: Storage>(
    b: WriteBatch<'p, S>,
    a: Held,
    d: Held,
    w: Seq<(PageId, Seq<u8>)>,
    m: Meta,
)
    requires
        b.wf(),
        b.free_ok(),
        b.writes_ok(w, m),
        anchors(a, b.meta()),
        beside(b.under().bytes(), a, b.size(), w),
        a.len() >= b.under().bytes().len(),
        d.len() >= a.len(),
        only_size(d, b.size()),
        slot_page(d, b.size(), (b.meta().txid % 2) as nat) == slot_page(
            a,
            b.size(),
            (b.meta().txid % 2) as nat,
        ),
        meta_of(slot_page(d, b.size(), (m.txid % 2) as nat)) is None || slot_page(
            d,
            b.size(),
            (m.txid % 2) as nat,
        ) == slot_page(a, b.size(), (m.txid % 2) as nat),
        forall|x: PageId|
            x >= 2 && !writes(w, x) && page_inside(a, b.size(), x) ==> page_inside(d, b.size(), x)
                && #[trigger] page_bytes(d, b.size(), x) == page_bytes(a, b.size(), x),
    ensures
        opens_as_before(b, d),
{
    let ps = b.size();
    let p = b.meta();
    b.lemma_facts();
    reveal(anchors);
    reveal(WriteBatch::writes_ok);
    assert(((p.txid + 1) % 2) as nat == (m.txid % 2) as nat);
    lemma_newest_of_two_slots(d, ps);
    assert forall|x: PageId| #[trigger]
        b.under().pages().contains_key(x) && !b.spare(x) && !b.own(x) implies pages_in(
        d,
        ps,
        p.page_count,
    ).contains_key(x) && pages_in(d, ps, p.page_count)[x] == b.under().pages()[x] by {
        b.under().lemma_pages_in();
        assert(!writes(w, x));
        assert(page_bytes(a, ps, x) == page_bytes(b.under().bytes(), ps, x));
        assert(page_bytes(d, ps, x) == page_bytes(a, ps, x));
    }
}

/// A medium with all pages in place and the new meta in its slot opens as
/// the new commit.
proof fn lemma_opens_as_after<'p, S: Storage>(
    b: WriteBatch<'p, S>,
    d: Held,
    w: Seq<(PageId, Seq<u8>)>,
    m: Meta,
)
    requires
        b.wf(),
        b.free_ok(),
        b.writes_ok(w, m),
        anchors(b.under().bytes(), b.meta()),
        d.len() >= b.under().bytes().len(),
        only_size(d, b.size()),
        slot_page(d, b.size(), (b.meta().txid % 2) as nat) == slot_page(
            b.under().bytes(),
            b.size(),
            (b.meta().txid % 2) as nat,
        ),
        slot_page(d, b.size(), (m.txid % 2) as nat) == m.page(),
        forall|i: int|
            0 <= i < w.len() ==> page_inside(d, b.size(), (#[trigger] w[i]).0) && page_bytes(
                d,
                b.size(),
                w[i].0,
            ) == w[i].1,
        forall|x: PageId|
            x >= 2 && !writes(w, x) && page_inside(b.under().bytes(), b.size(), x) ==> page_inside(
                d,
                b.size(),
                x,
            ) && #[trigger] page_bytes(d, b.size(), x) == page_bytes(b.under().bytes(), b.size(), x),
    ensures
        opens_as_after(b, m, d),
{
    let ps = b.size();
    let p = b.meta();
    b.lemma_facts();
    assert(((p.txid + 1) % 2) as nat == (m.txid % 2) as nat) by {
        reveal(WriteBatch::writes_ok);
    }
    assert(m.valid() && m.page_size == ps && m.txid == p.txid + 1) by {
        reveal(WriteBatch::writes_ok);
    }
    assert(newest(d, 16) == Some(m)) by {
        reveal(anchors);
        law_meta_decode_inverts_encode(m);
        lemma_newest_of_two_slots(d, ps);
    }
    assert forall|x: PageId| #[trigger] b.pages().contains_key(x) && !b.spare(x) implies pages_in(
        d,
        ps,
        m.page_count,
    ).contains_key(x) && same_page(b.pages()[x], pages_in(d, ps, m.page_count)[x]) by {
        reveal(WriteBatch::writes_ok);
        b.under().lemma_pages_in();
        if b.own(x) {
            assert(writes_page(w, x, b.pages()[x]));
            let i = choose|i: int|
                0 <= i < w.len() && (#[trigger] w[i]).0 == x && same_page(b.pages()[x], w[i].1);
            assert(page_bytes(d, ps, x) == w[i].1);
        } else {
            assert(!writes(w, x));
            assert(b.under().pages().contains_key(x));
            assert(page_bytes(d, ps, x) == page_bytes(b.under().bytes(), ps, x));
        }
    }
}

/// A crash loses no commit. Whatever was durable before a commit had the
/// previous commit whole; after any number of the commit's calls, whatever
/// a crash may leave opens as the previous commit or the new one, with its
/// pages whole. Before the meta is written it is the previous one, and
/// after the last sync it is the new one.
#[verifier::spinoff_prover]
#[verifier::rlimit(80)]
pub proof fn law_crash_keeps_a_commit<'p, S: Storage>(
    b: WriteBatch<'p, S>,
    w: Seq<(PageId, Seq<u8>)>,
    m: Meta,
    k: int,
    d: Held,
)
    requires
        b.wf(),
        b.free_ok(),
        b.writes_ok(w, m),
        b.under().settled(),
        b.under().anchored(),
        0 <= k <= commit_ops(w, m).len(),
        survives(b.under().left(), b.under().bytes(), commit_ops(w, m).take(k), d),
        unforged(d, b.under().bytes(), m),
    ensures
        opens_as_before(b, d) || opens_as_after(b, m, d),
        k <= w.len() + 1 ==> opens_as_before(b, d),
        k == commit_ops(w, m).len() ==> opens_as_after(b, m, d),
{
    let ps = b.size();
    let p = b.meta();
    let was = b.under().left();
    let a = b.under().bytes();
    let all = commit_ops(w, m);
    let n = w.len() as int;
    let old_slot = (p.txid % 2) as nat;
    let new_slot = (m.txid % 2) as nat;
    b.lemma_facts();
    assert(m.page_size == ps && m.txid == p.txid + 1 && m.valid() && (forall|i: int|
        0 <= i < w.len() ==> 2 <= (#[trigger] w[i]).0 && w[i].1.len() == ps) && (forall|
        i: int,
        j: int,
    | 0 <= i < j < w.len() ==> (#[trigger] w[i]).0 != (#[trigger] w[j]).0)) by {
        reveal(WriteBatch::writes_ok);
    }
    assert(a.len() >= 2 * ps) by {
        reveal(anchors);
    }
    assert(!writes(w, 0) && !writes(w, 1));
    assert(all.take(n) =~= page_ops(w, ps).take(n));
    assert(page_ops(w, ps).take(n) =~= page_ops(w, ps));
    let c = applied(a, page_ops(w, ps));
    lemma_applied_pages(a, ps, w, n);
    lemma_slots(a, ps, old_slot);
    lemma_slots(a, ps, new_slot);
    lemma_slots(c, ps, old_slot);
    lemma_slots(c, ps, new_slot);
    if k <= n {
        assert(all.take(k) =~= page_ops(w, ps).take(k));
        lemma_survivors_beside(was, a, a, ps, w, k, d);
        lemma_slots(d, ps, old_slot);
        lemma_slots(d, ps, new_slot);
        lemma_opens_as_before(b, a, d, w, m);
    } else {
        assert(all.take(n + 1) =~= page_ops(w, ps).push(Op::Sync));
        assert(page_ops(w, ps).push(Op::Sync).drop_last() =~= page_ops(w, ps));
        let synced = |x: Held| x == c;
        assert(survivors(was, a, all.take(n + 1)) =~= synced);
        if k == n + 1 {
            assert(d == c);
            lemma_opens_as_before(b, a, d, w, m);
        } else {
            let off = slot_off(ps as int, new_slot);
            let two = all.take(n + 2);
            assert(two.drop_last() =~= all.take(n + 1));
            assert(two.last() == Op::Write(off, m.page()));
            assert(m.page().len() == ps) by {
                law_meta_decode_inverts_encode(m);
            }
            assert(applied(a, all.take(n + 1)) == c);
            let e = written(c, off, m.page());
            assert(applied(a, two) == e);
            lemma_written_torn(c, off, m.page());
            if k == n + 2 {
                assert(torn_of(survivors(was, a, all.take(n + 1)), off, m.page())(d));
                let x = choose|x: Held| #[trigger]
                    survivors(was, a, all.take(n + 1))(x) && torn(x, d, off, m.page());
                assert(synced(x));
                assert(torn(c, d, off, m.page()));
            } else {
                let three = all.take(n + 3);
                assert(three.drop_last() =~= two);
                assert(three.last() == Op::Sync);
                assert(d == e);
            }
            lemma_torn_beside(c, d, ps, new_slot as PageId, m.page());
            lemma_slots(d, ps, old_slot);
            lemma_slots(d, ps, new_slot);
            assert forall|x: PageId|
                x >= 2 && !writes(w, x) && page_inside(a, ps, x) implies page_inside(d, ps, x)
                && #[trigger] page_bytes(d, ps, x) == page_bytes(a, ps, x) by {
                assert(page_bytes(c, ps, x) == page_bytes(a, ps, x));
            }
            if slot_page(d, ps, new_slot) == m.page() {
                assert forall|i: int| 0 <= i < w.len() implies page_inside(
                    d,
                    ps,
                    (#[trigger] w[i]).0,
                ) && page_bytes(d, ps, w[i].0) == w[i].1 by {
                    assert(page_inside(c, ps, w[i].0));
                }
                lemma_opens_as_after(b, d, w, m);
            } else {
                lemma_opens_as_before(b, a, d, w, m);
            }
        }
    }
}

} // verus!
