//! Which pages a tree uses.

use std::collections::HashSet;

use vstd::prelude::*;

use crate::btree::{lemma_some_tree, max_chain, overflow_capacity, some_tree};
use crate::bytes::get_u64;
use crate::error::{Error, Result};
use crate::node::{branch_view, leaf_view, Node, VRef, ValueRef};
use crate::page::{has_type, page_size_ok, PageId, PageType, NIL_PAGE, PAGE_HEADER_LEN};
use crate::pager::ReadPages;
use crate::scan::sane;
use crate::tree::{
    below, disjoint, entry_cells, kid_cells, kid_hi, kid_lo, lemma_below, lemma_branch_has,
    lemma_leaf_has, lemma_tree_unique, link, part_of, tree_at, Entry, Pages, Stored, Tree,
};

verus! {

broadcast use vstd::std_specs::hash::group_hash_axioms;

/// Whether a set of pages that has part of a chain has the rest of it.
pub open spec fn keeps_chains(s: Set<PageId>, pages: Pages, ps: u32) -> bool {
    forall|p: Seq<(PageId, Seq<u8>)>, i: int|
        #![trigger Stored::Chain(p).holds(pages, ps), s.contains(p[i].0)]
        Stored::Chain(p).ok(ps) && Stored::Chain(p).holds(pages, ps) && 0 <= i < p.len() && s.contains(
            p[i].0,
        ) ==> chain_in(s, p, i)
}

/// The pages of a chain from `i` on are in the set.
pub open spec fn chain_in(s: Set<PageId>, p: Seq<(PageId, Seq<u8>)>, i: int) -> bool {
    forall|j: int| i <= j < p.len() ==> s.contains((#[trigger] p[j]).0)
}

pub open spec fn tree_in(s: Set<PageId>, t: Tree) -> bool {
    forall|x: PageId| #[trigger] t.has(x) ==> s.contains(x)
}

/// A set of pages in which a marked node implies a marked subtree, and a
/// marked overflow page the rest of its chain.
pub open spec fn closed_set(s: Set<PageId>, pages: Pages, ps: u32) -> bool {
    &&& keeps_chains(s, pages, ps)
    &&& forall|t: Tree|
        #![trigger sane(t, pages, ps)]
        sane(t, pages, ps) && s.contains(t.root()) ==> tree_in(s, t)
}

/// A page that is neither a node nor part of a chain can join any closed
/// set.
pub proof fn lemma_closed_insert(s: Set<PageId>, pages: Pages, ps: u32, x: PageId)
    requires
        closed_set(s, pages, ps),
        pages.contains_key(x),
        pages[x].len() >= PAGE_HEADER_LEN,
        crate::node::node_of(pages[x]) is None,
        part_of(pages[x]) is None,
    ensures
        closed_set(s.insert(x), pages, ps),
{
    let n = s.insert(x);
    assert forall|p: Seq<(PageId, Seq<u8>)>, i: int|
        #![trigger Stored::Chain(p).holds(pages, ps), n.contains(p[i].0)]
        Stored::Chain(p).ok(ps) && Stored::Chain(p).holds(pages, ps) && 0 <= i < p.len() && n.contains(
            p[i].0,
        ) implies chain_in(n, p, i) by {
        assert(part_of(pages[p[i].0]) == Some((link(p, i), p[i].1)));
        assert(s.contains(p[i].0));
        assert(chain_in(s, p, i));
    }
    assert forall|t: Tree|
        #![trigger sane(t, pages, ps)]
        sane(t, pages, ps) && n.contains(t.root()) implies tree_in(n, t) by {
        assert(s.contains(t.root()));
        assert(tree_in(s, t));
    }
}

pub proof fn lemma_closed_empty(pages: Pages, ps: u32)
    ensures
        closed_set(Set::empty(), pages, ps),
{
}

/// A chain that meets a tree's pages goes on in them.
proof fn lemma_chain_inside(
    t: Tree,
    pages: Pages,
    ps: u32,
    lo: Option<Seq<u8>>,
    hi: Option<Seq<u8>>,
    p: Seq<(PageId, Seq<u8>)>,
    i: int,
    j: int,
)
    requires
        t.holds(pages, ps),
        t.ok(ps, lo, hi),
        Stored::Chain(p).ok(ps),
        Stored::Chain(p).holds(pages, ps),
        0 <= i <= j < p.len(),
        t.has(p[i].0),
    ensures
        t.has(p[j].0),
    decreases t,
{
    assert(part_of(pages[p[i].0]) == Some((link(p, i), p[i].1)));
    match t {
        Tree::Leaf(id, e) => {
            assert(p[i].0 != id);
            let n = choose|n: int| 0 <= n < e.len() && (#[trigger] e[n]).1.has(p[i].0);
            match e[n].1 {
                Stored::Inline(v) => {},
                Stored::Chain(q) => {
                    assert(e[n].1.holds(pages, ps));
                    let m = choose|m: int| 0 <= m < q.len() && (#[trigger] q[m]).0 == p[i].0;
                    lemma_chain_same(p, q, pages, ps, i, m, j);
                    assert(e[n].1.has(p[j].0));
                    lemma_leaf_has(id, e, n, p[j].0);
                },
            }
        },
        Tree::Branch(id, seps, kids) => {
            assert(p[i].0 != id);
            let n = choose|n: int| 0 <= n < kids.len() && (#[trigger] kids[n]).has(p[i].0);
            assert(kids[n].ok(ps, kid_lo(seps, lo, n), kid_hi(seps, hi, n)));
            assert(kids[n].holds(pages, ps));
            lemma_chain_inside(
                kids[n],
                pages,
                ps,
                kid_lo(seps, lo, n),
                kid_hi(seps, hi, n),
                p,
                i,
                j,
            );
            lemma_branch_has(id, seps, kids, n, p[j].0);
        },
    }
}

/// Two chains that meet are the same from there on.
proof fn lemma_chain_same(
    p: Seq<(PageId, Seq<u8>)>,
    q: Seq<(PageId, Seq<u8>)>,
    pages: Pages,
    ps: u32,
    i: int,
    m: int,
    j: int,
)
    requires
        Stored::Chain(p).ok(ps),
        Stored::Chain(p).holds(pages, ps),
        Stored::Chain(q).ok(ps),
        Stored::Chain(q).holds(pages, ps),
        0 <= i <= j < p.len(),
        0 <= m < q.len(),
        p[i].0 == q[m].0,
    ensures
        exists|n: int| 0 <= n < q.len() && (#[trigger] q[n]).0 == p[j].0,
    decreases j - i,
{
    if i < j {
        assert(part_of(pages[p[i].0]) == Some((link(p, i), p[i].1)));
        assert(part_of(pages[q[m].0]) == Some((link(q, m), q[m].1)));
        assert(link(p, i) == p[i + 1].0);
        assert(p[i + 1].0 >= 2);
        assert(m + 1 < q.len());
        assert(q[m + 1].0 == p[i + 1].0);
        lemma_chain_same(p, q, pages, ps, i + 1, m + 1, j);
    }
}

/// A tree whose root is one of another's pages is part of it.
proof fn lemma_tree_inside(
    t: Tree,
    pages: Pages,
    ps: u32,
    lo: Option<Seq<u8>>,
    hi: Option<Seq<u8>>,
    u: Tree,
    ulo: Option<Seq<u8>>,
    uhi: Option<Seq<u8>>,
)
    requires
        t.holds(pages, ps),
        t.ok(ps, lo, hi),
        u.holds(pages, ps),
        u.ok(ps, ulo, uhi),
        t.has(u.root()),
    ensures
        forall|x: PageId| #[trigger] u.has(x) ==> t.has(x),
    decreases t,
{
    if t.root() == u.root() {
        lemma_tree_unique(t, u, pages, ps, lo, hi, ulo, uhi);
    } else {
        match t {
            Tree::Leaf(id, e) => {
                let n = choose|n: int| 0 <= n < e.len() && (#[trigger] e[n]).1.has(u.root());
                match e[n].1 {
                    Stored::Inline(v) => {},
                    Stored::Chain(q) => {
                        assert(e[n].1.holds(pages, ps));
                        let m = choose|m: int| 0 <= m < q.len() && (#[trigger] q[m]).0 == u.root();
                        assert(part_of(pages[q[m].0]) is Some);
                    },
                }
            },
            Tree::Branch(id, seps, kids) => {
                let n = choose|n: int| 0 <= n < kids.len() && (#[trigger] kids[n]).has(u.root());
                assert(kids[n].ok(ps, kid_lo(seps, lo, n), kid_hi(seps, hi, n)));
                assert(kids[n].holds(pages, ps));
                lemma_tree_inside(
                    kids[n],
                    pages,
                    ps,
                    kid_lo(seps, lo, n),
                    kid_hi(seps, hi, n),
                    u,
                    ulo,
                    uhi,
                );
                assert forall|x: PageId| #[trigger] u.has(x) implies t.has(x) by {
                    lemma_branch_has(id, seps, kids, n, x);
                }
            },
        }
    }
}

/// A closed set and a tree together are closed.
pub proof fn lemma_closed_union(s: Set<PageId>, n: Set<PageId>, pages: Pages, ps: u32, t: Tree)
    requires
        closed_set(s, pages, ps),
        t.holds(pages, ps),
        t.ok(ps, None, None),
        forall|x: PageId| #[trigger] n.contains(x) == (s.contains(x) || t.has(x)),
    ensures
        closed_set(n, pages, ps),
{
    assert forall|p: Seq<(PageId, Seq<u8>)>, i: int|
        #![trigger Stored::Chain(p).holds(pages, ps), n.contains(p[i].0)]
        Stored::Chain(p).ok(ps) && Stored::Chain(p).holds(pages, ps) && 0 <= i < p.len() && n.contains(
            p[i].0,
        ) implies chain_in(n, p, i) by {
        if s.contains(p[i].0) {
            assert(chain_in(s, p, i));
        } else {
            assert forall|j: int| i <= j < p.len() implies n.contains((#[trigger] p[j]).0) by {
                lemma_chain_inside(t, pages, ps, None, None, p, i, j);
            }
        }
    }
    assert forall|u: Tree|
        #![trigger sane(u, pages, ps)]
        sane(u, pages, ps) && n.contains(u.root()) implies tree_in(n, u) by {
        if s.contains(u.root()) {
            assert(tree_in(s, u));
        } else {
            let (ulo, uhi) = choose|lo: Option<Seq<u8>>, hi: Option<Seq<u8>>| #[trigger]
                u.ok(ps, lo, hi);
            lemma_tree_inside(t, pages, ps, None, None, u, ulo, uhi);
        }
    }
}

/// Mark the pages of one overflow chain.
fn collect_overflow<P: ReadPages>(
    src: &P,
    head: PageId,
    len: u64,
    out: &mut HashSet<PageId>,
    Ghost(base): Ghost<Set<PageId>>,
    Ghost(st): Ghost<Stored>,
) -> (r: Result<()>)
    requires
        src.wf(),
    ensures
        old(out)@.subset_of(final(out)@),
        keeps_chains(base, src.pages(), src.size()) && base.subset_of(old(out)@) && st.vref()
            == (VRef::Overflow { head, len }) && st.ok(src.size()) && st.holds(src.pages(), src.size())
            && (forall|x: PageId| #[trigger] st.has(x) && old(out)@.contains(x) ==> base.contains(x))
            ==> match r {
            Ok(_) => forall|x: PageId| #[trigger]
                final(out)@.contains(x) == (old(out)@.contains(x) || st.has(x)),
            Err(_) => !src.reliable(),
        },
{
    let ps: u32 = src.page_size();
    let ghost pages = src.pages();
    let ghost begin = out@;
    let ghost good = keeps_chains(base, pages, ps) && base.subset_of(begin) && st.vref()
        == (VRef::Overflow { head, len }) && st.ok(ps) && st.holds(pages, ps) && (forall|x: PageId|
        #[trigger] st.has(x) && begin.contains(x) ==> base.contains(x));
    let ghost p: Seq<(PageId, Seq<u8>)> = match st {
        Stored::Inline(v) => Seq::empty(),
        Stored::Chain(p) => p,
    };
    let chunk: usize = overflow_capacity(ps);
    let most: u64 = max_chain(len, chunk as u64);
    let mut page: PageId = head;
    let mut i: u64 = 0;
    let mut met: bool = false;
    while i < most && page != NIL_PAGE && !met
        invariant
            src.wf(),
            ps == src.size(),
            pages == src.pages(),
            page_size_ok(ps),
            begin == old(out)@,
            begin.subset_of(out@),
            i <= most,
            good == (keeps_chains(base, pages, ps) && base.subset_of(begin) && st.vref()
                == (VRef::Overflow { head, len }) && st.ok(ps) && st.holds(pages, ps) && (forall|
                x: PageId,
            | #[trigger]
                st.has(x) && begin.contains(x) ==> base.contains(x))),
            good ==> {
                &&& st == Stored::Chain(p)
                &&& p.len() <= most
                &&& i <= p.len()
                &&& !met ==> page == (if i < p.len() {
                    p[i as int].0
                } else {
                    NIL_PAGE
                })
                &&& met ==> i < p.len() && base.contains(p[i as int].0)
                &&& forall|x: PageId| #[trigger]
                    out@.contains(x) == (begin.contains(x) || in_first(p, i as int, x))
            },
        decreases most - i, (if met {
            0int
        } else {
            1int
        }),
    {
        let ghost before = out@;
        if !out.insert(page) {
            met = true;
            proof {
                if good {
                    assert(before.contains(p[i as int].0));
                    if !begin.contains(p[i as int].0) {
                        assert(in_first(p, i as int, p[i as int].0));
                        let j = choose|j: int| 0 <= j < i && (#[trigger] p[j]).0 == p[i as int].0;
                        assert(p[j].0 != p[i as int].0);
                    }
                    assert(st.has(p[i as int].0));
                }
                assert(out@ =~= before);
            }
        } else {
            let buf = match src.read(page) {
                Ok(b) => b,
                Err(e) => {
                    proof {
                        if good {
                            assert(pages.contains_key(p[i as int].0));
                        }
                    }
                    return Err(e);
                },
            };
            proof {
                if good {
                    assert(part_of(pages[p[i as int].0]) == Some((link(p, i as int), p[i as int].1)));
                }
            }
            if !has_type(buf.as_slice(), PageType::Overflow) {
                return Err(Error::corrupted(Some(page), "overflow chain hit a non-overflow page"));
            }
            proof {
                if good {
                    assert forall|x: PageId| #[trigger]
                        out@.contains(x) == (begin.contains(x) || in_first(p, i + 1, x)) by {
                        if in_first(p, i + 1, x) {
                            let j = choose|j: int| 0 <= j < i + 1 && (#[trigger] p[j]).0 == x;
                            if j < i {
                                assert(in_first(p, i as int, x));
                            }
                        }
                        if in_first(p, i as int, x) {
                            assert(in_first(p, i + 1, x));
                        }
                        if x == page {
                            assert(p[i as int].0 == x);
                        }
                    }
                }
            }
            page = get_u64(buf.as_slice(), PAGE_HEADER_LEN);
            i = i + 1;
        }
    }
    proof {
        if good {
            assert forall|x: PageId| #[trigger] out@.contains(x) == (begin.contains(x) || st.has(x)) by {
                if in_first(p, i as int, x) {
                    assert(st.has(x));
                }
                if st.has(x) {
                    let j = choose|j: int| 0 <= j < p.len() && (#[trigger] p[j]).0 == x;
                    if j < i {
                        assert(in_first(p, i as int, x));
                    } else {
                        assert(met);
                        assert(chain_in(base, p, i as int));
                        assert(base.contains(p[j].0));
                    }
                }
            }
        }
    }
    Ok(())
}

/// Whether `x` is one of the first `n` pages of a chain.
pub open spec fn in_first(p: Seq<(PageId, Seq<u8>)>, n: int, x: PageId) -> bool {
    exists|j: int| 0 <= j < n && (#[trigger] p[j]).0 == x
}

/// Whether `x` is a page of one of the trees.
pub open spec fn in_some(ts: Seq<Tree>, x: PageId) -> bool {
    exists|i: int| 0 <= i < ts.len() && (#[trigger] ts[i]).has(x)
}

/// Whether `x` is a page of one of the first `n` values.
pub open spec fn in_values(e: Seq<Entry>, n: int, x: PageId) -> bool {
    exists|i: int| 0 <= i < n && (#[trigger] e[i]).1.has(x)
}

/// Mark the overflow pages of a leaf.
fn collect_values<P: ReadPages>(
    src: &P,
    entries: &Vec<(Vec<u8>, ValueRef)>,
    out: &mut HashSet<PageId>,
    Ghost(base): Ghost<Set<PageId>>,
    Ghost(id): Ghost<PageId>,
    Ghost(e): Ghost<Seq<Entry>>,
) -> (r: Result<()>)
    requires
        src.wf(),
    ensures
        old(out)@.subset_of(final(out)@),
        keeps_chains(base, src.pages(), src.size()) && base.subset_of(old(out)@) && leaf_view(entries@)
            == entry_cells(e) && sane(Tree::Leaf(id, e), src.pages(), src.size()) && (forall|x: PageId|
            #[trigger] in_values(e, e.len() as int, x) && old(out)@.contains(x) ==> base.contains(x))
            ==> match r {
            Ok(_) => forall|x: PageId| #[trigger]
                final(out)@.contains(x) == (old(out)@.contains(x) || in_values(e, e.len() as int, x)),
            Err(_) => !src.reliable(),
        },
{
    let ghost ps = src.size();
    let ghost pages = src.pages();
    let ghost begin = out@;
    let ghost good = keeps_chains(base, pages, ps) && base.subset_of(begin) && leaf_view(entries@)
        == entry_cells(e) && sane(Tree::Leaf(id, e), pages, ps) && (forall|x: PageId| #[trigger]
        in_values(e, e.len() as int, x) && begin.contains(x) ==> base.contains(x));
    let mut i: usize = 0;
    proof {
        if good {
            assert(leaf_view(entries@).len() == entry_cells(e).len());
        }
    }
    while i < entries.len()
        invariant
            src.wf(),
            ps == src.size(),
            pages == src.pages(),
            begin == old(out)@,
            begin.subset_of(out@),
            i <= entries@.len(),
            good == (keeps_chains(base, pages, ps) && base.subset_of(begin) && leaf_view(entries@)
                == entry_cells(e) && sane(Tree::Leaf(id, e), pages, ps) && (forall|x: PageId| #[trigger]
                in_values(e, e.len() as int, x) && begin.contains(x) ==> base.contains(x))),
            good ==> {
                &&& e.len() == entries@.len()
                &&& forall|x: PageId| #[trigger]
                    out@.contains(x) == (begin.contains(x) || in_values(e, i as int, x))
            },
        decreases entries@.len() - i,
    {
        let ghost st = e[i as int].1;
        let ghost before = out@;
        proof {
            if good {
                let (lo, hi) = choose|lo: Option<Seq<u8>>, hi: Option<Seq<u8>>| #[trigger]
                    Tree::Leaf(id, e).ok(ps, lo, hi);
                assert(crate::tree::entries_ok(id, e, ps, lo, hi));
                assert(st.ok(ps) && st.holds(pages, ps));
                assert(leaf_view(entries@)[i as int] == entry_cells(e)[i as int]);
                assert forall|x: PageId| #[trigger] st.has(x) && before.contains(x) implies base.contains(
                    x,
                ) by {
                    assert(in_values(e, e.len() as int, x));
                    if !begin.contains(x) {
                        assert(in_values(e, i as int, x));
                        let j = choose|j: int| 0 <= j < i && (#[trigger] e[j]).1.has(x);
                        assert(crate::tree::values_disjoint(e[j].1, e[i as int].1));
                    }
                }
            }
        }
        if let ValueRef::Overflow { head, len } = &entries[i].1 {
            if let Err(x) = collect_overflow(src, *head, *len, out, Ghost(base), Ghost(st)) {
                return Err(x);
            }
        }
        proof {
            if good {
                assert forall|x: PageId| #[trigger]
                    out@.contains(x) == (begin.contains(x) || in_values(e, i + 1, x)) by {
                    assert(before.contains(x) == (begin.contains(x) || in_values(e, i as int, x)));
                    if in_values(e, i + 1, x) {
                        let j = choose|j: int| 0 <= j < i + 1 && (#[trigger] e[j]).1.has(x);
                        if j < i {
                            assert(in_values(e, i as int, x));
                        }
                    }
                    if in_values(e, i as int, x) {
                        assert(in_values(e, i + 1, x));
                    }
                    if st.has(x) {
                        assert(e[i as int].1.has(x));
                    }
                }
            }
        }
        i = i + 1;
    }
    Ok(())
}

/// Everything that holds of the walk while pages are still on the stack.
pub open spec fn walking(
    base: Set<PageId>,
    s: Set<PageId>,
    t: Tree,
    pend: Seq<Tree>,
    pages: Pages,
    ps: u32,
) -> bool {
    &&& forall|i: int| 0 <= i < pend.len() ==> sane(#[trigger] pend[i], pages, ps)
    &&& forall|i: int, j: int|
        0 <= i < j < pend.len() ==> disjoint(#[trigger] pend[i], #[trigger] pend[j])
    &&& forall|x: PageId| #[trigger]
        in_some(pend, x) ==> t.has(x) && (s.contains(x) ==> base.contains(x))
    &&& base.subset_of(s)
    &&& forall|x: PageId| #[trigger] s.contains(x) ==> base.contains(x) || t.has(x)
    &&& forall|x: PageId| #[trigger] t.has(x) ==> s.contains(x) || in_some(pend, x)
}

/// One tree done: its pages are in the set.
proof fn lemma_walk_done(
    base: Set<PageId>,
    s: Set<PageId>,
    n: Set<PageId>,
    t: Tree,
    pend: Seq<Tree>,
    pages: Pages,
    ps: u32,
)
    requires
        pend.len() > 0,
        walking(base, s, t, pend, pages, ps),
        forall|x: PageId| #[trigger] n.contains(x) == (s.contains(x) || pend.last().has(x)),
    ensures
        walking(base, n, t, pend.drop_last(), pages, ps),
{
    let u = pend.last();
    let m = pend.len() - 1;
    let rest = pend.drop_last();
    assert forall|x: PageId| #[trigger] in_some(rest, x) implies t.has(x) && (n.contains(x)
        ==> base.contains(x)) by {
        let i = choose|i: int| 0 <= i < rest.len() && (#[trigger] rest[i]).has(x);
        assert(pend[i] == rest[i]);
        assert(in_some(pend, x));
        assert(disjoint(pend[i], pend[m]));
    }
    assert forall|x: PageId| #[trigger] n.contains(x) implies base.contains(x) || t.has(x) by {
        if !s.contains(x) {
            assert(pend[m].has(x));
            assert(in_some(pend, x));
        }
    }
    assert forall|x: PageId| #[trigger] t.has(x) implies n.contains(x) || in_some(rest, x) by {
        if !s.contains(x) {
            assert(in_some(pend, x));
            let i = choose|i: int| 0 <= i < pend.len() && (#[trigger] pend[i]).has(x);
            if i < m {
                assert(rest[i] == pend[i]);
            }
        }
    }
    assert forall|i: int| 0 <= i < rest.len() implies sane(#[trigger] rest[i], pages, ps) by {
        assert(rest[i] == pend[i]);
    }
    assert forall|i: int, j: int| 0 <= i < j < rest.len() implies disjoint(
        #[trigger] rest[i],
        #[trigger] rest[j],
    ) by {
        assert(disjoint(pend[i], pend[j]));
    }
}

/// A branch marked and replaced by its children.
#[verifier::rlimit(40)]
proof fn lemma_walk_branch(
    base: Set<PageId>,
    s: Set<PageId>,
    t: Tree,
    pend: Seq<Tree>,
    pages: Pages,
    ps: u32,
    id: PageId,
    seps: Seq<Seq<u8>>,
    kids: Seq<Tree>,
)
    requires
        pend.len() > 0,
        pend.last() == Tree::Branch(id, seps, kids),
        walking(base, s, t, pend, pages, ps),
    ensures
        walking(base, s.insert(id), t, pend.drop_last() + kids, pages, ps),
{
    let u = pend.last();
    let m = pend.len() - 1;
    let n = s.insert(id);
    let rest = pend.drop_last() + kids;
    assert(sane(pend[m], pages, ps));
    let (lo, hi) = choose|lo: Option<Seq<u8>>, hi: Option<Seq<u8>>| #[trigger] u.ok(ps, lo, hi);
    assert(u.has(id));
    assert(pend[m].has(id));
    assert(in_some(pend, id));
    assert forall|i: int| 0 <= i < rest.len() implies sane(#[trigger] rest[i], pages, ps) by {
        if i < m {
            assert(rest[i] == pend[i]);
        } else {
            let k = i - m;
            assert(rest[i] == kids[k]);
            assert(kids[k].ok(ps, kid_lo(seps, lo, k), kid_hi(seps, hi, k)));
            assert(kids[k].holds(pages, ps));
        }
    }
    assert forall|i: int, j: int| 0 <= i < j < rest.len() implies disjoint(
        #[trigger] rest[i],
        #[trigger] rest[j],
    ) by {
        if j < m {
            assert(disjoint(pend[i], pend[j]));
        } else if i >= m {
            assert(disjoint(kids[i - m], kids[j - m]));
        } else {
            let k = j - m;
            assert(rest[i] == pend[i] && rest[j] == kids[k]);
            assert forall|x: PageId| !(#[trigger] rest[i].has(x) && #[trigger] rest[j].has(x)) by {
                if kids[k].has(x) {
                    lemma_branch_has(id, seps, kids, k, x);
                    assert(disjoint(pend[i], pend[m]));
                }
            }
        }
    }
    assert forall|x: PageId| #[trigger] in_some(rest, x) implies t.has(x) && (n.contains(x)
        ==> base.contains(x)) by {
        let i = choose|i: int| 0 <= i < rest.len() && (#[trigger] rest[i]).has(x);
        if i < m {
            assert(pend[i] == rest[i]);
            assert(disjoint(pend[i], pend[m]));
        } else {
            let k = i - m;
            assert(rest[i] == kids[k]);
            assert(!kids[k].has(id));
            lemma_branch_has(id, seps, kids, k, x);
            assert(pend[m].has(x));
        }
        assert(in_some(pend, x));
        assert(x != id);
    }
    assert forall|x: PageId| #[trigger] t.has(x) implies n.contains(x) || in_some(rest, x) by {
        if !s.contains(x) {
            assert(in_some(pend, x));
            let i = choose|i: int| 0 <= i < pend.len() && (#[trigger] pend[i]).has(x);
            if i < m {
                assert(rest[i] == pend[i]);
            } else if x != id {
                let k = choose|k: int| 0 <= k < kids.len() && (#[trigger] kids[k]).has(x);
                assert(rest[m + k] == kids[k]);
            }
        }
    }
}

/// Add every page a tree uses to `out`: node pages plus overflow chain
/// pages. Skipping already-present pages is not just a cycle guard, it
/// makes marking shared structure between commits cheap, because an
/// already-marked node implies an already-marked subtree.
#[verifier::rlimit(60)]
pub fn collect_pages<P: ReadPages>(src: &P, root: PageId, out: &mut HashSet<PageId>) -> (r: Result<()>)
    requires
        src.wf(),
    ensures
        old(out)@.subset_of(final(out)@),
        root == NIL_PAGE ==> r is Ok && final(out)@ == old(out)@,
        closed_set(old(out)@, src.pages(), src.size()) ==> forall|t: Tree| #[trigger]
            tree_at(src.pages(), src.size(), root, t) ==> match r {
                Ok(_) => {
                    &&& forall|x: PageId| #[trigger]
                        final(out)@.contains(x) == (old(out)@.contains(x) || t.has(x))
                    &&& closed_set(final(out)@, src.pages(), src.size())
                },
                Err(_) => !src.reliable(),
            },
{
    if root == NIL_PAGE {
        proof {
            assert forall|t: Tree| #[trigger]
                tree_at(src.pages(), src.size(), root, t) implies false by {
                assert(t.root() >= 2);
            }
        }
        return Ok(());
    }
    let bound: u64 = src.page_bound();
    let size: u32 = src.page_size();
    let ghost pages = src.pages();
    let ghost ps = src.size();
    let ghost ot = some_tree(pages, ps, root);
    let ghost t = ot->0;
    let ghost base = out@;
    let ghost good = ot is Some && closed_set(base, pages, ps);
    let mut stack: Vec<PageId> = Vec::new();
    stack.push(root);
    let ghost mut pend: Seq<Tree> = seq![t];
    proof {
        assert forall|u: Tree| #[trigger] tree_at(pages, ps, root, u) implies ot == Some(u) by {
            lemma_some_tree(pages, ps, root, u);
        }
        if good {
            assert(tree_at(pages, ps, root, t));
            assert(t.ok(ps, None, None));
            assert(sane(t, pages, ps));
            assert(pend[0] == t);
            assert(forall|x: PageId| #[trigger] in_some(pend, x) ==> t.has(x));
            assert forall|x: PageId| #[trigger] t.has(x) implies in_some(pend, x) by {
                assert(pend[0].has(x));
            }
        }
    }
    while stack.len() > 0
        invariant
            root != NIL_PAGE,
            src.wf(),
            pages == src.pages(),
            ps == src.size(),
            size == ps,
            page_size_ok(ps),
            base == old(out)@,
            base.subset_of(out@),
            forall|id: PageId| #[trigger] pages.contains_key(id) ==> 2 <= id < bound,
            good == (ot is Some && closed_set(base, pages, ps)),
            t == ot->0,
            forall|u: Tree| #[trigger] tree_at(pages, ps, root, u) ==> ot == Some(u),
            good ==> {
                &&& pend.len() == stack@.len()
                &&& forall|i: int| 0 <= i < pend.len() ==> (#[trigger] pend[i]).root() == stack@[i]
                &&& walking(base, out@, t, pend, pages, ps)
            },
        decreases below(bound as nat).difference(out@).len(), stack@.len(),
    {
        let ghost stack0 = stack@;
        let ghost s0 = out@;
        let ghost pend0 = pend;
        let ghost m = stack0.len() - 1;
        let ghost u = pend.last();
        let page: PageId = match stack.pop() {
            Some(p) => p,
            None => NIL_PAGE,
        };
        proof {
            lemma_below(bound as nat);
            if good {
                assert(pend[m].root() == stack0[m]);
                assert(sane(pend[m], pages, ps));
            }
        }
        if !out.insert(page) {
            proof {
                assert(out@ =~= s0);
                if good {
                    assert(u.has(page));
                    assert(in_some(pend0, page)) by {
                        assert(pend0[m].has(page));
                    }
                    assert(base.contains(page));
                    assert(tree_in(base, u));
                    assert forall|x: PageId| #[trigger] out@.contains(x) == (s0.contains(x) || u.has(x)) by {}
                    lemma_walk_done(base, s0, out@, t, pend0, pages, ps);
                    pend = pend0.drop_last();
                }
            }
            continue;
        }
        let ghost s1 = out@;
        let buf = match src.read(page) {
            Ok(b) => b,
            Err(e) => {
                return Err(e);
            },
        };
        proof {
            let d0 = below(bound as nat).difference(s0);
            let d1 = below(bound as nat).difference(s1);
            assert(d1 =~= d0.remove(page));
            assert(d0.contains(page));
            assert(d0.finite()) by {
                vstd::set_lib::lemma_len_subset(d0, below(bound as nat));
            }
            assert(d1.len() < d0.len());
        }
        let node = match Node::decode(buf.as_slice(), page) {
            Ok(n) => n,
            Err(e) => {
                return Err(e);
            },
        };
        match node {
            Node::Leaf { entries } => {
                let ghost e: Seq<Entry> = match u {
                    Tree::Leaf(id, e) => e,
                    Tree::Branch(id, s, k) => Seq::empty(),
                };
                proof {
                    if good {
                        assert(u == Tree::Leaf(page, e));
                        assert(keeps_chains(base, pages, ps));
                        assert forall|x: PageId| #[trigger]
                            in_values(e, e.len() as int, x) && s1.contains(x) implies base.contains(x) by {
                            let i = choose|i: int| 0 <= i < e.len() && (#[trigger] e[i]).1.has(x);
                            lemma_leaf_has(page, e, i, x);
                            assert(pend0[m].has(x));
                            assert(in_some(pend0, x));
                            let (lo, hi) = choose|lo: Option<Seq<u8>>, hi: Option<Seq<u8>>| #[trigger]
                                u.ok(ps, lo, hi);
                            assert(crate::tree::entries_ok(page, e, ps, lo, hi));
                            assert(!e[i].1.has(page));
                        }
                    }
                }
                if let Err(x) = collect_values(src, &entries, out, Ghost(base), Ghost(page), Ghost(e)) {
                    return Err(x);
                }
                proof {
                    let d1 = below(bound as nat).difference(s1);
                    let d2 = below(bound as nat).difference(out@);
                    vstd::set_lib::lemma_len_subset(d1, below(bound as nat));
                    vstd::set_lib::lemma_len_subset(d2, d1);
                    if good {
                        assert forall|x: PageId| #[trigger]
                            out@.contains(x) == (s0.contains(x) || u.has(x)) by {
                            assert(s1.contains(x) == (s0.contains(x) || x == page));
                            if in_values(e, e.len() as int, x) {
                                let i = choose|i: int| 0 <= i < e.len() && (#[trigger] e[i]).1.has(x);
                                lemma_leaf_has(page, e, i, x);
                            }
                            if u.has(x) && x != page {
                                assert(in_values(e, e.len() as int, x));
                            }
                        }
                        lemma_walk_done(base, s0, out@, t, pend0, pages, ps);
                        pend = pend0.drop_last();
                    }
                }
            },
            Node::Branch { first_child, entries } => {
                let ghost v = entries@;
                let ghost rest = stack@;
                stack.push(first_child);
                let mut i: usize = 0;
                while i < entries.len()
                    invariant
                        v == entries@,
                        i <= v.len(),
                        stack@.len() == rest.len() + 1 + i,
                        forall|j: int| 0 <= j < rest.len() ==> #[trigger] stack@[j] == rest[j],
                        stack@[rest.len() as int] == first_child,
                        forall|j: int|
                            0 <= j < i ==> #[trigger] stack@[rest.len() + 1 + j] == v[j].1,
                    decreases v.len() - i,
                {
                    stack.push(entries[i].1);
                    i = i + 1;
                }
                proof {
                    if good {
                        match u {
                            Tree::Leaf(id, e) => {},
                            Tree::Branch(id, seps, kids) => {
                                lemma_walk_branch(base, s0, t, pend0, pages, ps, id, seps, kids);
                                assert(branch_view(v) == kid_cells(seps, kids));
                                assert(branch_view(v).len() == v.len());
                                let (lo, hi) = choose|lo: Option<Seq<u8>>, hi: Option<Seq<u8>>| #[trigger]
                                    u.ok(ps, lo, hi);
                                pend = pend0.drop_last() + kids;
                                assert(s1 =~= s0.insert(id));
                                assert forall|j: int| 0 <= j < pend.len() implies (#[trigger] pend[j]).root()
                                    == stack@[j] by {
                                    if j < m {
                                        assert(pend[j] == pend0[j]);
                                        assert(stack@[j] == rest[j]);
                                    } else if j > m {
                                        let k = j - m;
                                        assert(pend[j] == kids[k]);
                                        assert(kid_cells(seps, kids)[k - 1].1 == kids[k].root());
                                        assert(branch_view(v)[k - 1].1 == v[k - 1].1);
                                        assert(stack@[rest.len() + 1 + (k - 1)] == v[k - 1].1);
                                    } else {
                                        assert(pend[j] == kids[0]);
                                    }
                                }
                            },
                        }
                    }
                }
            },
        }
    }
    proof {
        if good {
            assert forall|x: PageId| #[trigger] out@.contains(x) == (base.contains(x) || t.has(x)) by {
                assert(!in_some(pend, x));
            }
            lemma_closed_union(base, out@, pages, ps, t);
        }
    }
    Ok(())
}

} // verus!
